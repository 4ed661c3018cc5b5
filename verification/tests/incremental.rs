use oarray::genetic_operators::Probability;
use oarray::incremental_ga::IncGAOArray;
use oarray::epoch::Unit;
use oarray::score::Score;
use oarray::{FitnessFunction, OArray};
use rand::{thread_rng, Rng};
use std::f64;

fn root_sum(qs: &[u128]) -> f64 {
    let total: f64 = qs.iter().map(|&q| (q as f64).powf(1.0 / 2.0)).sum();
    -total
}

fn as_float(score: Option<Score>) -> f64 {
    match score.unwrap() {
        Score::RootSum(qs) => root_sum(&qs),
        Score::Whole(x) => -(x as f64),
    }
}

fn whole(x: Option<u64>) -> f64 {
    -(x.unwrap() as f64)
}

#[test]
fn test_incremental() {
    let mut r = thread_rng();
    for _ in 0..10000 {
        let partial = OArray::generate_partial(16, 4, FitnessFunction::Walsh(2));
        let mut last: Vec<bool> = [true, false]
            .iter()
            .cloned()
            .cycle()
            .take(partial.ngrande)
            .collect();
        r.shuffle(&mut last);
        let mut oa = partial.clone();
        oa.d.append(&mut last.clone());
        oa.k += 1;
        let fitw = as_float(oa.fitness());
        oa.fitness_f = FitnessFunction::WalshFaster(2);
        let fitwfa = as_float(oa.fitness());

        let fitwfu = whole(partial.walsh_incremental(2, &last));
        let fitwfufa = whole(partial.walsh_incremental_faster(2, &last));
        let error = f64::EPSILON;
        assert!(
            (fitw - fitwfa).abs() < error
                && (fitwfa - fitwfu).abs() < error
                && (fitwfu - fitwfufa).abs() < error,
            "{}, {}, {}, {}",
            fitw,
            fitwfa,
            fitwfu,
            fitwfufa
        );
    }
}

#[test]
fn test_delta_incremental() {
    let mut r = thread_rng();
    for _ in 0..10000 {
        let partial = OArray::generate_partial(16, 4, FitnessFunction::DeltaFast);
        let mut last: Vec<bool> = [true, true, false]
            .iter()
            .cloned()
            .cycle()
            .take(partial.ngrande)
            .collect();
        r.shuffle(&mut last);
        let mut oa = partial.clone();
        oa.d.append(&mut last.clone());
        oa.k += 1;
        let fit_delta = as_float(oa.fitness());

        let fit_delta_partial = root_sum(&oa.delta_incremental_faster());
        let error = f64::EPSILON;
        assert!(
            (fit_delta - fit_delta_partial).abs() < error,
            "{}, {}",
            fit_delta,
            fit_delta_partial,
        );
    }
}

#[test]
fn the_full_design() {
    let partial = OArray::generate_partial(8, 2, FitnessFunction::DeltaFast);
    assert_eq!(partial.k, 2);
    assert_eq!(partial.ngrande, 8);
    assert_eq!(partial.lambda, 2);
    assert_eq!(
        partial.iter_cols(),
        vec![
            vec![false, true, false, true, false, true, false, true],
            vec![false, false, true, true, false, false, true, true],
        ]
    );
    assert!(partial.fitness().unwrap().is_perfect());
    for t in 0..5u32 {
        for f in [FitnessFunction::Delta, FitnessFunction::Walsh(2), FitnessFunction::Cidev] {
            let design = OArray::generate_partial(32, t, f);
            assert!(design.is_valid());
            if design.is_scorable() {
                assert!(design.fitness().unwrap().is_perfect());
            }
        }
    }
}

#[test]
fn the_increment_is_the_whole_defect_over_a_perfect_array() {
    let partial = OArray::generate_partial(8, 2, FitnessFunction::Walsh(2));
    let last = vec![false, false, true, true, false, false, true, true];
    let unit = IncGAOArray {
        partial: &partial,
        last_col: last.clone(),
        mutation_prob: Probability::new(1, 5),
        target_k: 3,
    };
    let complete = unit.complete_oa();
    assert_eq!(complete.k, 3);
    assert_eq!(&complete.d[16..], &last[..]);
    assert_eq!(&complete.d[..16], &partial.d[..]);
    // The candidate repeats column 1. Signed sums: alone 0; with column
    // 0: 0; with column 1: 8.
    assert_eq!(partial.walsh_incremental(2, &last), Some(64));
    assert_eq!(partial.walsh_incremental_faster(2, &last), Some(64));
    assert_eq!(partial.walsh_incremental(3, &last), Some(512));
    assert_eq!(complete.walsh_fitness(2), Some(64));
    assert_eq!(unit.score(), Some(Score::Whole(64)));
    assert_eq!(unit.fitness(), -64);
    // The subsets of two columns that hold the last: (0, 2) and (1, 2).
    // In the second, two patterns occur four times and two never.
    assert_eq!(complete.delta_incremental_faster(), vec![0u128, 16]);
    assert_eq!(complete.delta_fitness(), vec![0u128, 0, 16]);
}

#[test]
fn at_strength_one_the_delta_increment_is_the_new_column() {
    let partial = OArray::generate_partial(4, 1, FitnessFunction::DeltaFast);
    let mut oa = partial.clone();
    oa.d.append(&mut vec![true, true, true, false]);
    oa.k += 1;
    assert_eq!(oa.delta_incremental_faster(), vec![2u128]);
    assert_eq!(oa.delta_fitness(), vec![0u128, 2]);
    // Two rows, a balanced first column and a constant second one.
    let two = OArray::new(2, 2, 1, vec![false, true, false, false], FitnessFunction::DeltaFast);
    assert_eq!(two.delta_incremental_faster(), vec![2u128]);
    let whole = as_float(two.fitness());
    assert!((whole - -(2f64).sqrt()).abs() < f64::EPSILON);
    assert!((root_sum(&two.delta_incremental_faster()) - whole).abs() < f64::EPSILON);
    let first = OArray::new(2, 1, 1, vec![false, true], FitnessFunction::DeltaFast);
    let unit = IncGAOArray {
        partial: &first,
        last_col: vec![false, false],
        mutation_prob: Probability::new(1, 5),
        target_k: 2,
    };
    assert_eq!(unit.score(), Some(Score::RootSum(vec![2])));
    assert!(unit.fitness() < 0);
}

#[test]
fn units_for_one_more_column() {
    let partial = OArray::generate_partial(8, 2, FitnessFunction::DeltaFast);
    let a = IncGAOArray::new(&partial, Probability::new(1, 2), 3);
    let b = IncGAOArray::new(&partial, Probability::new(1, 2), 3);
    assert_eq!(a.last_col.iter().filter(|&&x| x).count(), 4);
    assert_eq!(a.last_col.len(), 8);
    let child = a.breed_with(&b);
    assert_eq!(child.last_col.iter().filter(|&&x| x).count(), 4);
    assert_eq!(child.target_k, 3);
    assert!(child.fitness() <= 0);
    let mut c = IncGAOArray::new(&partial, Probability::new(1, 2), 3);
    let before = c.last_col.clone();
    c.mutate_with_prob(Probability::new(0, 1), &mut thread_rng());
    assert_eq!(c.last_col, before);
    c.mutate_with_prob(Probability::new(1, 1), &mut thread_rng());
    assert_ne!(c.last_col, before);
    assert_eq!(c.last_col.iter().filter(|&&x| x).count(), 4);
    let differing = c.last_col.iter().zip(before.iter()).filter(|(x, y)| x != y).count();
    assert_eq!(differing, 2);
    for f in [
        FitnessFunction::Walsh(2),
        FitnessFunction::WalshFaster(2),
        FitnessFunction::DeltaFast,
        FitnessFunction::Delta,
        FitnessFunction::Cidev,
    ] {
        let mut p = partial.clone();
        p.fitness_f = f;
        let mut unit = IncGAOArray::new(&p, Probability::new(1, 2), 3);
        unit.last_col = vec![false, true, true, false, true, false, false, true];
        assert_eq!(unit.fitness(), 0);
        assert!(unit.score().unwrap().is_perfect());
    }
}

#[test]
fn a_candidate_that_is_all_alike_cannot_change() {
    let partial = OArray::generate_partial(8, 2, FitnessFunction::DeltaFast);
    let mut unit = IncGAOArray::new(&partial, Probability::new(1, 2), 3);
    unit.last_col = vec![false; 8];
    unit.mutate_with_prob(Probability::new(1, 1), &mut thread_rng());
    assert_eq!(unit.last_col, vec![false; 8]);
    unit.last_col = vec![false, false, false, true, false, false, false, false];
    unit.mutate_with_prob(Probability::new(1, 1), &mut thread_rng());
    assert_eq!(unit.last_col.iter().filter(|&&x| x).count(), 1);
    assert!(!unit.last_col[3]);
}

#[test]
fn a_candidate_bred_with_itself() {
    let partial = OArray::generate_partial(8, 2, FitnessFunction::DeltaFast);
    for _ in 0..50 {
        let calm = IncGAOArray::new(&partial, Probability::new(0, 1), 3);
        let twin = IncGAOArray {
            partial: &partial,
            last_col: calm.last_col.clone(),
            mutation_prob: Probability::new(0, 1),
            target_k: 3,
        };
        let child = calm.breed_with(&twin);
        assert_eq!(child.last_col, calm.last_col);
        let wild = IncGAOArray {
            partial: &partial,
            last_col: calm.last_col.clone(),
            mutation_prob: Probability::new(1, 1),
            target_k: 3,
        };
        let child = wild.breed_with(&twin);
        let d = child.last_col.iter().zip(wild.last_col.iter()).filter(|(x, y)| x != y).count();
        assert_eq!(d, 2);
        assert_eq!(child.last_col.iter().filter(|&&x| x).count(), 4);
    }
}
