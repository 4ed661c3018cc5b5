use oarray::genetic_operators::Probability;
use oarray::score::Score;
use oarray::{FitnessFunction, OArray};
use rand::thread_rng;
use std::f64::EPSILON;

fn bool_vec(v: &[u8]) -> Vec<bool> {
    v.iter().map(|&x| x != 0).collect()
}

fn root_sum(qs: &[u128]) -> f64 {
    let total: f64 = qs.iter().map(|&q| (q as f64).powf(1.0 / 2.0)).sum();
    -total
}

fn whole(x: Option<u64>) -> f64 {
    -(x.unwrap() as f64)
}

fn as_float(score: Option<Score>) -> f64 {
    match score.unwrap() {
        Score::RootSum(qs) => root_sum(&qs),
        Score::Whole(x) => -(x as f64),
    }
}

#[test]
fn fitness_check_fitness1() {
    let test = OArray::new(
        4,
        2,
        2,
        bool_vec(&[0, 0, 1, 1, 0, 1, 0, 1]),
        FitnessFunction::DeltaFast,
    );
    assert!(root_sum(&test.delta_fitness_fast()) == 0.0);
    assert!(whole(test.walsh_fitness(2)) == 0.0);
}

#[test]
fn check_fast_delta() {
    let mut rng = thread_rng();
    let error = EPSILON;
    for _ in 0..100 {
        let rand = OArray::new_random_balanced(8, 7, 3, &mut rng, FitnessFunction::DeltaFast);
        assert!((root_sum(&rand.delta_fitness()) - root_sum(&rand.delta_fitness_fast())).abs() < error);
        assert_eq!(rand.delta_fitness(), rand.delta_fitness_fast());
    }
}

#[test]
fn fitness_check_fitness2() {
    let test = OArray::new(
        4,
        2,
        1,
        bool_vec(&[0, 1, 1, 1, 0, 1, 0, 1]),
        FitnessFunction::DeltaFast,
    );
    assert!(root_sum(&test.delta_fitness_fast()) != 0.0);
    assert!(whole(test.walsh_fitness(2)) != 0.0);
}

#[test]
fn test_walsh() {
    let mut rng = thread_rng();
    let error = EPSILON;
    for _ in 0..1000 {
        let rand = OArray::new_random_balanced(8, 7, 3, &mut rng, FitnessFunction::DeltaFast);
        let delta_is_zero = -root_sum(&rand.delta_fitness_fast()) < error;
        let walsh_is_zero = -whole(rand.walsh_fitness(2)) < error;
        assert!(delta_is_zero == walsh_is_zero);
    }
}

#[test]
fn test_walsh_faster() {
    let mut rng = thread_rng();
    let error = EPSILON;
    for _ in 0..1000 {
        let rand = OArray::new_random_balanced(8, 7, 3, &mut rng, FitnessFunction::DeltaFast);
        assert!((whole(rand.walsh_faster(2)) - whole(rand.walsh_fitness(2))).abs() < error);
    }
}

#[test]
fn test_paper_impl() {
    let mut rng = thread_rng();
    let error = EPSILON;
    for _ in 0..1000 {
        let rand = OArray::new_random_balanced(16, 15, 3, &mut rng, FitnessFunction::DeltaFast);
        let a = whole(rand.walsh_fitness_rec(2));
        let b = whole(rand.walsh_fitness(2));
        assert!((a - b).abs() < error);
    }
}

#[test]
fn an_array_of_strength_two_is_perfect_under_delta_and_walsh() {
    let d = bool_vec(&[0, 0, 1, 1, 0, 1, 0, 1]);
    for f in [
        FitnessFunction::Delta,
        FitnessFunction::DeltaFast,
        FitnessFunction::Walsh(2),
        FitnessFunction::WalshFaster(2),
        FitnessFunction::WalshRec(2),
        FitnessFunction::SheerLuck,
    ] {
        let test = OArray::new(4, 2, 2, d.clone(), f);
        assert!(test.is_scorable());
        let score = test.fitness().unwrap();
        assert!(score.is_perfect());
        assert_eq!(score.key(), 0);
        assert!(as_float(test.fitness()) == 0.0);
    }
}

#[test]
fn an_unbalanced_column_is_not_perfect_under_delta_and_walsh() {
    let d = bool_vec(&[0, 1, 1, 1, 0, 1, 0, 1]);
    for f in [
        FitnessFunction::Delta,
        FitnessFunction::DeltaFast,
        FitnessFunction::Walsh(2),
        FitnessFunction::WalshFaster(2),
        FitnessFunction::WalshRec(2),
        FitnessFunction::SheerLuck,
    ] {
        let test = OArray::new(4, 2, 1, d.clone(), f);
        let score = test.fitness().unwrap();
        assert!(!score.is_perfect());
        assert!(score.key() < 0);
        assert!(as_float(test.fitness()) != 0.0);
    }
}

#[test]
fn exact_values_of_the_scores() {
    // One column with three ones among four rows, one balanced column.
    let test = OArray::new(
        4,
        2,
        1,
        bool_vec(&[0, 1, 1, 1, 0, 1, 0, 1]),
        FitnessFunction::Delta,
    );
    // Column 0: one zero, three ones against two ideal: 1 + 1. Column 1: none.
    assert_eq!(test.delta_fitness(), vec![2u128, 0]);
    assert_eq!(test.delta_fitness_fast(), vec![2u128, 0]);
    // Signed sums: column 0 gives 1 - 3 = -2, column 1 gives 0.
    assert_eq!(test.walsh_fitness(1), Some(2));
    assert_eq!(test.walsh_fitness(2), Some(4));
    assert_eq!(test.walsh_fitness(3), Some(8));
    assert_eq!(test.walsh_faster(2), Some(4));
    assert_eq!(test.walsh_fitness_rec(2), Some(4));
    assert_eq!(test.sheer_luck_fitness(), 1);
    assert_eq!(test.delta(&[0], 1, 2), 1);
    assert_eq!(test.delta(&[0, 1], 3, 1), 1);
    assert_eq!(test.delta(&[0, 1], 0, 1), 0);
    assert_eq!(test.delta_grande(&[0, 1]), 2);
    assert_eq!(test.delta_grande_faster(&[0, 1]), 2);
    assert_eq!(test.row_pattern(&[0, 1], 1), 3);
    assert_eq!(test.row_pattern(&[1, 0], 2), 1);
    // At strength two the pair of columns counts as well.
    let two = OArray::new(
        4,
        2,
        2,
        bool_vec(&[0, 1, 1, 1, 0, 1, 0, 1]),
        FitnessFunction::Walsh(2),
    );
    // The exclusive or of the columns is 0, 0, 1, 0: signed sum 2.
    assert_eq!(two.walsh_fitness(2), Some(4 + 0 + 4));
    assert_eq!(two.walsh_faster(2), Some(8));
    assert_eq!(two.walsh_fitness_rec(2), Some(8));
    assert_eq!(two.fitness(), Some(Score::Whole(8)));
}

#[test]
fn the_key_of_a_root_sum() {
    let score = Score::RootSum(vec![2, 0, 9]);
    // The root of two in units of 2^-16 is 92681.9, and three is 196608.
    assert_eq!(score.key(), -(92681 + 196608));
    assert!(!score.is_perfect());
    assert!(Score::RootSum(vec![]).is_perfect());
    assert_eq!(Score::RootSum(vec![0, 0]).key(), 0);
    assert_eq!(Score::Whole(5).key(), -5);
    assert_eq!(Score::Whole(u64::MAX).key(), -i64::MAX);
    assert_eq!(Score::RootSum(vec![u128::MAX]).key(), -i64::MAX);
}

#[test]
fn whole_roots() {
    assert_eq!(oarray::score::isqrt(0), 0);
    assert_eq!(oarray::score::isqrt(1), 1);
    assert_eq!(oarray::score::isqrt(15), 3);
    assert_eq!(oarray::score::isqrt(16), 4);
    assert_eq!(oarray::score::isqrt(u128::MAX), u64::MAX as u128);
    assert_eq!(oarray::score::fixed_root(4), Some(2 << 16));
    assert_eq!(oarray::score::fixed_root(1 << 100), None);
}

#[test]
fn a_walsh_total_beyond_64_bits_is_none() {
    let test = OArray::new(
        4,
        2,
        1,
        bool_vec(&[1, 1, 1, 1, 0, 1, 0, 1]),
        FitnessFunction::Walsh(40),
    );
    // Column 0 sums to -4, and 4^40 = 2^80.
    assert_eq!(test.walsh_fitness(40), None);
    assert_eq!(test.walsh_faster(40), None);
    assert_eq!(test.walsh_fitness_rec(40), None);
    assert_eq!(test.fitness(), None);
    assert_eq!(test.walsh_fitness(31), Some(1u64 << 62));
    assert_eq!(oarray::fitness::checked_power(0, 0), Some(1));
    assert_eq!(oarray::fitness::checked_power(0, 5), Some(0));
    assert_eq!(oarray::fitness::checked_power(2, 64), None);
    assert_eq!(oarray::fitness::checked_power(3, 4), Some(81));
}

#[test]
fn strength_zero_has_no_defect() {
    let test = OArray::new(3, 1, 0, bool_vec(&[1, 1, 0]), FitnessFunction::Delta);
    assert!(test.is_valid());
    assert_eq!(test.delta_fitness(), Vec::<u128>::new());
    assert_eq!(test.walsh_fitness(2), Some(0));
    assert_eq!(test.walsh_faster(2), Some(0));
}

#[test]
fn spectral_scores() {
    // Rows 00, 01, 10, 11: every input is a row, the function is constant.
    let full = OArray::new(
        4,
        2,
        2,
        bool_vec(&[0, 0, 1, 1, 0, 1, 0, 1]),
        FitnessFunction::Cidev,
    );
    assert_eq!(full.cidev_fitness(), 0);
    assert_eq!(full.fitness(), Some(Score::Whole(0)));
    // Rows 00 and 11 twice over: true on inputs 0 and 3.
    let pair = OArray::new(
        4,
        2,
        1,
        bool_vec(&[0, 0, 1, 1, 0, 0, 1, 1]),
        FitnessFunction::Cidev,
    );
    let spectrum = oarray::wtform::PolarTruthTable::from(&pair.truth_table()).walsh_tform();
    assert_eq!(spectrum.table, vec![0, 0, 0, -4]);
    assert_eq!(pair.cidev_fitness(), 0);
    let both = OArray::new(
        4,
        2,
        2,
        bool_vec(&[0, 0, 1, 1, 0, 0, 1, 1]),
        FitnessFunction::Cidev,
    );
    assert_eq!(both.cidev_fitness(), 4);
    // Comb: the Walsh defect with exponent two, and the shortfall of the radius.
    let comb = OArray::new(
        4,
        2,
        2,
        bool_vec(&[0, 0, 1, 1, 0, 0, 1, 1]),
        FitnessFunction::Comb(3),
    );
    // Walsh: columns balanced, their exclusive or is zero throughout: 4^2.
    // Shortfall: 3 * 2 - 1 - 4 = 1.
    assert_eq!(comb.comb_fitness(3), Some(16 + 1));
    assert_eq!(comb.comb_fitness(1), Some(16));
    assert_eq!(comb.fitness(), Some(Score::Whole(17)));
}

#[test]
fn what_can_be_scored() {
    let d = bool_vec(&[0, 0, 1, 1, 0, 1, 0, 1]);
    assert!(OArray::admits(4, 2));
    assert!(!OArray::admits(4, 3));
    assert!(!OArray::admits(6, 2));
    assert!(OArray::admits(5, 0));
    let ok = OArray::new(4, 2, 2, d.clone(), FitnessFunction::Delta);
    assert!(ok.is_well_formed() && ok.is_valid() && ok.is_scorable());
    assert_eq!(ok.lambda, 1);
    let mut short = OArray::new(4, 2, 2, d.clone(), FitnessFunction::Delta);
    short.d.pop();
    assert!(!short.is_well_formed() && !short.is_valid() && !short.is_scorable());
    let mut strong = OArray::new(4, 2, 2, d.clone(), FitnessFunction::Delta);
    strong.target_t = 1;
    assert!(strong.is_well_formed() && !strong.is_valid());
    let mut narrow = OArray::new(4, 1, 2, bool_vec(&[0, 0, 1, 1]), FitnessFunction::Delta);
    assert!(narrow.is_valid() && !narrow.is_scorable());
    narrow.target_t = 0;
    assert!(!narrow.is_valid());
    let _ = Probability::new(1, 2);
}

#[test]
fn rows_columns_and_linearity() {
    let oa = OArray::new(
        4,
        2,
        2,
        bool_vec(&[0, 0, 1, 1, 0, 1, 0, 1]),
        FitnessFunction::Delta,
    );
    assert_eq!(oa.iter_cols(), vec![vec![false, false, true, true], vec![false, true, false, true]]);
    assert_eq!(
        oa.iter_rows(),
        vec![vec![false, false], vec![false, true], vec![true, false], vec![true, true]]
    );
    assert!(oa.get(2, 0) && !oa.get(2, 1));
    assert_eq!(oa.column(1), vec![false, true, false, true]);
    assert_eq!(oa.row_values(3), vec![true, true]);
    assert!(oa.contains_row(&vec![true, false]));
    assert!(!oa.contains_row(&vec![true]));
    assert!(oa.check_linear());
    let no_zero = OArray::new(2, 2, 1, bool_vec(&[0, 1, 1, 1]), FitnessFunction::Delta);
    assert!(!no_zero.check_linear());
    let not_closed = OArray::new(
        4,
        3,
        2,
        bool_vec(&[0, 1, 0, 0, 0, 0, 1, 0, 0, 0, 0, 1]),
        FitnessFunction::Delta,
    );
    assert!(!not_closed.check_linear());
    let copy = oa.clone();
    assert_eq!(copy, oa);
}
