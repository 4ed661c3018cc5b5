use oarray::genetic_operators::{GAOArray, Probability};
use oarray::hill_climb::{
    check_agrees, check_agrees_where_separated, check_conds, check_differs,
    check_differs_where_separated, check_separates, classify, climb_table, find_improvement,
    hill_climb, scalar_prod, Bucket, Buckets,
};
use oarray::wtform::{PolarTruthTable, TruthTable};
use oarray::{FitnessFunction, OArray};
use rand::thread_rng;

#[test]
fn test_scalar_prod() {
    assert!(!scalar_prod(321, 552));
    assert!(scalar_prod(321, 553));
}

fn cidev(oa: &OArray) -> u32 {
    PolarTruthTable::from(&oa.truth_table())
        .walsh_tform()
        .cidev(oa.target_t as usize)
}

#[test]
fn classes_of_a_coefficient() {
    assert_eq!(classify(8, 8), Bucket::PlusA);
    assert_eq!(classify(6, 8), Bucket::PlusB);
    assert_eq!(classify(4, 8), Bucket::PlusC);
    assert_eq!(classify(-8, 8), Bucket::MinusA);
    assert_eq!(classify(-6, 8), Bucket::MinusB);
    assert_eq!(classify(-4, 8), Bucket::MinusC);
    assert_eq!(classify(2, 8), Bucket::Other);
    assert_eq!(classify(0, 8), Bucket::Other);
    // With a small bound the classes meet, and the first in order holds.
    assert_eq!(classify(0, 0), Bucket::PlusA);
    assert_eq!(classify(-2, 2), Bucket::PlusC);
    assert_eq!(classify(0, 2), Bucket::PlusB);
    assert_eq!(classify(0, 4), Bucket::PlusC);
}

#[test]
fn the_six_conditions() {
    let truth = vec![false, true, true, false];
    // Frequency 3 is the parity of both bits: it is the function itself.
    assert!(check_separates(&vec![3], 0, 1));
    assert!(!check_separates(&vec![3], 0, 3));
    assert!(check_separates(&vec![], 0, 3));
    assert!(check_agrees(&truth, &vec![3], 0, 1));
    assert!(!check_agrees(&truth, &vec![1], 0, 2));
    assert!(check_differs(&truth, &vec![2], 1, 3));
    assert!(!check_differs(&truth, &vec![3], 0, 1));
    assert!(check_agrees_where_separated(&truth, &vec![3], 0, 3));
    assert!(check_agrees_where_separated(&truth, &vec![3], 0, 1));
    assert!(!check_agrees_where_separated(&truth, &vec![1], 0, 1) || truth[1]);
    assert!(check_differs_where_separated(&truth, &vec![3], 0, 3));
    assert!(!check_differs_where_separated(&truth, &vec![3], 0, 1));
    let none = Buckets {
        w1p: vec![],
        w1m: vec![],
        w2p: vec![],
        w2m: vec![],
        w3p: vec![],
        w3m: vec![],
    };
    assert!(check_conds(&truth, &none, 0, 1));
    assert!(!check_conds(&truth, &none, 0, 3));
    assert_eq!(find_improvement(&truth, &none), Some((0, 1)));
    assert_eq!(find_improvement(&vec![true, true, true], &none), None);
    let hard = Buckets {
        w1p: vec![],
        w1m: vec![3],
        w2p: vec![],
        w2m: vec![],
        w3p: vec![],
        w3m: vec![],
    };
    assert_eq!(find_improvement(&truth, &hard), None);
}

#[test]
fn the_classes_of_a_spectrum() {
    let tt = TruthTable::new(vec![true, false, false, true, false, true, true, false]);
    let spectrum = PolarTruthTable::from(&tt).walsh_tform();
    assert_eq!(spectrum.table, vec![0, 0, 0, 0, 0, 0, 0, -8]);
    let sets = Buckets::new(&spectrum, 3, 8);
    assert_eq!(sets.w1m, vec![7]);
    assert!(sets.w1p.is_empty() && sets.w2p.is_empty() && sets.w3p.is_empty());
    let low = Buckets::new(&spectrum, 2, 0);
    assert_eq!(low.w1p, vec![0, 1, 2, 3, 4, 5, 6]);
    assert!(low.w1m.is_empty());
}

#[test]
fn a_move_keeps_the_rows_apart_and_never_raises_the_deviation() {
    let mut r = thread_rng();
    let mut moves = 0;
    for _ in 0..200 {
        let oa = OArray::new_random_balanced(8, 4, 2, &mut r, FitnessFunction::Cidev);
        let rows = oa.iter_rows();
        let distinct = (0..8).all(|i| (i + 1..8).all(|j| rows[i] != rows[j]));
        let before = cidev(&oa);
        let old = oa.clone();
        let (new, moved) = hill_climb(oa);
        if !distinct {
            assert!(!moved);
        }
        if moved {
            moves += 1;
            assert!(new.is_valid());
            assert_eq!(new.ngrande, 8);
            assert_eq!(new.k, 4);
            let rows = new.iter_rows();
            assert!((0..8).all(|i| (i + 1..8).all(|j| rows[i] < rows[j])));
            let changed = old.truth_table().table.iter().zip(new.truth_table().table.iter())
                .filter(|(a, b)| a != b).count();
            assert_eq!(changed, 2);
            if before >= 6 {
                assert!(cidev(&new) <= before);
            }
        } else {
            assert_eq!(new, old);
        }
    }
    assert!(moves > 0);
}

#[test]
fn no_move_where_no_pair_improves() {
    // The function true on 0 and 3: its spectrum is 0, 0, 0, -4. At
    // strength one the largest low-weight size is zero, so the frequency
    // zero must tell the two inputs apart, which it never does.
    let oa = OArray::new(
        2,
        2,
        1,
        vec![false, true, false, true],
        FitnessFunction::Cidev,
    );
    let tt = oa.truth_table();
    assert_eq!(tt.table, vec![true, false, false, true]);
    let (same, moved) = hill_climb(oa.clone());
    assert!(!moved);
    assert_eq!(same, oa);
    assert!(climb_table(&tt, 2, 1, FitnessFunction::Cidev).is_none());
    // A table with another number of true inputs than rows gives no array.
    assert!(climb_table(&tt, 4, 1, FitnessFunction::Cidev).is_none());
}

#[test]
fn climbing_a_unit() {
    let mut r = thread_rng();
    for _ in 0..50 {
        let oa = OArray::new_random_balanced(8, 4, 2, &mut r, FitnessFunction::WalshFaster(2));
        let mut unit = GAOArray { oa: oa.clone(), mutation_prob: Probability::new(1, 5) };
        unit.hill_climb(Probability::new(0, 1));
        assert_eq!(unit.oa, oa);
        unit.hill_climb(Probability::new(1, 1));
        let (expected, _) = hill_climb(oa);
        assert_eq!(unit.oa, expected);
        assert_eq!(unit.mutation_prob, Probability::new(1, 5));
    }
}

#[test]
fn a_move_on_a_given_array() {
    // Rows 3, 12, 1, 0, 13, 10, 14, 7 as numerals of four bits.
    let values = [3usize, 12, 1, 0, 13, 10, 14, 7];
    let mut d = Vec::new();
    for col in 0..4 {
        for v in values.iter() {
            d.push(v & (1 << (3 - col)) != 0);
        }
    }
    let oa = OArray::new(8, 4, 2, d, FitnessFunction::Cidev);
    assert_eq!(cidev(&oa), 8);
    let (new, moved) = hill_climb(oa);
    assert!(moved);
    // The entries at 1 and 4 are exchanged: row 1 gives way to row 4.
    let rows: Vec<usize> = (0..8).map(|i| new.row_value(i)).collect();
    assert_eq!(rows, vec![0, 3, 4, 7, 10, 12, 13, 14]);
    assert!(cidev(&new) <= 8);
}

fn from_values(values: &[usize], k: usize, t: u32, f: FitnessFunction) -> OArray {
    let mut d = Vec::new();
    for col in 0..k {
        for v in values.iter() {
            d.push(v & (1 << (k - 1 - col)) != 0);
        }
    }
    OArray::new(values.len(), k, t, d, f)
}

#[test]
fn a_move_can_lower_the_other_scores() {
    // Under Delta: the squared defects of the six pairs of columns go
    // from a single four to two fours and a two.
    let oa = from_values(&[1, 2, 4, 5, 8, 11, 14, 15], 4, 2, FitnessFunction::Delta);
    let before: u128 = oa.delta_fitness().iter().sum();
    let (new, moved) = hill_climb(oa.clone());
    assert!(moved);
    assert_eq!(oa.delta_fitness().iter().filter(|&&q| q != 0).count(), 1);
    assert_eq!(before, 4);
    let after = new.delta_fitness();
    assert!(after.iter().map(|&q| (q as f64).sqrt()).sum::<f64>() > 2.0);
    assert!(cidev(&new) <= cidev(&oa));
    // Under Walsh with exponent two: from 116 to 128.
    let oa = from_values(&[3, 8, 17, 24, 25, 26, 27, 30], 5, 2, FitnessFunction::Walsh(2));
    assert_eq!(oa.walsh_fitness(2), Some(116));
    let (new, moved) = hill_climb(oa.clone());
    assert!(moved);
    assert_eq!(new.walsh_fitness(2), Some(128));
    assert!(cidev(&new) <= cidev(&oa));
}
