use oarray::alphabet::{
    balanced_crossover, count_positive, flatten, mutate_column, nth_positive, Alphabet, OArray,
};
use oarray::genetic_operators::Probability;
use rand::thread_rng;

fn root_sum(qs: &[u128]) -> f64 {
    let total: f64 = qs.iter().map(|&q| (q as f64).powf(1.0 / 2.0)).sum();
    -total
}

fn counts(col: &[u8], s: u8) -> Vec<usize> {
    (0..s).map(|v| col.iter().filter(|&&x| x == v).count()).collect()
}

#[test]
fn main_check_delta() {
    let test = OArray::new(3, 3, 3u8, 1, vec![2, 1, 0, 1, 1, 1, 0, 1, 3]);
    assert!(test.delta(&[0, 1], 0, 1) == 1);
    assert!(test.delta(&[0, 1], 1, 1) == 0);
    assert!(test.delta(&[0, 1], 2, 1) == 1);
    assert!(test.delta(&[0, 1], 3, 1) == 1);
    assert!(test.delta(&[0, 1], 4, 1) == 0);
    assert!(test.delta(&[0, 1], 5, 1) == 1);
    assert!(test.delta(&[0, 1], 6, 1) == 1);
    assert!(test.delta(&[0, 1], 7, 1) == 0);
    assert!(test.delta(&[0, 1], 8, 1) == 1);
    assert!(test.delta(&[0, 1, 2], 13, 1) == 0);
}

#[test]
fn oarray_check_delta() {
    let test = OArray::new(3, 3, 3u8, 1, vec![2, 1, 0, 1, 1, 1, 0, 1, 3]);
    assert!(test.delta(&[0, 1], 0, 1) == 1);
    assert!(test.delta(&[0, 1], 1, 1) == 0);
    assert!(test.delta(&[0, 1], 2, 1) == 1);
    assert!(test.delta(&[0, 1], 3, 1) == 1);
    assert!(test.delta(&[0, 1], 4, 1) == 0);
    assert!(test.delta(&[0, 1], 5, 1) == 1);
    assert!(test.delta(&[0, 1], 6, 1) == 1);
    assert!(test.delta(&[0, 1], 7, 1) == 0);
    assert!(test.delta(&[0, 1], 8, 1) == 1);
    assert!(test.delta(&[0, 1, 2], 13, 1) == 0);
}

#[test]
fn oarray_check_fitness1() {
    let test = OArray::new(4, 2, 2u8, 2, vec![0, 0, 1, 1, 0, 1, 0, 1]);
    assert!(root_sum(&test.fitness()) == 0.0);
    let test = OArray::new(
        9,
        2,
        3u8,
        2,
        vec![0, 0, 0, 1, 1, 1, 2, 2, 2, 0, 1, 2, 0, 1, 2, 0, 1, 2],
    );
    assert!(root_sum(&test.fitness()) == 0.0);
}

#[test]
fn main_check_fitness1() {
    let test = OArray::new(4, 2, 2u8, 2, vec![0, 0, 1, 1, 0, 1, 0, 1]);
    assert!(root_sum(&test.fitness()) == 0.0);
    let test = OArray::new(
        9,
        2,
        3u8,
        2,
        vec![0, 0, 0, 1, 1, 1, 2, 2, 2, 0, 1, 2, 0, 1, 2, 0, 1, 2],
    );
    assert!(root_sum(&test.fitness()) == 0.0);
}

#[test]
fn oarray_check_fitness2() {
    let test = OArray::new(4, 2, 2u8, 1, vec![0, 1, 1, 1, 0, 1, 0, 1]);
    assert!(root_sum(&test.fitness()) != 0.0);
}

#[test]
fn main_check_fitness2() {
    let test = OArray::new(4, 2, 2u8, 1, vec![0, 1, 1, 1, 0, 1, 0, 1]);
    assert!(root_sum(&test.fitness()) != 0.0);
}

/// A clone is the same array, a sure mutation changes it, and an
/// offspring differs from both parents. The last holds of all but about
/// one run in a hundred: an offspring can come out as one of its parents.
fn mutation_changes_and_offspring_differ() -> bool {
    let mut r = thread_rng();
    let mut a = OArray::new_random_balanced(8, 4, 2u8, 3, &mut r);
    let b = a.clone();
    assert!(a.d == b.d);
    a.mutate_with_prob(Probability::new(1, 1), &mut r);
    assert!(a.d != b.d);
    let c = a.breed_with(&b);
    a.d != c.d && b.d != c.d
}

#[test]
fn oarray_mutation() {
    assert!((0..4).any(|_| mutation_changes_and_offspring_differ()));
}

#[test]
fn alphabet_new_random() {
    let a = OArray::new_random_balanced(8, 4, 2u8, 3, &mut thread_rng());
    for col in a.iter_cols() {
        let num0 = col.iter().filter(|&&i| i == 1).count();
        let num1 = col.iter().filter(|&&i| i == 0).count();
        assert!(num0 == num1);
    }
}

#[test]
fn random_arrays_over_three_symbols_are_balanced() {
    let mut r = thread_rng();
    for _ in 0..20 {
        let a = OArray::new_random_balanced(9, 5, 3u8, 2, &mut r);
        assert_eq!(a.s_usize(), 3);
        for col in a.iter_cols() {
            assert_eq!(counts(&col, 3), vec![3, 3, 3]);
        }
        assert_eq!(a.iter_rows().len(), 9);
        assert_eq!(a.iter_rows()[0].len(), 5);
    }
}

#[test]
fn crossover_over_three_symbols_is_balanced() {
    let mut r = thread_rng();
    for _ in 0..100 {
        let a = OArray::new_random_balanced(12, 1, 3u8, 1, &mut r);
        let b = OArray::new_random_balanced(12, 1, 3u8, 1, &mut r);
        let out = balanced_crossover(&a.d, &b.d, 3u8, &mut r);
        assert_eq!(counts(&out, 3), vec![4, 4, 4]);
    }
    // Parents that are not balanced still give a balanced column.
    for _ in 0..100 {
        let out = balanced_crossover(&[0u8; 6], &[0u8; 6], 3u8, &mut r);
        assert_eq!(counts(&out, 3), vec![2, 2, 2]);
        let out = balanced_crossover(&[1usize, 1, 1, 1], &[0usize, 0, 0, 0], 2usize, &mut r);
        assert_eq!(out.iter().filter(|&&x| x == 1).count(), 2);
        assert_eq!(out.len(), 4);
    }
    assert_eq!(balanced_crossover(&[], &[], 2u8, &mut r), Vec::<u8>::new());
}

#[test]
fn mutation_over_three_symbols_keeps_the_counts() {
    let mut r = thread_rng();
    for _ in 0..50 {
        let mut a = OArray::new_random_balanced(9, 4, 3u8, 2, &mut r);
        let before = a.iter_cols();
        a.mutate_with_prob(Probability::new(1, 2), &mut r);
        for (x, y) in before.iter().zip(a.iter_cols().iter()) {
            assert_eq!(counts(x, 3), counts(y, 3));
            let changed = x.iter().zip(y.iter()).filter(|(p, q)| p != q).count();
            assert!(changed == 0 || changed == 2);
        }
        let c = a.breed_with(&OArray::new_random_balanced(9, 4, 3u8, 2, &mut r));
        for col in c.iter_cols() {
            assert_eq!(counts(&col, 3), vec![3, 3, 3]);
        }
    }
    let mut col = vec![1u8, 1, 1];
    mutate_column(&mut col, &mut r);
    assert_eq!(col, vec![1, 1, 1]);
    let mut col = vec![1u8, 2];
    mutate_column(&mut col, &mut r);
    assert_eq!(col, vec![2, 1]);
}

#[test]
fn exact_values_over_three_symbols() {
    let test = OArray::new(3, 2, 3u8, 1, vec![2, 1, 0, 1, 1, 1]);
    assert_eq!(test.row_pattern(&[0, 1], 0), 7);
    assert_eq!(test.row_pattern(&[1, 0], 0), 5);
    assert_eq!(test.get(2, 0), 0);
    // Column 0 holds each symbol once; column 1 holds one symbol thrice.
    assert_eq!(test.delta_grande(&[0]), 0);
    assert_eq!(test.delta_grande(&[1]), 1 + 4 + 1);
    assert_eq!(test.fitness(), vec![0u128, 6]);
    assert_eq!(flatten(&vec![vec![1u8, 2], vec![3, 4]], 2), vec![1, 2, 3, 4]);
    assert_eq!(count_positive(&vec![0, 2, 0, 1]), 2);
    assert_eq!(nth_positive(&vec![0, 2, 0, 1], 1), 3);
    assert_eq!(u8::from_index(7), Some(7));
    assert_eq!(u8::from_index(256), None);
    assert_eq!(7u8.to_index(), 7);
    assert_eq!(usize::from_index(300), Some(300));
}

#[test]
fn a_sure_mutation_over_three_symbols_changes_every_mixed_column() {
    let mut r = thread_rng();
    for _ in 0..50 {
        let mut a = OArray::new_random_balanced(9, 4, 3u8, 2, &mut r);
        // The last column is made all alike: it cannot change.
        for cell in a.d[27..].iter_mut() {
            *cell = 1;
        }
        let before = a.iter_cols();
        a.mutate_with_prob(Probability::new(1, 1), &mut r);
        let after = a.iter_cols();
        for c in 0..3 {
            let changed = before[c].iter().zip(after[c].iter()).filter(|(p, q)| p != q).count();
            assert_eq!(changed, 2);
        }
        assert_eq!(before[3], after[3]);
        let same = a.d.clone();
        a.mutate_with_prob(Probability::new(0, 1), &mut r);
        assert_eq!(a.d, same);
    }
}

#[test]
fn offspring_of_an_array_over_three_symbols_with_itself() {
    let mut r = thread_rng();
    for _ in 0..50 {
        let a = OArray::new_random_balanced(9, 4, 3u8, 2, &mut r);
        let child = a.breed_with(&a.clone());
        assert_eq!(child.ngrande, 9);
        assert_eq!(child.k, 4);
        assert_eq!(child.d.len(), 36);
        // The crossover of a balanced column with itself is that column,
        // and a mutation exchanges two of its symbols.
        for c in 0..4 {
            let before = &a.d[c * 9..(c + 1) * 9];
            let after = &child.d[c * 9..(c + 1) * 9];
            let d = before.iter().zip(after.iter()).filter(|(x, y)| x != y).count();
            assert!(d == 0 || d == 2);
            assert_eq!(counts(after, 3), vec![3, 3, 3]);
        }
    }
}
