use oarray::binary_strings::{
    checked_pow2, hamming_weight, usize_hamming_weight, vec2usize, BinaryStringIterator,
};

#[test]
fn test123123() {
    let mut a = BinaryStringIterator::new(4);
    while let Some(x) = a.next() {
        println!("{:?}", x);
    }
}

#[test]
fn test_weight() {
    assert!(hamming_weight(&[false, true, false, false]) == 1);
    assert!(hamming_weight(&[true, true, true]) == 3);
    assert!(hamming_weight(&[false]) == 0);
    assert!(hamming_weight(&[false, false, true]) == 1);
}

#[test]
fn vec2u() {
    assert!(vec2usize(&[true, false, true]) == 5);
    assert!(vec2usize(&[true, true, false]) == 6);
    assert!(vec2usize(&[false, false, false]) == 0);
}

#[test]
fn usize_test() {
    assert!(usize_hamming_weight(10) == 2);
    assert!(usize_hamming_weight(7) == 3);
    assert!(usize_hamming_weight(128) == 1);
    assert!(usize_hamming_weight(0) == 0);
}

#[test]
fn binary_strings_count_up() {
    let mut it = BinaryStringIterator::new(3);
    let mut seen: Vec<Vec<bool>> = Vec::new();
    while let Some(x) = it.next() {
        seen.push(x);
    }
    assert_eq!(seen.len(), 8);
    assert_eq!(seen[0], vec![false, false, false]);
    assert_eq!(seen[1], vec![true, false, false]);
    assert_eq!(seen[2], vec![false, true, false]);
    assert_eq!(seen[3], vec![true, true, false]);
    assert_eq!(seen[7], vec![true, true, true]);
    assert!(it.next().is_none());
    assert!(it.next().is_none());
}

#[test]
fn binary_strings_of_length_zero() {
    let mut it = BinaryStringIterator::new(0);
    assert_eq!(it.next(), Some(vec![]));
    assert!(it.next().is_none());
}

#[test]
fn empty_strings_have_no_weight_and_value_zero() {
    assert_eq!(hamming_weight(&[]), 0);
    assert_eq!(vec2usize(&[]), 0);
}

#[test]
fn powers_of_two() {
    assert_eq!(checked_pow2(0), Some(1));
    assert_eq!(checked_pow2(10), Some(1024));
    assert_eq!(checked_pow2(63), Some(1usize << 63));
    assert_eq!(checked_pow2(64), None);
    assert_eq!(checked_pow2(4_000_000_000), None);
}

#[test]
fn weight_of_the_largest_word() {
    assert_eq!(usize_hamming_weight(usize::MAX), usize::BITS as usize);
}
