use oarray::features::hamming_dist;
use oarray::{FitnessFunction, OArray};

#[test]
fn test_dist() {
    let a = [false, true, false];
    let b = [false, false, true];
    let c = [true, true, false];
    assert!(hamming_dist(&a, &a) == 0);
    assert!(hamming_dist(&a, &b) == 2);
    assert!(hamming_dist(&b, &a) == 2);
    assert!(hamming_dist(&a, &c) == 1);
    assert!(hamming_dist(&c, &a) == 1);
    assert!(hamming_dist(&b, &c) == 3);
    assert!(hamming_dist(&c, &b) == 3);
}

#[test]
fn test_zero_w() {
    let d = vec![
        false, true, false, true, false, true, false, true, false, false, true, true, false, false,
        true, true, false, false, false, false, true, true, true, true,
    ];
    let result = vec![1, 3, 3, 1];
    let oa = OArray::new(8, 3, 2, d, FitnessFunction::Delta);
    println!("{}", String::from_utf8(oa.render()).unwrap());
    assert!(oa.zero_weight_d() == result);
}

#[test]
fn distances_over_the_shorter_string() {
    assert_eq!(hamming_dist(&[true, false, true], &[false]), 1);
    assert_eq!(hamming_dist(&[], &[true]), 0);
}

#[test]
fn weight_distributions() {
    let d = vec![false, true, true, true, false, true, false, true];
    let oa = OArray::new(4, 2, 1, d, FitnessFunction::Delta);
    // Rows 00, 11, 10, 11.
    assert_eq!(oa.zero_weight_d(), vec![1, 1, 2]);
    assert_eq!(oa.u_weight_d(&[true, true]), vec![2, 1, 1]);
    // Columns 0111 and 0101 against 0101.
    assert_eq!(oa.u_weight_d_col(&[false, true, false, true]), vec![1, 1, 0, 0, 0]);
    // Pairs of rows, in order: at distance zero 1 + 2 + 1 + 2, at distance
    // one 1 + 1 + 3 + 1, at distance two 2 + 1 + 0 + 1.
    assert_eq!(oa.proper_weight_counts(), vec![6, 6, 4]);
}
