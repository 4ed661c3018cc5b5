use oarray::wtform::{digit, walsh_tform_step, PolarTruthTable, TruthTable, WalshTform};
use oarray::{FitnessFunction, OArray};
use rand::thread_rng;

#[test]
fn test_truth() {
    let mut test = vec![1, -1, -1, 1, -1, 1, 1, -1];
    println!("{:?}", test);
    println!("{:?}", walsh_tform_step(&mut test));
    println!("{:?}", test);
    assert_eq!(test, vec![0, 0, 0, 0, 0, 0, 0, 8]);
}

#[test]
fn test_from_truth() {
    let mut rng = thread_rng();
    for _ in 0..1000 {
        let r = OArray::new_random_balanced(8, 4, 2, &mut rng, FitnessFunction::Delta);
        let tt = r.truth_table();
        let r_new = OArray::from_truth_table(&tt, 8, 2, FitnessFunction::Delta);
        if let Some(r_new) = r_new {
            assert!(r_new
                .iter_rows()
                .iter()
                .all(|r1| r.iter_rows().iter().any(|r2| r1 == r2)));
        }
    }
}

#[test]
fn the_transform_of_small_tables() {
    let mut one = vec![1];
    walsh_tform_step(&mut one);
    assert_eq!(one, vec![1]);
    let mut two = vec![1, -1];
    walsh_tform_step(&mut two);
    assert_eq!(two, vec![0, 2]);
    let mut four = vec![1, 1, 1, -1];
    walsh_tform_step(&mut four);
    assert_eq!(four, vec![2, 2, 2, -2]);
    let polar = PolarTruthTable { table: vec![-1, -1, 1, 1], log2len: 2 };
    let spectrum = polar.walsh_tform();
    assert_eq!(spectrum.table, vec![0, 0, -4, 0]);
    assert_eq!(spectrum.log2len, 2);
}

#[test]
fn tables_of_an_array() {
    let oa = OArray::new(
        2,
        2,
        1,
        vec![false, true, true, false],
        FitnessFunction::Delta,
    );
    // Rows 01 and 10.
    let tt = oa.truth_table();
    assert_eq!(tt.table, vec![false, true, true, false]);
    assert_eq!(tt.log2len, 2);
    assert_eq!(tt.count(), 2);
    let polar = PolarTruthTable::from(&tt);
    assert_eq!(polar.table, vec![1, -1, -1, 1]);
    let spectrum = polar.walsh_tform();
    assert_eq!(spectrum.table, vec![0, 0, 0, 4]);
    assert_eq!(spectrum.cidev(1), 0);
    assert_eq!(spectrum.cidev(2), 4);
    assert_eq!(spectrum.radius(), 4);
    assert_eq!(spectrum.nonlinearity(), 4);
    assert_eq!(oa.row_value(0), 1);
    assert_eq!(oa.row_value(1), 2);
}

#[test]
fn an_array_from_its_table() {
    let tt = TruthTable::new(vec![false, true, false, true, true, false, false, true]);
    assert_eq!(tt.log2len, 3);
    let oa = OArray::from_truth_table(&tt, 4, 1, FitnessFunction::Delta).unwrap();
    assert_eq!(oa.k, 3);
    assert_eq!(oa.ngrande, 4);
    assert_eq!(
        oa.iter_rows(),
        vec![
            vec![false, false, true],
            vec![false, true, true],
            vec![true, false, false],
            vec![true, true, true],
        ]
    );
    assert!(OArray::from_truth_table(&tt, 2, 1, FitnessFunction::Delta).is_none());
    assert!(OArray::from_truth_table(&tt, 6, 1, FitnessFunction::Delta).is_none());
    let back = oa.truth_table();
    assert_eq!(back.table, tt.table);
}

#[test]
fn rows_that_repeat_make_a_smaller_table() {
    let oa = OArray::new(
        4,
        1,
        1,
        vec![false, true, false, true],
        FitnessFunction::Delta,
    );
    let tt = oa.truth_table();
    assert_eq!(tt.table, vec![true, true]);
    assert!(OArray::from_truth_table(&tt, 4, 1, FitnessFunction::Delta).is_none());
}

#[test]
fn lengths_and_their_logarithms() {
    assert_eq!(TruthTable::new(vec![]).log2len, 0);
    assert_eq!(TruthTable::new(vec![true]).log2len, 0);
    assert_eq!(TruthTable::new(vec![true; 2]).log2len, 1);
    assert_eq!(TruthTable::new(vec![true; 3]).log2len, 1);
    assert_eq!(TruthTable::new(vec![true; 16]).log2len, 4);
    assert_eq!(TruthTable::new(vec![true; 17]).log2len, 4);
}

#[test]
fn digits_of_a_number() {
    assert!(digit(5, 3, 0));
    assert!(!digit(5, 3, 1));
    assert!(digit(5, 3, 2));
    assert!(!digit(5, 4, 0));
    assert!(digit(8, 3, 2) == false);
}

#[test]
fn the_largest_coefficients() {
    let spectrum = WalshTform { table: vec![8, -2, 4, -6, 0, 2, -4, 6], log2len: 3 };
    // Weight one: places 1, 2, 4. Weight two: 3, 5, 6.
    assert_eq!(spectrum.cidev(1), 4);
    assert_eq!(spectrum.cidev(2), 6);
    assert_eq!(spectrum.cidev(3), 6);
    assert_eq!(spectrum.radius(), 8);
}

#[test]
fn the_transform_twice_scales_the_table() {
    let tables: Vec<Vec<i32>> = vec![
        vec![5],
        vec![3, -7],
        vec![1, -1, -1, 1, -1, 1, 1, -1],
        vec![0, 4, -2, 9, 9, -30, 1, 2],
        vec![0; 16],
    ];
    for table in tables {
        let len = table.len() as i32;
        let mut v = table.clone();
        walsh_tform_step(&mut v);
        // The squares of the spectrum add up to the length times those of
        // the table.
        let before: i64 = table.iter().map(|&x| (x as i64) * (x as i64)).sum();
        let after: i64 = v.iter().map(|&x| (x as i64) * (x as i64)).sum();
        assert_eq!(after, (len as i64) * before);
        walsh_tform_step(&mut v);
        let scaled: Vec<i32> = table.iter().map(|&x| len * x).collect();
        assert_eq!(v, scaled);
    }
}

#[test]
fn the_transform_of_larger_entries() {
    let mut v = vec![3, -7, 2, 0];
    walsh_tform_step(&mut v);
    assert_eq!(v, vec![-2, 12, -6, 8]);
}
