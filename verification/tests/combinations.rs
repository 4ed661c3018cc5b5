use oarray::t_combinations::Combinations;

fn check_result(results: &[&[usize]], c: &mut Combinations) {
    let mut it = c.stream_iter();
    let mut i = 0;
    while let Some(item) = it.next() {
        assert!(item.as_slice() == results[i]);
        i += 1;
    }
    assert!(i == results.len());
}

fn binomial(n: usize, t: usize) -> usize {
    if t == 0 {
        1
    } else if n == 0 {
        0
    } else {
        binomial(n - 1, t - 1) + binomial(n - 1, t)
    }
}

#[test]
fn t_combinations_test0() {
    let mut c = Combinations::new(2, 0);
    let results: Vec<&[usize]> = vec![];
    check_result(&results, &mut c);
}

#[test]
fn t_combinations_test1() {
    let mut c = Combinations::new(2, 1);
    let results: Vec<&[usize]> = vec![&[0], &[1]];
    check_result(&results, &mut c);
}

#[test]
fn t_combinations_test2() {
    let mut c = Combinations::new(4, 3);
    let results: Vec<&[usize]> = vec![&[0usize, 1, 2], &[0, 1, 3], &[0, 2, 3], &[1, 2, 3]];
    check_result(&results, &mut c);
}

#[test]
fn combinations_of_two_among_four_in_order() {
    let mut c = Combinations::new(4, 2);
    let all = c.iter();
    let expected: Vec<Vec<usize>> = vec![
        vec![0, 1],
        vec![0, 2],
        vec![1, 2],
        vec![0, 3],
        vec![1, 3],
        vec![2, 3],
    ];
    assert_eq!(all, expected);
}

#[test]
fn combinations_are_counted_by_the_binomial() {
    for n in 0..9usize {
        for t in 0..=n {
            let mut c = Combinations::new(n, t as u32);
            let all = c.iter();
            if t == 0 {
                assert_eq!(all.len(), 0);
            } else {
                assert_eq!(all.len(), binomial(n, t));
            }
            for tuple in &all {
                assert_eq!(tuple.len(), t);
                for w in tuple.windows(2) {
                    assert!(w[0] < w[1]);
                }
                assert!(tuple.iter().all(|&x| x < n));
            }
            for pair in all.windows(2) {
                let a: Vec<usize> = pair[0].iter().rev().cloned().collect();
                let b: Vec<usize> = pair[1].iter().rev().cloned().collect();
                assert!(a < b);
            }
        }
    }
}

#[test]
fn the_whole_set_is_its_only_subset() {
    let mut c = Combinations::new(3, 3);
    assert_eq!(c.iter(), vec![vec![0, 1, 2]]);
}

#[test]
fn a_cursor_stays_at_the_end() {
    let mut c = Combinations::new(2, 2);
    let mut it = c.stream_iter();
    it.advance();
    assert_eq!(it.get(), Some(&[0usize, 1][..]));
    it.advance();
    assert_eq!(it.get(), None);
    it.advance();
    assert_eq!(it.get(), None);
    assert_eq!(it.next(), None);
}

#[test]
fn a_cursor_can_be_made_again() {
    let mut c = Combinations::new(3, 2);
    let first = c.iter();
    let second = c.iter();
    assert_eq!(first, second);
    assert_eq!(first.len(), 3);
}
