use oarray::balance::is_balanced;
use oarray::epoch::{draw_triple, index_of_best, index_of_worst, rank_triple, LazyUnit, TournamentEpoch, Unit};
use oarray::genetic_operators::{
    balanced_crossover, count_differing, crossover_choice, mutate_column, nth_differing,
    random_order, GAOArray, Probability,
};
use oarray::{FitnessFunction, OArray};
use rand::thread_rng;

/// A clone is the same array, a sure mutation changes it, and an
/// offspring differs from both parents. The last holds of all but a few
/// runs in a thousand: an offspring can come out as one of its parents.
fn mutation_changes_and_offspring_differ() -> bool {
    let mut r = thread_rng();
    let mut a = GAOArray {
        oa: OArray::new_random_balanced(8, 4, 3, &mut r, FitnessFunction::DeltaFast),
        mutation_prob: Probability::new(1, 2),
    };
    let b = a.clone();
    assert!(a.oa.d == b.oa.d);
    a.mutate_with_prob(Probability::new(1, 1), &mut r);
    assert!(a.oa.d != b.oa.d);
    let c = a.breed_with(&b);
    a.oa.d != c.oa.d && b.oa.d != c.oa.d
}

#[test]
fn genetic_operators_mutation() {
    assert!((0..4).any(|_| mutation_changes_and_offspring_differ()));
}

#[test]
fn balanced_crossover_test() {
    let mut r = thread_rng();
    for _ in 0..100 {
        let a = GAOArray {
            oa: OArray::new_random_balanced(8, 1, 1, &mut r, FitnessFunction::DeltaFast),
            mutation_prob: Probability::new(1, 2),
        };
        let b = GAOArray {
            oa: OArray::new_random_balanced(8, 1, 1, &mut r, FitnessFunction::DeltaFast),
            mutation_prob: Probability::new(1, 2),
        };
        let mut c = GAOArray {
            oa: OArray::new_random_balanced(8, 1, 1, &mut r, FitnessFunction::DeltaFast),
            mutation_prob: Probability::new(1, 2),
        };
        assert!(is_balanced(&a.oa.d));
        assert!(is_balanced(&b.oa.d));
        c.oa.d = balanced_crossover(&a.oa.d, &b.oa.d, &mut r);
        assert!(is_balanced(&c.oa.d));
    }
}

#[test]
fn oarray_new_random() {
    let a = OArray::new_random_balanced(8, 4, 3, &mut thread_rng(), FitnessFunction::DeltaFast);
    for col in a.iter_cols() {
        let num0 = col.iter().filter(|&&i| i).count();
        let num1 = col.iter().filter(|&&i| !i).count();
        assert!(num0 == num1);
    }
}

#[test]
fn crossover_is_balanced_whatever_the_parents() {
    let mut r = thread_rng();
    let ones = vec![true; 10];
    let zeros = vec![false; 10];
    for _ in 0..50 {
        let out = balanced_crossover(&ones, &ones, &mut r);
        assert!(is_balanced(&out));
        let out = balanced_crossover(&zeros, &ones, &mut r);
        assert!(is_balanced(&out));
        assert_eq!(out.len(), 10);
    }
    assert_eq!(balanced_crossover(&[], &[], &mut r), Vec::<bool>::new());
}

#[test]
fn the_choice_of_one_row() {
    assert!(crossover_choice(0, 3, false, false, true));
    assert!(!crossover_choice(3, 0, true, true, true));
    assert!(crossover_choice(2, 2, true, false, true));
    assert!(!crossover_choice(2, 2, true, false, false));
    assert!(crossover_choice(0, 0, false, false, false));
}

#[test]
fn a_random_order_holds_every_place_once() {
    let mut r = thread_rng();
    let mut moved = false;
    for _ in 0..20 {
        let pos = random_order(50, &mut r);
        let mut sorted = pos.clone();
        sorted.sort();
        assert_eq!(sorted, (0..50).collect::<Vec<usize>>());
        if pos != sorted {
            moved = true;
        }
    }
    assert!(moved);
    assert_eq!(random_order(0, &mut r), Vec::<usize>::new());
}

#[test]
fn mutation_exchanges_two_bits_that_differ() {
    let mut r = thread_rng();
    for _ in 0..100 {
        let before = vec![true, false, false, true, true, false];
        let mut col = before.clone();
        mutate_column(&mut col, &mut r);
        let changed: Vec<usize> = (0..6).filter(|&i| col[i] != before[i]).collect();
        assert_eq!(changed.len(), 2);
        assert!(before[changed[0]] != before[changed[1]]);
        assert_eq!(col.iter().filter(|&&x| x).count(), 3);
    }
    let mut alike = vec![true; 4];
    mutate_column(&mut alike, &mut r);
    assert_eq!(alike, vec![true; 4]);
    let mut empty: Vec<bool> = vec![];
    mutate_column(&mut empty, &mut r);
    assert!(empty.is_empty());
    assert_eq!(count_differing(&vec![true, false, false], true), 2);
    assert_eq!(nth_differing(&vec![true, false, true, false], true, 1), 3);
    assert_eq!(nth_differing(&vec![true, false, true, false], false, 1), 2);
}

#[test]
fn mutation_keeps_the_weight_of_every_column() {
    let mut r = thread_rng();
    for _ in 0..50 {
        let mut a = GAOArray {
            oa: OArray::new_random_balanced(8, 5, 2, &mut r, FitnessFunction::DeltaFast),
            mutation_prob: Probability::new(1, 2),
        };
        let before = a.oa.iter_cols();
        a.mutate_with_prob(Probability::new(1, 2), &mut r);
        let after = a.oa.iter_cols();
        for (x, y) in before.iter().zip(after.iter()) {
            assert_eq!(x.iter().filter(|&&b| b).count(), y.iter().filter(|&&b| b).count());
            let changed = x.iter().zip(y.iter()).filter(|(p, q)| p != q).count();
            assert!(changed == 0 || changed == 2);
        }
        a.mutate_with_prob(Probability::new(0, 1), &mut r);
        assert_eq!(a.oa.iter_cols(), after);
        a.mutate_with_prob(Probability::new(3, 0), &mut r);
        assert_eq!(a.oa.iter_cols(), after);
    }
}

#[test]
fn probabilities_that_are_sure() {
    let mut r = thread_rng();
    for _ in 0..100 {
        assert!(Probability::new(1, 1).draw(&mut r));
        assert!(Probability::new(7, 3).draw(&mut r));
        assert!(!Probability::new(0, 5).draw(&mut r));
        assert!(!Probability::new(5, 0).draw(&mut r));
    }
    let mut hits = 0;
    for _ in 0..2000 {
        if Probability::new(1, 2).draw(&mut r) {
            hits += 1;
        }
    }
    assert!(hits > 700 && hits < 1300);
}

#[test]
fn offspring_are_balanced() {
    let mut r = thread_rng();
    let a = GAOArray {
        oa: OArray::new_random_balanced(8, 4, 2, &mut r, FitnessFunction::Walsh(2)),
        mutation_prob: Probability::new(1, 5),
    };
    let b = GAOArray {
        oa: OArray::new_random_balanced(8, 4, 2, &mut r, FitnessFunction::DeltaFast),
        mutation_prob: Probability::new(1, 1),
    };
    for _ in 0..50 {
        let c = a.breed_with(&b);
        assert!(c.oa.is_valid());
        assert_eq!(c.oa.fitness_f, FitnessFunction::Walsh(2));
        assert_eq!(c.mutation_prob, Probability::new(1, 5));
        for col in c.oa.iter_cols() {
            assert!(is_balanced(&col));
        }
        assert!(Unit::fitness(&c) <= 0);
    }
}

#[test]
fn three_different_places() {
    let mut r = thread_rng();
    let mut seen = [[false; 3]; 3];
    for _ in 0..500 {
        let (a, b, c) = draw_triple(3, &mut r);
        assert!(a < 3 && b < 3 && c < 3);
        assert!(a != b && a != c && b != c);
        seen[0][a] = true;
        seen[1][b] = true;
        seen[2][c] = true;
        let (x, y, z) = draw_triple(7, &mut r);
        assert!(x < 7 && y < 7 && z < 7);
        assert!(x != y && x != z && y != z);
    }
    assert!(seen.iter().all(|row| row.iter().all(|&s| s)));
}

#[test]
fn the_two_fittest_of_three() {
    assert_eq!(rank_triple(-3, -2, -1), (2, 1));
    assert_eq!(rank_triple(-1, -2, -3), (0, 1));
    assert_eq!(rank_triple(-2, -1, -3), (1, 0));
    assert_eq!(rank_triple(-2, -3, -1), (2, 0));
    assert_eq!(rank_triple(-1, -3, -2), (0, 2));
    assert_eq!(rank_triple(-3, -1, -2), (1, 2));
    // Of equals, the later one ranks higher.
    assert_eq!(rank_triple(0, 0, 0), (2, 1));
    assert_eq!(rank_triple(-1, -1, -5), (1, 0));
    assert_eq!(rank_triple(-5, -1, -1), (2, 1));
    assert_eq!(rank_triple(-1, -5, -1), (2, 0));
    assert_eq!(index_of_best(&vec![-4, -1, -7, -1]), 3);
    assert_eq!(index_of_worst(&vec![-4, -7, -1, -7]), 1);
    assert_eq!(index_of_best(&vec![-4]), 0);
}

#[test]
fn an_epoch_never_loses_the_best() {
    let mut r = thread_rng();
    for f in [FitnessFunction::DeltaFast, FitnessFunction::Walsh(2), FitnessFunction::WalshFaster(2)] {
        let mut units: Vec<LazyUnit<GAOArray>> = (0..10)
            .map(|_| {
                LazyUnit::from(GAOArray {
                    oa: OArray::new_random_balanced(8, 5, 2, &mut r, f),
                    mutation_prob: Probability::new(1, 5),
                })
            })
            .collect();
        let epoch = TournamentEpoch::new();
        let mut best = units.iter().map(|u| u.unit.fitness()).max().unwrap();
        for _ in 0..30 {
            let go_on = epoch.epoch(&mut units, 12, &mut r);
            assert_eq!(units.len(), 12);
            assert_eq!(go_on, best != 0);
            let now = units.iter().map(|u| u.unit.fitness()).max().unwrap();
            assert!(now >= best);
            for u in &units {
                assert_eq!(u.lazy_fitness, Some(u.unit.fitness()));
                assert!(u.unit.oa.iter_cols().iter().all(|c| is_balanced(c)));
            }
            best = now;
        }
    }
}

#[test]
fn an_epoch_keeps_a_perfect_unit() {
    let mut r = thread_rng();
    let perfect = OArray::new(
        4,
        2,
        2,
        vec![false, false, true, true, false, true, false, true],
        FitnessFunction::DeltaFast,
    );
    let poor = OArray::new(
        4,
        2,
        2,
        vec![false, false, true, true, false, false, true, true],
        FitnessFunction::DeltaFast,
    );
    let mut units: Vec<LazyUnit<GAOArray>> = vec![
        LazyUnit::from(GAOArray { oa: poor.clone(), mutation_prob: Probability::new(0, 1) }),
        LazyUnit::from(GAOArray { oa: perfect, mutation_prob: Probability::new(0, 1) }),
        LazyUnit::from(GAOArray { oa: poor, mutation_prob: Probability::new(0, 1) }),
    ];
    let epoch = TournamentEpoch::new();
    let go_on = epoch.epoch(&mut units, 1, &mut r);
    assert!(!go_on);
    assert_eq!(units.len(), 1);
    assert_eq!(units[0].unit.fitness(), 0);
    let mut cached = LazyUnit::from(GAOArray {
        oa: OArray::generate_partial(4, 2, FitnessFunction::Walsh(2)),
        mutation_prob: Probability::new(0, 1),
    });
    assert_eq!(cached.lazy_fitness, None);
    assert_eq!(cached.fitness(), 0);
    assert_eq!(cached.lazy_fitness, Some(0));
}

#[test]
fn a_sure_mutation_changes_every_column_that_can_change() {
    let mut r = thread_rng();
    for _ in 0..50 {
        let mut a = GAOArray {
            oa: OArray::new_random_balanced(8, 5, 2, &mut r, FitnessFunction::DeltaFast),
            mutation_prob: Probability::new(1, 2),
        };
        // The last column is made all ones: it cannot change.
        for cell in a.oa.d[32..].iter_mut() {
            *cell = true;
        }
        let before = a.oa.iter_cols();
        a.mutate_with_prob(Probability::new(1, 1), &mut r);
        let after = a.oa.iter_cols();
        for c in 0..4 {
            let changed = before[c].iter().zip(after[c].iter()).filter(|(p, q)| p != q).count();
            assert_eq!(changed, 2);
        }
        assert_eq!(before[4], after[4]);
    }
}

fn differing(a: &[bool], b: &[bool]) -> usize {
    a.iter().zip(b.iter()).filter(|(x, y)| x != y).count()
}

#[test]
fn offspring_of_an_array_with_itself() {
    let mut r = thread_rng();
    for _ in 0..50 {
        let oa = OArray::new_random_balanced(8, 5, 2, &mut r, FitnessFunction::DeltaFast);
        // Without mutation the crossover of a balanced column with itself
        // is that column.
        let calm = GAOArray { oa: oa.clone(), mutation_prob: Probability::new(0, 1) };
        let child = calm.breed_with(&calm.clone());
        assert_eq!(child.oa.d, oa.d);
        assert_eq!(child.oa.k, 5);
        assert_eq!(child.oa.ngrande, 8);
        // A sure mutation then exchanges two bits in each column.
        let wild = GAOArray { oa: oa.clone(), mutation_prob: Probability::new(1, 1) };
        let child = wild.breed_with(&wild.clone());
        for (c, col) in child.oa.iter_cols().iter().enumerate() {
            assert_eq!(differing(col, &oa.d[c * 8..(c + 1) * 8]), 2);
            assert!(is_balanced(col));
        }
        // Any other probability leaves a column or exchanges two bits.
        let some = GAOArray { oa: oa.clone(), mutation_prob: Probability::new(1, 2) };
        let child = some.breed_with(&some.clone());
        for (c, col) in child.oa.iter_cols().iter().enumerate() {
            let d = differing(col, &oa.d[c * 8..(c + 1) * 8]);
            assert!(d == 0 || d == 2);
        }
    }
}

#[test]
fn keeping_the_first_columns() {
    let d = vec![
        false, true, false, true, false, false, true, true, true, false, false, true,
    ];
    let mut oa = OArray::new(4, 3, 1, d.clone(), FitnessFunction::DeltaFast);
    oa.keep_columns(3);
    assert_eq!(oa.d, d);
    assert_eq!(oa.k, 3);
    oa.keep_columns(2);
    assert_eq!(oa.d, d[..8].to_vec());
    assert_eq!(oa.k, 2);
    assert_eq!(oa.ngrande, 4);
    assert_eq!(oa.target_t, 1);
    assert_eq!(oa.lambda, 2);
    assert_eq!(oa.fitness_f, FitnessFunction::DeltaFast);
    assert_eq!(oa.iter_cols(), vec![d[..4].to_vec(), d[4..8].to_vec()]);
    oa.keep_columns(0);
    assert!(oa.d.is_empty());
    assert_eq!(oa.k, 0);
}
