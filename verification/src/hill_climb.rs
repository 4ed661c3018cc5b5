//! One step of local search on the truth table of an array: two inputs
//! with different outputs are exchanged where the Walsh spectrum shows
//! that this lowers its largest low-weight coefficients.

use vstd::prelude::*;
use crate::binary_strings::{popcount, pow2, usize_hamming_weight, value_be};
use crate::genetic_operators::{GAOArray, Probability};
use crate::oarray::OArray;
use crate::random::local_rng;
use crate::wtform::{
    cidev_of, spectrum_of, table_of, bits_of, count_true, ints, lemma_count_true_swap, max_low_weight, polar, true_indices,
    walsh_spectrum, PolarTruthTable, TruthTable, WalshTform, MAX_INPUTS,
};

verus! {

/// The parity of the number of places where both `x1` and `x2` have a one
/// bit: the value at `x2` of the linear function that `x1` names.
pub open spec fn dot(x1: nat, x2: nat) -> bool
    decreases x1,
{
    if x1 == 0 {
        false
    } else {
        (x1 % 2 == 1 && x2 % 2 == 1) != dot(x1 / 2, x2 / 2)
    }
}

/// The parity of the number of places where both `x1` and `x2` have a
/// one bit.
pub fn scalar_prod(x1: usize, x2: usize) -> (r: bool)
    ensures
        r == dot(x1 as nat, x2 as nat),
{
    let mut a: usize = x1;
    let mut b: usize = x2;
    let mut out = false;
    while a != 0
        invariant
            (out != dot(a as nat, b as nat)) == dot(x1 as nat, x2 as nat),
        decreases a,
    {
        if a % 2 == 1 && b % 2 == 1 {
            out = !out;
        }
        a = a / 2;
        b = b / 2;
    }
    out
}

/// The class of a spectral coefficient, by its signed value against the
/// largest low-weight size `a`: equal to `a`, `a - 2` or `a - 4`, or to
/// the negative of one of them.
#[derive(Clone, Copy, Debug, PartialEq, Eq, Structural)]
pub enum Bucket {
    PlusA,
    PlusB,
    PlusC,
    MinusA,
    MinusB,
    MinusC,
    Other,
}

/// The class of the value `val`. Where several classes fit, the first in
/// the order plus a, plus b, plus c, minus a, minus b, minus c is taken.
pub open spec fn bucket_of(val: int, a: int) -> Bucket {
    if val == a {
        Bucket::PlusA
    } else if val == a - 2 {
        Bucket::PlusB
    } else if val == a - 4 {
        Bucket::PlusC
    } else if val == -a {
        Bucket::MinusA
    } else if val == -(a - 2) {
        Bucket::MinusB
    } else if val == -(a - 4) {
        Bucket::MinusC
    } else {
        Bucket::Other
    }
}

/// The class of the coefficient `val` against the largest low-weight
/// size `a`.
pub fn classify(val: i32, a: i32) -> (r: Bucket)
    requires
        0 <= a <= 0x4000_0000,
    ensures
        r == bucket_of(val as int, a as int),
{
    let b = a - 2;
    let c = a - 4;
    if val == a {
        Bucket::PlusA
    } else if val == b {
        Bucket::PlusB
    } else if val == c {
        Bucket::PlusC
    } else if val == -a {
        Bucket::MinusA
    } else if val == -b {
        Bucket::MinusB
    } else if val == -c {
        Bucket::MinusC
    } else {
        Bucket::Other
    }
}

/// The indices below `m` of weight at most `t` whose coefficient in `w` is
/// of class `kind`, in rising order.
pub open spec fn bucket(w: Seq<int>, t: nat, a: int, kind: Bucket, m: nat) -> Seq<usize>
    decreases m,
{
    if m == 0 {
        Seq::<usize>::empty()
    } else if popcount((m - 1) as nat) <= t && bucket_of(w[m - 1], a) == kind {
        bucket(w, t, a, kind, (m - 1) as nat).push((m - 1) as usize)
    } else {
        bucket(w, t, a, kind, (m - 1) as nat)
    }
}

/// The six lists of frequencies that the test of a pair reads.
pub struct Buckets {
    pub w1p: Vec<usize>,
    pub w1m: Vec<usize>,
    pub w2p: Vec<usize>,
    pub w2m: Vec<usize>,
    pub w3p: Vec<usize>,
    pub w3m: Vec<usize>,
}

impl Buckets {
    /// The lists are the six classes of the spectrum `w` at strength `t`
    /// and largest size `a`.
    pub open spec fn sorts(&self, w: Seq<int>, t: nat, a: int) -> bool {
        &&& self.w1p@ == bucket(w, t, a, Bucket::PlusA, w.len())
        &&& self.w2p@ == bucket(w, t, a, Bucket::PlusB, w.len())
        &&& self.w3p@ == bucket(w, t, a, Bucket::PlusC, w.len())
        &&& self.w1m@ == bucket(w, t, a, Bucket::MinusA, w.len())
        &&& self.w2m@ == bucket(w, t, a, Bucket::MinusB, w.len())
        &&& self.w3m@ == bucket(w, t, a, Bucket::MinusC, w.len())
    }

    /// The six conditions hold together for the pair `(x1, x2)` and the
    /// truth table `tt`.
    pub open spec fn admits(&self, tt: Seq<bool>, x1: int, x2: int) -> bool {
        &&& values_differ(tt, x1, x2)
        &&& separates_all(self.w1p@, x1, x2)
        &&& separates_all(self.w1m@, x1, x2)
        &&& agrees_with_all(tt, self.w1p@, x1, x2)
        &&& differs_from_all(tt, self.w1m@, x1, x2)
        &&& agrees_where_separated(tt, self.w2p@, x1, x2)
        &&& agrees_where_separated(tt, self.w3p@, x1, x2)
        &&& differs_where_separated(tt, self.w2m@, x1, x2)
        &&& differs_where_separated(tt, self.w3m@, x1, x2)
    }

    /// `(x1, x2)` is the first pair of the scan that the lists admit.
    pub open spec fn first_admitted(&self, tt: Seq<bool>, x1: int, x2: int) -> bool {
        &&& 0 <= x1 < x2 < tt.len()
        &&& self.admits(tt, x1, x2)
        &&& forall|y1: int, y2: int|
            0 <= y1 < y2 < tt.len() && scanned_before(y1, y2, x1, x2) ==> !#[trigger] self.admits(
                tt,
                y1,
                y2,
            )
    }

    /// The lists admit no pair.
    pub open spec fn none_admitted(&self, tt: Seq<bool>) -> bool {
        forall|y1: int, y2: int| 0 <= y1 < y2 < tt.len() ==> !#[trigger] self.admits(tt, y1, y2)
    }

    /// Sorts the low-weight frequencies of `wtform` into their classes.
    pub fn new(wtform: &WalshTform, target_t: u32, a: i32) -> (r: Buckets)
        requires
            0 <= a <= 0x4000_0000,
        ensures
            r.sorts(ints(wtform.table@), target_t as nat, a as int),
    {
        let mut w1p: Vec<usize> = Vec::new();
        let mut w1m: Vec<usize> = Vec::new();
        let mut w2p: Vec<usize> = Vec::new();
        let mut w2m: Vec<usize> = Vec::new();
        let mut w3p: Vec<usize> = Vec::new();
        let mut w3m: Vec<usize> = Vec::new();
        let ghost w = ints(wtform.table@);
        let ghost t = target_t as nat;
        let mut index: usize = 0;
        while index < wtform.table.len()
            invariant
                index <= wtform.table.len(),
                0 <= a <= 0x4000_0000,
                w == ints(wtform.table@),
                t == target_t as nat,
                w1p@ == bucket(w, t, a as int, Bucket::PlusA, index as nat),
                w2p@ == bucket(w, t, a as int, Bucket::PlusB, index as nat),
                w3p@ == bucket(w, t, a as int, Bucket::PlusC, index as nat),
                w1m@ == bucket(w, t, a as int, Bucket::MinusA, index as nat),
                w2m@ == bucket(w, t, a as int, Bucket::MinusB, index as nat),
                w3m@ == bucket(w, t, a as int, Bucket::MinusC, index as nat),
            decreases wtform.table.len() - index,
        {
            let val = wtform.table[index];
            let kind = classify(val, a);
            if usize_hamming_weight(index) <= target_t as usize {
                match kind {
                    Bucket::PlusA => w1p.push(index),
                    Bucket::PlusB => w2p.push(index),
                    Bucket::PlusC => w3p.push(index),
                    Bucket::MinusA => w1m.push(index),
                    Bucket::MinusB => w2m.push(index),
                    Bucket::MinusC => w3m.push(index),
                    Bucket::Other => {},
                }
            }
            index = index + 1;
        }
        Buckets { w1p, w1m, w2p, w2m, w3p, w3m }
    }
}

/// First condition: the function takes different values at `x1` and `x2`.
pub open spec fn values_differ(tt: Seq<bool>, x1: int, x2: int) -> bool {
    tt[x1] != tt[x2]
}

/// Every frequency of `list` tells `x1` from `x2`.
pub open spec fn separates_all(list: Seq<usize>, x1: int, x2: int) -> bool {
    forall|i: int|
        0 <= i < list.len() ==> dot((#[trigger] list[i]) as nat, x1 as nat) != dot(
            list[i] as nat,
            x2 as nat,
        )
}

/// At `x1` and at `x2`, the function agrees with every frequency of
/// `list`.
pub open spec fn agrees_with_all(tt: Seq<bool>, list: Seq<usize>, x1: int, x2: int) -> bool {
    forall|i: int|
        0 <= i < list.len() ==> tt[x1] == dot((#[trigger] list[i]) as nat, x1 as nat) && tt[x2]
            == dot(list[i] as nat, x2 as nat)
}

/// At `x1` and at `x2`, the function differs from every frequency of
/// `list`.
pub open spec fn differs_from_all(tt: Seq<bool>, list: Seq<usize>, x1: int, x2: int) -> bool {
    forall|i: int|
        0 <= i < list.len() ==> tt[x1] != dot((#[trigger] list[i]) as nat, x1 as nat) && tt[x2]
            != dot(list[i] as nat, x2 as nat)
}

/// Every frequency of `list` that tells `x1` from `x2` agrees with the
/// function at both.
pub open spec fn agrees_where_separated(
    tt: Seq<bool>,
    list: Seq<usize>,
    x1: int,
    x2: int,
) -> bool {
    forall|i: int|
        0 <= i < list.len() && dot((#[trigger] list[i]) as nat, x1 as nat) != dot(
            list[i] as nat,
            x2 as nat,
        ) ==> tt[x1] == dot(list[i] as nat, x1 as nat) && tt[x2] == dot(list[i] as nat, x2 as nat)
}

/// Every frequency of `list` that tells `x1` from `x2` differs from the
/// function at both.
pub open spec fn differs_where_separated(
    tt: Seq<bool>,
    list: Seq<usize>,
    x1: int,
    x2: int,
) -> bool {
    forall|i: int|
        0 <= i < list.len() && dot((#[trigger] list[i]) as nat, x1 as nat) != dot(
            list[i] as nat,
            x2 as nat,
        ) ==> tt[x1] != dot(list[i] as nat, x1 as nat) && tt[x2] != dot(list[i] as nat, x2 as nat)
}

/// Exchanging the values at `x1` and `x2` is an improving move: the six
/// conditions hold together.
pub open spec fn improving(
    tt: Seq<bool>,
    w: Seq<int>,
    t: nat,
    a: int,
    x1: int,
    x2: int,
) -> bool {
    let n = w.len();
    &&& values_differ(tt, x1, x2)
    &&& separates_all(bucket(w, t, a, Bucket::PlusA, n), x1, x2)
    &&& separates_all(bucket(w, t, a, Bucket::MinusA, n), x1, x2)
    &&& agrees_with_all(tt, bucket(w, t, a, Bucket::PlusA, n), x1, x2)
    &&& differs_from_all(tt, bucket(w, t, a, Bucket::MinusA, n), x1, x2)
    &&& agrees_where_separated(tt, bucket(w, t, a, Bucket::PlusB, n), x1, x2)
    &&& agrees_where_separated(tt, bucket(w, t, a, Bucket::PlusC, n), x1, x2)
    &&& differs_where_separated(tt, bucket(w, t, a, Bucket::MinusB, n), x1, x2)
    &&& differs_where_separated(tt, bucket(w, t, a, Bucket::MinusC, n), x1, x2)
}

/// The pair `(x1, x2)` comes before `(y1, y2)` in the scan.
pub open spec fn scanned_before(x1: int, x2: int, y1: int, y2: int) -> bool {
    x1 < y1 || (x1 == y1 && x2 < y2)
}

/// `(x1, x2)` is the first improving pair of the scan over all pairs
/// `x1 < x2` below `len`.
pub open spec fn first_improving(
    tt: Seq<bool>,
    w: Seq<int>,
    t: nat,
    a: int,
    x1: int,
    x2: int,
) -> bool {
    &&& 0 <= x1 < x2 < w.len()
    &&& improving(tt, w, t, a, x1, x2)
    &&& forall|y1: int, y2: int|
        0 <= y1 < y2 < w.len() && scanned_before(y1, y2, x1, x2) ==> !#[trigger] improving(
            tt,
            w,
            t,
            a,
            y1,
            y2,
        )
}

/// No pair below `len` is an improving one.
pub open spec fn none_improving(tt: Seq<bool>, w: Seq<int>, t: nat, a: int) -> bool {
    forall|y1: int, y2: int|
        0 <= y1 < y2 < w.len() ==> !#[trigger] improving(tt, w, t, a, y1, y2)
}

/// Second condition: whether every frequency of `list` tells `x1` from
/// `x2`.
pub fn check_separates(list: &Vec<usize>, x1: usize, x2: usize) -> (r: bool)
    ensures
        r == separates_all(list@, x1 as int, x2 as int),
{
    let mut i: usize = 0;
    while i < list.len()
        invariant
            i <= list.len(),
            forall|x: int|
                0 <= x < i ==> dot((#[trigger] list@[x]) as nat, x1 as nat) != dot(
                    list@[x] as nat,
                    x2 as nat,
                ),
        decreases list.len() - i,
    {
        if scalar_prod(list[i], x1) == scalar_prod(list[i], x2) {
            return false;
        }
        i = i + 1;
    }
    true
}

/// Third condition: whether the function agrees with every frequency
/// of `list`, at `x1` and at `x2`.
pub fn check_agrees(truth: &Vec<bool>, list: &Vec<usize>, x1: usize, x2: usize) -> (r: bool)
    requires
        x1 < truth.len(),
        x2 < truth.len(),
    ensures
        r == agrees_with_all(truth@, list@, x1 as int, x2 as int),
{
    let mut i: usize = 0;
    while i < list.len()
        invariant
            i <= list.len(),
            x1 < truth.len(),
            x2 < truth.len(),
            forall|x: int|
                0 <= x < i ==> truth@[x1 as int] == dot((#[trigger] list@[x]) as nat, x1 as nat)
                    && truth@[x2 as int] == dot(list@[x] as nat, x2 as nat),
        decreases list.len() - i,
    {
        if !(truth[x1] == scalar_prod(list[i], x1) && truth[x2] == scalar_prod(list[i], x2)) {
            return false;
        }
        i = i + 1;
    }
    true
}

/// Fourth condition: whether the function differs from every frequency
/// of `list`, at `x1` and at `x2`.
pub fn check_differs(truth: &Vec<bool>, list: &Vec<usize>, x1: usize, x2: usize) -> (r: bool)
    requires
        x1 < truth.len(),
        x2 < truth.len(),
    ensures
        r == differs_from_all(truth@, list@, x1 as int, x2 as int),
{
    let mut i: usize = 0;
    while i < list.len()
        invariant
            i <= list.len(),
            x1 < truth.len(),
            x2 < truth.len(),
            forall|x: int|
                0 <= x < i ==> truth@[x1 as int] != dot((#[trigger] list@[x]) as nat, x1 as nat)
                    && truth@[x2 as int] != dot(list@[x] as nat, x2 as nat),
        decreases list.len() - i,
    {
        if !(truth[x1] != scalar_prod(list[i], x1) && truth[x2] != scalar_prod(list[i], x2)) {
            return false;
        }
        i = i + 1;
    }
    true
}

/// Fifth condition: whether every frequency of `list` that tells `x1`
/// from `x2` agrees with the function at both.
pub fn check_agrees_where_separated(
    truth: &Vec<bool>,
    list: &Vec<usize>,
    x1: usize,
    x2: usize,
) -> (r: bool)
    requires
        x1 < truth.len(),
        x2 < truth.len(),
    ensures
        r == agrees_where_separated(truth@, list@, x1 as int, x2 as int),
{
    let mut i: usize = 0;
    while i < list.len()
        invariant
            i <= list.len(),
            x1 < truth.len(),
            x2 < truth.len(),
            forall|x: int|
                0 <= x < i && dot((#[trigger] list@[x]) as nat, x1 as nat) != dot(
                    list@[x] as nat,
                    x2 as nat,
                ) ==> truth@[x1 as int] == dot(list@[x] as nat, x1 as nat) && truth@[x2 as int]
                    == dot(list@[x] as nat, x2 as nat),
        decreases list.len() - i,
    {
        let at_first = scalar_prod(list[i], x1);
        let at_second = scalar_prod(list[i], x2);
        if at_first != at_second && !(truth[x1] == at_first && truth[x2] == at_second) {
            return false;
        }
        i = i + 1;
    }
    true
}

/// Sixth condition: whether every frequency of `list` that tells `x1`
/// from `x2` differs from the function at both.
pub fn check_differs_where_separated(
    truth: &Vec<bool>,
    list: &Vec<usize>,
    x1: usize,
    x2: usize,
) -> (r: bool)
    requires
        x1 < truth.len(),
        x2 < truth.len(),
    ensures
        r == differs_where_separated(truth@, list@, x1 as int, x2 as int),
{
    let mut i: usize = 0;
    while i < list.len()
        invariant
            i <= list.len(),
            x1 < truth.len(),
            x2 < truth.len(),
            forall|x: int|
                0 <= x < i && dot((#[trigger] list@[x]) as nat, x1 as nat) != dot(
                    list@[x] as nat,
                    x2 as nat,
                ) ==> truth@[x1 as int] != dot(list@[x] as nat, x1 as nat) && truth@[x2 as int]
                    != dot(list@[x] as nat, x2 as nat),
        decreases list.len() - i,
    {
        let at_first = scalar_prod(list[i], x1);
        let at_second = scalar_prod(list[i], x2);
        if at_first != at_second && !(truth[x1] != at_first && truth[x2] != at_second) {
            return false;
        }
        i = i + 1;
    }
    true
}

/// Whether the six conditions hold together for the pair `(x1, x2)`.
pub fn check_conds(truth: &Vec<bool>, sets: &Buckets, x1: usize, x2: usize) -> (r: bool)
    requires
        x1 < truth.len(),
        x2 < truth.len(),
    ensures
        r == sets.admits(truth@, x1 as int, x2 as int),
{
    truth[x1] != truth[x2] && check_separates(&sets.w1p, x1, x2) && check_separates(
        &sets.w1m,
        x1,
        x2,
    ) && check_agrees(truth, &sets.w1p, x1, x2) && check_differs(truth, &sets.w1m, x1, x2)
        && check_agrees_where_separated(truth, &sets.w2p, x1, x2)
        && check_agrees_where_separated(truth, &sets.w3p, x1, x2)
        && check_differs_where_separated(truth, &sets.w2m, x1, x2)
        && check_differs_where_separated(truth, &sets.w3m, x1, x2)
}

/// The first pair that the lists admit, scanning all pairs in the order
/// of their first and then their second index; none where no pair is
/// admitted.
pub fn find_improvement(truth: &Vec<bool>, sets: &Buckets) -> (r: Option<(usize, usize)>)
    ensures
        match r {
            Some((i, j)) => sets.first_admitted(truth@, i as int, j as int),
            None => sets.none_admitted(truth@),
        },
{
    let max_x = truth.len();
    let mut i: usize = 0;
    while i < max_x
        invariant
            i <= max_x,
            max_x == truth.len(),
            forall|y1: int, y2: int|
                0 <= y1 < y2 < truth@.len() && y1 < i ==> !#[trigger] sets.admits(truth@, y1, y2),
        decreases max_x - i,
    {
        let mut j: usize = i + 1;
        while j < max_x
            invariant
                i < j <= max_x,
                max_x == truth.len(),
                forall|y1: int, y2: int|
                    0 <= y1 < y2 < truth@.len() && y1 < i ==> !#[trigger] sets.admits(
                        truth@,
                        y1,
                        y2,
                    ),
                forall|y2: int| i < y2 < j ==> !#[trigger] sets.admits(truth@, i as int, y2),
            decreases max_x - j,
        {
            if check_conds(truth, sets, i, j) {
                return Some((i, j));
            }
            j = j + 1;
        }
        i = i + 1;
    }
    None
}

/// Lists that sort a spectrum admit exactly the improving pairs.
pub proof fn lemma_admits_improving(
    sets: &Buckets,
    tt: Seq<bool>,
    w: Seq<int>,
    t: nat,
    a: int,
)
    requires
        sets.sorts(w, t, a),
        tt.len() == w.len(),
    ensures
        forall|x1: int, x2: int|
            #[trigger] sets.admits(tt, x1, x2) == improving(tt, w, t, a, x1, x2),
        forall|x1: int, x2: int|
            #[trigger] sets.first_admitted(tt, x1, x2) == first_improving(tt, w, t, a, x1, x2),
        sets.none_admitted(tt) == none_improving(tt, w, t, a),
{
    assert forall|x1: int, x2: int| #[trigger]
        sets.admits(tt, x1, x2) == improving(tt, w, t, a, x1, x2) by {}
    assert forall|x1: int, x2: int| #[trigger]
        sets.first_admitted(tt, x1, x2) == first_improving(tt, w, t, a, x1, x2) by {
        if sets.first_admitted(tt, x1, x2) {
            assert forall|y1: int, y2: int|
                0 <= y1 < y2 < w.len() && scanned_before(y1, y2, x1, x2) implies !#[trigger] improving(
                tt,
                w,
                t,
                a,
                y1,
                y2,
            ) by {
                assert(!sets.admits(tt, y1, y2));
            }
        }
        if first_improving(tt, w, t, a, x1, x2) {
            assert forall|y1: int, y2: int|
                0 <= y1 < y2 < tt.len() && scanned_before(y1, y2, x1, x2) implies !#[trigger] sets.admits(
                tt,
                y1,
                y2,
            ) by {
                assert(!improving(tt, w, t, a, y1, y2));
            }
        }
    }
    if sets.none_admitted(tt) {
        assert forall|y1: int, y2: int| 0 <= y1 < y2 < w.len() implies !#[trigger] improving(
            tt,
            w,
            t,
            a,
            y1,
            y2,
        ) by {
            assert(!sets.admits(tt, y1, y2));
        }
    }
    if none_improving(tt, w, t, a) {
        assert forall|y1: int, y2: int| 0 <= y1 < y2 < tt.len() implies !#[trigger] sets.admits(
            tt,
            y1,
            y2,
        ) by {
            assert(!improving(tt, w, t, a, y1, y2));
        }
    }
}

/// `table` with the entries at `i` and `j` exchanged.
pub open spec fn exchanged(table: Seq<bool>, i: int, j: int) -> Seq<bool> {
    table.update(i, table[j]).update(j, table[i])
}

/// `moved` is the array of the truth table of `oa` after the entries at
/// `i` and `j` were exchanged: its rows are the true inputs of that
/// table, in rising order.
pub open spec fn is_moved(oa: &OArray, moved: &OArray, i: int, j: int) -> bool {
    &&& moved.valid()
    &&& moved.ngrande == oa.ngrande
    &&& moved.k == oa.k
    &&& moved.target_t == oa.target_t
    &&& moved.fitness_f == oa.fitness_f
    &&& forall|x: int|
        0 <= x < moved.ngrande ==> #[trigger] moved.row(x) == bits_of(
            true_indices(exchanged(table_of(oa), i, j), pow2(oa.k as nat))[x] as nat,
            oa.k as nat,
        )
}

/// The truth table of the array reached by a move is the truth table of
/// the array before, with the two entries exchanged.
pub proof fn lemma_moved_table(oa: &OArray, moved: &OArray, i: int, j: int)
    requires
        oa.k <= MAX_INPUTS,
        0 <= i < j < pow2(oa.k as nat),
        table_of(oa)[i] != table_of(oa)[j],
        count_true(table_of(oa), pow2(oa.k as nat)) == oa.ngrande,
        is_moved(oa, moved, i, j),
    ensures
        table_of(moved) == exchanged(table_of(oa), i, j),
{
    let k = oa.k as nat;
    let len = pow2(k);
    let tt = table_of(oa);
    let ex = exchanged(tt, i, j);
    let list = true_indices(ex, len);
    crate::binary_strings::lemma_pow2_monotone(k, 30);
    crate::wtform::lemma_pow2_30();
    lemma_count_true_swap(tt, i, j, len);
    crate::wtform::lemma_true_indices(ex, len);
    assert forall|v: int| 0 <= v < len implies #[trigger] table_of(moved)[v] == ex[v] by {
        if moved.has_value(v) {
            let x = choose|x: int| 0 <= x < moved.ngrande && #[trigger] value_be(moved.row(x)) == v;
            assert(moved.row(x) == bits_of(list[x] as nat, k));
            crate::wtform::lemma_bits_of_value(list[x] as nat, k);
        }
        if ex[v] {
            crate::wtform::lemma_true_indices_complete(ex, len, v);
            let x = choose|x: int| 0 <= x < list.len() && list[x] == v as usize;
            assert(moved.row(x) == bits_of(list[x] as nat, k));
            crate::wtform::lemma_bits_of_value(v as nat, k);
            assert(value_be(moved.row(x)) == v);
        }
    }
    assert(table_of(moved) =~= ex);
}

/// A move never raises the deviation from correlation immunity, where
/// that is at least four. So under the Cidev method, whose score is
/// minus that deviation, a move never lowers the score.
pub proof fn lemma_move_keeps_cidev(oa: &OArray, moved: &OArray, i: int, j: int)
    requires
        1 <= oa.k <= MAX_INPUTS,
        count_true(table_of(oa), pow2(oa.k as nat)) == oa.ngrande,
        first_improving(
            table_of(oa),
            spectrum_of(oa),
            oa.target_t as nat,
            cidev_of(oa),
            i,
            j,
        ),
        is_moved(oa, moved, i, j),
        cidev_of(oa) >= 4,
    ensures
        cidev_of(moved) <= cidev_of(oa),
{
    let k = oa.k as nat;
    let tt = table_of(oa);
    crate::binary_strings::lemma_pow2_monotone(k, 30);
    crate::wtform::lemma_pow2_30();
    crate::spectrum::lemma_spectrum_char_sum(polar(tt), k);
    lemma_moved_table(oa, moved, i, j);
    crate::spectrum::lemma_spectrum_char_sum(polar(exchanged(tt, i, j)), k);
    crate::spectrum::lemma_move_bounds_spectrum(tt, k, oa.target_t as nat, i, j);
}

/// One attempt at an improving move. The spectrum of the truth table of
/// `input` is sorted into classes, all pairs of inputs are scanned for
/// the first improving one, and the two entries of that pair are
/// exchanged. Where the rows of `input` are not all different, or no pair
/// improves, `input` comes back with `false`.
pub fn hill_climb(input: OArray) -> (r: (OArray, bool))
    requires
        input.valid(),
        1 <= input.k <= MAX_INPUTS,
        input.target_t >= 1,
    ensures
        r.1 ==> exists|i: int, j: int|
            #[trigger] first_improving(
                table_of(&input),
                spectrum_of(&input),
                input.target_t as nat,
                cidev_of(&input),
                i,
                j,
            ) && is_moved(&input, &r.0, i, j),
        !r.1 ==> r.0 == input,
        r.1 && cidev_of(&input) >= 4 ==> cidev_of(&r.0) <= cidev_of(&input),
        r.1 <==> count_true(table_of(&input), pow2(input.k as nat)) == input.ngrande
            && !none_improving(
            table_of(&input),
            spectrum_of(&input),
            input.target_t as nat,
            cidev_of(&input),
        ),
{
    let truth = input.truth_table();
    proof {
        assert(truth.table@ =~= table_of(&input));
    }
    match climb_table(&truth, input.ngrande, input.target_t, input.fitness_f) {
        Some(new) => {
            proof {
                let tt = truth.table@;
                let w = walsh_spectrum(polar(tt));
                let t = input.target_t as nat;
                let a = max_low_weight(w, t, w.len());
                let (i, j) = choose|i: int, j: int|
                    #[trigger] first_improving(tt, w, t, a, i, j) && {
                        &&& new.valid()
                        &&& new.ngrande == input.ngrande
                        &&& new.k == truth.log2len
                        &&& new.target_t == input.target_t
                        &&& new.fitness_f == input.fitness_f
                        &&& forall|x: int|
                            0 <= x < input.ngrande ==> #[trigger] new.row(x) == bits_of(
                                true_indices(exchanged(tt, i, j), tt.len())[x] as nat,
                                truth.log2len as nat,
                            )
                    };
                assert(first_improving(
                    table_of(&input),
                    spectrum_of(&input),
                    t,
                    cidev_of(&input),
                    i,
                    j,
                ) && is_moved(&input, &new, i, j));
                if cidev_of(&input) >= 4 {
                    lemma_move_keeps_cidev(&input, &new, i, j);
                }
            }
            (new, true)
        },
        None => (input, false),
    }
}

/// The array reached from the truth table `truth` by one improving move;
/// none where `truth` is not true on exactly `ngrande` inputs, or no pair
/// improves.
pub fn climb_table(
    truth: &TruthTable,
    ngrande: usize,
    target_t: u32,
    fitness_f: crate::fitness::FitnessFunction,
) -> (r: Option<OArray>)
    requires
        truth.well_formed(),
        truth.log2len >= 1,
        target_t >= 1,
        crate::oarray::valid_parameters(ngrande, target_t),
    ensures
        ({
            let tt = truth.table@;
            let w = walsh_spectrum(polar(tt));
            let a = max_low_weight(w, target_t as nat, w.len());
            &&& r.is_some() <==> count_true(tt, tt.len()) == ngrande && !none_improving(
                tt,
                w,
                target_t as nat,
                a,
            )
            &&& match r {
                Some(oa) => exists|i: int, j: int|
                    #[trigger] first_improving(tt, w, target_t as nat, a, i, j) && {
                        &&& oa.valid()
                        &&& oa.ngrande == ngrande
                        &&& oa.k == truth.log2len
                        &&& oa.target_t == target_t
                        &&& oa.fitness_f == fitness_f
                        &&& forall|x: int|
                            0 <= x < ngrande ==> #[trigger] oa.row(x) == bits_of(
                                true_indices(exchanged(tt, i, j), tt.len())[x] as nat,
                                truth.log2len as nat,
                            )
                    },
                None => true,
            }
        }),
{
    if truth.count() != ngrande {
        return None;
    }
    let ptt = PolarTruthTable::from(truth);
    let wtform = ptt.walsh_tform();
    let ghost tt = truth.table@;
    let ghost w = ints(wtform.table@);
    proof {
        assert(w.len() == tt.len());
        crate::wtform::lemma_max_low_weight_bound(w, target_t as nat, w.len(), w.len() as int);
        crate::binary_strings::lemma_pow2_monotone(truth.log2len as nat, 30);
        assert(pow2(30) == 0x4000_0000) by {
            assert(pow2(10) == 1024) by {
                reveal_with_fuel(pow2, 11);
            }
            crate::binary_strings::lemma_pow2_adds(10, 10);
            crate::binary_strings::lemma_pow2_adds(20, 10);
        }
    }
    let cidev_t = wtform.cidev(target_t as usize) as i32;
    let sets = Buckets::new(&wtform, target_t, cidev_t);
    let found = find_improvement(&truth.table, &sets);
    proof {
        lemma_admits_improving(&sets, tt, w, target_t as nat, cidev_t as int);
    }
    match found {
        Some((i, j)) => {
            let mut table = crate::oarray::copy_bits(&truth.table);
            let at_i = table[i];
            let at_j = table[j];
            table[i] = at_j;
            table[j] = at_i;
            proof {
                assert(table@ =~= exchanged(tt, i as int, j as int));
                lemma_count_true_swap(tt, i as int, j as int, tt.len());
            }
            let swapped = TruthTable { table, log2len: truth.log2len };
            let new = OArray::from_truth_table(&swapped, ngrande, target_t, fitness_f);
            match new {
                Some(oa) => {
                    proof {
                        assert(first_improving(
                            tt,
                            w,
                            target_t as nat,
                            cidev_t as int,
                            i as int,
                            j as int,
                        ) && {
                            &&& oa.valid()
                            &&& oa.ngrande == ngrande
                            &&& oa.k == truth.log2len
                            &&& oa.target_t == target_t
                            &&& oa.fitness_f == fitness_f
                            &&& forall|x: int|
                                0 <= x < ngrande ==> #[trigger] oa.row(x) == bits_of(
                                    true_indices(exchanged(tt, i as int, j as int), tt.len())[x] as nat,
                                    truth.log2len as nat,
                                )
                        });
                    }
                    Some(oa)
                },
                None => None,
            }
        },
        None => None,
    }
}

/// A move can be made on `oa`: its rows are all different, and some pair
/// of inputs is an improving one.
pub open spec fn can_move(oa: &OArray) -> bool {
    &&& count_true(table_of(oa), pow2(oa.k as nat)) == oa.ngrande
    &&& !none_improving(table_of(oa), spectrum_of(oa), oa.target_t as nat, cidev_of(oa))
}

impl GAOArray {
    /// With probability `prob`, one attempt at an improving move on the
    /// array: see `hill_climb`. The array stays as it is or the move on
    /// the first improving pair is made. It stays where no move can be
    /// made, and with a probability that never happens; with one that is
    /// certain, the move is made wherever one can be.
    pub fn hill_climb(&mut self, prob: Probability)
        requires
            old(self).oa.valid(),
            1 <= old(self).oa.k <= MAX_INPUTS,
            old(self).oa.target_t >= 1,
        ensures
            final(self).mutation_prob == old(self).mutation_prob,
            final(self).oa == old(self).oa || exists|i: int, j: int|
                #[trigger] first_improving(
                    table_of(&old(self).oa),
                    spectrum_of(&old(self).oa),
                    old(self).oa.target_t as nat,
                    cidev_of(&old(self).oa),
                    i,
                    j,
                ) && is_moved(&old(self).oa, &final(self).oa, i, j),
            prob.is_never() ==> final(self).oa == old(self).oa,
            !can_move(&old(self).oa) ==> final(self).oa == old(self).oa,
            prob.is_certain() && can_move(&old(self).oa) ==> exists|i: int, j: int|
                #[trigger] first_improving(
                    table_of(&old(self).oa),
                    spectrum_of(&old(self).oa),
                    old(self).oa.target_t as nat,
                    cidev_of(&old(self).oa),
                    i,
                    j,
                ) && is_moved(&old(self).oa, &final(self).oa, i, j),
            cidev_of(&old(self).oa) >= 4 ==> cidev_of(&final(self).oa) <= cidev_of(&old(self).oa),
    {
        let mut rng = local_rng();
        if !prob.draw(&mut rng) {
            return ;
        }
        let truth = self.oa.truth_table();
        proof {
            assert(truth.table@ =~= table_of(&self.oa));
        }
        match climb_table(&truth, self.oa.ngrande, self.oa.target_t, self.oa.fitness_f) {
            Some(new) => {
                proof {
                    let tt = truth.table@;
                    let w = walsh_spectrum(polar(tt));
                    let t = self.oa.target_t as nat;
                    let a = max_low_weight(w, t, w.len());
                    let (i, j) = choose|i: int, j: int|
                        #[trigger] first_improving(tt, w, t, a, i, j) && {
                            &&& new.valid()
                            &&& new.ngrande == self.oa.ngrande
                            &&& new.k == truth.log2len
                            &&& new.target_t == self.oa.target_t
                            &&& new.fitness_f == self.oa.fitness_f
                            &&& forall|x: int|
                                0 <= x < self.oa.ngrande ==> #[trigger] new.row(x) == bits_of(
                                    true_indices(exchanged(tt, i, j), tt.len())[x] as nat,
                                    truth.log2len as nat,
                                )
                        };
                    assert(first_improving(
                        table_of(&self.oa),
                        spectrum_of(&self.oa),
                        t,
                        cidev_of(&self.oa),
                        i,
                        j,
                    ) && is_moved(&self.oa, &new, i, j));
                    if cidev_of(&self.oa) >= 4 {
                        lemma_move_keeps_cidev(&self.oa, &new, i, j);
                    }
                }
                self.oa = new;
            },
            None => {},
        }
    }
}

} // verus!
