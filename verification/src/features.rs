//! Weight distributions: how many rows, or columns, of an array lie at
//! each distance from a given string.

use vstd::prelude::*;
use crate::oarray::OArray;

verus! {

/// In how many of the first `m` places `a` and `b` differ.
pub open spec fn distance_upto(a: Seq<bool>, b: Seq<bool>, m: nat) -> nat
    decreases m,
{
    if m == 0 {
        0
    } else {
        distance_upto(a, b, (m - 1) as nat) + if a[m - 1] != b[m - 1] { 1nat } else { 0nat }
    }
}

/// The smaller of two lengths.
pub open spec fn shorter(a: nat, b: nat) -> nat {
    if a <= b {
        a
    } else {
        b
    }
}

/// The Hamming distance of `a` and `b`; where one is longer, over the
/// length of the shorter one.
pub open spec fn distance(a: Seq<bool>, b: Seq<bool>) -> nat {
    distance_upto(a, b, shorter(a.len(), b.len()))
}

/// How many of the first `m` strings of `items` lie at distance `d` from
/// `u`.
pub open spec fn at_distance(items: Seq<Seq<bool>>, u: Seq<bool>, d: nat, m: nat) -> nat
    decreases m,
{
    if m == 0 {
        0
    } else {
        at_distance(items, u, d, (m - 1) as nat) + if distance(items[m - 1], u) == d {
            1nat
        } else {
            0nat
        }
    }
}

/// For each distance up to `top`, how many strings of `items` lie at that
/// distance from `u`.
pub open spec fn distribution(items: Seq<Seq<bool>>, u: Seq<bool>, top: nat) -> Seq<nat> {
    Seq::new(top + 1, |d: int| at_distance(items, u, d as nat, items.len()))
}

/// For each distance up to `top`, how many ordered pairs of strings of
/// `items`, the first among the first `m`, lie at that distance from each
/// other.
pub open spec fn pair_distribution(items: Seq<Seq<bool>>, top: nat, m: nat) -> Seq<nat>
    decreases m,
{
    if m == 0 {
        Seq::new(top + 1, |d: int| 0nat)
    } else {
        Seq::new(
            top + 1,
            |d: int|
                pair_distribution(items, top, (m - 1) as nat)[d] + distribution(
                    items,
                    items[m - 1],
                    top,
                )[d],
        )
    }
}

/// Among `m` strings at most `m` lie at a given distance.
pub proof fn lemma_at_distance_bound(items: Seq<Seq<bool>>, u: Seq<bool>, d: nat, m: nat)
    ensures
        at_distance(items, u, d, m) <= m,
    decreases m,
{
    if m > 0 {
        lemma_at_distance_bound(items, u, d, (m - 1) as nat);
    }
}

/// The first of a pair being among `m` strings, at most `m` times the
/// number of strings pairs lie at a given distance.
pub proof fn lemma_pair_distribution_bound(items: Seq<Seq<bool>>, top: nat, m: nat, d: int)
    requires
        0 <= d <= top,
        m <= items.len(),
    ensures
        pair_distribution(items, top, m)[d] <= m * items.len(),
    decreases m,
{
    if m > 0 {
        lemma_pair_distribution_bound(items, top, (m - 1) as nat, d);
        lemma_at_distance_bound(items, items[m - 1], d as nat, items.len());
        assert((m - 1) * items.len() + items.len() == m * items.len()) by (nonlinear_arith);
    }
}

/// In how many places `a` and `b` differ; where one is longer, among
/// the places of the shorter one.
pub fn hamming_dist(a: &[bool], b: &[bool]) -> (r: usize)
    ensures
        r == distance(a@, b@),
        r <= a@.len(),
        r <= b@.len(),
{
    let len = if a.len() <= b.len() {
        a.len()
    } else {
        b.len()
    };
    let mut out: usize = 0;
    let mut i: usize = 0;
    while i < len
        invariant
            i <= len,
            len == shorter(a@.len(), b@.len()),
            out == distance_upto(a@, b@, i as nat),
            out <= i,
        decreases len - i,
    {
        if a[i] != b[i] {
            out = out + 1;
        }
        i = i + 1;
    }
    out
}

impl OArray {
    /// The rows, top to bottom.
    pub open spec fn rows(&self) -> Seq<Seq<bool>> {
        Seq::new(self.ngrande as nat, |i: int| self.row(i))
    }

    /// For each distance from zero to `k`, the number of rows at that
    /// distance from `u`.
    pub fn u_weight_d(&self, u: &[bool]) -> (r: Vec<usize>)
        requires
            self.well_formed(),
        ensures
            r@.map_values(|c: usize| c as nat) == distribution(self.rows(), u@, self.k as nat),
    {
        let mut distances: Vec<usize> = vec![0usize; self.k + 1];
        let ghost rows = self.rows();
        let mut i: usize = 0;
        while i < self.ngrande
            invariant
                i <= self.ngrande,
                self.well_formed(),
                rows == self.rows(),
                distances@.len() == self.k + 1,
                forall|d: int|
                    0 <= d <= self.k ==> (#[trigger] distances@[d]) == at_distance(
                        rows,
                        u@,
                        d as nat,
                        i as nat,
                    ),
            decreases self.ngrande - i,
        {
            let row = self.row_values(i);
            let d = hamming_dist(row.as_slice(), u);
            proof {
                lemma_at_distance_bound(rows, u@, d as nat, i as nat);
                assert(rows[i as int] == row@);
            }
            let seen = distances[d];
            distances[d] = seen + 1;
            i = i + 1;
        }
        proof {
            assert(distances@.map_values(|c: usize| c as nat) =~= distribution(
                rows,
                u@,
                self.k as nat,
            ));
        }
        distances
    }

    /// For each distance from zero to `ngrande`, the number of columns at
    /// that distance from `u`.
    pub fn u_weight_d_col(&self, u: &[bool]) -> (r: Vec<usize>)
        requires
            self.well_formed(),
        ensures
            r@.map_values(|c: usize| c as nat) == distribution(
                self.columns(),
                u@,
                self.ngrande as nat,
            ),
    {
        let mut distances: Vec<usize> = vec![0usize; self.ngrande + 1];
        let ghost cols = self.columns();
        let mut j: usize = 0;
        while j < self.k
            invariant
                j <= self.k,
                self.well_formed(),
                cols == self.columns(),
                distances@.len() == self.ngrande + 1,
                forall|d: int|
                    0 <= d <= self.ngrande ==> (#[trigger] distances@[d]) == at_distance(
                        cols,
                        u@,
                        d as nat,
                        j as nat,
                    ),
            decreases self.k - j,
        {
            let col = self.column(j);
            let d = hamming_dist(col.as_slice(), u);
            proof {
                lemma_at_distance_bound(cols, u@, d as nat, j as nat);
            }
            let seen = distances[d];
            distances[d] = seen + 1;
            j = j + 1;
        }
        proof {
            assert(distances@.map_values(|c: usize| c as nat) =~= distribution(
                cols,
                u@,
                self.ngrande as nat,
            ));
        }
        distances
    }

    /// For each weight from zero to `k`, the number of rows of that
    /// weight.
    pub fn zero_weight_d(&self) -> (r: Vec<usize>)
        requires
            self.well_formed(),
        ensures
            r@.map_values(|c: usize| c as nat) == distribution(
                self.rows(),
                Seq::new(self.k as nat, |j: int| false),
                self.k as nat,
            ),
    {
        let zero = vec![false; self.k];
        proof {
            assert(zero@ =~= Seq::new(self.k as nat, |j: int| false));
        }
        self.u_weight_d(zero.as_slice())
    }

    /// For each distance from zero to `k`, the number of ordered pairs of
    /// rows at that distance from each other. Divided by the number of
    /// rows, these are the proper weights of the array.
    pub fn proper_weight_counts(&self) -> (r: Vec<u64>)
        requires
            self.well_formed(),
        ensures
            r@.map_values(|c: u64| c as nat) == pair_distribution(
                self.rows(),
                self.k as nat,
                self.ngrande as nat,
            ),
    {
        let mut tmp: Vec<u64> = vec![0u64; self.k + 1];
        let ghost rows = self.rows();
        let ghost top = self.k as nat;
        let mut i: usize = 0;
        while i < self.ngrande
            invariant
                i <= self.ngrande,
                self.well_formed(),
                rows == self.rows(),
                top == self.k,
                tmp@.len() == self.k + 1,
                forall|d: int|
                    0 <= d <= self.k ==> (#[trigger] tmp@[d]) == pair_distribution(
                        rows,
                        top,
                        i as nat,
                    )[d],
            decreases self.ngrande - i,
        {
            let row = self.row_values(i);
            let s = self.u_weight_d(row.as_slice());
            proof {
                assert(rows[i as int] == row@);
                let mapped = s@.map_values(|c: usize| c as nat);
                assert(mapped.len() == s@.len());
                assert forall|x: int| 0 <= x <= self.k implies (#[trigger] s@[x]) as nat
                    == distribution(rows, row@, top)[x] by {
                    assert(mapped[x] == s@[x] as nat);
                }
            }
            let mut d: usize = 0;
            while d <= self.k
                invariant
                    d <= self.k + 1,
                    i < self.ngrande,
                    self.well_formed(),
                    rows == self.rows(),
                    rows[i as int] == row@,
                    top == self.k,
                    tmp@.len() == self.k + 1,
                    s@.len() == self.k + 1,
                    forall|x: int|
                        0 <= x <= self.k ==> (#[trigger] s@[x]) as nat == distribution(
                            rows,
                            row@,
                            top,
                        )[x],
                    forall|x: int|
                        0 <= x < d ==> (#[trigger] tmp@[x]) == pair_distribution(
                            rows,
                            top,
                            (i + 1) as nat,
                        )[x],
                    forall|x: int|
                        d <= x <= self.k ==> (#[trigger] tmp@[x]) == pair_distribution(
                            rows,
                            top,
                            i as nat,
                        )[x],
                decreases self.k + 1 - d,
            {
                proof {
                    lemma_pair_distribution_bound(rows, top, (i + 1) as nat, d as int);
                    assert((i + 1) * rows.len() <= 0x7FFF_FFFF * 0x7FFF_FFFF) by (nonlinear_arith)
                        requires
                            i + 1 <= 0x7FFF_FFFF,
                            rows.len() <= 0x7FFF_FFFF,
                    ;
                    lemma_at_distance_bound(rows, row@, d as nat, rows.len());
                }
                let a = tmp[d];
                tmp[d] = a + s[d] as u64;
                d = d + 1;
            }
            i = i + 1;
        }
        proof {
            assert(tmp@.map_values(|c: u64| c as nat) =~= pair_distribution(
                rows,
                top,
                self.ngrande as nat,
            ));
        }
        tmp
    }
}

} // verus!
