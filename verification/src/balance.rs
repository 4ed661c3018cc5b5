//! Balanced columns: columns in which each symbol occurs equally often,
//! and the ways of making an array out of such columns.

use vstd::prelude::*;
use rand::rngs::ThreadRng;
use crate::binary_strings::{pow2, weight};
use crate::fitness::{views, FitnessFunction};
use crate::oarray::{
    cell_index, columns_of, lemma_cell_index, valid_parameters, OArray, MAX_COLUMNS, MAX_ROWS,
};
use crate::random::shuffle;

verus! {

/// A column is balanced when half of its bits are one.
pub open spec fn balanced(col: Seq<bool>) -> bool {
    2 * weight(col) == col.len()
}

/// The column of `n` bits that starts at place `start` of the endless
/// string one, zero, one, zero and so on.
pub open spec fn alternating(start: nat, n: nat) -> Seq<bool> {
    Seq::new(n, |i: int| (start + i) % 2 == 0)
}

/// The weight of a string is the number of times that `true` occurs in
/// it.
pub proof fn lemma_weight_count(s: Seq<bool>)
    ensures
        weight(s) == s.to_multiset().count(true),
    decreases s.len(),
{
    broadcast use vstd::seq_lib::group_to_multiset_ensures;

    if s.len() == 0 {
        assert(s.to_multiset().len() == 0);
        assert(s.to_multiset().count(true) <= s.to_multiset().len()) by {
            if s.to_multiset().count(true) > 0 {
                assert(s.contains(true));
            }
        }
    } else {
        lemma_weight_count(s.drop_last());
        assert(s.drop_last().push(s.last()) =~= s);
    }
}

/// Two strings with the same bits in another order have the same weight.
pub proof fn lemma_weight_permuted(a: Seq<bool>, b: Seq<bool>)
    requires
        a.to_multiset() == b.to_multiset(),
    ensures
        weight(a) == weight(b),
        a.len() == b.len(),
{
    broadcast use vstd::seq_lib::group_to_multiset_ensures;

    lemma_weight_count(a);
    lemma_weight_count(b);
    a.to_multiset_ensures();
    b.to_multiset_ensures();
}

/// Writing a bit into a string changes the weight by the difference
/// between the new bit and the old one.
pub proof fn lemma_weight_update(s: Seq<bool>, j: int, v: bool)
    requires
        0 <= j < s.len(),
    ensures
        weight(s.update(j, v)) + (if s[j] { 1int } else { 0int }) == weight(s) + (if v {
            1int
        } else {
            0int
        }),
    decreases s.len(),
{
    if j == s.len() - 1 {
        assert(s.update(j, v).drop_last() =~= s.drop_last());
    } else {
        lemma_weight_update(s.drop_last(), j, v);
        assert(s.update(j, v).drop_last() =~= s.drop_last().update(j, v));
    }
}

/// A string of zeros has weight zero.
pub proof fn lemma_weight_zero(s: Seq<bool>)
    requires
        forall|i: int| 0 <= i < s.len() ==> !s[i],
    ensures
        weight(s) == 0,
    decreases s.len(),
{
    if s.len() > 0 {
        lemma_weight_zero(s.drop_last());
    }
}

/// Exchanging two bits of a string leaves its weight as it was.
pub proof fn lemma_weight_exchange(s: Seq<bool>, i: int, j: int)
    requires
        0 <= i < s.len(),
        0 <= j < s.len(),
    ensures
        weight(s.update(i, s[j]).update(j, s[i])) == weight(s),
{
    lemma_weight_update(s, i, s[j]);
    lemma_weight_update(s.update(i, s[j]), j, s[i]);
}

/// An even stretch of the alternating string is balanced.
pub proof fn lemma_alternating_balanced(start: nat, n: nat)
    requires
        n % 2 == 0,
    ensures
        balanced(alternating(start, n)),
    decreases n,
{
    if n >= 2 {
        let s = alternating(start, n);
        let shorter = alternating(start, (n - 2) as nat);
        lemma_alternating_balanced(start, (n - 2) as nat);
        let s1 = s.drop_last();
        assert(s1.drop_last() =~= shorter);
        assert(s.last() != s1.last());
        assert(weight(s) == weight(s1) + if s.last() { 1nat } else { 0nat });
        assert(weight(s1) == weight(s1.drop_last()) + if s1.last() { 1nat } else { 0nat });
    } else {
        assert(alternating(start, n).len() == 0);
    }
}

/// The columns `cols`, each of `n` bits, laid end to end.
pub fn flatten(cols: &Vec<Vec<bool>>, n: usize) -> (d: Vec<bool>)
    requires
        n * cols.len() <= usize::MAX,
        forall|j: int| 0 <= j < cols@.len() ==> (#[trigger] cols@[j])@.len() == n,
    ensures
        d.len() == n * cols.len(),
        columns_of(d@, n as nat, cols@.len()) == views(cols@),
{
    let mut d: Vec<bool> = Vec::new();
    let mut j: usize = 0;
    while j < cols.len()
        invariant
            j <= cols.len(),
            n * cols.len() <= usize::MAX,
            forall|c: int| 0 <= c < cols@.len() ==> (#[trigger] cols@[c])@.len() == n,
            d@.len() == j * n,
            forall|r: int, c: int|
                0 <= r < n && 0 <= c < j ==> d@[#[trigger] cell_index(n as int, r, c)]
                    == cols@[c]@[r],
        decreases cols.len() - j,
    {
        let mut i: usize = 0;
        while i < n
            invariant
                i <= n,
                j < cols.len(),
                n * cols.len() <= usize::MAX,
                forall|c: int| 0 <= c < cols@.len() ==> (#[trigger] cols@[c])@.len() == n,
                d@.len() == j * n + i,
                forall|r: int, c: int|
                    0 <= r < n && 0 <= c < j ==> d@[#[trigger] cell_index(n as int, r, c)]
                        == cols@[c]@[r],
                forall|r: int|
                    0 <= r < i ==> d@[#[trigger] cell_index(n as int, r, j as int)]
                        == cols@[j as int]@[r],
            decreases n - i,
        {
            let ghost prev = d@;
            let column = &cols[j];
            d.push(column[i]);
            proof {
                assert forall|r: int, c: int| 0 <= r < n && 0 <= c < j implies d@[
                #[trigger] cell_index(n as int, r, c)] == cols@[c]@[r] by {
                    lemma_cell_index(n as int, j as int, r, c);
                    assert(n * j == j * n) by (nonlinear_arith);
                    assert(prev[cell_index(n as int, r, c)] == cols@[c]@[r]);
                }
                assert forall|r: int| 0 <= r < i + 1 implies d@[#[trigger] cell_index(
                    n as int,
                    r,
                    j as int,
                )] == cols@[j as int]@[r] by {
                    if r < i {
                        assert(prev[cell_index(n as int, r, j as int)] == cols@[j as int]@[r]);
                    }
                }
            }
            i = i + 1;
        }
        proof {
            assert(j * n + n == (j + 1) * n) by (nonlinear_arith);
        }
        j = j + 1;
    }
    proof {
        assert(cols.len() * n == n * cols.len()) by (nonlinear_arith);
        assert(columns_of(d@, n as nat, cols@.len()) =~= views(cols@)) by {
            assert forall|c: int| 0 <= c < cols@.len() implies #[trigger] columns_of(
                d@,
                n as nat,
                cols@.len(),
            )[c] == views(cols@)[c] by {
                assert forall|r: int| 0 <= r < n implies columns_of(d@, n as nat, cols@.len())[c][r]
                    == cols@[c]@[r] by {
                    assert(d@[cell_index(n as int, r, c)] == cols@[c]@[r]);
                }
                assert(columns_of(d@, n as nat, cols@.len())[c] =~= cols@[c]@);
            }
        }
    }
    d
}

/// Whether half of the bits of `v` are one.
pub fn is_balanced(v: &[bool]) -> (r: bool)
    ensures
        r == (weight(v@) == v@.len() - weight(v@)),
        r == balanced(v@),
{
    let n_ones = crate::binary_strings::hamming_weight(v);
    proof {
        crate::binary_strings::lemma_weight_bound(v@);
    }
    let n_zeros = v.len() - n_ones;
    n_ones == n_zeros
}

impl OArray {
    /// Every column is balanced.
    pub open spec fn all_balanced(&self) -> bool {
        forall|j: int| 0 <= j < self.k ==> balanced(#[trigger] self.columns()[j])
    }

    /// An array of `ngrande` rows and `k` columns, filled with ones and
    /// zeros in turn and then shuffled column by column: each column
    /// keeps the bits it was filled with, in a random order, so at
    /// strength one or more every column is balanced. The data has one
    /// cell for each row and column, so their product fits the machine's
    /// word; within the limits on rows and columns the array is valid.
    pub fn new_random_balanced(
        ngrande: usize,
        k: usize,
        target_t: u32,
        rng: &mut ThreadRng,
        fitness_f: FitnessFunction,
    ) -> (r: Self)
        requires
            valid_parameters(ngrande, target_t),
            ngrande * k <= usize::MAX,
        ensures
            r.d@.len() == ngrande * k,
            r.lambda as nat == ngrande as nat / pow2(target_t as nat),
            ngrande <= MAX_ROWS && k <= MAX_COLUMNS ==> r.valid(),
            r.ngrande == ngrande,
            r.k == k,
            r.target_t == target_t,
            r.fitness_f == fitness_f,
            forall|j: int|
                0 <= j < k ==> (#[trigger] r.columns()[j]).to_multiset() == alternating(
                    (j * ngrande) as nat,
                    ngrande as nat,
                ).to_multiset(),
            ngrande % 2 == 0 ==> r.all_balanced(),
            target_t >= 1 ==> r.all_balanced(),
    {
        let mut cols: Vec<Vec<bool>> = Vec::new();
        let mut j: usize = 0;
        while j < k
            invariant
                j <= k,
                ngrande * k <= usize::MAX,
                cols@.len() == j,
                forall|c: int| 0 <= c < j ==> (#[trigger] cols@[c])@.len() == ngrande,
                forall|c: int|
                    0 <= c < j ==> (#[trigger] cols@[c])@.to_multiset() == alternating(
                        (c * ngrande) as nat,
                        ngrande as nat,
                    ).to_multiset(),
            decreases k - j,
        {
            proof {
                assert(j * ngrande + ngrande <= ngrande * k) by (nonlinear_arith)
                    requires
                        j < k,
                ;
            }
            let offset = j * ngrande;
            let mut col: Vec<bool> = Vec::new();
            let mut i: usize = 0;
            while i < ngrande
                invariant
                    i <= ngrande,
                    offset + ngrande <= usize::MAX,
                    col@.len() == i,
                    forall|x: int| 0 <= x < i ==> col@[x] == ((offset + x) % 2 == 0),
                decreases ngrande - i,
            {
                col.push((offset + i) % 2 == 0);
                i = i + 1;
            }
            proof {
                assert(col@ =~= alternating(offset as nat, ngrande as nat));
            }
            shuffle(rng, &mut col);
            proof {
                lemma_weight_permuted(col@, alternating(offset as nat, ngrande as nat));
            }
            cols.push(col);
            j = j + 1;
        }
        proof {
            assert(ngrande * cols.len() == ngrande * k);
        }
        let d = flatten(&cols, ngrande);
        let out = OArray::new(ngrande, k, target_t, d, fitness_f);
        proof {
            assert(out.columns() == views(cols@));
            assert forall|j: int| 0 <= j < k implies (#[trigger] out.columns()[j]).to_multiset()
                == alternating((j * ngrande) as nat, ngrande as nat).to_multiset() by {
                assert(out.columns()[j] == cols@[j]@);
            }
            if target_t >= 1 {
                let rest = pow2((target_t - 1) as nat) as int;
                let full = pow2(target_t as nat) as int;
                let times = ngrande as int / full;
                assert(full == 2 * rest);
                crate::binary_strings::lemma_pow2_positive(target_t as nat);
                vstd::arithmetic::div_mod::lemma_fundamental_div_mod(ngrande as int, full);
                assert(ngrande as int == (times * rest) * 2) by (nonlinear_arith)
                    requires
                        ngrande as int == full * times,
                        full == 2 * rest,
                ;
            }
            if ngrande % 2 == 0 {
                assert forall|j: int| 0 <= j < k implies balanced(#[trigger] out.columns()[j]) by {
                    lemma_alternating_balanced((j * ngrande) as nat, ngrande as nat);
                    lemma_weight_permuted(
                        out.columns()[j],
                        alternating((j * ngrande) as nat, ngrande as nat),
                    );
                }
            }
        }
        out
    }
}

} // verus!
