//! The operators of the genetic search on whole arrays: a crossover that
//! yields balanced columns, and a mutation that exchanges two different
//! bits of a column.

use vstd::prelude::*;
use rand::rngs::ThreadRng;
use crate::balance::{
    balanced, flatten, lemma_weight_exchange, lemma_weight_update,
};
use crate::binary_strings::weight;
use crate::fitness::views;
use crate::oarray::{lemma_cell_index, lemma_columns_update, OArray};
use crate::random::{local_rng, random_below, shuffle};

verus! {

/// A probability as a ratio of two whole numbers.
#[derive(Clone, Copy, Debug, PartialEq, Eq, Structural)]
pub struct Probability {
    pub numerator: u32,
    pub denominator: u32,
}

impl Probability {
    /// The event never happens.
    pub open spec fn is_never(&self) -> bool {
        self.numerator == 0 || self.denominator == 0
    }

    /// The event always happens.
    pub open spec fn is_certain(&self) -> bool {
        self.denominator > 0 && self.numerator >= self.denominator
    }

    /// The probability `numerator / denominator`. A denominator of zero
    /// gives an event that never happens, and a numerator at or above the
    /// denominator one that always does.
    pub fn new(numerator: u32, denominator: u32) -> (r: Self)
        ensures
            r.numerator == numerator,
            r.denominator == denominator,
    {
        Probability { numerator, denominator }
    }

    /// Draws whether the event happens: one of `denominator` equally
    /// likely numbers is drawn, and the event happens where the number
    /// is below `numerator`.
    pub fn draw(&self, rng: &mut ThreadRng) -> (r: bool)
        ensures
            self.is_never() ==> !r,
            self.is_certain() ==> r,
    {
        if self.denominator == 0 {
            false
        } else {
            random_below(rng, self.denominator as usize) < self.numerator as usize
        }
    }
}

/// The bit that the crossover gives to one row. `cnt0` and `cnt1` are how
/// many zeros and ones may still be given out; `aj` and `bj` are the bits
/// of the parents in that row. Where no zero is left the bit is one, and
/// where no one is left it is zero. Otherwise it is the bit of the first
/// parent if `first` holds, and that of the second if not.
pub open spec fn choice_of(cnt0: nat, cnt1: nat, aj: bool, bj: bool, first: bool) -> bool {
    if cnt0 == 0 {
        true
    } else if cnt1 == 0 {
        false
    } else if first {
        aj
    } else {
        bj
    }
}

/// The bit that the crossover gives to one row: see `choice_of`.
pub fn crossover_choice(cnt0: usize, cnt1: usize, aj: bool, bj: bool, first: bool) -> (r: bool)
    ensures
        r == choice_of(cnt0 as nat, cnt1 as nat, aj, bj, first),
{
    if cnt0 == 0 {
        true
    } else if cnt1 == 0 {
        false
    } else if first {
        aj
    } else {
        bj
    }
}

/// What `m` steps of the crossover of `a` and `b` give, where the rows are
/// visited in the order `pos` and the draw at step `s` is `firsts[s]`: the
/// column so far, and how many zeros and ones may still be given out.
pub open spec fn crossover_run(
    a: Seq<bool>,
    b: Seq<bool>,
    pos: Seq<usize>,
    firsts: Seq<bool>,
    m: nat,
) -> (Seq<bool>, nat, nat)
    decreases m,
{
    if m == 0 {
        (Seq::new(a.len(), |i: int| false), a.len() / 2, a.len() / 2)
    } else {
        let before = crossover_run(a, b, pos, firsts, (m - 1) as nat);
        let j = pos[m - 1] as int;
        let choice = choice_of(before.1, before.2, a[j], b[j], firsts[m - 1]);
        (
            before.0.update(j, choice),
            if choice {
                before.1
            } else {
                (before.1 - 1) as nat
            },
            if choice {
                (before.2 - 1) as nat
            } else {
                before.2
            },
        )
    }
}

/// `pos` holds every place below `n` once.
pub open spec fn is_order(pos: Seq<usize>, n: nat) -> bool {
    &&& pos.len() == n
    &&& pos.no_duplicates()
    &&& forall|s: int| 0 <= s < n ==> (#[trigger] pos[s]) < n
}

/// `out` is the crossover of `a` and `b` for some order of the rows and
/// some draws.
pub open spec fn crossover_of(a: Seq<bool>, b: Seq<bool>, out: Seq<bool>) -> bool {
    exists|pos: Seq<usize>, firsts: Seq<bool>|
        is_order(pos, a.len()) && firsts.len() == a.len() && out == (#[trigger] crossover_run(
            a,
            b,
            pos,
            firsts,
            a.len(),
        )).0
}

/// A run reads only the draws of its steps.
pub proof fn lemma_run_prefix(
    a: Seq<bool>,
    b: Seq<bool>,
    pos: Seq<usize>,
    firsts: Seq<bool>,
    more: Seq<bool>,
    m: nat,
)
    requires
        m <= firsts.len(),
        m <= more.len(),
        forall|i: int| 0 <= i < m ==> firsts[i] == more[i],
    ensures
        crossover_run(a, b, pos, firsts, m) == crossover_run(a, b, pos, more, m),
    decreases m,
{
    if m > 0 {
        lemma_run_prefix(a, b, pos, firsts, more, (m - 1) as nat);
    }
}

/// The numbers from zero up to, not including, `n`, in random order.
pub fn random_order(n: usize, rng: &mut ThreadRng) -> (pos: Vec<usize>)
    ensures
        pos@.len() == n,
        pos@.no_duplicates(),
        forall|s: int| 0 <= s < n ==> (#[trigger] pos@[s]) < n,
        forall|p: usize| p < n ==> #[trigger] pos@.contains(p),
{
    let mut pos: Vec<usize> = Vec::with_capacity(n);
    let mut i: usize = 0;
    while i < n
        invariant
            i <= n,
            pos@.len() == i,
            forall|s: int| 0 <= s < i ==> (#[trigger] pos@[s]) == s,
        decreases n - i,
    {
        pos.push(i);
        i = i + 1;
    }
    let ghost before = pos@;
    shuffle(rng, &mut pos);
    proof {
        broadcast use vstd::seq_lib::group_to_multiset_ensures;

        before.lemma_multiset_has_no_duplicates();
        pos@.lemma_multiset_has_no_duplicates_conv();
        before.to_multiset_ensures();
        pos@.to_multiset_ensures();
        assert forall|s: int| 0 <= s < pos@.len() implies (#[trigger] pos@[s]) < n by {
            let x = pos@[s];
            assert(pos@.contains(x));
            assert(before.to_multiset().count(x) > 0);
            assert(before.contains(x));
            let idx = choose|idx: int| 0 <= idx < before.len() && before[idx] == x;
            assert(before[idx] == idx);
        }
        assert forall|p: usize| p < n implies #[trigger] pos@.contains(p) by {
            assert(before[p as int] == p);
            assert(before.contains(p));
            assert(pos@.to_multiset().count(p) > 0);
        }
    }
    pos
}

/// Joins two columns into a balanced one. The rows are visited in random
/// order. Half of the rows may get a zero and half a one; a row gets the
/// bit of one of its parents, drawn at random, as long as zeros and ones
/// are both left, and the bit that is left once one kind is used up. The
/// length of the columns is even.
pub fn balanced_crossover(a: &[bool], b: &[bool], r: &mut ThreadRng) -> (out: Vec<bool>)
    requires
        a.len() == b.len(),
        a.len() % 2 == 0,
    ensures
        out@.len() == a@.len(),
        balanced(out@),
        crossover_of(a@, b@, out@),
{
    let ngrande = a.len();
    let balance = ngrande / 2;
    let pos = random_order(ngrande, r);
    let mut cnt0: usize = balance;
    let mut cnt1: usize = balance;
    let mut out: Vec<bool> = vec![false; ngrande];
    let ghost mut firsts: Seq<bool> = Seq::empty();
    proof {
        crate::balance::lemma_weight_zero(out@);
        assert(out@ =~= Seq::new(a@.len(), |i: int| false));
    }
    let mut s: usize = 0;
    while s < ngrande
        invariant
            s <= ngrande,
            ngrande == a.len(),
            ngrande == b.len(),
            2 * balance == ngrande,
            pos@.len() == ngrande,
            pos@.no_duplicates(),
            forall|x: int| 0 <= x < ngrande ==> (#[trigger] pos@[x]) < ngrande,
            out@.len() == ngrande,
            cnt0 + cnt1 == ngrande - s,
            weight(out@) + cnt1 == balance,
            forall|x: int| s <= x < ngrande ==> !out@[(#[trigger] pos@[x]) as int],
            firsts.len() == s,
            crossover_run(a@, b@, pos@, firsts, s as nat) == (out@, cnt0 as nat, cnt1 as nat),
        decreases ngrande - s,
    {
        let j = pos[s];
        let first = if cnt0 > 0 && cnt1 > 0 {
            random_below(r, 2) == 0
        } else {
            true
        };
        let choice = crossover_choice(cnt0, cnt1, a[j], b[j], first);
        let ghost prev = out@;
        proof {
            assert(!prev[pos@[s as int] as int]);
            lemma_weight_update(prev, j as int, choice);
            lemma_run_prefix(a@, b@, pos@, firsts, firsts.push(first), s as nat);
            firsts = firsts.push(first);
        }
        out[j] = choice;
        if choice {
            cnt1 = cnt1 - 1;
        } else {
            cnt0 = cnt0 - 1;
        }
        proof {
            assert forall|x: int| s + 1 <= x < ngrande implies !out@[(#[trigger] pos@[x]) as int] by {
                assert(pos@[x] != pos@[s as int]);
                assert(!prev[pos@[x] as int]);
            }
        }
        s = s + 1;
    }
    proof {
        assert(is_order(pos@, a@.len()));
        assert(out@ == crossover_run(a@, b@, pos@, firsts, a@.len()).0);
    }
    out
}

/// How many of the first `m` bits of `col` differ from `bit`.
pub open spec fn differing(col: Seq<bool>, bit: bool, m: nat) -> nat
    decreases m,
{
    if m == 0 {
        0
    } else {
        differing(col, bit, (m - 1) as nat) + if col[m - 1] != bit { 1nat } else { 0nat }
    }
}

/// `after` is `before` with two bits of different value exchanged.
pub open spec fn exchange_of(before: Seq<bool>, after: Seq<bool>) -> bool {
    exists|i: int, j: int|
        0 <= i < before.len() && 0 <= j < before.len() && before[i] != before[j] && after
            == #[trigger] before.update(i, before[j]).update(j, before[i])
}

/// The column holds zeros and ones: some bit differs from the first.
pub open spec fn varied(col: Seq<bool>) -> bool {
    differing(col, col[0], col.len()) > 0
}

/// `after` is `before`, or `before` with two bits of different value
/// exchanged.
pub open spec fn at_most_one_exchange(before: Seq<bool>, after: Seq<bool>) -> bool {
    after == before || exchange_of(before, after)
}

/// Among more bits, no fewer differ.
pub proof fn lemma_differing_monotone(col: Seq<bool>, bit: bool, a: nat, b: nat)
    requires
        a <= b,
    ensures
        differing(col, bit, a) <= differing(col, bit, b),
    decreases b,
{
    if a < b {
        lemma_differing_monotone(col, bit, a, (b - 1) as nat);
    }
}

/// An exchange of two bits leaves the weight of a column as it was.
pub proof fn lemma_exchange_weight(before: Seq<bool>, after: Seq<bool>)
    requires
        at_most_one_exchange(before, after),
    ensures
        weight(after) == weight(before),
        after.len() == before.len(),
{
    if after != before {
        let (i, j) = choose|i: int, j: int|
            0 <= i < before.len() && 0 <= j < before.len() && before[i] != before[j] && after
                == #[trigger] before.update(i, before[j]).update(j, before[i]);
        lemma_weight_exchange(before, i, j);
    }
}

/// How many bits of `col` differ from `bit`.
pub fn count_differing(col: &Vec<bool>, bit: bool) -> (r: usize)
    ensures
        r == differing(col@, bit, col@.len()),
{
    let mut out: usize = 0;
    let mut i: usize = 0;
    while i < col.len()
        invariant
            i <= col.len(),
            out == differing(col@, bit, i as nat),
            out <= i,
        decreases col.len() - i,
    {
        if col[i] != bit {
            out = out + 1;
        }
        i = i + 1;
    }
    out
}

/// The place of the bit of `col` that differs from `bit` and has `rank`
/// such bits before it.
pub fn nth_differing(col: &Vec<bool>, bit: bool, rank: usize) -> (r: usize)
    requires
        rank < differing(col@, bit, col@.len()),
    ensures
        r < col.len(),
        col@[r as int] != bit,
        differing(col@, bit, r as nat) == rank,
{
    let mut seen: usize = 0;
    let mut i: usize = 0;
    while i < col.len()
        invariant
            i <= col.len(),
            seen == differing(col@, bit, i as nat),
            seen <= rank,
            seen <= i,
            rank < differing(col@, bit, col@.len()),
        decreases col.len() - i,
    {
        if col[i] != bit {
            if seen == rank {
                return i;
            }
            seen = seen + 1;
        }
        i = i + 1;
    }
    vstd::pervasive::unreached()
}

/// Exchanges two bits of `col` that differ in value, both drawn at
/// random: the first among all bits, the second among those that differ
/// from the first. A column whose bits are all alike stays as it is.
pub fn mutate_column(col: &mut Vec<bool>, rng: &mut ThreadRng)
    ensures
        at_most_one_exchange(old(col)@, final(col)@),
        differing(old(col)@, old(col)@[0], old(col)@.len()) > 0 ==> exchange_of(
            old(col)@,
            final(col)@,
        ),
{
    let n = col.len();
    if n == 0 {
        return ;
    }
    let coord1 = random_below(rng, n);
    let bit = col[coord1];
    let others = count_differing(col, bit);
    proof {
        lemma_all_alike(col@, coord1 as int);
    }
    if others == 0 {
        return ;
    }
    let rank = random_below(rng, others);
    let coord2 = nth_differing(col, bit, rank);
    let ghost before = col@;
    let other = col[coord2];
    col[coord1] = other;
    col[coord2] = bit;
    proof {
        assert(col@ == before.update(coord1 as int, before[coord2 as int]).update(
            coord2 as int,
            before[coord1 as int],
        ));
    }
}

/// Where some bit of a column differs from its first bit, every bit has
/// a bit that differs from it.
proof fn lemma_all_alike(col: Seq<bool>, at: int)
    requires
        0 <= at < col.len(),
    ensures
        differing(col, col[0], col.len()) > 0 ==> differing(col, col[at], col.len()) > 0,
{
    if differing(col, col[0], col.len()) > 0 {
        if col[at] == col[0] {
        } else {
            lemma_differing_at(col, col[at], 0);
        }
    }
}

/// A bit that differs from `bit` is counted.
proof fn lemma_differing_at(col: Seq<bool>, bit: bool, at: int)
    requires
        0 <= at < col.len(),
        col[at] != bit,
    ensures
        differing(col, bit, col.len()) > 0,
{
    lemma_differing_monotone(col, bit, (at + 1) as nat, col.len());
}

/// `out` can be the column that two parents' columns `a` and `b` breed
/// under the mutation probability `prob`: a crossover of `a` and `b` for
/// some order of the rows and some draws, with at most one exchange of two
/// bits that differ. With a probability that never happens it is the
/// crossover itself, and with one that is certain, a crossover that holds
/// zeros and ones has two bits exchanged.
pub open spec fn bred_column(a: Seq<bool>, b: Seq<bool>, prob: Probability, out: Seq<bool>) -> bool {
    exists|mid: Seq<bool>|
        {
            &&& #[trigger] crossover_of(a, b, mid)
            &&& at_most_one_exchange(mid, out)
            &&& prob.is_never() ==> out == mid
            &&& prob.is_certain() && varied(mid) ==> exchange_of(mid, out)
        }
}

/// Every one of the `k` columns of `child` can be the column that the
/// columns of `mother` and `father` breed at its place.
pub open spec fn bred_columns(
    mother: Seq<Seq<bool>>,
    father: Seq<Seq<bool>>,
    prob: Probability,
    child: Seq<Seq<bool>>,
    k: nat,
) -> bool {
    forall|c: int| 0 <= c < k ==> bred_column(mother[c], father[c], prob, #[trigger] child[c])
}

/// An array for the genetic search, with the probability by which each
/// column of an offspring is mutated.
pub struct GAOArray {
    pub oa: OArray,
    pub mutation_prob: Probability,
}

impl Clone for GAOArray {
    fn clone(&self) -> (r: Self)
        ensures
            r.oa.same_as(&self.oa),
            r.mutation_prob == self.mutation_prob,
    {
        GAOArray { oa: self.oa.clone(), mutation_prob: self.mutation_prob }
    }
}

impl GAOArray {
    /// Goes through the columns; each is mutated with probability `prob`,
    /// by one exchange of two bits that differ. So every column is as it
    /// was or has two bits exchanged; with a probability that is certain,
    /// every column that holds zeros and ones has two bits exchanged, and
    /// with one that never happens, nothing changes.
    pub fn mutate_with_prob(&mut self, prob: Probability, rng: &mut ThreadRng)
        requires
            old(self).oa.well_formed(),
        ensures
            final(self).oa.ngrande == old(self).oa.ngrande,
            final(self).oa.k == old(self).oa.k,
            final(self).oa.target_t == old(self).oa.target_t,
            final(self).oa.lambda == old(self).oa.lambda,
            final(self).oa.fitness_f == old(self).oa.fitness_f,
            final(self).mutation_prob == old(self).mutation_prob,
            final(self).oa.well_formed(),
            forall|c: int|
                0 <= c < old(self).oa.k ==> at_most_one_exchange(
                    old(self).oa.columns()[c],
                    #[trigger] final(self).oa.columns()[c],
                ),
            forall|c: int|
                0 <= c < old(self).oa.k ==> weight(#[trigger] final(self).oa.columns()[c])
                    == weight(old(self).oa.columns()[c]),
            prob.is_never() ==> final(self).oa.d@ == old(self).oa.d@,
            prob.is_certain() ==> forall|c: int|
                0 <= c < old(self).oa.k && varied(old(self).oa.columns()[c]) ==> exchange_of(
                    old(self).oa.columns()[c],
                    #[trigger] final(self).oa.columns()[c],
                ),
    {
        let ghost before = self.oa.columns();
        let k = self.oa.k;
        let mut c: usize = 0;
        while c < k
            invariant
                c <= k,
                k == self.oa.k,
                self.oa.ngrande == old(self).oa.ngrande,
                self.oa.k == old(self).oa.k,
                self.oa.target_t == old(self).oa.target_t,
                self.oa.lambda == old(self).oa.lambda,
                self.oa.fitness_f == old(self).oa.fitness_f,
                self.mutation_prob == old(self).mutation_prob,
                self.oa.well_formed(),
                before == old(self).oa.columns(),
                forall|x: int|
                    0 <= x < c ==> at_most_one_exchange(
                        before[x],
                        #[trigger] self.oa.columns()[x],
                    ),
                forall|x: int| c <= x < k ==> #[trigger] self.oa.columns()[x] == before[x],
                prob.is_never() ==> self.oa.d@ == old(self).oa.d@,
                prob.is_certain() ==> forall|x: int|
                    0 <= x < c && varied(before[x]) ==> exchange_of(
                        before[x],
                        #[trigger] self.oa.columns()[x],
                    ),
            decreases k - c,
        {
            if prob.draw(rng) {
                let mut col = self.oa.column(c);
                mutate_column(&mut col, rng);
                let ghost cols_before = self.oa.columns();
                self.oa.set_column(c, &col);
                proof {
                    assert forall|x: int| 0 <= x < c + 1 implies at_most_one_exchange(
                        before[x],
                        #[trigger] self.oa.columns()[x],
                    ) by {
                        if x < c {
                            assert(self.oa.columns()[x] == cols_before[x]);
                        }
                    }
                    assert forall|x: int| c + 1 <= x < k implies #[trigger] self.oa.columns()[x]
                        == before[x] by {
                        assert(self.oa.columns()[x] == cols_before[x]);
                    }
                    if prob.is_certain() {
                        assert forall|x: int| 0 <= x < c + 1 && varied(before[x]) implies exchange_of(
                            before[x],
                            #[trigger] self.oa.columns()[x],
                        ) by {
                            if x < c {
                                assert(self.oa.columns()[x] == cols_before[x]);
                            }
                        }
                    }
                }
            }
            c = c + 1;
        }
        proof {
            assert forall|x: int| 0 <= x < k implies weight(#[trigger] self.oa.columns()[x])
                == weight(before[x]) by {
                lemma_exchange_weight(before[x], self.oa.columns()[x]);
            }
        }
    }

    /// An offspring of two arrays of the same shape and an even number
    /// of rows: each column is the balanced crossover of the parents'
    /// columns, and is then mutated with the probability of the first
    /// parent. So each column of the offspring is a crossover of the
    /// parents' columns at its place with at most one exchange of two
    /// bits that differ.
    pub fn breed_with(&self, other: &Self) -> (child: Self)
        requires
            self.oa.valid(),
            other.oa.well_formed(),
            other.oa.ngrande == self.oa.ngrande,
            other.oa.k == self.oa.k,
            self.oa.ngrande % 2 == 0,
        ensures
            child.oa.valid(),
            child.oa.ngrande == self.oa.ngrande,
            child.oa.k == self.oa.k,
            child.oa.target_t == self.oa.target_t,
            child.oa.fitness_f == self.oa.fitness_f,
            child.mutation_prob == self.mutation_prob,
            child.oa.all_balanced(),
            bred_columns(
                self.oa.columns(),
                other.oa.columns(),
                self.mutation_prob,
                child.oa.columns(),
                self.oa.k as nat,
            ),
    {
        let oa = &self.oa;
        let mut rng = local_rng();
        let mut cols: Vec<Vec<bool>> = Vec::new();
        let mut c: usize = 0;
        while c < oa.k
            invariant
                c <= oa.k,
                oa.well_formed(),
                other.oa.well_formed(),
                other.oa.ngrande == oa.ngrande,
                other.oa.k == oa.k,
                oa.ngrande % 2 == 0,
                cols@.len() == c,
                forall|x: int| 0 <= x < c ==> (#[trigger] cols@[x])@.len() == oa.ngrande,
                forall|x: int| 0 <= x < c ==> balanced((#[trigger] cols@[x])@),
                forall|x: int|
                    0 <= x < c ==> crossover_of(
                        oa.columns()[x],
                        other.oa.columns()[x],
                        (#[trigger] cols@[x])@,
                    ),
            decreases oa.k - c,
        {
            let col1 = oa.column(c);
            let col2 = other.oa.column(c);
            let col3 = balanced_crossover(col1.as_slice(), col2.as_slice(), &mut rng);
            cols.push(col3);
            c = c + 1;
        }
        let d = flatten(&cols, oa.ngrande);
        let out_inner = OArray::new(oa.ngrande, oa.k, oa.target_t, d, oa.fitness_f);
        proof {
            assert(out_inner.columns() == views(cols@));
            assert forall|x: int| 0 <= x < oa.k implies balanced(
                #[trigger] out_inner.columns()[x],
            ) by {
                assert(out_inner.columns()[x] == cols@[x]@);
            }
        }
        let mut out = GAOArray { oa: out_inner, mutation_prob: self.mutation_prob };
        let ghost bred = out.oa.columns();
        out.mutate_with_prob(self.mutation_prob, &mut rng);
        proof {
            assert forall|x: int| 0 <= x < out.oa.k implies balanced(
                #[trigger] out.oa.columns()[x],
            ) by {
                lemma_exchange_weight(bred[x], out.oa.columns()[x]);
            }
            assert forall|x: int| 0 <= x < oa.k implies bred_column(
                oa.columns()[x],
                other.oa.columns()[x],
                self.mutation_prob,
                #[trigger] out.oa.columns()[x],
            ) by {
                let mid = bred[x];
                assert(mid == cols@[x]@);
                assert(crossover_of(oa.columns()[x], other.oa.columns()[x], mid));
                assert(at_most_one_exchange(mid, out.oa.columns()[x]));
                if self.mutation_prob.is_never() {
                    assert(out.oa.columns() == bred);
                }
            }
        }
        out
    }
}

impl OArray {
    /// Writes `col` over column `c`.
    pub fn set_column(&mut self, c: usize, col: &Vec<bool>)
        requires
            old(self).well_formed(),
            c < old(self).k,
            col.len() == old(self).ngrande,
        ensures
            final(self).ngrande == old(self).ngrande,
            final(self).k == old(self).k,
            final(self).target_t == old(self).target_t,
            final(self).lambda == old(self).lambda,
            final(self).fitness_f == old(self).fitness_f,
            final(self).well_formed(),
            final(self).columns() == old(self).columns().update(c as int, col@),
    {
        let n = self.ngrande;
        let ghost before = self.columns();
        let mut i: usize = 0;
        while i < n
            invariant
                i <= n,
                n == self.ngrande,
                self.ngrande == old(self).ngrande,
                self.k == old(self).k,
                self.target_t == old(self).target_t,
                self.lambda == old(self).lambda,
                self.fitness_f == old(self).fitness_f,
                self.well_formed(),
                c < self.k,
                col.len() == n,
                before == old(self).columns(),
                forall|x: int| 0 <= x < self.k && x != c ==> #[trigger] self.columns()[x] == before[x],
                forall|r: int| 0 <= r < i ==> self.columns()[c as int][r] == col@[r],
                forall|r: int| i <= r < n ==> self.columns()[c as int][r] == before[c as int][r],
            decreases n - i,
        {
            proof {
                lemma_cell_index(n as int, self.k as int, i as int, c as int);
                lemma_columns_update(
                    self.d@,
                    n as nat,
                    self.k as nat,
                    i as int,
                    c as int,
                    col@[i as int],
                );
            }
            let ghost cols_before = self.columns();
            self.d[c * n + i] = col[i];
            proof {
                assert(self.columns() == cols_before.update(
                    c as int,
                    cols_before[c as int].update(i as int, col@[i as int]),
                ));
            }
            i = i + 1;
        }
        proof {
            assert(self.columns()[c as int] =~= col@);
            assert(self.columns() =~= before.update(c as int, col@));
        }
    }
}

} // verus!
