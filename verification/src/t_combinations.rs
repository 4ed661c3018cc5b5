//! All subsets of `t` indices among `n`, visited one after the other with
//! Knuth's Algorithm L: a single buffer, advanced in place.

use vstd::prelude::*;

verus! {

/// The number of subsets of size `t` of a set of size `n`.
pub open spec fn binomial(n: nat, t: nat) -> nat
    decreases n,
{
    if t == 0 {
        1
    } else if n == 0 {
        0
    } else {
        binomial((n - 1) as nat, (t - 1) as nat) + binomial((n - 1) as nat, t)
    }
}

/// The tuple `tuple` with `x` appended.
pub open spec fn with_last(tuple: Seq<usize>, x: usize) -> Seq<usize> {
    tuple.push(x)
}

/// Every subset of size `t` of `{0, .., n-1}`, each written as an
/// increasing tuple: first those without `n-1`, then those with it. This is
/// the order of Algorithm L: tuples are compared from their last entry
/// backwards.
pub open spec fn combos(n: nat, t: nat) -> Seq<Seq<usize>>
    decreases n,
{
    if t == 0 {
        seq![Seq::<usize>::empty()]
    } else if n == 0 {
        Seq::<Seq<usize>>::empty()
    } else {
        combos((n - 1) as nat, t) + combos((n - 1) as nat, (t - 1) as nat).map_values(
            |c: Seq<usize>| with_last(c, (n - 1) as usize),
        )
    }
}

/// What the enumerator yields for `n` and `t`: all subsets of size `t`, and
/// nothing at all when `t` is zero.
pub open spec fn yielded(n: nat, t: nat) -> Seq<Seq<usize>> {
    if t == 0 {
        Seq::<Seq<usize>>::empty()
    } else {
        combos(n, t)
    }
}

/// `c` is an increasing tuple of `t` indices below `n`.
pub open spec fn is_combination(c: Seq<usize>, n: nat, t: nat) -> bool {
    &&& c.len() == t
    &&& forall|i: int| 0 <= i < c.len() ==> (#[trigger] c[i]) < n
    &&& forall|i: int, j: int| 0 <= i < j < c.len() ==> (#[trigger] c[i]) < (#[trigger] c[j])
}

/// `a` comes before `b`: at the last place where they differ, `a` is
/// smaller.
pub open spec fn precedes(a: Seq<usize>, b: Seq<usize>) -> bool {
    &&& a.len() == b.len()
    &&& exists|p: int|
        0 <= p < a.len() && a[p] < b[p] && forall|q: int|
            p < q < a.len() ==> (#[trigger] a[q]) == b[q]
}

/// The tuple `(0, 1, .., t-1)`.
pub open spec fn first_tuple(t: nat) -> Seq<usize> {
    Seq::new(t, |i: int| i as usize)
}

/// Sum of `binomial(c[i], i + 1)` over the first `m` entries of `c`: for a
/// whole tuple, the number of tuples that come before it.
pub open spec fn rank_upto(c: Seq<usize>, m: nat) -> nat
    decreases m,
{
    if m == 0 {
        0
    } else {
        rank_upto(c, (m - 1) as nat) + binomial(c[m - 1] as nat, m)
    }
}

/// A set has no subset larger than itself.
pub proof fn lemma_binomial_small(n: nat, t: nat)
    requires
        n < t,
    ensures
        binomial(n, t) == 0,
    decreases n,
{
    if n > 0 {
        lemma_binomial_small((n - 1) as nat, (t - 1) as nat);
        lemma_binomial_small((n - 1) as nat, t);
    }
}

/// There are `binomial(n, t)` subsets.
pub proof fn lemma_combos_len(n: nat, t: nat)
    ensures
        combos(n, t).len() == binomial(n, t),
    decreases n,
{
    if t > 0 && n > 0 {
        lemma_combos_len((n - 1) as nat, t);
        lemma_combos_len((n - 1) as nat, (t - 1) as nat);
    }
}

/// Entry `i` of `combos(n, t)`, by the half it falls in.
pub proof fn lemma_combos_index(n: nat, t: nat, i: int)
    requires
        n > 0,
        t > 0,
        0 <= i < combos(n, t).len(),
    ensures
        i < combos((n - 1) as nat, t).len() ==> combos(n, t)[i] == combos((n - 1) as nat, t)[i],
        i >= combos((n - 1) as nat, t).len() ==> {
            &&& i - combos((n - 1) as nat, t).len() < combos(
                (n - 1) as nat,
                (t - 1) as nat,
            ).len()
            &&& combos(n, t)[i] == with_last(
                combos((n - 1) as nat, (t - 1) as nat)[i - combos((n - 1) as nat, t).len()],
                (n - 1) as usize,
            )
        },
{
}

/// Every entry of `combos(n, t)` is an increasing tuple of `t` indices
/// below `n`.
pub proof fn lemma_combos_valid(n: nat, t: nat, i: int)
    requires
        n <= usize::MAX,
        0 <= i < combos(n, t).len(),
    ensures
        is_combination(combos(n, t)[i], n, t),
    decreases n,
{
    if t == 0 {
    } else if n == 0 {
    } else {
        lemma_combos_index(n, t, i);
        let first = combos((n - 1) as nat, t);
        if i < first.len() {
            lemma_combos_valid((n - 1) as nat, t, i);
        } else {
            lemma_combos_valid((n - 1) as nat, (t - 1) as nat, i - first.len());
        }
    }
}

/// Of two entries of `combos(n, t)`, the earlier one precedes the later.
pub proof fn lemma_combos_ordered(n: nat, t: nat, i: int, j: int)
    requires
        n <= usize::MAX,
        0 <= i < j < combos(n, t).len(),
    ensures
        precedes(combos(n, t)[i], combos(n, t)[j]),
    decreases n,
{
    if t == 0 {
    } else if n == 0 {
    } else {
        let n1 = (n - 1) as nat;
        let t1 = (t - 1) as nat;
        let first = combos(n1, t);
        let a = combos(n, t)[i];
        let b = combos(n, t)[j];
        lemma_combos_index(n, t, i);
        lemma_combos_index(n, t, j);
        lemma_combos_valid(n, t, i);
        lemma_combos_valid(n, t, j);
        if j < first.len() {
            lemma_combos_ordered(n1, t, i, j);
        } else if i < first.len() {
            lemma_combos_valid(n1, t, i);
            let p = t - 1;
            assert(a[p] < n1);
            assert(b[p] == n1);
            assert(0 <= p < a.len() && a[p] < b[p] && forall|q: int|
                p < q < a.len() ==> (#[trigger] a[q]) == b[q]);
        } else {
            let i1 = i - first.len();
            let j1 = j - first.len();
            lemma_combos_ordered(n1, t1, i1, j1);
            lemma_combos_valid(n1, t1, i1);
            lemma_combos_valid(n1, t1, j1);
            let a1 = combos(n1, t1)[i1];
            let b1 = combos(n1, t1)[j1];
            let p = choose|p: int|
                0 <= p < a1.len() && a1[p] < b1[p] && forall|q: int|
                    p < q < a1.len() ==> (#[trigger] a1[q]) == b1[q];
            assert(a[p] == a1[p] && b[p] == b1[p]);
            assert forall|q: int| p < q < a.len() implies (#[trigger] a[q]) == b[q] by {
                if q < a1.len() {
                    assert(a[q] == a1[q]);
                    assert(b[q] == b1[q]);
                }
            }
        }
    }
}

/// The rank of a tuple reads only the entries it sums over.
pub proof fn lemma_rank_agrees(c: Seq<usize>, e: Seq<usize>, m: nat)
    requires
        m <= c.len(),
        m <= e.len(),
        forall|i: int| 0 <= i < m ==> c[i] == e[i],
    ensures
        rank_upto(c, m) == rank_upto(e, m),
    decreases m,
{
    if m > 0 {
        lemma_rank_agrees(c, e, (m - 1) as nat);
    }
}

/// Where two tuples agree from place `a` on, their ranks grow alike.
pub proof fn lemma_rank_suffix(c: Seq<usize>, e: Seq<usize>, a: nat, m: nat)
    requires
        a <= m <= c.len(),
        m <= e.len(),
        forall|i: int| a <= i < m ==> c[i] == e[i],
    ensures
        rank_upto(c, m) - rank_upto(c, a) == rank_upto(e, m) - rank_upto(e, a),
    decreases m,
{
    if m > a {
        lemma_rank_suffix(c, e, a, (m - 1) as nat);
    }
}

/// A tuple stands in `combos(n, t)` at its rank.
pub proof fn lemma_combos_at_rank(c: Seq<usize>, n: nat, t: nat)
    requires
        n <= usize::MAX,
        is_combination(c, n, t),
    ensures
        rank_upto(c, t) < binomial(n, t),
        rank_upto(c, t) < combos(n, t).len(),
        combos(n, t)[rank_upto(c, t) as int] == c,
    decreases n,
{
    lemma_combos_len(n, t);
    if t == 0 {
        assert(c =~= Seq::<usize>::empty());
    } else if n == 0 {
        assert(c[0] < n);
    } else {
        let n1 = (n - 1) as nat;
        let t1 = (t - 1) as nat;
        lemma_combos_len(n1, t);
        lemma_combos_len(n1, t1);
        if c[t - 1] == n1 {
            let c1 = c.drop_last();
            assert(is_combination(c1, n1, t1)) by {
                assert forall|i: int| 0 <= i < c1.len() implies (#[trigger] c1[i]) < n1 by {
                    assert(c[i] < c[t - 1]);
                }
            }
            lemma_combos_at_rank(c1, n1, t1);
            lemma_rank_agrees(c, c1, t1);
            let r = rank_upto(c, t);
            assert(r == rank_upto(c1, t1) + binomial(n1, t));
            lemma_combos_index(n, t, r as int);
            assert(with_last(c1, n1 as usize) =~= c);
        } else {
            assert(is_combination(c, n1, t)) by {
                assert forall|i: int| 0 <= i < c.len() implies (#[trigger] c[i]) < n1 by {
                    if i < t - 1 {
                        assert(c[i] < c[t - 1]);
                    }
                }
            }
            lemma_combos_at_rank(c, n1, t);
            lemma_combos_index(n, t, rank_upto(c, t) as int);
        }
    }
}

/// A run of `j` consecutive values ending just below `m` has rank
/// `binomial(m, j) - 1`.
pub proof fn lemma_rank_of_run(c: Seq<usize>, m: nat, j: nat)
    requires
        j <= c.len(),
        j <= m,
        forall|i: int| 0 <= i < j ==> (#[trigger] c[i]) == m - j + i,
    ensures
        rank_upto(c, j) + 1 == binomial(m, j),
    decreases j,
{
    if j > 0 {
        let m1 = (m - 1) as nat;
        let j1 = (j - 1) as nat;
        assert forall|i: int| 0 <= i < j1 implies (#[trigger] c[i]) == m1 - j1 + i by {}
        lemma_rank_of_run(c, m1, j1);
        assert(c[j - 1] == m1);
    }
}

/// The tuple that starts at zero and counts up has rank zero.
pub proof fn lemma_rank_of_start(c: Seq<usize>, j: nat)
    requires
        j <= c.len(),
        forall|i: int| 0 <= i < j ==> (#[trigger] c[i]) == i,
    ensures
        rank_upto(c, j) == 0,
    decreases j,
{
    if j > 0 {
        lemma_rank_of_start(c, (j - 1) as nat);
        lemma_binomial_small((j - 1) as nat, j);
    }
}

/// One step of Algorithm L raises the rank by one: where `c` begins with a
/// run of `j` consecutive values, the tuple `e` that restarts these at
/// `0, .., j-1`, raises entry `j` by one and keeps the rest comes right
/// after `c`.
pub proof fn lemma_step_rank(c: Seq<usize>, e: Seq<usize>, j: nat, t: nat)
    requires
        j < t,
        c.len() == t,
        e.len() == t,
        forall|i: int| 0 <= i < j ==> (#[trigger] c[i]) == c[j as int] - j + i,
        c[j as int] >= j,
        forall|i: int| 0 <= i < j ==> (#[trigger] e[i]) == i,
        e[j as int] == c[j as int] + 1,
        forall|i: int| j < i < t ==> (#[trigger] e[i]) == c[i],
    ensures
        rank_upto(e, t) == rank_upto(c, t) + 1,
{
    let m = c[j as int] as nat;
    lemma_rank_of_run(c, m, j);
    lemma_rank_of_start(e, j);
    lemma_rank_suffix(c, e, j + 1, t);
    assert(rank_upto(c, j + 1) == rank_upto(c, j) + binomial(m, j + 1));
    assert(rank_upto(e, j + 1) == rank_upto(e, j) + binomial(m + 1, j + 1));
    assert(binomial(m + 1, j + 1) == binomial(m, j) + binomial(m, j + 1));
}

/// The enumeration as a whole: for `t >= 1` it has `binomial(n, t)`
/// entries and for `t = 0` none; every entry is an increasing tuple of `t`
/// indices below `n`; an earlier entry precedes a later one, so no entry
/// occurs twice.
pub proof fn lemma_enumeration(n: nat, t: nat)
    requires
        t <= n <= usize::MAX,
    ensures
        yielded(n, t).len() == if t == 0 {
            0
        } else {
            binomial(n, t)
        },
        forall|i: int|
            0 <= i < yielded(n, t).len() ==> is_combination(#[trigger] yielded(n, t)[i], n, t),
        forall|i: int, j: int|
            0 <= i < j < yielded(n, t).len() ==> precedes(
                #[trigger] yielded(n, t)[i],
                #[trigger] yielded(n, t)[j],
            ),
        forall|i: int, j: int|
            0 <= i < j < yielded(n, t).len() ==> (#[trigger] yielded(n, t)[i]) != (
            #[trigger] yielded(n, t)[j]),
{
    lemma_combos_len(n, t);
    if t > 0 {
        assert forall|i: int| 0 <= i < yielded(n, t).len() implies is_combination(
            #[trigger] yielded(n, t)[i],
            n,
            t,
        ) by {
            lemma_combos_valid(n, t, i);
        }
        assert forall|i: int, j: int| 0 <= i < j < yielded(n, t).len() implies precedes(
            #[trigger] yielded(n, t)[i],
            #[trigger] yielded(n, t)[j],
        ) && yielded(n, t)[i] != yielded(n, t)[j] by {
            lemma_combos_ordered(n, t, i, j);
        }
    }
}

/// The place after `cursor` in an enumeration of `total` tuples: one
/// further, but never beyond the end.
pub open spec fn stepped(cursor: int, total: int) -> int {
    if cursor < total {
        cursor + 1
    } else {
        cursor
    }
}

/// The parameters of an enumeration: subsets of size `t` among `n`.
pub struct Combinations {
    n: usize,
    t: usize,
}

/// A cursor over the enumeration. It stands before the first tuple when it
/// is made, on a tuple after each successful step, and past the end once
/// the tuples are used up.
pub struct CombinationsIter {
    n: usize,
    t: usize,
    c: Vec<usize>,
    initial: bool,
    end: bool,
    pos: Ghost<nat>,
}

impl Combinations {
    /// The number of indices to choose from.
    pub closed spec fn pool(&self) -> nat {
        self.n as nat
    }

    /// The number of indices in each subset.
    pub closed spec fn size(&self) -> nat {
        self.t as nat
    }

    /// The subsets of `t` indices among `n`, where `t` is at most `n`. A
    /// cursor keeps `t + 2` numbers, the largest of them `n + 1`, so both
    /// fit the machine's word.
    pub fn new(n: usize, t: u32) -> (r: Self)
        requires
            n >= t,
            n + 1 <= usize::MAX,
            t + 2 <= usize::MAX,
        ensures
            r.pool() == n,
            r.size() == t,
            r.size() <= r.pool(),
    {
        Combinations { n, t: t as usize }
    }

    #[verifier::type_invariant]
    spec fn inv(&self) -> bool {
        self.t <= self.n && self.n + 1 <= usize::MAX && self.t + 2 <= usize::MAX
    }

    /// A cursor that stands before the first tuple.
    pub fn stream_iter(&mut self) -> (r: CombinationsIter)
        ensures
            final(self).pool() == old(self).pool(),
            final(self).size() == old(self).size(),
            r.pool() == old(self).pool(),
            r.size() == old(self).size(),
            r.cursor() == -1,
    {
        proof {
            use_type_invariant(&*self);
        }
        let mut v: Vec<usize> = Vec::with_capacity(self.t + 2);
        let mut i: usize = 0;
        while i < self.t
            invariant
                i <= self.t,
                v@.len() == i,
                forall|x: int| 0 <= x < i ==> v@[x] == x,
            decreases self.t - i,
        {
            v.push(i);
            i = i + 1;
        }
        v.push(self.n);
        v.push(0);
        proof {
            let first = v@.take(self.t as int);
            assert(first =~= first_tuple(self.t as nat));
            lemma_rank_of_start(first, self.t as nat);
        }
        CombinationsIter {
            n: self.n,
            t: self.t,
            c: v,
            initial: true,
            end: false,
            pos: Ghost(0),
        }
    }

    /// All the tuples, in the order in which a cursor visits them.
    pub fn iter(&mut self) -> (r: Vec<Vec<usize>>)
        ensures
            final(self).pool() == old(self).pool(),
            final(self).size() == old(self).size(),
            r@.len() == yielded(old(self).pool(), old(self).size()).len(),
            forall|i: int|
                0 <= i < r@.len() ==> (#[trigger] r@[i])@ == yielded(
                    old(self).pool(),
                    old(self).size(),
                )[i],
    {
        let mut out: Vec<Vec<usize>> = Vec::new();
        let mut it = self.stream_iter();
        let ghost all = yielded(it.pool(), it.size());
        loop
            invariant
                all == yielded(it.pool(), it.size()),
                it.pool() == old(self).pool(),
                it.size() == old(self).size(),
                final(self).pool() == old(self).pool(),
                final(self).size() == old(self).size(),
                -1 <= it.cursor() < all.len(),
                out@.len() == it.cursor() + 1,
                forall|i: int| 0 <= i < out@.len() ==> (#[trigger] out@[i])@ == all[i],
            decreases all.len() - it.cursor(),
        {
            match it.next() {
                Some(tuple) => {
                    out.push(tuple);
                },
                None => {
                    return out;
                },
            }
        }
    }
}

impl CombinationsIter {
    /// The number of indices to choose from.
    pub closed spec fn pool(&self) -> nat {
        self.n as nat
    }

    /// The number of tuples that the cursor visits.
    pub open spec fn total(&self) -> int {
        yielded(self.pool(), self.size()).len() as int
    }

    /// The number of indices in each subset.
    pub closed spec fn size(&self) -> nat {
        self.t as nat
    }

    /// Where the cursor stands: `-1` before the first tuple, `i` on tuple
    /// `i` of `yielded(pool, size)`, and the length of that sequence once
    /// past the end.
    pub closed spec fn cursor(&self) -> int {
        if self.end {
            yielded(self.n as nat, self.t as nat).len() as int
        } else if self.initial {
            -1
        } else {
            self.pos@ as int
        }
    }

    #[verifier::type_invariant]
    spec fn inv(&self) -> bool {
        &&& self.t <= self.n
        &&& self.n + 1 <= usize::MAX
        &&& self.t + 2 <= usize::MAX
        &&& !self.end ==> {
            &&& self.c@.len() == self.t + 2
            &&& self.c@[self.t as int] == self.n
            &&& self.c@[self.t + 1] == 0
            &&& is_combination(self.c@.take(self.t as int), self.n as nat, self.t as nat)
            &&& rank_upto(self.c@.take(self.t as int), self.t as nat) == self.pos@
            &&& self.initial ==> self.c@.take(self.t as int) == first_tuple(self.t as nat)
            &&& !self.initial ==> self.t > 0
        }
    }

    /// Moves to the next tuple, or past the end when there is none. Past
    /// the end the cursor stays where it is.
    pub fn advance(&mut self)
        ensures
            final(self).pool() == old(self).pool(),
            final(self).size() == old(self).size(),
            -1 <= old(self).cursor() <= old(self).total(),
            final(self).cursor() == stepped(old(self).cursor(), old(self).total()),
    {
        proof {
            use_type_invariant(&*self);
            lemma_combos_len(self.n as nat, self.t as nat);
        }
        if self.end {
            return ;
        }
        let ghost before = self.c@.take(self.t as int);
        proof {
            lemma_combos_at_rank(before, self.n as nat, self.t as nat);
            if self.initial {
                lemma_rank_of_start(before, self.t as nat);
            }
            assert forall|i: int| 0 <= i < self.t implies (#[trigger] self.c@[i]) < self.n by {
                assert(before[i] == self.c@[i]);
            }
        }
        if self.initial {
            if self.t == 0 {
                self.end = true;
                return ;
            }
            self.initial = false;
            return ;
        }
        let ghost full = self.c@;
        let mut c: Vec<usize> = Vec::new();
        self.end = true;
        std::mem::swap(&mut c, &mut self.c);
        let t = self.t;
        let n = self.n;
        let mut j: usize = 0;
        while c[j] + 1 == c[j + 1]
            invariant
                j <= t,
                t + 2 <= usize::MAX,
                n + 1 <= usize::MAX,
                c@.len() == t + 2,
                full.len() == t + 2,
                full[t as int] == n,
                full[t + 1] == 0,
                forall|i: int| 0 <= i < t ==> (#[trigger] full[i]) < n,
                forall|i: int| 0 <= i < j ==> (#[trigger] full[i]) + 1 == full[i + 1],
                forall|i: int| 0 <= i < j ==> (#[trigger] c@[i]) == i,
                forall|i: int| j <= i < t + 2 ==> (#[trigger] c@[i]) == full[i],
            decreases t - j,
        {
            c[j] = j;
            j = j + 1;
        }
        let ghost reset = c@;
        c[j] = c[j] + 1;
        if j >= t {
            self.c = c;
            proof {
                lemma_last_tuple(full, n as nat, t as nat);
            }
        } else {
            proof {
                lemma_next_tuple(full, c@, n as nat, t as nat, j as int);
                lemma_combos_at_rank(c@.take(t as int), n as nat, t as nat);
            }
            self.c = c;
            self.pos = Ghost((self.pos@ + 1) as nat);
            self.end = false;
        }
    }

    /// The tuple under the cursor; none once past the end. Before the first
    /// step it shows the tuple `(0, .., t-1)`.
    pub fn get(&self) -> (r: Option<&[usize]>)
        ensures
            -1 <= self.cursor() <= self.total(),
            match r {
                Some(tuple) => if self.cursor() == -1 {
                    tuple@ == first_tuple(self.size())
                } else {
                    self.cursor() < self.total() && tuple@ == yielded(
                        self.pool(),
                        self.size(),
                    )[self.cursor()]
                },
                None => self.cursor() == self.total(),
            },
    {
        proof {
            use_type_invariant(self);
            lemma_combos_len(self.n as nat, self.t as nat);
        }
        if self.end {
            None
        } else {
            let s = self.c.as_slice();
            let r = &s[0..self.t];
            proof {
                assert(s@.subrange(0, self.t as int) =~= self.c@.take(self.t as int));
                lemma_combos_at_rank(self.c@.take(self.t as int), self.n as nat, self.t as nat);
            }
            Some(r)
        }
    }

    /// Moves on and hands out a copy of the tuple reached.
    pub fn next(&mut self) -> (r: Option<Vec<usize>>)
        ensures
            final(self).pool() == old(self).pool(),
            final(self).size() == old(self).size(),
            final(self).cursor() == stepped(old(self).cursor(), old(self).total()),
            -1 <= old(self).cursor() <= old(self).total(),
            match r {
                Some(tuple) => final(self).cursor() < old(self).total() && tuple@ == yielded(
                    old(self).pool(),
                    old(self).size(),
                )[final(self).cursor()],
                None => final(self).cursor() == old(self).total(),
            },
    {
        self.advance();
        match self.get() {
            Some(tuple) => {
                let mut out: Vec<usize> = Vec::with_capacity(tuple.len());
                let mut i: usize = 0;
                while i < tuple.len()
                    invariant
                        i <= tuple.len(),
                        out@ == tuple@.take(i as int),
                    decreases tuple.len() - i,
                {
                    out.push(tuple[i]);
                    proof {
                        assert(tuple@.take(i as int).push(tuple@[i as int]) =~= tuple@.take(i + 1));
                    }
                    i = i + 1;
                }
                proof {
                    assert(tuple@.take(i as int) =~= tuple@);
                }
                Some(out)
            },
            None => None,
        }
    }
}

/// A buffer that is one run of consecutive values up to its sentinel `n`
/// holds the last tuple.
proof fn lemma_last_tuple(full: Seq<usize>, n: nat, t: nat)
    requires
        full.len() == t + 2,
        full[t as int] == n,
        forall|i: int| 0 <= i < t ==> (#[trigger] full[i]) + 1 == full[i + 1],
    ensures
        rank_upto(full.take(t as int), t) + 1 == binomial(n, t),
{
    let before = full.take(t as int);
    assert forall|i: int| 0 <= i < t implies (#[trigger] before[i]) == n - t + i by {
        lemma_run(full, t as int, i);
        assert(before[i] == full[i]);
    }
    lemma_run(full, t as int, 0);
    lemma_rank_of_run(before, n, t);
}

/// One step of Algorithm L on a buffer that holds a tuple and its
/// sentinel `n`: where the first `j` entries form a run that entry `j`
/// does not continue, restarting the run at zero and raising entry `j`
/// by one gives the next tuple.
proof fn lemma_next_tuple(full: Seq<usize>, next: Seq<usize>, n: nat, t: nat, j: int)
    requires
        0 <= j < t,
        full.len() == t + 2,
        next.len() == t + 2,
        full[t as int] == n,
        is_combination(full.take(t as int), n, t),
        forall|i: int| 0 <= i < j ==> (#[trigger] full[i]) + 1 == full[i + 1],
        full[j] + 1 != full[j + 1],
        forall|i: int| 0 <= i < j ==> (#[trigger] next[i]) == i,
        next[j] == full[j] + 1,
        forall|i: int| j < i < t + 2 ==> (#[trigger] next[i]) == full[i],
    ensures
        is_combination(next.take(t as int), n, t),
        rank_upto(next.take(t as int), t) == rank_upto(full.take(t as int), t) + 1,
{
    let before = full.take(t as int);
    let after = next.take(t as int);
    assert forall|i: int| 0 <= i < j implies (#[trigger] before[i]) == before[j] - j + i by {
        lemma_run(full, j, i);
        assert(before[i] == full[i]);
    }
    lemma_run(full, j, 0);
    assert(before[j] == full[j]);
    assert(before[j] >= j);
    if j + 1 < t {
        assert(before[j + 1] == full[j + 1]);
        assert(before[j] < before[j + 1]);
    }
    assert(before[j] < n);
    assert forall|i: int| 0 <= i < after.len() implies (#[trigger] after[i]) < n by {
        if i < j {
            assert(after[i] == i);
        } else if i == j {
        } else {
            assert(after[i] == before[i]);
        }
    }
    assert forall|a: int, b: int| 0 <= a < b < after.len() implies (#[trigger] after[a]) < (
    #[trigger] after[b]) by {
        if b < j {
            assert(after[a] == a);
            assert(after[b] == b);
        } else if b == j {
            assert(after[a] == a);
        } else {
            assert(after[b] == before[b]);
            if a > j {
                assert(after[a] == before[a]);
            } else if a == j {
                if b > j + 1 {
                    assert(before[j + 1] < before[b]);
                }
            } else {
                assert(after[a] == a);
                assert(before[j] < before[b]);
            }
        }
    }
    assert forall|i: int| 0 <= i < j implies (#[trigger] after[i]) == i by {
        assert(after[i] == next[i]);
    }
    assert forall|i: int| j < i < t implies (#[trigger] after[i]) == before[i] by {
        assert(after[i] == next[i]);
    }
    lemma_step_rank(before, after, j as nat, t);
}

/// In a buffer whose first `j` entries are each one less than the next,
/// entry `i` lies `j - i` below entry `j`.
proof fn lemma_run(full: Seq<usize>, j: int, i: int)
    requires
        0 <= i <= j < full.len(),
        forall|x: int| 0 <= x < j ==> (#[trigger] full[x]) + 1 == full[x + 1],
    ensures
        full[i] == full[j] - j + i,
    decreases j - i,
{
    if i < j {
        lemma_run(full, j, i + 1);
    }
}

} // verus!
