//! An array of `k` columns as a boolean function of `k` inputs: its truth
//! table, the table in signs, and the Walsh transform of that.

use vstd::prelude::*;
use crate::binary_strings::{
    lemma_pow2_adds, lemma_pow2_monotone, lemma_pow2_positive, lemma_value_be_bound, popcount,
    pow2, usize_hamming_weight, value_be, weight,
};
use crate::fitness::FitnessFunction;
use crate::oarray::{cell_index, lemma_cell_index, valid_parameters, OArray};

verus! {

/// Largest number of inputs for which tables are built: a table of `2^30`
/// signs still sums within 32 bits.
pub const MAX_INPUTS: usize = 30;

/// A boolean function of `log2len` inputs: entry `x` of the table is the
/// value of the function on the digits of `x`.
pub struct TruthTable {
    pub table: Vec<bool>,
    pub log2len: usize,
}

/// A boolean function in signs: `-1` where it is true and `+1` where it
/// is false.
pub struct PolarTruthTable {
    pub table: Vec<i32>,
    pub log2len: usize,
}

/// The Walsh spectrum of a boolean function: entry `w` tells how far the
/// function agrees with the linear function that `w` names.
pub struct WalshTform {
    pub table: Vec<i32>,
    pub log2len: usize,
}

/// The whole part of the binary logarithm of `n`, and zero for `n = 0`.
pub open spec fn floor_log2(n: nat) -> nat
    decreases n,
{
    if n <= 1 {
        0
    } else {
        1 + floor_log2(n / 2)
    }
}

/// The logarithm of a power of two is its exponent.
pub proof fn lemma_floor_log2_pow2(k: nat)
    ensures
        floor_log2(pow2(k)) == k,
    decreases k,
{
    if k > 0 {
        lemma_floor_log2_pow2((k - 1) as nat);
        lemma_pow2_positive((k - 1) as nat);
        assert(pow2(k) / 2 == pow2((k - 1) as nat));
    }
}

/// The entries of `s` as mathematical integers.
pub open spec fn ints(s: Seq<i32>) -> Seq<int> {
    Seq::new(s.len(), |i: int| s[i] as int)
}

/// The Walsh-Hadamard transform of a table whose length is a power of
/// two: the transform of the sums of the two halves, followed by the
/// transform of their differences.
pub open spec fn walsh_spectrum(v: Seq<int>) -> Seq<int>
    decreases v.len(),
{
    if v.len() <= 1 {
        v
    } else {
        let half = (v.len() / 2) as int;
        walsh_spectrum(Seq::new(half as nat, |i: int| v[i] + v[i + half])) + walsh_spectrum(
            Seq::new(half as nat, |i: int| v[i] - v[i + half]),
        )
    }
}

/// The sign table of a truth table: `-1` where the function is true and
/// `+1` where it is false.
pub open spec fn polar(table: Seq<bool>) -> Seq<int> {
    Seq::new(table.len(), |i: int| if table[i] { -1int } else { 1int })
}

/// How many entries of `table` below `m` are true.
pub open spec fn count_true(table: Seq<bool>, m: nat) -> nat
    decreases m,
{
    if m == 0 {
        0
    } else {
        count_true(table, (m - 1) as nat) + if table[m - 1] { 1nat } else { 0nat }
    }
}

/// The index of a frequency of weight one up to `k`.
pub open spec fn low_weight(index: nat, k: nat) -> bool {
    1 <= popcount(index) <= k
}

/// The size of `x`.
pub open spec fn abs(x: int) -> int {
    if x >= 0 {
        x
    } else {
        -x
    }
}

/// The larger of two numbers.
pub open spec fn larger(a: int, b: int) -> int {
    if a >= b {
        a
    } else {
        b
    }
}

/// The largest size among the first `m` coefficients of `w` whose index
/// has weight one up to `k`; zero where there is none.
pub open spec fn max_low_weight(w: Seq<int>, k: nat, m: nat) -> int
    decreases m,
{
    if m == 0 {
        0
    } else if low_weight((m - 1) as nat, k) {
        larger(max_low_weight(w, k, (m - 1) as nat), abs(w[m - 1]))
    } else {
        max_low_weight(w, k, (m - 1) as nat)
    }
}

/// The largest size among the first `m` coefficients of `w`; zero where
/// there is none.
pub open spec fn max_size(w: Seq<int>, m: nat) -> int
    decreases m,
{
    if m == 0 {
        0
    } else {
        larger(max_size(w, (m - 1) as nat), abs(w[m - 1]))
    }
}

/// No coefficient of low weight exceeds the maximum, and a maximum other
/// than zero is the size of one of them.
pub proof fn lemma_max_low_weight(w: Seq<int>, k: nat, m: nat)
    requires
        m <= w.len(),
    ensures
        forall|i: int|
            0 <= i < m && low_weight(i as nat, k) ==> abs(#[trigger] w[i]) <= max_low_weight(
                w,
                k,
                m,
            ),
        max_low_weight(w, k, m) >= 0,
        max_low_weight(w, k, m) > 0 ==> exists|i: int|
            0 <= i < m && low_weight(i as nat, k) && abs(#[trigger] w[i]) == max_low_weight(
                w,
                k,
                m,
            ),
    decreases m,
{
    if m > 0 {
        let m1 = (m - 1) as nat;
        lemma_max_low_weight(w, k, m1);
        if max_low_weight(w, k, m) > 0 {
            if low_weight(m1, k) && abs(w[m1 as int]) >= max_low_weight(w, k, m1) {
                assert(abs(w[m1 as int]) == max_low_weight(w, k, m));
            } else {
                let i1 = choose|i: int|
                    0 <= i < m1 && low_weight(i as nat, k) && abs(#[trigger] w[i])
                        == max_low_weight(w, k, m1);
                assert(0 <= i1 < m && low_weight(i1 as nat, k) && abs(w[i1]) == max_low_weight(
                    w,
                    k,
                    m,
                ));
            }
        }
    }
}

/// No coefficient exceeds the largest size, which is not negative.
pub proof fn lemma_max_size(w: Seq<int>, m: nat)
    requires
        m <= w.len(),
    ensures
        max_size(w, m) >= 0,
        forall|i: int| 0 <= i < m ==> -max_size(w, m) <= #[trigger] w[i] <= max_size(w, m),
    decreases m,
{
    if m > 0 {
        lemma_max_size(w, (m - 1) as nat);
    }
}

/// The largest size does not exceed a bound on the sizes of all
/// coefficients.
pub proof fn lemma_max_size_bound(w: Seq<int>, m: nat, bound: int)
    requires
        m <= w.len(),
        bound >= 0,
        forall|i: int| 0 <= i < m ==> -bound <= #[trigger] w[i] <= bound,
    ensures
        0 <= max_size(w, m) <= bound,
    decreases m,
{
    if m > 0 {
        lemma_max_size_bound(w, (m - 1) as nat, bound);
    }
}

/// No maximum exceeds a bound on the sizes of all coefficients.
pub proof fn lemma_max_low_weight_bound(w: Seq<int>, k: nat, m: nat, bound: int)
    requires
        m <= w.len(),
        bound >= 0,
        forall|i: int| 0 <= i < w.len() ==> -bound <= #[trigger] w[i] <= bound,
    ensures
        0 <= max_low_weight(w, k, m) <= bound,
    decreases m,
{
    if m > 0 {
        lemma_max_low_weight_bound(w, k, (m - 1) as nat, bound);
    }
}

/// The `k` binary digits of `v`, most significant first.
pub open spec fn bits_of(v: nat, k: nat) -> Seq<bool>
    decreases k,
{
    if k == 0 {
        Seq::<bool>::empty()
    } else {
        bits_of(v / 2, (k - 1) as nat).push(v % 2 == 1)
    }
}

/// A number has as many digits as are asked for.
pub proof fn lemma_bits_of_len(v: nat, k: nat)
    ensures
        bits_of(v, k).len() == k,
    decreases k,
{
    if k > 0 {
        lemma_bits_of_len(v / 2, (k - 1) as nat);
    }
}

/// The digits of a number below `2^k` give the number back.
pub proof fn lemma_bits_of_value(v: nat, k: nat)
    requires
        v < pow2(k),
    ensures
        value_be(bits_of(v, k)) == v,
    decreases k,
{
    if k > 0 {
        let rest = bits_of(v / 2, (k - 1) as nat);
        lemma_bits_of_value(v / 2, (k - 1) as nat);
        assert(bits_of(v, k).drop_last() =~= rest);
    }
}

/// Among `m` entries at most `m` are true.
pub proof fn lemma_count_true_bound(table: Seq<bool>, m: nat)
    ensures
        count_true(table, m) <= m,
    decreases m,
{
    if m > 0 {
        lemma_count_true_bound(table, (m - 1) as nat);
    }
}

/// Exchanging two entries of different value leaves the number of true
/// entries as it was.
pub proof fn lemma_count_true_swap(table: Seq<bool>, i: int, j: int, m: nat)
    requires
        0 <= i < j < table.len(),
        table[i] != table[j],
        m <= table.len(),
    ensures
        count_true(table.update(i, table[j]).update(j, table[i]), m) == count_true(table, m) + (
        if i < m <= j {
            if table[j] {
                1int
            } else {
                -1int
            }
        } else {
            0int
        }),
    decreases m,
{
    if m > 0 {
        lemma_count_true_swap(table, i, j, (m - 1) as nat);
    }
}

impl TruthTable {
    /// The table has one entry for each of the `2^log2len` inputs, and
    /// `log2len` is within `MAX_INPUTS`.
    pub open spec fn well_formed(&self) -> bool {
        &&& self.log2len <= MAX_INPUTS
        &&& self.table.len() == pow2(self.log2len as nat)
    }

    /// The table with the whole part of the binary logarithm of its
    /// length.
    pub fn new(table: Vec<bool>) -> (r: TruthTable)
        ensures
            r.table == table,
            r.log2len == floor_log2(table@.len()),
    {
        let mut rest: usize = table.len();
        let mut l: usize = 0;
        while rest > 1
            invariant
                l + floor_log2(rest as nat) == floor_log2(table@.len()),
                l + rest <= table.len(),
            decreases rest,
        {
            rest = rest / 2;
            l = l + 1;
        }
        TruthTable { table, log2len: l }
    }

    /// How many inputs the function is true on.
    pub fn count(&self) -> (r: usize)
        ensures
            r == count_true(self.table@, self.table@.len()),
    {
        let mut out: usize = 0;
        let mut i: usize = 0;
        while i < self.table.len()
            invariant
                i <= self.table.len(),
                out == count_true(self.table@, i as nat),
                out <= i,
            decreases self.table.len() - i,
        {
            if self.table[i] {
                out = out + 1;
            }
            i = i + 1;
        }
        out
    }
}

impl PolarTruthTable {
    /// The table has `2^log2len` entries, each `+1` or `-1`, and `log2len`
    /// is within `MAX_INPUTS`.
    pub open spec fn well_formed(&self) -> bool {
        &&& self.log2len <= MAX_INPUTS
        &&& self.table.len() == pow2(self.log2len as nat)
        &&& forall|i: int|
            0 <= i < self.table@.len() ==> (#[trigger] self.table@[i]) == 1 || self.table@[i] == -1
    }

    /// The sign table of `t`.
    pub fn from(t: &TruthTable) -> (r: PolarTruthTable)
        ensures
            ints(r.table@) == polar(t.table@),
            r.log2len == t.log2len,
            t.well_formed() ==> r.well_formed(),
    {
        let mut newt: Vec<i32> = Vec::with_capacity(t.table.len());
        let mut i: usize = 0;
        while i < t.table.len()
            invariant
                i <= t.table.len(),
                newt@.len() == i,
                forall|x: int|
                    0 <= x < i ==> (#[trigger] newt@[x]) == if t.table@[x] {
                        -1i32
                    } else {
                        1i32
                    },
            decreases t.table.len() - i,
        {
            newt.push(if t.table[i] { -1 } else { 1 });
            i = i + 1;
        }
        proof {
            assert(ints(newt@) =~= polar(t.table@));
        }
        PolarTruthTable { table: newt, log2len: t.log2len }
    }

    /// The Walsh spectrum of the table.
    pub fn walsh_tform(&self) -> (r: WalshTform)
        requires
            self.well_formed(),
        ensures
            ints(r.table@) == walsh_spectrum(ints(self.table@)),
            r.log2len == self.log2len,
            r.well_formed(),
    {
        let mut truth: Vec<i32> = Vec::with_capacity(self.table.len());
        let mut i: usize = 0;
        while i < self.table.len()
            invariant
                i <= self.table.len(),
                truth@ == self.table@.take(i as int),
            decreases self.table.len() - i,
        {
            truth.push(self.table[i]);
            proof {
                assert(self.table@.take(i as int).push(self.table@[i as int]) =~= self.table@.take(
                    i + 1,
                ));
            }
            i = i + 1;
        }
        proof {
            assert(self.table@.take(i as int) =~= self.table@);
            lemma_pow2_30();
            lemma_pow2_monotone(self.log2len as nat, 30);
            assert(1 * pow2(self.log2len as nat) == pow2(self.log2len as nat));
        }
        let len = truth.len();
        butterfly(&mut truth, 0, len, Ghost(self.log2len as nat), Ghost(1));
        proof {
            assert(truth@.subrange(0, len as int) =~= truth@);
            assert(self.table@.subrange(0, len as int) =~= self.table@);
        }
        WalshTform { table: truth, log2len: self.log2len }
    }
}

/// The value of two to the thirtieth.
pub proof fn lemma_pow2_30()
    ensures
        pow2(30) == 0x4000_0000,
{
    assert(pow2(10) == 1024) by {
        reveal_with_fuel(pow2, 11);
    }
    lemma_pow2_adds(10, 10);
    assert(pow2(20) == 1024 * 1024);
    lemma_pow2_adds(20, 10);
}

/// Transforms a table in place. Its length is a power of two, and the
/// largest size among its entries times its length is within `2^30`; no
/// entry of the result is larger than that product.
pub fn walsh_tform_step(v: &mut Vec<i32>)
    requires
        exists|m: nat| old(v).len() == pow2(m),
        max_size(ints(old(v)@), old(v)@.len()) * old(v)@.len() <= 0x4000_0000,
    ensures
        final(v)@.len() == old(v)@.len(),
        ints(final(v)@) == walsh_spectrum(ints(old(v)@)),
        max_size(ints(final(v)@), final(v)@.len()) <= max_size(ints(old(v)@), old(v)@.len())
            * old(v)@.len(),
{
    let ghost m = choose|m: nat| old(v).len() == pow2(m);
    let ghost bound = max_size(ints(old(v)@), old(v)@.len());
    proof {
        lemma_max_size(ints(old(v)@), old(v)@.len());
        assert forall|i: int| 0 <= i < old(v)@.len() implies -bound <= (#[trigger] old(v)@[i])
            <= bound by {
            assert(ints(old(v)@)[i] == old(v)@[i]);
        }
    }
    let len = v.len();
    let ghost before = v@;
    butterfly(v, 0, len, Ghost(m), Ghost(bound));
    proof {
        assert(v@.subrange(0, len as int) =~= v@);
        assert(before.subrange(0, len as int) =~= before);
        assert(bound * len >= 0) by (nonlinear_arith)
            requires
                bound >= 0,
                len >= 0,
        ;
        assert forall|i: int| 0 <= i < len implies -(bound * len) <= #[trigger] ints(v@)[i]
            <= bound * len by {
            assert(-bound * len <= v@[i] <= bound * len);
            assert(-bound * len == -(bound * len)) by (nonlinear_arith);
        }
        lemma_max_size_bound(ints(v@), len as nat, bound * len);
    }
}

/// The transform of the `len = 2^m` entries of `v` from `start` on, in
/// place: sums into the first half, differences into the second, then
/// each half in turn.
fn butterfly(v: &mut Vec<i32>, start: usize, len: usize, Ghost(m): Ghost<nat>, Ghost(bound): Ghost<
    int,
>)
    requires
        start + len <= old(v).len(),
        len == pow2(m),
        bound >= 0,
        bound * len <= 0x4000_0000,
        forall|i: int| start <= i < start + len ==> -bound <= (#[trigger] old(v)@[i]) <= bound,
    ensures
        final(v)@.len() == old(v)@.len(),
        forall|i: int|
            0 <= i < old(v)@.len() && !(start <= i < start + len) ==> (#[trigger] final(v)@[i])
                == old(v)@[i],
        ints(final(v)@.subrange(start as int, start + len)) == walsh_spectrum(
            ints(old(v)@.subrange(start as int, start + len)),
        ),
        forall|i: int|
            start <= i < start + len ==> -bound * len <= (#[trigger] final(v)@[i]) <= bound * len,
    decreases len,
{
    let ghost before = v@;
    let ghost input = ints(before.subrange(start as int, start + len));
    if len <= 1 {
        proof {
            assert(bound * len <= bound) by (nonlinear_arith)
                requires
                    len <= 1,
                    bound >= 0,
            ;
            if len == 1 {
                assert(bound * len == bound) by (nonlinear_arith)
                    requires
                        len == 1,
                ;
            }
        }
        return ;
    }
    let half = len / 2;
    proof {
        lemma_pow2_positive((m - 1) as nat);
        assert(m > 0) by {
            if m == 0 {
                assert(pow2(0) == 1);
            }
        }
        assert(half == pow2((m - 1) as nat));
        assert(2 * half == len);
        assert((2 * bound) * half == bound * len) by (nonlinear_arith)
            requires
                2 * half == len,
        ;
        assert(bound <= bound * len) by (nonlinear_arith)
            requires
                len >= 1,
                bound >= 0,
        ;
        assert(2 * bound <= (2 * bound) * half) by (nonlinear_arith)
            requires
                half >= 1,
                bound >= 0,
        ;
        assert(-(2 * bound) * half == -bound * len) by (nonlinear_arith)
            requires
                2 * half == len,
        ;
    }
    let mut i: usize = 0;
    while i < half
        invariant
            i <= half,
            2 * half == len,
            start + len <= v.len(),
            v@.len() == before.len(),
            bound >= 0,
            2 * bound <= 0x4000_0000,
            forall|x: int|
                start <= x < start + len ==> -bound <= (#[trigger] before[x]) <= bound,
            forall|x: int|
                0 <= x < before.len() && !(start <= x < start + len) ==> (#[trigger] v@[x])
                    == before[x],
            forall|x: int|
                0 <= x < i ==> (#[trigger] v@[start + x]) == before[start + x] + before[start + x
                    + half],
            forall|x: int|
                0 <= x < i ==> (#[trigger] v@[start + half + x]) == before[start + x] - before[start
                    + x + half],
            forall|x: int| i <= x < half ==> (#[trigger] v@[start + x]) == before[start + x],
            forall|x: int|
                i <= x < half ==> (#[trigger] v@[start + half + x]) == before[start + half + x],
        decreases half - i,
    {
        proof {
            assert(v@[start + i] == before[start + i]);
            assert(v@[start + half + i] == before[start + half + i]);
            assert(-bound <= before[start + i] <= bound);
            assert(-bound <= before[start + half + i] <= bound);
        }
        let temp = v[start + i];
        let other = v[start + i + half];
        v[start + i] = temp + other;
        v[start + i + half] = temp - other;
        proof {
            assert forall|x: int| 0 <= x < i + 1 implies (#[trigger] v@[start + x]) == before[start
                + x] + before[start + x + half] by {
                if x < i {
                    assert(v@[start + x] == before[start + x] + before[start + x + half]);
                }
            }
            assert forall|x: int| 0 <= x < i + 1 implies (#[trigger] v@[start + half + x])
                == before[start + x] - before[start + x + half] by {
                if x < i {
                    assert(v@[start + half + x] == before[start + x] - before[start + x + half]);
                }
            }
            assert forall|x: int| i + 1 <= x < half implies (#[trigger] v@[start + x])
                == before[start + x] by {
                assert(v@[start + x] == before[start + x]);
            }
            assert forall|x: int| i + 1 <= x < half implies (#[trigger] v@[start + half + x])
                == before[start + half + x] by {
                assert(v@[start + half + x] == before[start + half + x]);
            }
        }
        i = i + 1;
    }
    let ghost mixed = v@;
    let ghost sums = Seq::new(half as nat, |x: int| input[x] + input[x + half]);
    let ghost diffs = Seq::new(half as nat, |x: int| input[x] - input[x + half]);
    proof {
        assert forall|x: int| start <= x < start + half implies -(2 * bound) <= (
        #[trigger] mixed[x]) <= 2 * bound by {
            let y = x - start;
            assert(mixed[start + y] == before[start + y] + before[start + y + half]);
            assert(-bound <= before[start + y] <= bound);
            assert(-bound <= before[start + y + half] <= bound);
        }
        assert forall|x: int| start + half <= x < start + len implies -(2 * bound) <= (
        #[trigger] mixed[x]) <= 2 * bound by {
            let y = x - start - half;
            assert(mixed[start + half + y] == before[start + y] - before[start + y + half]);
            assert(-bound <= before[start + y] <= bound);
            assert(-bound <= before[start + y + half] <= bound);
        }
        assert(ints(mixed.subrange(start as int, start + half)) =~= sums) by {
            assert forall|x: int| 0 <= x < half implies ints(
                mixed.subrange(start as int, start + half),
            )[x] == sums[x] by {
                assert(mixed[start + x] == before[start + x] + before[start + x + half]);
            }
        }
        assert(ints(mixed.subrange(start + half, start + len)) =~= diffs) by {
            assert forall|x: int| 0 <= x < half implies ints(
                mixed.subrange(start + half, start + len),
            )[x] == diffs[x] by {
                assert(mixed[start + half + x] == before[start + x] - before[start + x + half]);
            }
        }
    }
    butterfly(v, start, half, Ghost((m - 1) as nat), Ghost(2 * bound));
    let ghost first_done = v@;
    proof {
        assert(first_done.subrange(start + half, start + len) =~= mixed.subrange(
            start + half,
            start + len,
        ));
    }
    butterfly(v, start + half, half, Ghost((m - 1) as nat), Ghost(2 * bound));
    proof {
        assert(v@.subrange(start as int, start + half) =~= first_done.subrange(
            start as int,
            start + half,
        ));
        assert(ints(v@.subrange(start as int, start + len)) =~= ints(
            v@.subrange(start as int, start + half),
        ) + ints(v@.subrange(start + half, start + len)));
        assert(input.len() == len);
        assert(walsh_spectrum(input) == walsh_spectrum(sums) + walsh_spectrum(diffs));
        assert forall|x: int| start <= x < start + len implies -bound * len <= (#[trigger] v@[x])
            <= bound * len by {
            if x < start + half {
                assert(v@[x] == first_done[x]);
            }
        }
    }
}

impl WalshTform {
    /// The table has `2^log2len` entries, none larger in size than the
    /// length of the table, and `log2len` is within `MAX_INPUTS`.
    pub open spec fn well_formed(&self) -> bool {
        &&& self.log2len <= MAX_INPUTS
        &&& self.table.len() == pow2(self.log2len as nat)
        &&& forall|i: int|
            0 <= i < self.table@.len() ==> -self.table@.len() <= (#[trigger] self.table@[i])
                <= self.table@.len()
    }

    /// The deviation from correlation immunity of order `k`: the largest
    /// size of a coefficient whose index has weight one up to `k`.
    pub fn cidev(&self, k: usize) -> (r: u32)
        requires
            self.well_formed(),
            k >= 1,
            self.log2len >= 1,
        ensures
            r == max_low_weight(ints(self.table@), k as nat, self.table@.len()),
    {
        proof {
            lemma_pow2_30();
            lemma_pow2_monotone(self.log2len as nat, 30);
        }
        let mut best: u32 = 0;
        let mut i: usize = 0;
        while i < self.table.len()
            invariant
                i <= self.table.len(),
                self.well_formed(),
                self.table.len() <= 0x4000_0000,
                best == max_low_weight(ints(self.table@), k as nat, i as nat),
            decreases self.table.len() - i,
        {
            let w = usize_hamming_weight(i);
            if 1 <= w && w <= k {
                let val = self.table[i];
                let size: u32 = if val >= 0 {
                    val as u32
                } else {
                    (-val) as u32
                };
                if size > best {
                    best = size;
                }
            }
            i = i + 1;
        }
        best
    }

    /// The largest size of a coefficient.
    pub fn radius(&self) -> (r: i32)
        requires
            self.well_formed(),
        ensures
            r == max_size(ints(self.table@), self.table@.len()),
    {
        proof {
            lemma_pow2_30();
            lemma_pow2_monotone(self.log2len as nat, 30);
        }
        let mut best: i32 = 0;
        let mut i: usize = 0;
        while i < self.table.len()
            invariant
                i <= self.table.len(),
                self.well_formed(),
                self.table.len() <= 0x4000_0000,
                best == max_size(ints(self.table@), i as nat),
            decreases self.table.len() - i,
        {
            let val = self.table[i];
            let size: i32 = if val >= 0 {
                val
            } else {
                -val
            };
            if size > best {
                best = size;
            }
            i = i + 1;
        }
        best
    }

    /// The largest size of a coefficient over the whole spectrum.
    pub fn nonlinearity(&self) -> (r: i32)
        requires
            self.well_formed(),
        ensures
            r == max_size(ints(self.table@), self.table@.len()),
    {
        self.radius()
    }
}

/// Digit `j` of the `k` binary digits of `v`, most significant first.
pub fn digit(v: usize, k: usize, j: usize) -> (r: bool)
    requires
        j < k,
    ensures
        r == bits_of(v as nat, k as nat)[j as int],
{
    let mut cur: usize = v;
    let mut width: usize = k;
    proof {
        lemma_bits_of_len(v as nat, k as nat);
    }
    while width > j + 1
        invariant
            j < width <= k,
            bits_of(cur as nat, width as nat)[j as int] == bits_of(v as nat, k as nat)[j as int],
        decreases width,
    {
        proof {
            lemma_bits_of_len((cur / 2) as nat, (width - 1) as nat);
        }
        cur = cur / 2;
        width = width - 1;
    }
    proof {
        lemma_bits_of_len((cur / 2) as nat, (width - 1) as nat);
    }
    cur % 2 == 1
}

/// The true entries of `table` below `m`, in rising order.
pub open spec fn true_indices(table: Seq<bool>, m: nat) -> Seq<usize>
    decreases m,
{
    if m == 0 {
        Seq::<usize>::empty()
    } else if table[m - 1] {
        true_indices(table, (m - 1) as nat).push((m - 1) as usize)
    } else {
        true_indices(table, (m - 1) as nat)
    }
}

/// The list of the true entries has one place for each of them, holds
/// true entries only, and rises.
pub proof fn lemma_true_indices(table: Seq<bool>, m: nat)
    requires
        m <= table.len(),
        m <= usize::MAX,
    ensures
        true_indices(table, m).len() == count_true(table, m),
        forall|i: int|
            0 <= i < true_indices(table, m).len() ==> (#[trigger] true_indices(table, m)[i]) < m
                && table[true_indices(table, m)[i] as int],
        forall|i: int, j: int|
            0 <= i < j < true_indices(table, m).len() ==> (#[trigger] true_indices(table, m)[i]) < (
            #[trigger] true_indices(table, m)[j]),
    decreases m,
{
    if m > 0 {
        lemma_true_indices(table, (m - 1) as nat);
    }
}

/// Every true entry below `m` stands in the list of the true entries.
pub proof fn lemma_true_indices_complete(table: Seq<bool>, m: nat, v: int)
    requires
        0 <= v < m,
        m <= table.len(),
        m <= usize::MAX,
        table[v],
    ensures
        true_indices(table, m).contains(v as usize),
    decreases m,
{
    let list = true_indices(table, m);
    if v == m - 1 {
        assert(list[list.len() - 1] == v as usize);
    } else {
        lemma_true_indices_complete(table, (m - 1) as nat, v);
        let shorter = true_indices(table, (m - 1) as nat);
        let at = choose|at: int| 0 <= at < shorter.len() && shorter[at] == v as usize;
        assert(list[at] == v as usize);
    }
}

impl OArray {
    /// Some row of the array, read as a binary numeral, has the value `v`.
    pub open spec fn has_value(&self, v: int) -> bool {
        exists|i: int| 0 <= i < self.ngrande && #[trigger] value_be(self.row(i)) == v
    }

    /// The value of row `row` read as a binary numeral, first column most
    /// significant.
    pub fn row_value(&self, row: usize) -> (r: usize)
        requires
            self.well_formed(),
            self.k <= MAX_INPUTS,
            row < self.ngrande,
        ensures
            r == value_be(self.row(row as int)),
            r < pow2(self.k as nat),
    {
        let ghost bits = self.row(row as int);
        proof {
            lemma_value_be_bound(bits);
            lemma_pow2_30();
            lemma_pow2_monotone(self.k as nat, 30);
        }
        let mut acc: usize = 0;
        let mut j: usize = 0;
        while j < self.k
            invariant
                j <= self.k,
                self.well_formed(),
                row < self.ngrande,
                bits == self.row(row as int),
                value_be(bits) < 0x4000_0000,
                acc == value_be(bits.take(j as int)),
            decreases self.k - j,
        {
            proof {
                assert(bits.take(j + 1).drop_last() =~= bits.take(j as int));
                crate::binary_strings::lemma_value_be_prefix(bits, j + 1);
            }
            acc = acc * 2 + if self.get(row, j) { 1 } else { 0 };
            j = j + 1;
        }
        proof {
            assert(bits.take(j as int) =~= bits);
        }
        acc
    }

    /// The boolean function that is true exactly on the rows of the
    /// array, each row read as a binary numeral.
    pub fn truth_table(&self) -> (r: TruthTable)
        requires
            self.well_formed(),
            self.k <= MAX_INPUTS,
        ensures
            r.well_formed(),
            r.log2len == self.k,
            forall|v: int| 0 <= v < r.table@.len() ==> (#[trigger] r.table@[v]) == self.has_value(v),
    {
        proof {
            lemma_pow2_30();
            lemma_pow2_monotone(self.k as nat, 30);
            lemma_floor_log2_pow2(self.k as nat);
        }
        let l = crate::binary_strings::checked_pow2(self.k as u32).unwrap();
        let mut out: Vec<bool> = vec![false; l];
        let mut i: usize = 0;
        while i < self.ngrande
            invariant
                i <= self.ngrande,
                self.well_formed(),
                self.k <= MAX_INPUTS,
                out@.len() == pow2(self.k as nat),
                forall|v: int|
                    0 <= v < out@.len() ==> (#[trigger] out@[v]) == exists|x: int|
                        0 <= x < i && #[trigger] value_be(self.row(x)) == v,
            decreases self.ngrande - i,
        {
            let val = self.row_value(i);
            let ghost prev = out@;
            out[val] = true;
            proof {
                assert forall|v: int| 0 <= v < out@.len() implies (#[trigger] out@[v]) == exists|
                    x: int,
                |
                    0 <= x < i + 1 && #[trigger] value_be(self.row(x)) == v by {
                    if v == val {
                        assert(value_be(self.row(i as int)) == v);
                    } else {
                        assert(out@[v] == prev[v]);
                        if prev[v] {
                            let x = choose|x: int|
                                0 <= x < i && #[trigger] value_be(self.row(x)) == v;
                            assert(0 <= x < i + 1 && value_be(self.row(x)) == v);
                        }
                    }
                }
            }
            i = i + 1;
        }
        TruthTable::new(out)
    }

    /// The array whose rows are the inputs on which `truth` is true, in
    /// rising order; none where their number is not `ngrande`.
    pub fn from_truth_table(
        truth: &TruthTable,
        ngrande: usize,
        target_t: u32,
        fitness_f: FitnessFunction,
    ) -> (r: Option<Self>)
        requires
            truth.well_formed(),
            valid_parameters(ngrande, target_t),
        ensures
            r.is_some() <==> count_true(truth.table@, truth.table@.len()) == ngrande,
            match r {
                Some(oa) => {
                    &&& oa.ngrande == ngrande
                    &&& oa.k == truth.log2len
                    &&& oa.target_t == target_t
                    &&& oa.fitness_f == fitness_f
                    &&& oa.lambda as nat == ngrande as nat / pow2(target_t as nat)
                    &&& oa.valid()
                    &&& forall|i: int|
                        0 <= i < ngrande ==> #[trigger] oa.row(i) == bits_of(
                            true_indices(truth.table@, truth.table@.len())[i] as nat,
                            truth.log2len as nat,
                        )
                },
                None => true,
            },
    {
        let k = truth.log2len;
        proof {
            lemma_pow2_30();
            lemma_pow2_monotone(k as nat, 30);
        }
        let mut rows: Vec<usize> = Vec::new();
        let mut ind: usize = 0;
        while ind < truth.table.len()
            invariant
                ind <= truth.table.len(),
                rows@ == true_indices(truth.table@, ind as nat),
            decreases truth.table.len() - ind,
        {
            if truth.table[ind] {
                rows.push(ind);
            }
            ind = ind + 1;
        }
        proof {
            lemma_true_indices(truth.table@, truth.table@.len());
        }
        if rows.len() != ngrande {
            return None;
        }
        proof {
            lemma_count_true_bound(truth.table@, truth.table@.len());
        }
        let mut d: Vec<bool> = Vec::new();
        let mut col: usize = 0;
        while col < k
            invariant
                col <= k,
                k == truth.log2len,
                rows@.len() == ngrande,
                d@.len() == col * ngrande,
                forall|i: int, j: int|
                    0 <= i < ngrande && 0 <= j < col ==> d@[#[trigger] cell_index(
                        ngrande as int,
                        i,
                        j,
                    )] == bits_of(rows@[i] as nat, k as nat)[j],
            decreases k - col,
        {
            let mut i: usize = 0;
            while i < ngrande
                invariant
                    i <= ngrande,
                    col < k,
                    rows@.len() == ngrande,
                    d@.len() == col * ngrande + i,
                    forall|x: int, j: int|
                        0 <= x < ngrande && 0 <= j < col ==> d@[#[trigger] cell_index(
                            ngrande as int,
                            x,
                            j,
                        )] == bits_of(rows@[x] as nat, k as nat)[j],
                    forall|x: int|
                        0 <= x < i ==> d@[#[trigger] cell_index(ngrande as int, x, col as int)]
                            == bits_of(rows@[x] as nat, k as nat)[col as int],
                decreases ngrande - i,
            {
                let ghost prev = d@;
                d.push(digit(rows[i], k, col));
                proof {
                    assert forall|x: int, j: int| 0 <= x < ngrande && 0 <= j < col implies d@[
                    #[trigger] cell_index(ngrande as int, x, j)] == bits_of(
                        rows@[x] as nat,
                        k as nat,
                    )[j] by {
                        lemma_cell_index(ngrande as int, col as int, x, j);
                        assert(ngrande * col == col * ngrande) by (nonlinear_arith);
                        assert(d@[cell_index(ngrande as int, x, j)] == prev[cell_index(
                            ngrande as int,
                            x,
                            j,
                        )]);
                    }
                    assert forall|x: int| 0 <= x < i + 1 implies d@[#[trigger] cell_index(
                        ngrande as int,
                        x,
                        col as int,
                    )] == bits_of(rows@[x] as nat, k as nat)[col as int] by {
                        if x < i {
                            assert(d@[cell_index(ngrande as int, x, col as int)] == prev[cell_index(
                                ngrande as int,
                                x,
                                col as int,
                            )]);
                        }
                    }
                }
                i = i + 1;
            }
            proof {
                assert(col * ngrande + ngrande == (col + 1) * ngrande) by (nonlinear_arith);
                assert forall|x: int, j: int| 0 <= x < ngrande && 0 <= j < col + 1 implies d@[
                #[trigger] cell_index(ngrande as int, x, j)] == bits_of(
                    rows@[x] as nat,
                    k as nat,
                )[j] by {
                    if j == col {
                    }
                }
            }
            col = col + 1;
        }
        let oa = OArray::new(ngrande, k, target_t, d, fitness_f);
        proof {
            assert(k * ngrande == ngrande * k) by (nonlinear_arith);
            assert forall|i: int| 0 <= i < ngrande implies #[trigger] oa.row(i) == bits_of(
                rows@[i] as nat,
                k as nat,
            ) by {
                lemma_bits_of_len(rows@[i] as nat, k as nat);
                assert forall|j: int| 0 <= j < k implies oa.row(i)[j] == bits_of(
                    rows@[i] as nat,
                    k as nat,
                )[j] by {
                    assert(oa.d@[cell_index(ngrande as int, i, j)] == bits_of(
                        rows@[i] as nat,
                        k as nat,
                    )[j]);
                }
                assert(oa.row(i) =~= bits_of(rows@[i] as nat, k as nat));
            }
        }
        Some(oa)
    }
}

/// The truth table of `oa`: true on the values of its rows.
pub open spec fn table_of(oa: &OArray) -> Seq<bool> {
    Seq::new(pow2(oa.k as nat), |v: int| oa.has_value(v))
}

/// The Walsh spectrum of the truth table of `oa`.
pub open spec fn spectrum_of(oa: &OArray) -> Seq<int> {
    walsh_spectrum(polar(table_of(oa)))
}

/// The largest size of a coefficient of weight one up to the strength of
/// `oa`.
pub open spec fn cidev_of(oa: &OArray) -> int {
    max_low_weight(spectrum_of(oa), oa.target_t as nat, spectrum_of(oa).len())
}

} // verus!
