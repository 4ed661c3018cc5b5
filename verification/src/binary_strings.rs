//! Bit strings: weights, values, and a counter that visits all strings of
//! a given length.

use vstd::prelude::*;

verus! {

/// Number of `true` entries of `s`.
pub open spec fn weight(s: Seq<bool>) -> nat
    decreases s.len(),
{
    if s.len() == 0 {
        0
    } else {
        weight(s.drop_last()) + if s.last() { 1nat } else { 0nat }
    }
}

/// Number of one bits in the binary expansion of `v`.
pub open spec fn popcount(v: nat) -> nat
    decreases v,
{
    if v == 0 {
        0
    } else {
        popcount(v / 2) + v % 2
    }
}

/// Value of `s` read as a binary numeral, most significant bit first.
pub open spec fn value_be(s: Seq<bool>) -> nat
    decreases s.len(),
{
    if s.len() == 0 {
        0
    } else {
        2 * value_be(s.drop_last()) + if s.last() { 1nat } else { 0nat }
    }
}

/// Value of `s` read as a binary numeral, least significant bit first.
pub open spec fn value_le(s: Seq<bool>) -> nat
    decreases s.len(),
{
    if s.len() == 0 {
        0
    } else {
        (if s[0] { 1nat } else { 0nat }) + 2 * value_le(s.drop_first())
    }
}

/// Two to the power `n`.
pub open spec fn pow2(n: nat) -> nat
    decreases n,
{
    if n == 0 {
        1
    } else {
        2 * pow2((n - 1) as nat)
    }
}

/// A power of two is at least one.
pub proof fn lemma_pow2_positive(n: nat)
    ensures
        pow2(n) >= 1,
    decreases n,
{
    if n > 0 {
        lemma_pow2_positive((n - 1) as nat);
    }
}

/// A larger exponent gives no smaller power.
pub proof fn lemma_pow2_monotone(a: nat, b: nat)
    requires
        a <= b,
    ensures
        pow2(a) <= pow2(b),
    decreases b,
{
    if a < b {
        lemma_pow2_monotone(a, (b - 1) as nat);
    }
}

/// Exponents add where powers multiply.
pub proof fn lemma_pow2_adds(a: nat, b: nat)
    ensures
        pow2(a + b) == pow2(a) * pow2(b),
    decreases a,
{
    if a == 0 {
        assert(pow2(0) == 1);
        assert(1 * pow2(b) == pow2(b));
    } else {
        let a1 = (a - 1) as nat;
        lemma_pow2_adds(a1, b);
        assert((a + b - 1) as nat == a1 + b);
        assert(pow2(a + b) == 2 * pow2(a1 + b));
        assert(pow2(a) == 2 * pow2(a1));
        assert(2 * (pow2(a1) * pow2(b)) == (2 * pow2(a1)) * pow2(b)) by (nonlinear_arith);
    }
}

/// A big-endian numeral of length `n` is below `2^n`.
pub proof fn lemma_value_be_bound(s: Seq<bool>)
    ensures
        value_be(s) < pow2(s.len()),
    decreases s.len(),
{
    if s.len() > 0 {
        lemma_value_be_bound(s.drop_last());
    }
}

/// The weight of a string is at most its length.
pub proof fn lemma_weight_bound(s: Seq<bool>)
    ensures
        weight(s) <= s.len(),
    decreases s.len(),
{
    if s.len() > 0 {
        lemma_weight_bound(s.drop_last());
    }
}

/// `2^n` as a machine integer, or `None` when it does not fit.
pub fn checked_pow2(n: u32) -> (r: Option<usize>)
    ensures
        match r {
            Some(p) => p == pow2(n as nat),
            None => pow2(n as nat) > usize::MAX,
        },
{
    let mut p: usize = 1;
    let mut i: u32 = 0;
    while i < n
        invariant
            i <= n,
            p == pow2(i as nat),
        decreases n - i,
    {
        if p > usize::MAX / 2 {
            proof {
                lemma_pow2_monotone((i + 1) as nat, n as nat);
            }
            return None;
        }
        p = p * 2;
        i = i + 1;
    }
    Some(p)
}

/// The number of `true` entries of `v`.
pub fn hamming_weight(v: &[bool]) -> (r: usize)
    ensures
        r == weight(v@),
{
    let mut out: usize = 0;
    let mut i: usize = 0;
    while i < v.len()
        invariant
            i <= v.len(),
            out == weight(v@.take(i as int)),
            out <= i,
        decreases v.len() - i,
    {
        proof {
            assert(v@.take(i + 1).drop_last() =~= v@.take(i as int));
        }
        if v[i] {
            out = out + 1;
        }
        i = i + 1;
    }
    proof {
        assert(v@.take(i as int) =~= v@);
    }
    out
}

/// The number of one bits of `v`.
pub fn usize_hamming_weight(v: usize) -> (r: usize)
    ensures
        r == popcount(v as nat),
{
    let mut rest: usize = v;
    let mut out: usize = 0;
    while rest != 0
        invariant
            out + popcount(rest as nat) == popcount(v as nat),
        decreases rest,
    {
        proof {
            lemma_popcount_bound(v as nat);
            lemma_popcount_bound((rest / 2) as nat);
        }
        if rest % 2 != 0 {
            out = out + 1;
        }
        rest = rest / 2;
    }
    out
}

/// A number has at most as many one bits as its value, and a positive
/// number has at least one.
pub proof fn lemma_popcount_bound(v: nat)
    ensures
        popcount(v) <= v,
        v > 0 ==> popcount(v) >= 1,
    decreases v,
{
    if v > 0 {
        lemma_popcount_bound(v / 2);
    }
}

/// The powers of two at the machine word sizes.
pub proof fn lemma_pow2_32()
    ensures
        pow2(32) == 0x1_0000_0000,
{
    lemma_pow2_64();
}

proof fn lemma_pow2_64()
    ensures
        pow2(64) == 0x1_0000_0000_0000_0000,
        pow2(32) == 0x1_0000_0000,
{
    assert(pow2(8) == 256) by {
        reveal_with_fuel(pow2, 9);
    }
    lemma_pow2_adds(8, 8);
    assert(pow2(16) == 65536);
    lemma_pow2_adds(16, 16);
    assert(pow2(32) == 0x1_0000_0000);
    lemma_pow2_adds(32, 32);
}

/// The value of `v` read as a binary numeral, most significant bit
/// first. The value fits a machine word.
pub fn vec2usize(v: &[bool]) -> (r: usize)
    requires
        value_be(v@) <= usize::MAX,
    ensures
        r == value_be(v@),
{
    let mut acc: usize = 0;
    let mut i: usize = 0;
    while i < v.len()
        invariant
            i <= v.len(),
            acc == value_be(v@.take(i as int)),
            value_be(v@) <= usize::MAX,
        decreases v.len() - i,
    {
        proof {
            assert(v@.take(i + 1).drop_last() =~= v@.take(i as int));
            lemma_value_be_prefix(v@, i + 1);
        }
        acc = acc * 2 + if v[i] { 1 } else { 0 };
        i = i + 1;
    }
    proof {
        assert(v@.take(i as int) =~= v@);
    }
    acc
}

/// The value of a prefix never exceeds the value of the whole numeral.
pub proof fn lemma_value_be_prefix(s: Seq<bool>, n: int)
    requires
        0 <= n <= s.len(),
    ensures
        value_be(s.take(n)) <= value_be(s),
    decreases s.len() - n,
{
    if n < s.len() {
        lemma_value_be_prefix(s, n + 1);
        assert(s.take(n + 1).drop_last() =~= s.take(n));
    } else {
        assert(s.take(n) =~= s);
    }
}

/// The string of `n` bits that are all `v`.
pub open spec fn repeated(n: nat, v: bool) -> Seq<bool> {
    Seq::new(n, |x: int| v)
}

/// A counter that visits every string of a given length once, counting up
/// with the first bit least significant.
pub struct BinaryStringIterator {
    cur: Vec<bool>,
    ended: bool,
}

/// A string whose first `i` bits are one and whose bit `i` is zero has,
/// once these are turned to zeros and a one, a value larger by one.
pub proof fn lemma_carry(before: Seq<bool>, after: Seq<bool>, i: int)
    requires
        0 <= i < before.len(),
        after.len() == before.len(),
        before.take(i) == repeated(i as nat, true),
        after.take(i) == repeated(i as nat, false),
        !before[i] && after[i],
        after.skip(i + 1) == before.skip(i + 1),
    ensures
        value_le(after) == value_le(before) + 1,
    decreases i,
{
    if i == 0 {
        assert(after.drop_first() =~= after.skip(1));
        assert(before.drop_first() =~= before.skip(1));
    } else {
        let b1 = before.drop_first();
        let a1 = after.drop_first();
        assert(b1.take(i - 1) =~= repeated((i - 1) as nat, true)) by {
            assert(b1.take(i - 1) =~= before.take(i).drop_first());
        }
        assert(a1.take(i - 1) =~= repeated((i - 1) as nat, false)) by {
            assert(a1.take(i - 1) =~= after.take(i).drop_first());
        }
        assert(a1.skip(i) =~= after.skip(i + 1));
        assert(b1.skip(i) =~= before.skip(i + 1));
        assert(before[0] == before.take(i)[0]);
        assert(after[0] == after.take(i)[0]);
        lemma_carry(b1, a1, i - 1);
    }
}

/// A string of ones is the largest of its length, and any other string
/// has a smaller value.
pub proof fn lemma_all_ones(s: Seq<bool>)
    ensures
        value_le(s) + 1 <= pow2(s.len()),
        s == repeated(s.len(), true) <==> value_le(s) + 1 == pow2(s.len()),
    decreases s.len(),
{
    if s.len() > 0 {
        let rest = s.drop_first();
        lemma_all_ones(rest);
        if s == repeated(s.len(), true) {
            assert(rest =~= repeated(rest.len(), true));
            assert(s[0] == repeated(s.len(), true)[0]);
        }
        if value_le(s) + 1 == pow2(s.len()) {
            assert(s[0]);
            assert(s =~= seq![true] + rest);
            assert(s =~= repeated(s.len(), true));
        }
    } else {
        assert(s =~= repeated(0, true));
    }
}

impl BinaryStringIterator {
    /// The string that the next step hands out.
    pub closed spec fn string(&self) -> Seq<bool> {
        self.cur@
    }

    /// Every string has been handed out.
    pub closed spec fn finished(&self) -> bool {
        self.ended
    }

    /// A counter over the strings of length `n`, at the string of zeros.
    pub fn new(n: usize) -> (r: Self)
        ensures
            r.string().len() == n,
            value_le(r.string()) == 0,
            !r.finished(),
    {
        let cur = vec![false; n];
        proof {
            lemma_zero_value(cur@);
        }
        BinaryStringIterator { cur, ended: false }
    }

    /// Hands out the string at which the counter stands and moves to the
    /// string of the next value; none once all have been handed out.
    pub fn next(&mut self) -> (r: Option<Vec<bool>>)
        ensures
            final(self).string().len() == old(self).string().len(),
            old(self).finished() ==> r.is_none() && final(self).finished(),
            !old(self).finished() ==> r.is_some() && r.unwrap()@ == old(self).string(),
            !old(self).finished() ==> final(self).finished() == (value_le(old(self).string()) + 1
                == pow2(old(self).string().len())),
            !final(self).finished() ==> value_le(final(self).string()) == value_le(
                old(self).string(),
            ) + 1,
    {
        if self.ended {
            return None;
        }
        let ghost before = self.cur@;
        let mut ret: Vec<bool> = Vec::with_capacity(self.cur.len());
        let mut x: usize = 0;
        while x < self.cur.len()
            invariant
                x <= self.cur.len(),
                self.cur@ == before,
                !self.ended,
                ret@ == before.take(x as int),
            decreases self.cur.len() - x,
        {
            ret.push(self.cur[x]);
            proof {
                assert(before.take(x as int).push(before[x as int]) =~= before.take(x + 1));
            }
            x = x + 1;
        }
        proof {
            assert(before.take(x as int) =~= before);
            lemma_all_ones(before);
        }
        let mut i: usize = 0;
        while i < self.cur.len()
            invariant
                i <= self.cur.len(),
                !self.ended,
                !old(self).finished(),
                before == old(self).string(),
                self.cur@.len() == before.len(),
                ret@ == before,
                value_le(before) + 1 <= pow2(before.len()),
                before == repeated(before.len(), true) <==> value_le(before) + 1 == pow2(
                    before.len(),
                ),
                self.cur@.take(i as int) == repeated(i as nat, false),
                before.take(i as int) == repeated(i as nat, true),
                self.cur@.skip(i as int) == before.skip(i as int),
            decreases self.cur.len() - i,
        {
            let ghost prev = self.cur@;
            let bit = !self.cur[i];
            self.cur[i] = bit;
            proof {
                assert(self.cur@ == prev.update(i as int, bit));
                assert(prev[i as int] == prev.skip(i as int)[0]);
                assert(before[i as int] == before.skip(i as int)[0]);
                assert(self.cur@.take(i as int) =~= prev.take(i as int));
                assert(self.cur@.skip(i + 1) =~= prev.skip(i as int).skip(1));
                assert(before.skip(i + 1) =~= before.skip(i as int).skip(1));
                if !bit {
                    assert(self.cur@.take(i + 1) =~= self.cur@.take(i as int).push(false));
                    assert(repeated((i + 1) as nat, false) =~= repeated(i as nat, false).push(
                        false,
                    ));
                    assert(before.take(i + 1) =~= before.take(i as int).push(true));
                    assert(repeated((i + 1) as nat, true) =~= repeated(i as nat, true).push(true));
                }
            }
            if bit {
                proof {
                    assert(!before[i as int]);
                    lemma_carry(before, self.cur@, i as int);
                }
                return Some(ret);
            }
            i = i + 1;
        }
        proof {
            assert(before.take(i as int) =~= before);
            lemma_all_ones(before);
        }
        self.ended = true;
        Some(ret)
    }
}

/// A string of zeros has the value zero.
pub proof fn lemma_zero_value(s: Seq<bool>)
    requires
        forall|x: int| 0 <= x < s.len() ==> !s[x],
    ensures
        value_le(s) == 0,
    decreases s.len(),
{
    if s.len() > 0 {
        lemma_zero_value(s.drop_first());
    }
}

} // verus!
