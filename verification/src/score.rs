//! Scores: the defect that a scoring method finds, kept exactly, and the
//! integer by which scores of one method are ranked.

use vstd::prelude::*;

verus! {

/// A defect as mathematics. The score that goes with it is its negative:
/// for `RootSum`, minus the sum of the square roots of the entries; for
/// `Whole`, minus the number.
pub enum Defect {
    RootSum(Seq<nat>),
    Whole(nat),
}

/// A defect as computed. See `Defect`.
#[derive(Debug, PartialEq, Eq)]
pub enum Score {
    RootSum(Vec<u128>),
    Whole(u64),
}

/// `r` is the whole part of the square root of `n`.
pub open spec fn is_floor_sqrt(n: nat, r: nat) -> bool {
    r * r <= n < (r + 1) * (r + 1)
}

/// The whole part of the square root of `n`.
pub open spec fn floor_sqrt(n: nat) -> nat {
    choose|r: nat| is_floor_sqrt(n, r)
}

/// A root in fixed point: the whole part of `2^16` times the square root
/// of `q`.
pub open spec fn scaled_root(q: nat) -> nat {
    floor_sqrt(q * 0x1_0000_0000)
}

/// The scaled roots of the first `m` entries of `qs`, summed.
pub open spec fn scaled_root_sum(qs: Seq<nat>, m: nat) -> nat
    decreases m,
{
    if m == 0 {
        0
    } else {
        scaled_root_sum(qs, (m - 1) as nat) + scaled_root(qs[m - 1])
    }
}

/// `x`, or the largest 64-bit signed number where `x` exceeds it.
pub open spec fn capped(x: nat) -> int {
    if x <= i64::MAX {
        x as int
    } else {
        i64::MAX as int
    }
}

/// Every entry of `qs` is zero.
pub open spec fn all_zero(qs: Seq<nat>) -> bool {
    forall|i: int| 0 <= i < qs.len() ==> #[trigger] qs[i] == 0
}

impl Defect {
    /// The defect is zero: the score is perfect.
    pub open spec fn is_zero(self) -> bool {
        match self {
            Defect::RootSum(qs) => all_zero(qs),
            Defect::Whole(x) => x == 0,
        }
    }

    /// The number by which defects of one kind are ranked: larger is
    /// better and zero is perfect. For `Whole` it is minus the number; for
    /// `RootSum`, minus the sum of the roots, each taken in units of
    /// `2^-16` and rounded down. Both stop at the most negative value
    /// that the negative of a 64-bit signed number can take.
    pub open spec fn key(self) -> int {
        match self {
            Defect::RootSum(qs) => -capped(scaled_root_sum(qs, qs.len())),
            Defect::Whole(x) => -capped(x),
        }
    }
}

/// Only one number has its square at or below `n` and the square of its
/// successor above.
pub proof fn lemma_floor_sqrt_unique(n: nat, r: nat)
    requires
        r * r <= n < (r + 1) * (r + 1),
    ensures
        floor_sqrt(n) == r,
{
    let s = floor_sqrt(n);
    assert(is_floor_sqrt(n, r));
    assert(is_floor_sqrt(n, s));
    if s < r {
        assert((s + 1) * (s + 1) <= r * r) by (nonlinear_arith)
            requires
                s + 1 <= r,
        ;
    }
    if r < s {
        assert((r + 1) * (r + 1) <= s * s) by (nonlinear_arith)
            requires
                r + 1 <= s,
        ;
    }
}

/// A larger number has no smaller root.
pub proof fn lemma_floor_sqrt_monotone(a: nat, b: nat)
    requires
        a <= b,
    ensures
        floor_sqrt(a) <= floor_sqrt(b),
{
    lemma_floor_sqrt_exists(a);
    lemma_floor_sqrt_exists(b);
    let x = floor_sqrt(a);
    let y = floor_sqrt(b);
    if y < x {
        assert((y + 1) * (y + 1) <= x * x) by (nonlinear_arith)
            requires
                y + 1 <= x,
        ;
    }
}

/// Every number has a whole root.
pub proof fn lemma_floor_sqrt_exists(n: nat)
    ensures
        floor_sqrt(n) * floor_sqrt(n) <= n < (floor_sqrt(n) + 1) * (floor_sqrt(n) + 1),
{
    assert((n + 1) * (n + 1) > n) by (nonlinear_arith);
    lemma_root_below(n, n + 1);
}

/// Below a number whose square exceeds `n` there is a whole root of `n`.
proof fn lemma_root_below(n: nat, hi: nat)
    requires
        hi * hi > n,
    ensures
        exists|r: nat| is_floor_sqrt(n, r),
    decreases hi,
{
    if hi == 0 {
        assert(hi * hi == 0) by (nonlinear_arith)
            requires
                hi == 0,
        ;
    } else {
        let r = (hi - 1) as nat;
        if r * r <= n {
            assert((r + 1) * (r + 1) == hi * hi) by (nonlinear_arith)
                requires
                    r + 1 == hi,
            ;
            assert(is_floor_sqrt(n, r));
        } else {
            lemma_root_below(n, r);
        }
    }
}

/// A root vanishes only for zero.
pub proof fn lemma_scaled_root_zero(q: nat)
    ensures
        scaled_root(q) == 0 <==> q == 0,
{
    let n = q * 0x1_0000_0000;
    lemma_floor_sqrt_exists(n);
    if q == 0 {
        assert(0nat * 0nat <= 0nat < (0nat + 1) * (0nat + 1)) by (nonlinear_arith);
        lemma_floor_sqrt_unique(0, 0);
    } else {
        assert(n >= 1);
        let s = floor_sqrt(n);
        if s == 0 {
            assert((s + 1) * (s + 1) == 1) by (nonlinear_arith)
                requires
                    s == 0,
            ;
        }
    }
}

/// A sum of roots vanishes only where every entry is zero.
pub proof fn lemma_root_sum_zero(qs: Seq<nat>, m: nat)
    requires
        m <= qs.len(),
    ensures
        scaled_root_sum(qs, m) == 0 <==> forall|i: int| 0 <= i < m ==> #[trigger] qs[i] == 0,
    decreases m,
{
    if m > 0 {
        lemma_root_sum_zero(qs, (m - 1) as nat);
        lemma_scaled_root_zero(qs[m - 1]);
    }
}

/// The roots of two lists, one after the other, add up.
pub proof fn lemma_root_sum_concat(a: Seq<nat>, b: Seq<nat>, m: nat)
    requires
        m <= b.len(),
    ensures
        scaled_root_sum(a + b, a.len() + m) == scaled_root_sum(a, a.len()) + scaled_root_sum(b, m),
    decreases m,
{
    if m == 0 {
        lemma_root_sum_agree(a + b, a, a.len());
    } else {
        lemma_root_sum_concat(a, b, (m - 1) as nat);
        assert((a + b)[a.len() + m - 1] == b[m - 1]);
    }
}

/// A sum of roots reads only the entries it sums over.
pub proof fn lemma_root_sum_agree(a: Seq<nat>, b: Seq<nat>, m: nat)
    requires
        m <= a.len(),
        m <= b.len(),
        forall|i: int| 0 <= i < m ==> a[i] == b[i],
    ensures
        scaled_root_sum(a, m) == scaled_root_sum(b, m),
    decreases m,
{
    if m > 0 {
        lemma_root_sum_agree(a, b, (m - 1) as nat);
    }
}

/// Entries of zero before a list change neither its key nor whether it
/// is perfect.
pub proof fn lemma_zeros_before(zeros: Seq<nat>, rest: Seq<nat>)
    requires
        all_zero(zeros),
    ensures
        Defect::RootSum(zeros + rest).key() == Defect::RootSum(rest).key(),
        Defect::RootSum(zeros + rest).is_zero() == Defect::RootSum(rest).is_zero(),
{
    lemma_root_sum_concat(zeros, rest, rest.len());
    lemma_root_sum_zero(zeros, zeros.len());
    let whole = zeros + rest;
    if all_zero(rest) {
        assert forall|i: int| 0 <= i < whole.len() implies #[trigger] whole[i] == 0 by {
            if i >= zeros.len() {
                assert(whole[i] == rest[i - zeros.len()]);
            }
        }
    }
    if all_zero(whole) {
        assert forall|i: int| 0 <= i < rest.len() implies #[trigger] rest[i] == 0 by {
            assert(whole[zeros.len() + i] == rest[i]);
        }
    }
}

/// The key is zero exactly for a perfect score, and never above zero.
pub proof fn lemma_key_zero(d: Defect)
    ensures
        d.key() <= 0,
        d.key() == 0 <==> d.is_zero(),
{
    match d {
        Defect::RootSum(qs) => {
            lemma_root_sum_zero(qs, qs.len());
        },
        Defect::Whole(x) => {},
    }
}

/// The root of `2^126` is `2^63`.
proof fn lemma_big_root()
    ensures
        floor_sqrt(0x4000_0000_0000_0000_0000_0000_0000_0000) == 0x8000_0000_0000_0000,
{
    let r: nat = 0x8000_0000_0000_0000;
    assert(r * r == 0x4000_0000_0000_0000_0000_0000_0000_0000) by (nonlinear_arith)
        requires
            r == 0x8000_0000_0000_0000,
    ;
    assert((r + 1) * (r + 1) > 0x4000_0000_0000_0000_0000_0000_0000_0000) by (nonlinear_arith)
        requires
            r == 0x8000_0000_0000_0000,
    ;
    lemma_floor_sqrt_unique(0x4000_0000_0000_0000_0000_0000_0000_0000, r);
}

/// The whole part of the square root of `x`.
pub fn isqrt(x: u128) -> (r: u128)
    ensures
        r == floor_sqrt(x as nat),
        r < 0x1_0000_0000_0000_0000,
{
    let mut lo: u128 = 0;
    let mut hi: u128 = 0x1_0000_0000_0000_0000;
    assert(0x1_0000_0000_0000_0000u128 * 0x1_0000_0000_0000_0000u128 > x) by (nonlinear_arith)
        requires
            x <= u128::MAX,
    ;
    while hi - lo > 1
        invariant
            lo < hi <= 0x1_0000_0000_0000_0000,
            lo * lo <= x,
            hi * hi > x,
        decreases hi - lo,
    {
        let mid = lo + (hi - lo) / 2;
        assert(mid * mid < 0x1_0000_0000_0000_0000 * 0x1_0000_0000_0000_0000) by (nonlinear_arith)
            requires
                mid < 0x1_0000_0000_0000_0000,
        ;
        if mid * mid <= x {
            lo = mid;
        } else {
            hi = mid;
        }
    }
    proof {
        lemma_floor_sqrt_unique(x as nat, lo as nat);
    }
    lo
}

/// The square root of `q` in units of `2^-16`, rounded down; `None` where
/// it exceeds the largest 64-bit signed number.
pub fn fixed_root(q: u128) -> (r: Option<u64>)
    ensures
        match r {
            Some(v) => v == scaled_root(q as nat) && v <= i64::MAX,
            None => scaled_root(q as nat) > i64::MAX,
        },
{
    if q >= 0x4000_0000_0000_0000_0000_0000 {
        proof {
            lemma_big_root();
            lemma_floor_sqrt_monotone(
                0x4000_0000_0000_0000_0000_0000_0000_0000,
                q as nat * 0x1_0000_0000,
            );
        }
        return None;
    }
    let root = isqrt(q * 0x1_0000_0000);
    proof {
        lemma_big_root();
        lemma_floor_sqrt_monotone(
            q as nat * 0x1_0000_0000,
            0x4000_0000_0000_0000_0000_0000_0000_0000,
        );
    }
    if root > 0x7FFF_FFFF_FFFF_FFFF {
        None
    } else {
        Some(root as u64)
    }
}

impl View for Score {
    type V = Defect;

    open spec fn view(&self) -> Defect {
        match self {
            Score::RootSum(qs) => Defect::RootSum(Seq::new(qs@.len(), |i: int| qs@[i] as nat)),
            Score::Whole(x) => Defect::Whole(*x as nat),
        }
    }
}

impl Score {
    /// The entries under the root, where the score is a sum of roots.
    pub open spec fn entries(&self) -> Seq<nat> {
        match self@ {
            Defect::RootSum(qs) => qs,
            Defect::Whole(x) => Seq::<nat>::empty(),
        }
    }

    /// Whether the score is perfect.
    pub fn is_perfect(&self) -> (r: bool)
        ensures
            r == self@.is_zero(),
    {
        match self {
            Score::RootSum(qs) => {
                let mut i: usize = 0;
                while i < qs.len()
                    invariant
                        i <= qs.len(),
                        self is RootSum,
                        self->RootSum_0 == qs,
                        forall|x: int| 0 <= x < i ==> #[trigger] qs@[x] == 0,
                    decreases qs.len() - i,
                {
                    if qs[i] != 0 {
                        proof {
                            assert(self@ matches Defect::RootSum(seq) && seq[i as int] != 0);
                        }
                        return false;
                    }
                    i = i + 1;
                }
                proof {
                    assert(self@ matches Defect::RootSum(seq) && all_zero(seq)) by {
                        let seq = self.entries();
                        assert forall|x: int| 0 <= x < seq.len() implies #[trigger] seq[x]
                            == 0 by {
                            assert(qs@[x] == 0);
                        }
                    }
                }
                true
            },
            Score::Whole(x) => *x == 0,
        }
    }

    /// The number by which scores of one method are ranked.
    pub fn key(&self) -> (r: i64)
        ensures
            r == self@.key(),
    {
        match self {
            Score::RootSum(qs) => {
                let ghost seq = self.entries();
                let mut total: u64 = 0;
                let mut i: usize = 0;
                while i < qs.len()
                    invariant
                        i <= qs.len(),
                        seq.len() == qs@.len(),
                        forall|x: int| 0 <= x < qs@.len() ==> #[trigger] seq[x] == qs@[x] as nat,
                        total == capped(scaled_root_sum(seq, i as nat)),
                        total <= i64::MAX,
                    decreases qs.len() - i,
                {
                    match fixed_root(qs[i]) {
                        Some(v) => {
                            let sum = total + v;
                            total = if sum > 0x7FFF_FFFF_FFFF_FFFF {
                                0x7FFF_FFFF_FFFF_FFFF
                            } else {
                                sum
                            };
                        },
                        None => {
                            total = 0x7FFF_FFFF_FFFF_FFFF;
                        },
                    }
                    i = i + 1;
                }
                -(total as i64)
            },
            Score::Whole(x) => {
                if *x > 0x7FFF_FFFF_FFFF_FFFF {
                    -0x7FFF_FFFF_FFFF_FFFF
                } else {
                    -(*x as i64)
                }
            },
        }
    }
}

} // verus!
