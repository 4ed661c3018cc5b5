//! The Walsh spectrum as sums over a table: the transform is linear,
//! taken twice it scales the table by its length, and it scales the sum
//! of the squares by the length. Then what an exchange of two entries of
//! a truth table does to the spectrum, and why an improving move never
//! raises the largest low-weight coefficient.

use vstd::prelude::*;
use crate::binary_strings::{lemma_pow2_positive, popcount, pow2};
use crate::hill_climb::{
    agrees_where_separated, agrees_with_all, bucket, bucket_of, differs_from_all,
    differs_where_separated, dot, exchanged, improving, separates_all, Bucket,
};
use crate::wtform::{
    abs, lemma_max_low_weight, low_weight, max_low_weight, polar, walsh_spectrum,
};

verus! {

/// `value`, or its negative where `b` holds.
pub open spec fn signed(value: int, b: bool) -> int {
    if b {
        -value
    } else {
        value
    }
}

/// The coefficient of the frequency `omega` as a sum: each of the first
/// `n` entries of `v`, negated where the linear function that `omega`
/// names is true at its place.
pub open spec fn char_sum(v: Seq<int>, omega: nat, n: nat) -> int
    decreases n,
{
    if n == 0 {
        0
    } else {
        char_sum(v, omega, (n - 1) as nat) + signed(v[n - 1], dot(omega, (n - 1) as nat))
    }
}

/// The same sum over the `m` entries from place `h` on.
pub open spec fn upper_sum(v: Seq<int>, omega: nat, h: nat, m: nat) -> int
    decreases m,
{
    if m == 0 {
        0
    } else {
        upper_sum(v, omega, h, (m - 1) as nat) + signed(v[h + m - 1], dot(omega, (h + m - 1) as nat))
    }
}

/// `dot` by its lowest bits, for every first argument.
pub proof fn lemma_dot_unfold(a: nat, b: nat)
    ensures
        dot(a, b) == ((a % 2 == 1 && b % 2 == 1) != dot(a / 2, b / 2)),
{
    if a == 0 {
        assert(dot(0, b / 2) == false);
    }
}

/// `dot` and the bit of value `h = 2^e`, for arguments below `h`: the bit
/// counts where both arguments have it.
pub proof fn lemma_dot_top_bit(omega: nat, x: nat, e: nat)
    requires
        omega < pow2(e),
        x < pow2(e),
    ensures
        dot(omega + pow2(e), x + pow2(e)) == !dot(omega, x),
        dot(omega + pow2(e), x) == dot(omega, x),
        dot(omega, x + pow2(e)) == dot(omega, x),
    decreases e,
{
    let h = pow2(e);
    lemma_dot_unfold(omega, x);
    lemma_dot_unfold(omega + h, x + h);
    lemma_dot_unfold(omega + h, x);
    lemma_dot_unfold(omega, x + h);
    if e == 0 {
        assert(h == 1);
        assert(dot(0, 0) == false);
        lemma_dot_unfold(0, 0);
    } else {
        let h1 = pow2((e - 1) as nat);
        assert(h == 2 * h1);
        lemma_dot_top_bit(omega / 2, x / 2, (e - 1) as nat);
        assert((omega + h) / 2 == omega / 2 + h1);
        assert((x + h) / 2 == x / 2 + h1);
        assert((omega + h) % 2 == omega % 2);
        assert((x + h) % 2 == x % 2);
    }
}

/// The sum over `h + m` entries is the sum over the first `h` and the sum
/// over the `m` that follow.
pub proof fn lemma_char_sum_parts(v: Seq<int>, omega: nat, h: nat, m: nat)
    ensures
        char_sum(v, omega, h + m) == char_sum(v, omega, h) + upper_sum(v, omega, h, m),
    decreases m,
{
    if m > 0 {
        lemma_char_sum_parts(v, omega, h, (m - 1) as nat);
    }
}

/// The sums and the differences of the two halves of a table.
pub open spec fn folded(v: Seq<int>, h: nat, top: bool) -> Seq<int> {
    Seq::new(h, |i: int| if top { v[i] - v[i + h] } else { v[i] + v[i + h] })
}

/// The sum over a table of `2h` entries, for a frequency with or without
/// the bit of value `h`, is the sum over the folded table for the rest of
/// the frequency.
pub proof fn lemma_char_sum_folded(v: Seq<int>, low: nat, e: nat, top: bool, m: nat)
    requires
        low < pow2(e),
        m <= pow2(e),
        v.len() == 2 * pow2(e),
    ensures
        char_sum(v, low + if top { pow2(e) } else { 0 }, m) + upper_sum(
            v,
            low + if top { pow2(e) } else { 0 },
            pow2(e),
            m,
        ) == char_sum(folded(v, pow2(e), top), low, m),
    decreases m,
{
    if m > 0 {
        let h = pow2(e);
        let x = (m - 1) as nat;
        lemma_char_sum_folded(v, low, e, top, x);
        lemma_dot_top_bit(low, x, e);
    }
}

/// The transform of a table of `2^e` entries has `2^e` entries, and each
/// is the sum that its frequency names.
pub proof fn lemma_spectrum_char_sum(v: Seq<int>, e: nat)
    requires
        v.len() == pow2(e),
    ensures
        walsh_spectrum(v).len() == pow2(e),
        forall|omega: int|
            0 <= omega < pow2(e) ==> #[trigger] walsh_spectrum(v)[omega] == char_sum(
                v,
                omega as nat,
                pow2(e),
            ),
    decreases e,
{
    lemma_pow2_positive(e);
    if e == 0 {
        assert(pow2(0) == 1);
        assert(char_sum(v, 0, 1) == char_sum(v, 0, 0) + signed(v[0], dot(0, 0)));
    } else {
        let h = pow2((e - 1) as nat);
        assert(v.len() == 2 * h);
        assert((v.len() / 2) as int == h);
        let a = folded(v, h, false);
        let b = folded(v, h, true);
        assert(a =~= Seq::new(h, |i: int| v[i] + v[i + h]));
        assert(b =~= Seq::new(h, |i: int| v[i] - v[i + h]));
        lemma_spectrum_char_sum(a, (e - 1) as nat);
        lemma_spectrum_char_sum(b, (e - 1) as nat);
        assert(walsh_spectrum(v) == walsh_spectrum(a) + walsh_spectrum(b));
        assert forall|omega: int| 0 <= omega < pow2(e) implies #[trigger] walsh_spectrum(v)[omega]
            == char_sum(v, omega as nat, pow2(e)) by {
            if omega < h {
                lemma_char_sum_folded(v, omega as nat, (e - 1) as nat, false, h);
                lemma_char_sum_parts(v, omega as nat, h, h);
                assert(walsh_spectrum(v)[omega] == walsh_spectrum(a)[omega]);
            } else {
                let low = (omega - h) as nat;
                lemma_char_sum_folded(v, low, (e - 1) as nat, true, h);
                lemma_char_sum_parts(v, omega as nat, h, h);
                assert(walsh_spectrum(v)[omega] == walsh_spectrum(b)[omega - h]);
            }
        }
    }
}

/// Writing an entry of a table changes the sum by the change of that
/// entry, with the sign of its place.
pub proof fn lemma_char_sum_update(v: Seq<int>, omega: nat, n: nat, at: int, value: int)
    requires
        0 <= at < v.len(),
        n <= v.len(),
    ensures
        char_sum(v.update(at, value), omega, n) == char_sum(v, omega, n) + if at < n {
            signed(value - v[at], dot(omega, at as nat))
        } else {
            0
        },
    decreases n,
{
    if n > 0 {
        lemma_char_sum_update(v, omega, (n - 1) as nat, at, value);
    }
}

/// A sum over entries that are each `+1` or `-1` is even or odd as their
/// number is.
pub proof fn lemma_char_sum_parity(v: Seq<int>, omega: nat, n: nat)
    requires
        n <= v.len(),
        forall|i: int| 0 <= i < v.len() ==> #[trigger] v[i] == 1 || v[i] == -1,
    ensures
        (char_sum(v, omega, n) - n) % 2 == 0,
        -n <= char_sum(v, omega, n) <= n,
    decreases n,
{
    if n > 0 {
        lemma_char_sum_parity(v, omega, (n - 1) as nat);
        assert(v[n - 1] == 1 || v[n - 1] == -1);
    }
}

/// A frequency of the class `kind` stands in the list of that class.
pub proof fn lemma_bucket_member(w: Seq<int>, t: nat, a: int, kind: Bucket, m: nat, omega: int)
    requires
        0 <= omega < m,
        m <= usize::MAX,
        popcount(omega as nat) <= t,
        bucket_of(w[omega], a) == kind,
    ensures
        bucket(w, t, a, kind, m).contains(omega as usize),
    decreases m,
{
    let list = bucket(w, t, a, kind, m);
    if omega == m - 1 {
        assert(list.last() == omega as usize);
        assert(list[list.len() - 1] == omega as usize);
    } else {
        lemma_bucket_member(w, t, a, kind, (m - 1) as nat, omega);
        let shorter = bucket(w, t, a, kind, (m - 1) as nat);
        let at = choose|at: int| 0 <= at < shorter.len() && shorter[at] == omega as usize;
        assert(list[at] == omega as usize);
    }
}

/// No maximum exceeds a bound on the sizes of the low-weight
/// coefficients.
pub proof fn lemma_max_low_weight_le(w: Seq<int>, k: nat, m: nat, bound: int)
    requires
        m <= w.len(),
        bound >= 0,
        forall|i: int| 0 <= i < m && low_weight(i as nat, k) ==> abs(#[trigger] w[i]) <= bound,
    ensures
        max_low_weight(w, k, m) <= bound,
    decreases m,
{
    if m > 0 {
        lemma_max_low_weight_le(w, k, (m - 1) as nat, bound);
        if low_weight((m - 1) as nat, k) {
            assert(abs(w[m - 1]) <= bound);
        }
    }
}

/// What the exchange of two entries of different value does to one
/// coefficient: nothing where the frequency does not tell the two places
/// apart; where it does, the coefficient falls by four if the function
/// agrees with the frequency at the first place, and rises by four if
/// not.
pub proof fn lemma_exchange_coefficient(tt: Seq<bool>, e: nat, i: int, j: int, omega: int)
    requires
        tt.len() == pow2(e),
        0 <= i < j < tt.len(),
        tt[i] != tt[j],
        0 <= omega < tt.len(),
    ensures
        walsh_spectrum(polar(exchanged(tt, i, j)))[omega] == walsh_spectrum(polar(tt))[omega] + (
        if dot(omega as nat, i as nat) == dot(omega as nat, j as nat) {
            0int
        } else if tt[i] == dot(omega as nat, i as nat) {
            -4int
        } else {
            4int
        }),
        walsh_spectrum(polar(tt))[omega] % 2 == tt.len() as int % 2,
        -tt.len() <= walsh_spectrum(polar(tt))[omega] <= tt.len(),
{
    let p = polar(tt);
    let n = tt.len();
    let first = p.update(i, p[j]);
    let q = first.update(j, p[i]);
    assert(polar(exchanged(tt, i, j)) =~= q);
    lemma_spectrum_char_sum(p, e);
    lemma_spectrum_char_sum(q, e);
    lemma_char_sum_update(p, omega as nat, n, i, p[j]);
    lemma_char_sum_update(first, omega as nat, n, j, p[i]);
    lemma_char_sum_parity(p, omega as nat, n);
    assert(first[j] == p[j]);
}

/// An improving move never raises the largest low-weight coefficient,
/// where that is at least four: with `a` the largest size among the
/// coefficients of weight one up to `t`, after the exchange of the
/// entries at `i` and `j` no such coefficient is larger than `a`.
pub proof fn lemma_move_bounds_spectrum(tt: Seq<bool>, e: nat, t: nat, i: int, j: int)
    requires
        e >= 1,
        tt.len() == pow2(e),
        tt.len() <= usize::MAX,
        0 <= i < j < tt.len(),
        max_low_weight(walsh_spectrum(polar(tt)), t, tt.len()) >= 4,
        improving(
            tt,
            walsh_spectrum(polar(tt)),
            t,
            max_low_weight(walsh_spectrum(polar(tt)), t, tt.len()),
            i,
            j,
        ),
    ensures
        max_low_weight(walsh_spectrum(polar(exchanged(tt, i, j))), t, tt.len()) <= max_low_weight(
            walsh_spectrum(polar(tt)),
            t,
            tt.len(),
        ),
{
    let n = tt.len();
    let w = walsh_spectrum(polar(tt));
    let a = max_low_weight(w, t, n);
    let moved = walsh_spectrum(polar(exchanged(tt, i, j)));
    lemma_spectrum_char_sum(polar(tt), e);
    lemma_spectrum_char_sum(polar(exchanged(tt, i, j)), e);
    lemma_max_low_weight(w, t, n);
    assert(n % 2 == 0) by {
        assert(pow2(e) == 2 * pow2((e - 1) as nat));
    }
    assert(a % 2 == 0) by {
        let top = choose|x: int| 0 <= x < n && low_weight(x as nat, t) && abs(#[trigger] w[x]) == a;
        lemma_exchange_coefficient(tt, e, i, j, top);
    }
    assert forall|omega: int| 0 <= omega < n && low_weight(omega as nat, t) implies abs(
        #[trigger] moved[omega],
    ) <= a by {
        lemma_exchange_coefficient(tt, e, i, j, omega);
        assert(abs(w[omega]) <= a);
        let kind = bucket_of(w[omega], a);
        let o = omega as nat;
        let separated = dot(o, i as nat) != dot(o, j as nat);
        let agrees = tt[i] == dot(o, i as nat);
        if kind != Bucket::Other {
            lemma_bucket_member(w, t, a, kind, n, omega);
            let list = bucket(w, t, a, kind, n);
            let at = choose|at: int| 0 <= at < list.len() && list[at] == omega as usize;
            assert(list[at] as nat == o);
            match kind {
                Bucket::PlusA => {
                    assert(separates_all(list, i, j));
                    assert(agrees_with_all(tt, list, i, j));
                    assert(separated && agrees);
                },
                Bucket::MinusA => {
                    assert(separates_all(list, i, j));
                    assert(differs_from_all(tt, list, i, j));
                    assert(separated && !agrees);
                },
                Bucket::PlusB => {
                    assert(agrees_where_separated(tt, list, i, j));
                    assert(separated ==> agrees);
                },
                Bucket::PlusC => {
                    assert(agrees_where_separated(tt, list, i, j));
                    assert(separated ==> agrees);
                },
                Bucket::MinusB => {
                    assert(differs_where_separated(tt, list, i, j));
                    assert(separated ==> !agrees);
                },
                Bucket::MinusC => {
                    assert(differs_where_separated(tt, list, i, j));
                    assert(separated ==> !agrees);
                },
                Bucket::Other => {},
            }
        }
    }
    lemma_max_low_weight_le(moved, t, n, a);
}

/// The entries of `v`, each times `c`.
pub open spec fn scaled(v: Seq<int>, c: int) -> Seq<int> {
    Seq::new(v.len(), |i: int| c * v[i])
}

/// The sums of the entries of `a` and `b` place by place, or their
/// differences where `minus` holds.
pub open spec fn combined(a: Seq<int>, b: Seq<int>, minus: bool) -> Seq<int> {
    Seq::new(
        a.len(),
        |i: int|
            if minus {
                a[i] - b[i]
            } else {
                a[i] + b[i]
            },
    )
}

/// The sum of the squares of the first `n` entries of `v`.
pub open spec fn square_sum(v: Seq<int>, n: nat) -> int
    decreases n,
{
    if n == 0 {
        0
    } else {
        square_sum(v, (n - 1) as nat) + v[n - 1] * v[n - 1]
    }
}

/// The transform of a table of `2^e` entries, `e` at least one, is the
/// transform of the sums of its halves followed by that of their
/// differences, each of `2^(e-1)` entries.
pub proof fn lemma_spectrum_halves(v: Seq<int>, e: nat)
    requires
        e >= 1,
        v.len() == pow2(e),
    ensures
        pow2(e) == 2 * pow2((e - 1) as nat),
        walsh_spectrum(v) == walsh_spectrum(folded(v, pow2((e - 1) as nat), false))
            + walsh_spectrum(folded(v, pow2((e - 1) as nat), true)),
        walsh_spectrum(folded(v, pow2((e - 1) as nat), false)).len() == pow2((e - 1) as nat),
        walsh_spectrum(folded(v, pow2((e - 1) as nat), true)).len() == pow2((e - 1) as nat),
{
    let h = pow2((e - 1) as nat);
    lemma_pow2_positive((e - 1) as nat);
    assert(v.len() == 2 * h);
    assert((v.len() / 2) as int == h);
    let a = folded(v, h, false);
    let b = folded(v, h, true);
    assert(a =~= Seq::new(h, |i: int| v[i] + v[i + h]));
    assert(b =~= Seq::new(h, |i: int| v[i] - v[i + h]));
    lemma_spectrum_char_sum(a, (e - 1) as nat);
    lemma_spectrum_char_sum(b, (e - 1) as nat);
}

/// The transform is linear: the transform of the sums, or of the
/// differences, of two tables is the sums, or the differences, of their
/// transforms.
pub proof fn lemma_spectrum_combined(a: Seq<int>, b: Seq<int>, minus: bool, e: nat)
    requires
        a.len() == pow2(e),
        b.len() == pow2(e),
    ensures
        walsh_spectrum(combined(a, b, minus)) == combined(
            walsh_spectrum(a),
            walsh_spectrum(b),
            minus,
        ),
    decreases e,
{
    lemma_pow2_positive(e);
    let c = combined(a, b, minus);
    if e == 0 {
        assert(pow2(0) == 1);
        assert(c =~= combined(walsh_spectrum(a), walsh_spectrum(b), minus));
    } else {
        let e1 = (e - 1) as nat;
        let h = pow2(e1);
        lemma_spectrum_halves(a, e);
        lemma_spectrum_halves(b, e);
        lemma_spectrum_halves(c, e);
        assert(folded(c, h, false) =~= combined(folded(a, h, false), folded(b, h, false), minus));
        assert(folded(c, h, true) =~= combined(folded(a, h, true), folded(b, h, true), minus));
        lemma_spectrum_combined(folded(a, h, false), folded(b, h, false), minus, e1);
        lemma_spectrum_combined(folded(a, h, true), folded(b, h, true), minus, e1);
        assert(walsh_spectrum(c) =~= combined(walsh_spectrum(a), walsh_spectrum(b), minus));
    }
}

/// The transform of the transform of a table of `2^e` entries is the
/// table with each entry times `2^e`.
pub proof fn lemma_spectrum_twice(v: Seq<int>, e: nat)
    requires
        v.len() == pow2(e),
    ensures
        walsh_spectrum(walsh_spectrum(v)) == scaled(v, pow2(e) as int),
    decreases e,
{
    lemma_pow2_positive(e);
    if e == 0 {
        assert(pow2(0) == 1);
        assert(scaled(v, 1) =~= v);
    } else {
        let e1 = (e - 1) as nat;
        let h = pow2(e1);
        let s = folded(v, h, false);
        let d = folded(v, h, true);
        let lo = v.take(h as int);
        let hi = v.skip(h as int);
        let w = walsh_spectrum(v);
        lemma_spectrum_halves(v, e);
        lemma_spectrum_halves(w, e);
        lemma_spectrum_char_sum(lo, e1);
        lemma_spectrum_char_sum(hi, e1);
        // The sums of the halves of the transform are the transform of
        // the first half of the table, twice.
        assert(folded(w, h, false) =~= combined(walsh_spectrum(s), walsh_spectrum(d), false));
        lemma_spectrum_combined(s, d, false, e1);
        assert(combined(s, d, false) =~= combined(lo, lo, false));
        lemma_spectrum_combined(lo, lo, false, e1);
        lemma_spectrum_combined(walsh_spectrum(lo), walsh_spectrum(lo), false, e1);
        lemma_spectrum_twice(lo, e1);
        // And the differences are that of the second half, twice.
        assert(folded(w, h, true) =~= combined(walsh_spectrum(s), walsh_spectrum(d), true));
        lemma_spectrum_combined(s, d, true, e1);
        assert(combined(s, d, true) =~= combined(hi, hi, false));
        lemma_spectrum_combined(hi, hi, false, e1);
        lemma_spectrum_combined(walsh_spectrum(hi), walsh_spectrum(hi), false, e1);
        lemma_spectrum_twice(hi, e1);
        let first = combined(scaled(lo, h as int), scaled(lo, h as int), false);
        let second = combined(scaled(hi, h as int), scaled(hi, h as int), false);
        assert(walsh_spectrum(w) == first + second);
        assert forall|i: int| 0 <= i < 2 * h implies (first + second)[i] == scaled(
            v,
            pow2(e) as int,
        )[i] by {
            let x = v[i];
            assert(h * x + h * x == (2 * h) * x) by (nonlinear_arith);
            if i < h {
                assert(lo[i] == x);
            } else {
                assert(hi[i - h] == x);
            }
        }
        assert(first + second =~= scaled(v, pow2(e) as int));
    }
}

/// Two tables that agree on their first `n` entries have the same sum of
/// squares over them.
pub proof fn lemma_square_sum_same(a: Seq<int>, b: Seq<int>, n: nat)
    requires
        forall|i: int| 0 <= i < n ==> a[i] == b[i],
    ensures
        square_sum(a, n) == square_sum(b, n),
    decreases n,
{
    if n > 0 {
        lemma_square_sum_same(a, b, (n - 1) as nat);
    }
}

/// The sum of squares over a table followed by the first `m` entries of
/// another is the sum over the one and the sum over those of the other.
pub proof fn lemma_square_sum_joined(a: Seq<int>, b: Seq<int>, m: nat)
    requires
        m <= b.len(),
    ensures
        square_sum(a + b, a.len() + m) == square_sum(a, a.len()) + square_sum(b, m),
    decreases m,
{
    if m == 0 {
        lemma_square_sum_same(a + b, a, a.len());
    } else {
        lemma_square_sum_joined(a, b, (m - 1) as nat);
        assert((a + b)[a.len() + m - 1] == b[m - 1]);
    }
}

/// The squares of the sums and of the differences of the halves of a
/// table add up to twice the squares of the table.
pub proof fn lemma_square_sum_folded(v: Seq<int>, h: nat, m: nat)
    requires
        v.len() == 2 * h,
        m <= h,
    ensures
        square_sum(folded(v, h, false), m) + square_sum(folded(v, h, true), m) == 2 * (square_sum(
            v.take(h as int),
            m,
        ) + square_sum(v.skip(h as int), m)),
    decreases m,
{
    if m > 0 {
        lemma_square_sum_folded(v, h, (m - 1) as nat);
        let x = v[m - 1];
        let y = v[m - 1 + h];
        assert(folded(v, h, false)[m - 1] == x + y);
        assert(folded(v, h, true)[m - 1] == x - y);
        assert(v.take(h as int)[m - 1] == x);
        assert(v.skip(h as int)[m - 1] == y);
        assert((x + y) * (x + y) + (x - y) * (x - y) == 2 * (x * x + y * y)) by (nonlinear_arith);
    }
}

/// The squares of the transform of a table of `2^e` entries add up to
/// `2^e` times the squares of the table.
pub proof fn lemma_spectrum_square_sum(v: Seq<int>, e: nat)
    requires
        v.len() == pow2(e),
    ensures
        square_sum(walsh_spectrum(v), pow2(e)) == pow2(e) * square_sum(v, pow2(e)),
    decreases e,
{
    lemma_pow2_positive(e);
    if e == 0 {
        assert(pow2(0) == 1);
    } else {
        let e1 = (e - 1) as nat;
        let h = pow2(e1);
        let s = folded(v, h, false);
        let d = folded(v, h, true);
        let lo = v.take(h as int);
        let hi = v.skip(h as int);
        lemma_spectrum_halves(v, e);
        lemma_spectrum_square_sum(s, e1);
        lemma_spectrum_square_sum(d, e1);
        lemma_square_sum_joined(walsh_spectrum(s), walsh_spectrum(d), h);
        lemma_square_sum_folded(v, h, h);
        assert(v =~= lo + hi);
        lemma_square_sum_joined(lo, hi, h);
        let ss = square_sum(s, h);
        let sd = square_sum(d, h);
        let sv = square_sum(v, pow2(e));
        assert(ss + sd == 2 * sv);
        assert(h * ss + h * sd == (2 * h) * sv) by (nonlinear_arith)
            requires
                ss + sd == 2 * sv,
        ;
    }
}

} // verus!
