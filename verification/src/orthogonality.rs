//! Why a Walsh defect of zero means an orthogonal array, and the other
//! way round: the signed sums over the sets of columns are the Walsh
//! transform of the counts of the patterns.

use vstd::prelude::*;
use crate::binary_strings::{lemma_pow2_positive, lemma_value_be_bound, pow2, value_be};
use crate::fitness::{
    delta_defects, is_orthogonal, lemma_delta_zero_iff_orthogonal, lemma_power_zero, occurrences,
    pattern, selected_bits, FitnessFunction,
};
use crate::oarray::OArray;
use crate::score::all_zero;
use crate::t_combinations::{combos, lemma_combos_at_rank, lemma_combos_valid, rank_upto, yielded};
use crate::walsh::{
    lemma_walsh_methods_agree, magnitude, terms_over, walsh_sum, walsh_term, walsh_total,
    weight_sum,
};
use crate::hill_climb::dot;
use crate::spectrum::{lemma_char_sum_update, lemma_dot_unfold};
use crate::t_combinations::is_combination;
use crate::walsh::{lemma_xor_columns_shift, sign_of, signed_sum, xor_columns, zeros};
use crate::spectrum::{
    char_sum, folded, lemma_char_sum_folded, lemma_char_sum_parts, signed,
};

verus! {

/// The sum over a table of `2h` entries is the sum over the table folded
/// by the bit of value `h = 2^e` of the frequency, for the rest of the
/// frequency.
pub proof fn lemma_char_sum_top(v: Seq<int>, e: nat, omega: nat)
    requires
        v.len() == 2 * pow2(e),
        omega < 2 * pow2(e),
    ensures
        char_sum(v, omega, 2 * pow2(e)) == char_sum(
            folded(v, pow2(e), omega >= pow2(e)),
            if omega >= pow2(e) {
                (omega - pow2(e)) as nat
            } else {
                omega
            },
            pow2(e),
        ),
{
    let h = pow2(e);
    let top = omega >= h;
    let low = if top {
        (omega - h) as nat
    } else {
        omega
    };
    lemma_char_sum_folded(v, low, e, top, h);
    lemma_char_sum_parts(v, omega, h, h);
}

/// A table whose sums all vanish is zero throughout.
pub proof fn lemma_char_sum_zero_all(v: Seq<int>, e: nat)
    requires
        v.len() == pow2(e),
        forall|omega: nat| omega < pow2(e) ==> #[trigger] char_sum(v, omega, pow2(e)) == 0,
    ensures
        forall|i: int| 0 <= i < pow2(e) ==> #[trigger] v[i] == 0,
    decreases e,
{
    if e == 0 {
        assert(pow2(0) == 1);
        assert(char_sum(v, 0, 1) == char_sum(v, 0, 0) + signed(v[0], dot(0, 0)));
    } else {
        let e1 = (e - 1) as nat;
        let h = pow2(e1);
        lemma_pow2_positive(e1);
        let a = folded(v, h, false);
        let b = folded(v, h, true);
        assert forall|low: nat| low < h implies #[trigger] char_sum(a, low, h) == 0 by {
            lemma_char_sum_top(v, e1, low);
            assert(char_sum(v, low, pow2(e)) == 0);
        }
        assert forall|low: nat| low < h implies #[trigger] char_sum(b, low, h) == 0 by {
            lemma_char_sum_top(v, e1, low + h);
            assert(char_sum(v, low + h, pow2(e)) == 0);
        }
        lemma_char_sum_zero_all(a, e1);
        lemma_char_sum_zero_all(b, e1);
        assert forall|i: int| 0 <= i < pow2(e) implies #[trigger] v[i] == 0 by {
            let x = if i < h {
                i
            } else {
                i - h
            };
            assert(a[x] == 0);
            assert(b[x] == 0);
        }
    }
}

/// A table whose sums vanish for every frequency but zero has the same
/// entry throughout.
pub proof fn lemma_char_sum_flat(v: Seq<int>, e: nat)
    requires
        v.len() == pow2(e),
        forall|omega: nat| 0 < omega < pow2(e) ==> #[trigger] char_sum(v, omega, pow2(e)) == 0,
    ensures
        forall|i: int| 0 <= i < pow2(e) ==> #[trigger] v[i] == v[0],
    decreases e,
{
    if e == 0 {
        assert(pow2(0) == 1);
    } else {
        let e1 = (e - 1) as nat;
        let h = pow2(e1);
        lemma_pow2_positive(e1);
        let a = folded(v, h, false);
        let b = folded(v, h, true);
        assert forall|low: nat| 0 < low < h implies #[trigger] char_sum(a, low, h) == 0 by {
            lemma_char_sum_top(v, e1, low);
            assert(char_sum(v, low, pow2(e)) == 0);
        }
        assert forall|low: nat| low < h implies #[trigger] char_sum(b, low, h) == 0 by {
            lemma_char_sum_top(v, e1, low + h);
            assert(char_sum(v, low + h, pow2(e)) == 0);
        }
        lemma_char_sum_flat(a, e1);
        lemma_char_sum_zero_all(b, e1);
        assert forall|i: int| 0 <= i < pow2(e) implies #[trigger] v[i] == v[0] by {
            let x = if i < h {
                i
            } else {
                i - h
            };
            assert(a[x] == a[0]);
            assert(b[x] == 0);
            assert(b[0] == 0);
        }
    }
}

/// The sums of a table with the same entry throughout vanish for every
/// frequency but zero.
pub proof fn lemma_char_sum_of_flat(v: Seq<int>, e: nat, omega: nat)
    requires
        v.len() == pow2(e),
        forall|i: int| 0 <= i < pow2(e) ==> #[trigger] v[i] == v[0],
        0 < omega < pow2(e),
    ensures
        char_sum(v, omega, pow2(e)) == 0,
    decreases e,
{
    if e == 0 {
        assert(pow2(0) == 1);
    } else {
        let e1 = (e - 1) as nat;
        let h = pow2(e1);
        lemma_pow2_positive(e1);
        lemma_char_sum_top(v, e1, omega);
        if omega >= h {
            let b = folded(v, h, true);
            assert forall|i: int| 0 <= i < h implies #[trigger] b[i] == 0 by {
                assert(v[i] == v[0]);
                assert(v[i + h] == v[0]);
            }
            lemma_char_sum_of_zeros(b, (omega - h) as nat, h);
        } else {
            let a = folded(v, h, false);
            assert forall|i: int| 0 <= i < h implies #[trigger] a[i] == a[0] by {
                assert(v[i] == v[0]);
                assert(v[i + h] == v[0]);
                assert(v[h as int] == v[0]);
            }
            lemma_char_sum_of_flat(a, e1, omega);
        }
    }
}

/// Every sum over a table of zeros is zero.
pub proof fn lemma_char_sum_of_zeros(v: Seq<int>, omega: nat, m: nat)
    requires
        m <= v.len(),
        forall|i: int| 0 <= i < v.len() ==> #[trigger] v[i] == 0,
    ensures
        char_sum(v, omega, m) == 0,
    decreases m,
{
    if m > 0 {
        lemma_char_sum_of_zeros(v, omega, (m - 1) as nat);
        assert(v[m - 1] == 0);
    }
}

/// The sum for the frequency zero over a table with the same entry
/// throughout is that entry times the number of entries.
pub proof fn lemma_char_sum_total(v: Seq<int>, m: nat)
    requires
        m <= v.len(),
        forall|i: int| 0 <= i < v.len() ==> #[trigger] v[i] == v[0],
    ensures
        char_sum(v, 0, m) == m * v[0],
    decreases m,
{
    if m > 0 {
        lemma_char_sum_total(v, (m - 1) as nat);
        assert(v[m - 1] == v[0]);
        assert(dot(0, (m - 1) as nat) == false);
        assert((m - 1) * v[0] + v[0] == m * v[0]) by (nonlinear_arith);
    } else {
        assert(m * v[0] == 0) by (nonlinear_arith)
            requires
                m == 0,
        ;
    }
}

/// How often each pattern occurs among the first `m` rows in the columns
/// `sel`.
pub open spec fn counts(cols: Seq<Seq<bool>>, sel: Seq<usize>, m: nat) -> Seq<int> {
    Seq::new(pow2(sel.len()), |p: int| occurrences(cols, sel, p as nat, m) as int)
}

/// The columns of `sel` that `mask` picks: the last column of `sel` goes
/// with the lowest bit of `mask`, as in the pattern of a row.
pub open spec fn masked(sel: Seq<usize>, mask: nat) -> Seq<usize>
    decreases sel.len(),
{
    if sel.len() == 0 {
        Seq::<usize>::empty()
    } else if mask % 2 == 1 {
        masked(sel.drop_last(), mask / 2).push(sel.last())
    } else {
        masked(sel.drop_last(), mask / 2)
    }
}

/// No frequency is true at zero.
pub proof fn lemma_dot_zero(a: nat)
    ensures
        dot(a, 0) == false,
    decreases a,
{
    if a > 0 {
        lemma_dot_zero(a / 2);
    }
}

/// The linear function that `mask` names, taken at the pattern of a row,
/// is the parity of the row in the columns that `mask` picks.
pub proof fn lemma_dot_pattern(
    cols: Seq<Seq<bool>>,
    sel: Seq<usize>,
    mask: nat,
    row: int,
    n: nat,
)
    requires
        0 <= row < n,
    ensures
        dot(mask, pattern(cols, sel, row)) == xor_columns(cols, masked(sel, mask), zeros(n))[row],
        xor_columns(cols, masked(sel, mask), zeros(n)).len() == n,
    decreases sel.len(),
{
    lemma_xor_columns_shift(cols, masked(sel, mask), zeros(n), zeros(n));
    if sel.len() == 0 {
        lemma_dot_zero(mask);
        assert(selected_bits(cols, sel, row) =~= Seq::<bool>::empty());
    } else {
        let shorter = sel.drop_last();
        let bits = selected_bits(cols, sel, row);
        lemma_dot_pattern(cols, shorter, mask / 2, row, n);
        assert(bits.drop_last() =~= selected_bits(cols, shorter, row));
        let before = pattern(cols, shorter, row);
        let bit = cols[sel.last() as int][row];
        assert(bits.last() == bit);
        assert(pattern(cols, sel, row) == 2 * before + if bit { 1nat } else { 0nat });
        lemma_dot_unfold(mask, pattern(cols, sel, row));
        if mask % 2 == 1 {
            let picked = masked(sel, mask);
            assert(picked.drop_last() =~= masked(shorter, mask / 2));
            assert(picked.last() == sel.last());
        }
    }
}

/// The signed sum of the parity that `mask` picks is the sum, for the
/// frequency `mask`, over the counts of the patterns: the signed sums are
/// the Walsh transform of the counts.
pub proof fn lemma_counts_spectrum(
    cols: Seq<Seq<bool>>,
    sel: Seq<usize>,
    mask: nat,
    n: nat,
    m: nat,
)
    requires
        m <= n,
    ensures
        char_sum(counts(cols, sel, m), mask, pow2(sel.len())) == signed_sum(
            xor_columns(cols, masked(sel, mask), zeros(n)),
            m,
        ),
    decreases m,
{
    let size = pow2(sel.len());
    if m == 0 {
        let none = counts(cols, sel, 0);
        assert forall|i: int| 0 <= i < none.len() implies #[trigger] none[i] == 0 by {}
        lemma_char_sum_of_zeros(none, mask, size);
    } else {
        let row = (m - 1) as int;
        let before = counts(cols, sel, (m - 1) as nat);
        let p = pattern(cols, sel, row);
        lemma_counts_spectrum(cols, sel, mask, n, (m - 1) as nat);
        lemma_value_be_bound(selected_bits(cols, sel, row));
        lemma_dot_pattern(cols, sel, mask, row, n);
        assert(counts(cols, sel, m) =~= before.update(p as int, before[p as int] + 1));
        lemma_char_sum_update(before, mask, size, p as int, before[p as int] + 1);
    }
}

/// What `mask` picks from an increasing tuple is an increasing tuple of
/// entries of that tuple; it holds no more entries than the tuple, and
/// at least one where `mask` is not zero and below `2^t`.
pub proof fn lemma_masked(sel: Seq<usize>, mask: nat, k: nat)
    requires
        is_combination(sel, k, sel.len()),
    ensures
        is_combination(masked(sel, mask), k, masked(sel, mask).len()),
        masked(sel, mask).len() <= sel.len(),
        forall|i: int|
            0 <= i < masked(sel, mask).len() && sel.len() > 0 ==> (#[trigger] masked(
                sel,
                mask,
            )[i]) <= sel.last(),
        0 < mask < pow2(sel.len()) ==> masked(sel, mask).len() >= 1,
    decreases sel.len(),
{
    if sel.len() > 0 {
        let shorter = sel.drop_last();
        assert(is_combination(shorter, k, shorter.len()));
        lemma_masked(shorter, mask / 2, k);
        let inner = masked(shorter, mask / 2);
        assert forall|i: int| 0 <= i < inner.len() implies (#[trigger] inner[i]) < sel.last() by {
            assert(shorter.len() > 0);
            assert(inner[i] <= shorter.last());
            assert(shorter.last() == sel[sel.len() - 2]);
        }
        if 0 < mask < pow2(sel.len()) && mask % 2 == 0 {
            assert(0 < mask / 2 < pow2(shorter.len()));
        }
    }
}

/// An increasing tuple of indices below `n` has at most `n` entries, and
/// entry `i` is at least `i`.
pub proof fn lemma_combination_size(c: Seq<usize>, n: nat, t: nat)
    requires
        is_combination(c, n, t),
    ensures
        t <= n,
        forall|i: int| 0 <= i < t ==> (#[trigger] c[i]) >= i,
    decreases t,
{
    if t > 0 {
        let shorter = c.drop_last();
        assert(is_combination(shorter, n, (t - 1) as nat));
        lemma_combination_size(shorter, n, (t - 1) as nat);
        assert forall|i: int| 0 <= i < t implies (#[trigger] c[i]) >= i by {
            if i < t - 1 {
                assert(shorter[i] >= i);
            } else if t >= 2 {
                assert(shorter[t - 2] >= t - 2);
                assert(c[t - 2] < c[t - 1]);
            }
        }
        assert(c[t - 1] < n);
    }
}

/// An increasing tuple of `w` columns lies in an increasing tuple of `t`:
/// the result is such a tuple and the mask that picks the given one from
/// it.
pub proof fn lemma_extend(s: Seq<usize>, k: nat, w: nat, t: nat) -> (r: (Seq<usize>, nat))
    requires
        is_combination(s, k, w),
        w <= t <= k,
        k <= usize::MAX,
    ensures
        is_combination(r.0, k, t),
        r.1 < pow2(t),
        masked(r.0, r.1) == s,
        w >= 1 ==> r.1 > 0,
    decreases k,
{
    if t == 0 {
        assert(s =~= Seq::<usize>::empty());
        (Seq::<usize>::empty(), 0nat)
    } else {
        let k1 = (k - 1) as nat;
        let t1 = (t - 1) as nat;
        if w >= 1 && s.last() == k1 {
            let shorter = s.drop_last();
            assert(is_combination(shorter, k1, (w - 1) as nat)) by {
                assert forall|i: int| 0 <= i < shorter.len() implies (#[trigger] shorter[i])
                    < k1 by {
                    assert(s[i] < s[w - 1]);
                }
            }
            let (tuple, mask) = lemma_extend(shorter, k1, (w - 1) as nat, t1);
            let longer = tuple.push(k1 as usize);
            assert(longer.drop_last() =~= tuple);
            assert(masked(longer, 2 * mask + 1) =~= s);
            (longer, 2 * mask + 1)
        } else {
            assert(is_combination(s, k1, w)) by {
                assert forall|i: int| 0 <= i < s.len() implies (#[trigger] s[i]) < k1 by {
                    if i < w - 1 {
                        assert(s[i] < s[w - 1]);
                    }
                }
            }
            if t <= k1 {
                let (tuple, mask) = lemma_extend(s, k1, w, t);
                (tuple, mask)
            } else {
                lemma_combination_size(s, k1, w);
                let (tuple, mask) = lemma_extend(s, k1, w, t1);
                let longer = tuple.push(k1 as usize);
                assert(longer.drop_last() =~= tuple);
                assert(masked(longer, 2 * mask) =~= s);
                lemma_pow2_positive(t1);
                if w >= 1 {
                    assert(mask > 0);
                }
                (longer, 2 * mask)
            }
        }
    }
}

/// A mask of zero picks nothing.
pub proof fn lemma_masked_none(sel: Seq<usize>)
    ensures
        masked(sel, 0) == Seq::<usize>::empty(),
    decreases sel.len(),
{
    if sel.len() > 0 {
        lemma_masked_none(sel.drop_last());
    }
}

/// The signed sum of a column of zeros is its length.
pub proof fn lemma_signed_sum_zeros(n: nat, m: nat)
    requires
        m <= n,
    ensures
        signed_sum(zeros(n), m) == m,
    decreases m,
{
    if m > 0 {
        lemma_signed_sum_zeros(n, (m - 1) as nat);
    }
}

/// Term `i` of a list of sets.
pub open spec fn term_at(
    cols: Seq<Seq<bool>>,
    subsets: Seq<Seq<usize>>,
    acc: Seq<bool>,
    exp: nat,
    i: int,
) -> nat {
    walsh_term(xor_columns(cols, subsets[i], acc), exp)
}

/// A sum of terms is zero exactly where every term is.
pub proof fn lemma_terms_zero(
    cols: Seq<Seq<bool>>,
    subsets: Seq<Seq<usize>>,
    acc: Seq<bool>,
    exp: nat,
    m: nat,
)
    ensures
        terms_over(cols, subsets, acc, exp, m) == 0 <==> forall|i: int|
            0 <= i < m ==> #[trigger] term_at(cols, subsets, acc, exp, i) == 0,
    decreases m,
{
    if m > 0 {
        lemma_terms_zero(cols, subsets, acc, exp, (m - 1) as nat);
        if terms_over(cols, subsets, acc, exp, m) == 0 {
            assert(term_at(cols, subsets, acc, exp, m - 1) == 0);
        }
        if forall|i: int| 0 <= i < m ==> #[trigger] term_at(cols, subsets, acc, exp, i) == 0 {
            assert(term_at(cols, subsets, acc, exp, m - 1) == 0);
        }
    }
}

/// A Walsh sum is zero exactly where the sum of every weight is.
pub proof fn lemma_walsh_sum_zero(cols: Seq<Seq<bool>>, k: nat, t: nat, acc: Seq<bool>, exp: nat)
    ensures
        walsh_sum(cols, k, t, acc, exp) == 0 <==> forall|w: nat|
            1 <= w <= t ==> #[trigger] weight_sum(cols, k, w, acc, exp) == 0,
    decreases t,
{
    if t > 0 {
        lemma_walsh_sum_zero(cols, k, (t - 1) as nat, acc, exp);
        if walsh_sum(cols, k, t, acc, exp) == 0 {
            assert(weight_sum(cols, k, t, acc, exp) == 0);
        }
        if forall|w: nat| 1 <= w <= t ==> #[trigger] weight_sum(cols, k, w, acc, exp) == 0 {
            assert(weight_sum(cols, k, t, acc, exp) == 0);
        }
    }
}

/// With an exponent of one or more, the term of a set is zero exactly
/// where the signed sum of its parity is.
pub proof fn lemma_term_zero(cols: Seq<Seq<bool>>, s: Seq<usize>, n: nat, exp: nat)
    requires
        exp >= 1,
    ensures
        walsh_term(xor_columns(cols, s, zeros(n)), exp) == 0 <==> signed_sum(
            xor_columns(cols, s, zeros(n)),
            n,
        ) == 0,
{
    lemma_xor_columns_shift(cols, s, zeros(n), zeros(n));
    let col = xor_columns(cols, s, zeros(n));
    lemma_power_zero(magnitude(signed_sum(col, col.len())), exp);
}

/// In the columns `tuple`, every pattern occurs equally often exactly
/// where the signed sum vanishes for every set of these columns but the
/// empty one.
pub proof fn lemma_flat_counts(cols: Seq<Seq<bool>>, tuple: Seq<usize>, n: nat)
    ensures
        (forall|p: nat|
            p < pow2(tuple.len()) ==> #[trigger] occurrences(cols, tuple, p, n) == n / pow2(
                tuple.len(),
            )) <==> (forall|mask: nat|
            0 < mask < pow2(tuple.len()) ==> signed_sum(
                xor_columns(cols, #[trigger] masked(tuple, mask), zeros(n)),
                n,
            ) == 0),
{
    let t = tuple.len();
    let size = pow2(t);
    let c = counts(cols, tuple, n);
    lemma_pow2_positive(t);
    assert forall|mask: nat| mask < size implies #[trigger] char_sum(c, mask, size) == signed_sum(
        xor_columns(cols, masked(tuple, mask), zeros(n)),
        n,
    ) by {
        lemma_counts_spectrum(cols, tuple, mask, n, n);
    }
    lemma_masked_none(tuple);
    lemma_signed_sum_zeros(n, n);
    assert(char_sum(c, 0, size) == n);
    if forall|p: nat| p < size ==> #[trigger] occurrences(cols, tuple, p, n) == n / size {
        assert forall|i: int| 0 <= i < size implies #[trigger] c[i] == c[0] by {
            assert(occurrences(cols, tuple, i as nat, n) == n / size);
            assert(occurrences(cols, tuple, 0, n) == n / size);
        }
        assert forall|mask: nat| 0 < mask < size implies signed_sum(
            xor_columns(cols, #[trigger] masked(tuple, mask), zeros(n)),
            n,
        ) == 0 by {
            lemma_char_sum_of_flat(c, t, mask);
            assert(char_sum(c, mask, size) == 0);
        }
    }
    if forall|mask: nat|
        0 < mask < size ==> signed_sum(
            xor_columns(cols, #[trigger] masked(tuple, mask), zeros(n)),
            n,
        ) == 0 {
        assert forall|mask: nat| 0 < mask < size implies #[trigger] char_sum(c, mask, size)
            == 0 by {
            assert(signed_sum(xor_columns(cols, masked(tuple, mask), zeros(n)), n) == 0);
        }
        lemma_char_sum_flat(c, t);
        lemma_char_sum_total(c, size);
        assert(size * c[0] == n);
        assert(c[0] == n / size) by {
            assert(n == c[0] * size + 0) by (nonlinear_arith)
                requires
                    size * c[0] == n,
            ;
            vstd::arithmetic::div_mod::lemma_fundamental_div_mod_converse(
                n as int,
                size as int,
                c[0],
                0,
            );
        }
        assert forall|p: nat| p < size implies #[trigger] occurrences(cols, tuple, p, n) == n
            / size by {
            assert(c[p as int] == c[0]);
        }
    }
}

/// With an exponent of one or more, the Walsh defect is zero exactly for
/// an orthogonal array.
pub proof fn lemma_walsh_zero_iff_orthogonal(
    cols: Seq<Seq<bool>>,
    n: nat,
    k: nat,
    t: nat,
    exp: nat,
)
    requires
        t <= k <= usize::MAX,
        exp >= 1,
    ensures
        walsh_total(cols, n, k, t, exp) == 0 <==> is_orthogonal(cols, n, k, t),
{
    let zero = zeros(n);
    lemma_walsh_sum_zero(cols, k, t, zero, exp);
    if walsh_total(cols, n, k, t, exp) == 0 {
        assert forall|i: int, p: nat| 0 <= i < yielded(k, t).len() && p < pow2(t) implies #[trigger] occurrences(
            cols,
            yielded(k, t)[i],
            p,
            n,
        ) == n / pow2(t) by {
            let tuple = yielded(k, t)[i];
            lemma_combos_valid(k, t, i);
            lemma_flat_counts(cols, tuple, n);
            assert forall|mask: nat| 0 < mask < pow2(t) implies signed_sum(
                xor_columns(cols, #[trigger] masked(tuple, mask), zero),
                n,
            ) == 0 by {
                let s = masked(tuple, mask);
                lemma_masked(tuple, mask, k);
                let w = s.len();
                lemma_combos_at_rank(s, k, w);
                let at = rank_upto(s, w) as int;
                assert(weight_sum(cols, k, w, zero, exp) == 0);
                lemma_terms_zero(cols, combos(k, w), zero, exp, combos(k, w).len());
                assert(term_at(cols, combos(k, w), zero, exp, at) == 0);
                lemma_term_zero(cols, s, n, exp);
            }
        }
    }
    if is_orthogonal(cols, n, k, t) {
        assert forall|w: nat| 1 <= w <= t implies #[trigger] weight_sum(cols, k, w, zero, exp)
            == 0 by {
            let all = combos(k, w);
            lemma_terms_zero(cols, all, zero, exp, all.len());
            assert forall|j: int| 0 <= j < all.len() implies #[trigger] term_at(
                cols,
                all,
                zero,
                exp,
                j,
            ) == 0 by {
                let s = all[j];
                lemma_combos_valid(k, w, j);
                let (tuple, mask) = lemma_extend(s, k, w, t);
                lemma_combos_at_rank(tuple, k, t);
                let at = rank_upto(tuple, t) as int;
                assert(yielded(k, t)[at] == tuple);
                assert forall|p: nat| p < pow2(t) implies #[trigger] occurrences(
                    cols,
                    tuple,
                    p,
                    n,
                ) == n / pow2(t) by {
                    assert(occurrences(cols, yielded(k, t)[at], p, n) == n / pow2(t));
                }
                lemma_flat_counts(cols, tuple, n);
                assert(masked(tuple, mask) == s);
                assert(signed_sum(xor_columns(cols, masked(tuple, mask), zero), n) == 0);
                lemma_term_zero(cols, s, n, exp);
            }
        }
    }
}

impl OArray {
    /// A perfect score means an orthogonal array, and the other way
    /// round: under Delta, DeltaFast and SheerLuck, and under the Walsh
    /// methods with an exponent of one or more, the defect of the array
    /// is zero exactly where, in every choice of `target_t` columns,
    /// every pattern occurs equally often.
    pub proof fn lemma_perfect_iff_orthogonal(&self, f: FitnessFunction)
        requires
            self.target_t <= self.k,
            match f {
                FitnessFunction::Delta => true,
                FitnessFunction::DeltaFast => true,
                FitnessFunction::SheerLuck => true,
                FitnessFunction::Walsh(e) => e >= 1,
                FitnessFunction::WalshFaster(e) => e >= 1,
                FitnessFunction::WalshRec(e) => e >= 1,
                _ => false,
            },
        ensures
            self.defect_by(f).is_zero() <==> is_orthogonal(
                self.columns(),
                self.ngrande as nat,
                self.k as nat,
                self.target_t as nat,
            ),
    {
        let cols = self.columns();
        let n = self.ngrande as nat;
        let k = self.k as nat;
        let t = self.target_t as nat;
        lemma_delta_zero_iff_orthogonal(cols, n, k, t);
        match f {
            FitnessFunction::Walsh(e) => {
                lemma_walsh_zero_iff_orthogonal(cols, n, k, t, e as nat);
            },
            FitnessFunction::WalshFaster(e) => {
                lemma_walsh_methods_agree(cols, k, t, zeros(n), e as nat);
                lemma_walsh_zero_iff_orthogonal(cols, n, k, t, e as nat);
            },
            FitnessFunction::WalshRec(e) => {
                lemma_walsh_methods_agree(cols, k, t, zeros(n), e as nat);
                lemma_walsh_zero_iff_orthogonal(cols, n, k, t, e as nat);
            },
            _ => {},
        }
    }
}

} // verus!
