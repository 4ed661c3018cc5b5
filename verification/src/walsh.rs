//! The Walsh scores as mathematics: sums, over the small sets of columns,
//! of a power of the signed row sum of their exclusive or. The same total
//! is written in three ways, by weight, by largest column and by smallest
//! column, and the three are proved equal.

use vstd::prelude::*;
use crate::oarray::xor_seq;
use crate::t_combinations::{combos, with_last};

verus! {

/// A column of `n` zero bits.
pub open spec fn zeros(n: nat) -> Seq<bool> {
    Seq::new(n, |i: int| false)
}

/// A bit as a sign: a one bit counts `-1` and a zero bit `+1`.
pub open spec fn sign_of(b: bool) -> int {
    if b {
        -1
    } else {
        1
    }
}

/// The signs of the first `m` bits of `col`, summed.
pub open spec fn signed_sum(col: Seq<bool>, m: nat) -> int
    decreases m,
{
    if m == 0 {
        0
    } else {
        signed_sum(col, (m - 1) as nat) + sign_of(col[m - 1])
    }
}

/// `b` to the power `e`.
pub open spec fn power(b: nat, e: nat) -> nat
    decreases e,
{
    if e == 0 {
        1
    } else {
        b * power(b, (e - 1) as nat)
    }
}

/// The size of `x`.
pub open spec fn magnitude(x: int) -> nat {
    if x >= 0 {
        x as nat
    } else {
        (-x) as nat
    }
}

/// What one column adds to a Walsh score: the size of its signed sum,
/// raised to `exp`.
pub open spec fn walsh_term(col: Seq<bool>, exp: nat) -> nat {
    power(magnitude(signed_sum(col, col.len())), exp)
}

/// The exclusive or of `acc` with the columns that `sel` names.
pub open spec fn xor_columns(cols: Seq<Seq<bool>>, sel: Seq<usize>, acc: Seq<bool>) -> Seq<bool>
    decreases sel.len(),
{
    if sel.len() == 0 {
        acc
    } else {
        xor_seq(xor_columns(cols, sel.drop_last(), acc), cols[sel.last() as int])
    }
}

/// The terms of the first `m` sets in `subsets`, summed; each set is
/// combined with `acc`.
pub open spec fn terms_over(
    cols: Seq<Seq<bool>>,
    subsets: Seq<Seq<usize>>,
    acc: Seq<bool>,
    exp: nat,
    m: nat,
) -> nat
    decreases m,
{
    if m == 0 {
        0
    } else {
        terms_over(cols, subsets, acc, exp, (m - 1) as nat) + walsh_term(
            xor_columns(cols, subsets[m - 1], acc),
            exp,
        )
    }
}

/// The terms of all sets of `w` among the first `k` columns.
pub open spec fn weight_sum(cols: Seq<Seq<bool>>, k: nat, w: nat, acc: Seq<bool>, exp: nat) -> nat {
    terms_over(cols, combos(k, w), acc, exp, combos(k, w).len())
}

/// The terms of all sets of one up to `t` among the first `k` columns,
/// weight by weight.
pub open spec fn walsh_sum(cols: Seq<Seq<bool>>, k: nat, t: nat, acc: Seq<bool>, exp: nat) -> nat
    decreases t,
{
    if t == 0 {
        0
    } else {
        walsh_sum(cols, k, (t - 1) as nat, acc, exp) + weight_sum(cols, k, t, acc, exp)
    }
}

/// The Walsh defect of an array of `n` rows and `k` columns at strength
/// `t`: the score is its negative.
pub open spec fn walsh_total(cols: Seq<Seq<bool>>, n: nat, k: nat, t: nat, exp: nat) -> nat {
    walsh_sum(cols, k, t, zeros(n), exp)
}

/// What a new last column `last` adds to the Walsh defect of an array
/// whose `k` columns are `cols`: the terms of the sets that hold the new
/// column.
pub open spec fn walsh_increment(
    cols: Seq<Seq<bool>>,
    k: nat,
    t: nat,
    last: Seq<bool>,
    exp: nat,
) -> nat {
    walsh_term(last, exp) + walsh_sum(cols, k, one_less(t), last, exp)
}

/// `t - 1`, and zero for zero.
pub open spec fn one_less(t: nat) -> nat {
    if t >= 1 {
        (t - 1) as nat
    } else {
        0
    }
}

/// The terms of all sets of `w` columns with indices from `lo` up to, not
/// including, `hi`: those without column `hi - 1`, then those with it.
pub open spec fn subset_sum(
    cols: Seq<Seq<bool>>,
    lo: nat,
    hi: nat,
    w: nat,
    acc: Seq<bool>,
    exp: nat,
) -> nat
    decreases hi,
{
    if w == 0 {
        walsh_term(acc, exp)
    } else if hi <= lo {
        0
    } else {
        subset_sum(cols, lo, (hi - 1) as nat, w, acc, exp) + subset_sum(
            cols,
            lo,
            (hi - 1) as nat,
            (w - 1) as nat,
            xor_seq(acc, cols[hi - 1]),
            exp,
        )
    }
}

/// `subset_sum` for the weights from one up to `depth`, summed.
pub open spec fn layered(
    cols: Seq<Seq<bool>>,
    lo: nat,
    hi: nat,
    depth: nat,
    acc: Seq<bool>,
    exp: nat,
) -> nat
    decreases depth,
{
    if depth == 0 {
        0
    } else {
        layered(cols, lo, hi, (depth - 1) as nat, acc, exp) + subset_sum(
            cols,
            lo,
            hi,
            depth,
            acc,
            exp,
        )
    }
}

/// The same total by descent: take column `base` or leave it; where it is
/// taken, count the set reached and go on below it with one column fewer
/// to take.
pub open spec fn descent(
    cols: Seq<Seq<bool>>,
    k: nat,
    depth: nat,
    base: nat,
    acc: Seq<bool>,
    exp: nat,
) -> nat
    decreases k - base,
{
    if depth == 0 || base >= k {
        0
    } else {
        walsh_term(xor_seq(acc, cols[base as int]), exp) + descent(
            cols,
            k,
            (depth - 1) as nat,
            base + 1,
            xor_seq(acc, cols[base as int]),
            exp,
        ) + descent(cols, k, depth, base + 1, acc, exp)
    }
}

/// Two columns can be combined with a third in either order.
pub proof fn lemma_xor_commutes(acc: Seq<bool>, a: Seq<bool>, b: Seq<bool>)
    ensures
        xor_seq(xor_seq(acc, a), b) == xor_seq(xor_seq(acc, b), a),
{
    assert(xor_seq(xor_seq(acc, a), b) =~= xor_seq(xor_seq(acc, b), a));
}

/// Combining with a column of zeros changes nothing.
pub proof fn lemma_xor_zeros(col: Seq<bool>)
    ensures
        xor_seq(zeros(col.len()), col) == col,
{
    assert(xor_seq(zeros(col.len()), col) =~= col);
}

/// Combining a further column before or after the columns of `sel` gives
/// the same column.
pub proof fn lemma_xor_columns_shift(
    cols: Seq<Seq<bool>>,
    sel: Seq<usize>,
    acc: Seq<bool>,
    x: Seq<bool>,
)
    ensures
        xor_seq(xor_columns(cols, sel, acc), x) == xor_columns(cols, sel, xor_seq(acc, x)),
        xor_columns(cols, sel, acc).len() == acc.len(),
    decreases sel.len(),
{
    if sel.len() > 0 {
        lemma_xor_columns_shift(cols, sel.drop_last(), acc, x);
        lemma_xor_commutes(
            xor_columns(cols, sel.drop_last(), acc),
            cols[sel.last() as int],
            x,
        );
    }
}

/// A sum of terms reads only the sets it sums over.
pub proof fn lemma_terms_over_agree(
    cols: Seq<Seq<bool>>,
    a: Seq<Seq<usize>>,
    b: Seq<Seq<usize>>,
    acc: Seq<bool>,
    exp: nat,
    m: nat,
)
    requires
        m <= a.len(),
        m <= b.len(),
        forall|i: int| 0 <= i < m ==> a[i] == b[i],
    ensures
        terms_over(cols, a, acc, exp, m) == terms_over(cols, b, acc, exp, m),
    decreases m,
{
    if m > 0 {
        lemma_terms_over_agree(cols, a, b, acc, exp, (m - 1) as nat);
    }
}

/// The terms of two lists, one after the other, add up.
pub proof fn lemma_terms_over_concat(
    cols: Seq<Seq<bool>>,
    a: Seq<Seq<usize>>,
    b: Seq<Seq<usize>>,
    acc: Seq<bool>,
    exp: nat,
    j: nat,
)
    requires
        j <= b.len(),
    ensures
        terms_over(cols, a + b, acc, exp, a.len() + j) == terms_over(cols, a, acc, exp, a.len())
            + terms_over(cols, b, acc, exp, j),
    decreases j,
{
    if j == 0 {
        lemma_terms_over_agree(cols, a + b, a, acc, exp, a.len());
    } else {
        lemma_terms_over_concat(cols, a, b, acc, exp, (j - 1) as nat);
        assert((a + b)[a.len() + j - 1] == b[j - 1]);
    }
}

/// The terms of a list whose sets all end in column `x` are the terms of
/// the sets without it, combined with that column first.
pub proof fn lemma_terms_over_pushed(
    cols: Seq<Seq<bool>>,
    b: Seq<Seq<usize>>,
    x: usize,
    acc: Seq<bool>,
    exp: nat,
    m: nat,
)
    requires
        m <= b.len(),
    ensures
        terms_over(cols, b.map_values(|c: Seq<usize>| with_last(c, x)), acc, exp, m)
            == terms_over(cols, b, xor_seq(acc, cols[x as int]), exp, m),
    decreases m,
{
    if m > 0 {
        lemma_terms_over_pushed(cols, b, x, acc, exp, (m - 1) as nat);
        let c = b[m - 1];
        let pushed = b.map_values(|c: Seq<usize>| with_last(c, x))[m - 1];
        assert(pushed == c.push(x));
        assert(pushed.drop_last() =~= c);
        lemma_xor_columns_shift(cols, c, acc, cols[x as int]);
    }
}

/// The sets of one weight, summed in the order of the enumeration, give
/// `subset_sum` over all columns.
pub proof fn lemma_weight_sum(cols: Seq<Seq<bool>>, k: nat, w: nat, acc: Seq<bool>, exp: nat)
    requires
        k <= usize::MAX,
    ensures
        weight_sum(cols, k, w, acc, exp) == subset_sum(cols, 0, k, w, acc, exp),
    decreases k,
{
    if w == 0 {
        assert(combos(k, w)[0] =~= Seq::<usize>::empty());
        assert(terms_over(cols, combos(k, w), acc, exp, 0) == 0);
    } else if k == 0 {
    } else {
        let k1 = (k - 1) as nat;
        let w1 = (w - 1) as nat;
        let a = combos(k1, w);
        let b = combos(k1, w1);
        let pushed = b.map_values(|c: Seq<usize>| with_last(c, k1 as usize));
        assert(combos(k, w) == a + pushed);
        lemma_terms_over_concat(cols, a, pushed, acc, exp, pushed.len());
        lemma_terms_over_pushed(cols, b, k1 as usize, acc, exp, b.len());
        lemma_weight_sum(cols, k1, w, acc, exp);
        lemma_weight_sum(cols, k1, w1, xor_seq(acc, cols[k1 as int]), exp);
    }
}

/// Summed weight by weight, the sets give `layered` over all columns.
pub proof fn lemma_walsh_sum_layered(
    cols: Seq<Seq<bool>>,
    k: nat,
    t: nat,
    acc: Seq<bool>,
    exp: nat,
)
    requires
        k <= usize::MAX,
    ensures
        walsh_sum(cols, k, t, acc, exp) == layered(cols, 0, k, t, acc, exp),
    decreases t,
{
    if t > 0 {
        lemma_walsh_sum_layered(cols, k, (t - 1) as nat, acc, exp);
        lemma_weight_sum(cols, k, t, acc, exp);
    }
}

/// With no column to choose from, only the empty set has a term.
pub proof fn lemma_subset_sum_empty(
    cols: Seq<Seq<bool>>,
    lo: nat,
    hi: nat,
    w: nat,
    acc: Seq<bool>,
    exp: nat,
)
    requires
        hi <= lo,
    ensures
        subset_sum(cols, lo, hi, w, acc, exp) == if w == 0 {
            walsh_term(acc, exp)
        } else {
            0
        },
{
}

/// `subset_sum` by smallest column: the sets without column `lo`, then
/// those with it.
pub proof fn lemma_subset_sum_by_first(
    cols: Seq<Seq<bool>>,
    lo: nat,
    hi: nat,
    w: nat,
    acc: Seq<bool>,
    exp: nat,
)
    requires
        lo < hi,
        w >= 1,
    ensures
        subset_sum(cols, lo, hi, w, acc, exp) == subset_sum(cols, lo + 1, hi, w, acc, exp)
            + subset_sum(cols, lo + 1, hi, (w - 1) as nat, xor_seq(acc, cols[lo as int]), exp),
    decreases hi,
{
    let h = (hi - 1) as nat;
    let w1 = (w - 1) as nat;
    let with_lo = xor_seq(acc, cols[lo as int]);
    let with_h = xor_seq(acc, cols[h as int]);
    if hi == lo + 1 {
        lemma_subset_sum_empty(cols, lo, h, w, acc, exp);
        lemma_subset_sum_empty(cols, lo, h, w1, with_lo, exp);
        lemma_subset_sum_empty(cols, lo + 1, hi, w, acc, exp);
        lemma_subset_sum_empty(cols, lo + 1, hi, w1, with_lo, exp);
    } else {
        lemma_subset_sum_by_first(cols, lo, h, w, acc, exp);
        if w1 >= 1 {
            let w2 = (w1 - 1) as nat;
            lemma_subset_sum_by_first(cols, lo, h, w1, with_h, exp);
            lemma_xor_commutes(acc, cols[lo as int], cols[h as int]);
            assert(subset_sum(cols, lo + 1, hi, w1, with_lo, exp) == subset_sum(
                cols,
                lo + 1,
                h,
                w1,
                with_lo,
                exp,
            ) + subset_sum(cols, lo + 1, h, w2, xor_seq(with_lo, cols[h as int]), exp));
        } else {
            assert(subset_sum(cols, lo, h, 0, with_h, exp) == walsh_term(with_h, exp));
            assert(subset_sum(cols, lo + 1, h, 0, with_h, exp) == walsh_term(with_h, exp));
            assert(subset_sum(cols, lo + 1, hi, 0, with_lo, exp) == walsh_term(with_lo, exp));
            assert(subset_sum(cols, lo + 1, h, 0, with_lo, exp) == walsh_term(with_lo, exp));
        }
        assert(subset_sum(cols, lo + 1, hi, w, acc, exp) == subset_sum(
            cols,
            lo + 1,
            h,
            w,
            acc,
            exp,
        ) + subset_sum(cols, lo + 1, h, w1, with_h, exp));
    }
}

/// `layered` by smallest column.
pub proof fn lemma_layered_by_first(
    cols: Seq<Seq<bool>>,
    lo: nat,
    hi: nat,
    depth: nat,
    acc: Seq<bool>,
    exp: nat,
)
    requires
        lo < hi,
        depth >= 1,
    ensures
        layered(cols, lo, hi, depth, acc, exp) == layered(cols, lo + 1, hi, depth, acc, exp)
            + walsh_term(xor_seq(acc, cols[lo as int]), exp) + layered(
            cols,
            lo + 1,
            hi,
            (depth - 1) as nat,
            xor_seq(acc, cols[lo as int]),
            exp,
        ),
    decreases depth,
{
    let with_lo = xor_seq(acc, cols[lo as int]);
    let d1 = (depth - 1) as nat;
    lemma_subset_sum_by_first(cols, lo, hi, depth, acc, exp);
    if d1 >= 1 {
        lemma_layered_by_first(cols, lo, hi, d1, acc, exp);
        assert(layered(cols, lo + 1, hi, d1, with_lo, exp) == layered(
            cols,
            lo + 1,
            hi,
            (d1 - 1) as nat,
            with_lo,
            exp,
        ) + subset_sum(cols, lo + 1, hi, d1, with_lo, exp));
    } else {
        assert(layered(cols, lo, hi, 0, acc, exp) == 0);
        assert(layered(cols, lo + 1, hi, 0, acc, exp) == 0);
        assert(layered(cols, lo + 1, hi, 0, with_lo, exp) == 0);
        assert(subset_sum(cols, lo + 1, hi, 0, with_lo, exp) == walsh_term(with_lo, exp));
    }
}

/// With no column to choose from, no set of one or more has a term.
pub proof fn lemma_layered_empty(
    cols: Seq<Seq<bool>>,
    lo: nat,
    hi: nat,
    depth: nat,
    acc: Seq<bool>,
    exp: nat,
)
    requires
        hi <= lo,
    ensures
        layered(cols, lo, hi, depth, acc, exp) == 0,
    decreases depth,
{
    if depth > 0 {
        lemma_layered_empty(cols, lo, hi, (depth - 1) as nat, acc, exp);
    }
}

/// The descent from column `base` counts the sets of one up to `depth`
/// columns from `base` on.
pub proof fn lemma_descent_layered(
    cols: Seq<Seq<bool>>,
    k: nat,
    depth: nat,
    base: nat,
    acc: Seq<bool>,
    exp: nat,
)
    ensures
        descent(cols, k, depth, base, acc, exp) == layered(cols, base, k, depth, acc, exp),
    decreases k - base,
{
    if base >= k {
        lemma_layered_empty(cols, base, k, depth, acc, exp);
    } else if depth == 0 {
    } else {
        lemma_layered_by_first(cols, base, k, depth, acc, exp);
        lemma_descent_layered(cols, k, depth, base + 1, acc, exp);
        lemma_descent_layered(
            cols,
            k,
            (depth - 1) as nat,
            base + 1,
            xor_seq(acc, cols[base as int]),
            exp,
        );
    }
}

/// The Walsh methods agree: the total found weight by weight over the
/// enumerated sets equals the total found by descent.
pub proof fn lemma_walsh_methods_agree(
    cols: Seq<Seq<bool>>,
    k: nat,
    t: nat,
    acc: Seq<bool>,
    exp: nat,
)
    requires
        k <= usize::MAX,
    ensures
        walsh_sum(cols, k, t, acc, exp) == descent(cols, k, t, 0, acc, exp),
{
    lemma_walsh_sum_layered(cols, k, t, acc, exp);
    lemma_descent_layered(cols, k, t, 0, acc, exp);
}

/// `subset_sum` reads only the columns it chooses from.
pub proof fn lemma_subset_sum_agrees(
    cols: Seq<Seq<bool>>,
    more: Seq<Seq<bool>>,
    lo: nat,
    hi: nat,
    w: nat,
    acc: Seq<bool>,
    exp: nat,
)
    requires
        hi <= cols.len(),
        hi <= more.len(),
        forall|i: int| lo <= i < hi ==> cols[i] == more[i],
    ensures
        subset_sum(cols, lo, hi, w, acc, exp) == subset_sum(more, lo, hi, w, acc, exp),
    decreases hi,
{
    if w > 0 && hi > lo {
        let h = (hi - 1) as nat;
        lemma_subset_sum_agrees(cols, more, lo, h, w, acc, exp);
        lemma_subset_sum_agrees(cols, more, lo, h, (w - 1) as nat, xor_seq(acc, cols[h as int]), exp);
    }
}

/// `layered` after one more column `last` is appended: what it was, and
/// the terms of the sets that hold the new column.
pub proof fn lemma_layered_extended(
    cols: Seq<Seq<bool>>,
    k: nat,
    depth: nat,
    last: Seq<bool>,
    acc: Seq<bool>,
    exp: nat,
)
    requires
        k == cols.len(),
        depth >= 1,
    ensures
        layered(cols.push(last), 0, k + 1, depth, acc, exp) == layered(
            cols,
            0,
            k,
            depth,
            acc,
            exp,
        ) + walsh_term(xor_seq(acc, last), exp) + layered(
            cols,
            0,
            k,
            (depth - 1) as nat,
            xor_seq(acc, last),
            exp,
        ),
    decreases depth,
{
    let more = cols.push(last);
    let with_last = xor_seq(acc, last);
    let d1 = (depth - 1) as nat;
    assert(more[k as int] == last);
    lemma_subset_sum_agrees(cols, more, 0, k, depth, acc, exp);
    lemma_subset_sum_agrees(cols, more, 0, k, d1, with_last, exp);
    assert(subset_sum(more, 0, k + 1, depth, acc, exp) == subset_sum(more, 0, k, depth, acc, exp)
        + subset_sum(more, 0, k, d1, with_last, exp));
    if d1 >= 1 {
        lemma_layered_extended(cols, k, d1, last, acc, exp);
    } else {
        assert(layered(more, 0, k + 1, 0, acc, exp) == 0);
        assert(layered(cols, 0, k, 0, acc, exp) == 0);
        assert(layered(cols, 0, k, 0, with_last, exp) == 0);
        assert(subset_sum(cols, 0, k, 0, with_last, exp) == walsh_term(with_last, exp));
    }
}

/// Appending a column `last` of `n` bits to an array raises its Walsh
/// defect by exactly the increment of `last`. So where the array had
/// defect zero, the defect of the longer array is the increment.
pub proof fn lemma_walsh_incremental(
    cols: Seq<Seq<bool>>,
    n: nat,
    k: nat,
    t: nat,
    last: Seq<bool>,
    exp: nat,
)
    requires
        k == cols.len(),
        k < usize::MAX,
        t >= 1,
        last.len() == n,
    ensures
        walsh_total(cols.push(last), n, k + 1, t, exp) == walsh_total(cols, n, k, t, exp)
            + walsh_increment(cols, k, t, last, exp),
        walsh_total(cols, n, k, t, exp) == 0 ==> walsh_total(cols.push(last), n, k + 1, t, exp)
            == walsh_increment(cols, k, t, last, exp),
{
    lemma_walsh_sum_layered(cols.push(last), k + 1, t, zeros(n), exp);
    lemma_walsh_sum_layered(cols, k, t, zeros(n), exp);
    lemma_walsh_sum_layered(cols, k, (t - 1) as nat, last, exp);
    lemma_layered_extended(cols, k, t, last, zeros(n), exp);
    lemma_xor_zeros(last);
}

} // verus!
