//! The full design: the array in which column `c` holds digit `c` of the
//! number of each row. Every pattern occurs in it equally often.

use vstd::prelude::*;
use crate::binary_strings::{lemma_pow2_positive, pow2, value_be, value_le};
use crate::fitness::{is_orthogonal, occurrences, pattern, selected_bits};
use crate::orthogonality::lemma_combination_size;
use crate::t_combinations::{first_tuple, is_combination, lemma_combos_valid, yielded};
use crate::treeformula::{bits_le, lemma_value_le_bits};
use crate::wtform::{bits_of, lemma_bits_of_len, lemma_bits_of_value};

verus! {

/// In row `i` of column `c` stands digit `c` of `i`.
pub open spec fn is_design(cols: Seq<Seq<bool>>, n: nat, t: nat) -> bool {
    forall|i: int, c: int|
        0 <= i < n && 0 <= c < t ==> #[trigger] cols[c][i] == ((i / pow2(c as nat) as int) % 2 == 1)
}

/// How many numbers below `m` leave the remainder `q` on division by
/// `modulus`.
pub open spec fn residues(m: nat, modulus: nat, q: nat) -> nat
    decreases m,
{
    if m == 0 {
        0
    } else {
        residues((m - 1) as nat, modulus, q) + if (m - 1) % (modulus as int) == q {
            1nat
        } else {
            0nat
        }
    }
}

/// Digit `c` of the digits of `r`, least significant first.
pub proof fn lemma_bits_le_index(r: nat, n: nat, c: int)
    requires
        0 <= c < n,
    ensures
        bits_le(r, n).len() == n,
        bits_le(r, n)[c] == ((r / pow2(c as nat)) % 2 == 1),
    decreases n,
{
    lemma_bits_le_len(r, n);
    let rest = bits_le(r / 2, (n - 1) as nat);
    lemma_bits_le_len(r / 2, (n - 1) as nat);
    assert(bits_le(r, n) == seq![r % 2 == 1] + rest);
    if c > 0 {
        let c1 = (c - 1) as nat;
        lemma_bits_le_index(r / 2, (n - 1) as nat, c - 1);
        lemma_pow2_positive(c1);
        let d = pow2(c1) as int;
        vstd::arithmetic::div_mod::lemma_div_denominator(r as int, 2, d);
        assert((r as int / 2) / d == r as int / (2 * d));
        assert(pow2(c as nat) == 2 * pow2(c1));
        assert((r / 2) / pow2(c1) == r / pow2(c as nat));
        assert(bits_le(r, n)[c] == rest[c - 1]);
    } else {
        assert(pow2(0) == 1);
        assert(r / 1 == r);
        assert(bits_le(r, n)[0] == (r % 2 == 1));
    }
}

/// A number has as many digits as are asked for.
pub proof fn lemma_bits_le_len(r: nat, n: nat)
    ensures
        bits_le(r, n).len() == n,
    decreases n,
{
    if n > 0 {
        lemma_bits_le_len(r / 2, (n - 1) as nat);
    }
}

/// The value of the `t` lowest digits of a number is its remainder on
/// division by `2^t`.
pub proof fn lemma_value_le_mod(r: nat, t: nat)
    ensures
        value_le(bits_le(r, t)) == r % pow2(t),
    decreases t,
{
    lemma_pow2_positive(t);
    if t > 0 {
        let t1 = (t - 1) as nat;
        lemma_pow2_positive(t1);
        lemma_value_le_mod(r / 2, t1);
        let s = bits_le(r, t);
        assert(s.drop_first() =~= bits_le(r / 2, t1));
        vstd::arithmetic::div_mod::lemma_mod_breakdown(r as int, 2, pow2(t1) as int);
        assert(pow2(t) == 2 * pow2(t1));
    } else {
        assert(pow2(0) == 1);
    }
}

/// A string is the digits of its value, most significant first.
pub proof fn lemma_value_be_digits(s: Seq<bool>)
    ensures
        bits_of(value_be(s), s.len()) == s,
    decreases s.len(),
{
    if s.len() > 0 {
        lemma_value_be_digits(s.drop_last());
        let v = value_be(s);
        assert(v / 2 == value_be(s.drop_last()));
        assert((v % 2 == 1) == s.last());
        assert(bits_of(v, s.len()) =~= s);
    } else {
        assert(bits_of(value_be(s), 0) =~= s);
    }
}

/// Among the numbers below a multiple of `modulus`, each remainder is
/// left equally often.
pub proof fn lemma_residues(m: nat, modulus: nat, q: nat)
    requires
        modulus >= 1,
        q < modulus,
    ensures
        residues(m, modulus, q) == m / modulus + if m % modulus > q {
            1nat
        } else {
            0nat
        },
    decreases m,
{
    if m > 0 {
        let x = (m - 1) as int;
        let d = modulus as int;
        lemma_residues((m - 1) as nat, modulus, q);
        vstd::arithmetic::div_mod::lemma_fundamental_div_mod(x, d);
        let quot = x / d;
        let rem = x % d;
        if rem == d - 1 {
            assert(x + 1 == (quot + 1) * d + 0) by (nonlinear_arith)
                requires
                    x == d * quot + rem,
                    rem == d - 1,
            ;
            vstd::arithmetic::div_mod::lemma_fundamental_div_mod_converse(x + 1, d, quot + 1, 0);
        } else {
            assert(x + 1 == quot * d + (rem + 1)) by (nonlinear_arith)
                requires
                    x == d * quot + rem,
            ;
            vstd::arithmetic::div_mod::lemma_fundamental_div_mod_converse(x + 1, d, quot, rem + 1);
        }
    } else {
        vstd::arithmetic::div_mod::lemma_fundamental_div_mod_converse(0, modulus as int, 0, 0);
    }
}

/// The only increasing tuple of `t` indices below `t` is `(0, .., t-1)`.
pub proof fn lemma_full_tuple(c: Seq<usize>, t: nat)
    requires
        is_combination(c, t, t),
    ensures
        c == first_tuple(t),
    decreases t,
{
    lemma_combination_size(c, t, t);
    if t > 0 {
        let shorter = c.drop_last();
        assert(c[t - 1] == t - 1);
        assert(is_combination(shorter, (t - 1) as nat, (t - 1) as nat)) by {
            assert forall|i: int| 0 <= i < shorter.len() implies (#[trigger] shorter[i]) < t
                - 1 by {
                assert(c[i] < c[t - 1]);
            }
        }
        lemma_full_tuple(shorter, (t - 1) as nat);
        assert forall|i: int| 0 <= i < t implies c[i] == first_tuple(t)[i] by {
            if i < t - 1 {
                assert(shorter[i] == first_tuple((t - 1) as nat)[i]);
            }
        }
    }
    assert(c =~= first_tuple(t));
}

/// In the full design, the rows with a given pattern are those whose
/// number leaves a given remainder on division by `2^t`.
pub proof fn lemma_design_pattern(cols: Seq<Seq<bool>>, n: nat, t: nat, p: nat, i: int)
    requires
        is_design(cols, n, t),
        0 <= i < n,
        p < pow2(t),
        t <= usize::MAX,
    ensures
        (pattern(cols, first_tuple(t), i) == p) == (i % (pow2(t) as int) == value_le(
            bits_of(p, t),
        )),
        value_le(bits_of(p, t)) < pow2(t),
{
    let tuple = first_tuple(t);
    let bits = selected_bits(cols, tuple, i);
    let digits = bits_le(i as nat, t);
    lemma_bits_le_len(i as nat, t);
    assert(bits =~= digits) by {
        assert forall|c: int| 0 <= c < t implies bits[c] == digits[c] by {
            lemma_bits_le_index(i as nat, t, c);
            assert(tuple[c] == c);
            assert(cols[c][i] == ((i / pow2(c as nat) as int) % 2 == 1));
        }
    }
    let wanted = bits_of(p, t);
    lemma_bits_of_len(p, t);
    lemma_pow2_positive(t);
    lemma_value_le_mod(i as nat, t);
    lemma_value_le_bits(wanted);
    lemma_value_le_bits(digits);
    lemma_value_le_mod(value_le(wanted), t);
    lemma_bits_le_len(value_le(wanted), t);
    assert(value_le(wanted) < pow2(t)) by {
        crate::binary_strings::lemma_all_ones(wanted);
    }
    if pattern(cols, tuple, i) == p {
        lemma_value_be_digits(digits);
        assert(digits == wanted);
    }
    if i % (pow2(t) as int) == value_le(wanted) {
        assert(digits == bits_le(value_le(digits), t));
        assert(wanted == bits_le(value_le(wanted), t));
        assert(digits == wanted);
        lemma_bits_of_value(p, t);
    }
}

/// In the full design, a pattern occurs among the first `m` rows as
/// often as its remainder is left among the numbers below `m`.
pub proof fn lemma_design_occurrences(cols: Seq<Seq<bool>>, n: nat, t: nat, p: nat, m: nat)
    requires
        is_design(cols, n, t),
        m <= n,
        p < pow2(t),
        t <= usize::MAX,
    ensures
        occurrences(cols, first_tuple(t), p, m) == residues(m, pow2(t), value_le(bits_of(p, t))),
    decreases m,
{
    if m > 0 {
        lemma_design_occurrences(cols, n, t, p, (m - 1) as nat);
        lemma_design_pattern(cols, n, t, p, m - 1);
    }
}

/// The full design is orthogonal, where `2^t` divides the number of
/// rows.
pub proof fn lemma_design_orthogonal(cols: Seq<Seq<bool>>, n: nat, t: nat)
    requires
        is_design(cols, n, t),
        n % pow2(t) == 0,
        t <= usize::MAX,
    ensures
        is_orthogonal(cols, n, t, t),
{
    lemma_pow2_positive(t);
    assert forall|i: int, p: nat| 0 <= i < yielded(t, t).len() && p < pow2(t) implies #[trigger] occurrences(
        cols,
        yielded(t, t)[i],
        p,
        n,
    ) == n / pow2(t) by {
        lemma_combos_valid(t, t, i);
        lemma_full_tuple(yielded(t, t)[i], t);
        lemma_design_occurrences(cols, n, t, p, n);
        if n > 0 {
            lemma_design_pattern(cols, n, t, p, 0);
        } else {
            assert(residues(0, pow2(t), value_le(bits_of(p, t))) == 0);
        }
        if n > 0 {
            lemma_residues(n, pow2(t), value_le(bits_of(p, t)));
        }
    }
}

} // verus!
