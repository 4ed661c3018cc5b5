//! Defect scores of an array: how far it is from being orthogonal.

use vstd::prelude::*;
use crate::binary_strings::{lemma_pow2_positive, lemma_value_be_bound, lemma_value_be_prefix, pow2, value_be};
use crate::oarray::{xor_seq, OArray, MAX_ROWS};
use crate::score::{all_zero, Defect, Score};
use crate::wtform::{cidev_of, max_size, polar, spectrum_of, table_of, walsh_spectrum, PolarTruthTable, MAX_INPUTS};
use crate::walsh::{descent, lemma_walsh_methods_agree, lemma_xor_columns_shift, magnitude, power, signed_sum, terms_over, walsh_sum, walsh_term, walsh_total, weight_sum, xor_columns, zeros};
use crate::t_combinations::{combos, lemma_combos_valid, yielded, Combinations};

verus! {

/// The formula by which an array is scored. The number carried by the
/// Walsh variants is the exponent applied to each spectral sum.
#[derive(Clone, Debug, Copy, PartialEq, Eq, Structural)]
pub enum FitnessFunction {
    Delta,
    DeltaFast,
    Walsh(u32),
    WalshFaster(u32),
    WalshRec(u32),
    Cidev,
    SheerLuck,
    Comb(u32),
}

/// The bits that row `row` has in the columns `sel`, in the order of `sel`.
pub open spec fn selected_bits(cols: Seq<Seq<bool>>, sel: Seq<usize>, row: int) -> Seq<bool> {
    Seq::new(sel.len(), |x: int| cols[sel[x] as int][row])
}

/// The pattern that row `row` shows in the columns `sel`, as a number: the
/// first selected column gives the most significant bit.
pub open spec fn pattern(cols: Seq<Seq<bool>>, sel: Seq<usize>, row: int) -> nat {
    value_be(selected_bits(cols, sel, row))
}

/// How many of the first `m` rows show the pattern `needle` in the columns
/// `sel`.
pub open spec fn occurrences(cols: Seq<Seq<bool>>, sel: Seq<usize>, needle: nat, m: nat) -> nat
    decreases m,
{
    if m == 0 {
        0
    } else {
        occurrences(cols, sel, needle, (m - 1) as nat) + if pattern(cols, sel, m - 1) == needle {
            1nat
        } else {
            0nat
        }
    }
}

/// The distance between two counts.
pub open spec fn abs_diff(a: int, b: int) -> nat {
    if a >= b {
        (a - b) as nat
    } else {
        (b - a) as nat
    }
}

/// How far the number of rows with pattern `needle` is from `lambda`.
pub open spec fn deviation(
    cols: Seq<Seq<bool>>,
    sel: Seq<usize>,
    needle: nat,
    lambda: nat,
    n: nat,
) -> nat {
    abs_diff(lambda as int, occurrences(cols, sel, needle, n) as int)
}

/// The squared deviations of the patterns below `m`, summed.
pub open spec fn squared_deviations(
    cols: Seq<Seq<bool>>,
    sel: Seq<usize>,
    lambda: nat,
    n: nat,
    m: nat,
) -> nat
    decreases m,
{
    if m == 0 {
        0
    } else {
        squared_deviations(cols, sel, lambda, n, (m - 1) as nat) + deviation(
            cols,
            sel,
            (m - 1) as nat,
            lambda,
            n,
        ) * deviation(cols, sel, (m - 1) as nat, lambda, n)
    }
}

/// The squared defect of the columns `sel`: over all patterns that these
/// columns can show, the squared distance between the number of rows with
/// the pattern and the ideal count, summed. The defect of `sel` under the
/// Delta methods is the square root of this number.
pub open spec fn subset_defect(cols: Seq<Seq<bool>>, sel: Seq<usize>, n: nat) -> nat {
    squared_deviations(cols, sel, n / pow2(sel.len()), n, pow2(sel.len()))
}

/// The squared defects of all subsets of `t` among `k` columns, in the
/// order of the enumeration.
pub open spec fn delta_defects(cols: Seq<Seq<bool>>, n: nat, k: nat, t: nat) -> Seq<nat> {
    Seq::new(yielded(k, t).len(), |i: int| subset_defect(cols, yielded(k, t)[i], n))
}

/// A pattern occurs among `m` rows at most `m` times.
pub proof fn lemma_occurrences_bound(cols: Seq<Seq<bool>>, sel: Seq<usize>, needle: nat, m: nat)
    ensures
        occurrences(cols, sel, needle, m) <= m,
    decreases m,
{
    if m > 0 {
        lemma_occurrences_bound(cols, sel, needle, (m - 1) as nat);
    }
}

/// All squared deviations vanish exactly when every pattern occurs
/// `lambda` times.
pub proof fn lemma_squared_deviations_zero(
    cols: Seq<Seq<bool>>,
    sel: Seq<usize>,
    lambda: nat,
    n: nat,
    m: nat,
)
    ensures
        squared_deviations(cols, sel, lambda, n, m) == 0 <==> forall|p: nat|
            p < m ==> #[trigger] occurrences(cols, sel, p, n) == lambda,
    decreases m,
{
    if m > 0 {
        let m1 = (m - 1) as nat;
        lemma_squared_deviations_zero(cols, sel, lambda, n, m1);
        let d = deviation(cols, sel, m1, lambda, n);
        assert(d * d == 0 <==> d == 0) by (nonlinear_arith);
        assert(d * d >= 0) by (nonlinear_arith);
        if squared_deviations(cols, sel, lambda, n, m) == 0 {
            assert forall|p: nat| p < m implies #[trigger] occurrences(cols, sel, p, n)
                == lambda by {
                if p < m1 {
                } else {
                    assert(p == m1);
                }
            }
        }
        if forall|p: nat| p < m ==> #[trigger] occurrences(cols, sel, p, n) == lambda {
            assert(occurrences(cols, sel, m1, n) == lambda);
        }
    }
}

impl OArray {
    /// The columns named by `igrande` exist.
    pub open spec fn selects(&self, igrande: Seq<usize>) -> bool {
        forall|x: int| 0 <= x < igrande.len() ==> (#[trigger] igrande[x]) < self.k
    }

    /// The pattern of row `row` in the columns `igrande`.
    pub fn row_pattern(&self, igrande: &[usize], row: usize) -> (r: usize)
        requires
            self.well_formed(),
            self.selects(igrande@),
            row < self.ngrande,
            pow2(igrande@.len()) <= usize::MAX,
        ensures
            r == pattern(self.columns(), igrande@, row as int),
            r < pow2(igrande@.len()),
    {
        let ghost bits = selected_bits(self.columns(), igrande@, row as int);
        let mut acc: usize = 0;
        let mut x: usize = 0;
        proof {
            lemma_value_be_bound(bits);
        }
        while x < igrande.len()
            invariant
                x <= igrande.len(),
                self.well_formed(),
                self.selects(igrande@),
                row < self.ngrande,
                bits == selected_bits(self.columns(), igrande@, row as int),
                value_be(bits) < pow2(igrande@.len()),
                pow2(igrande@.len()) <= usize::MAX,
                acc == value_be(bits.take(x as int)),
            decreases igrande.len() - x,
        {
            proof {
                assert(bits.take(x + 1).drop_last() =~= bits.take(x as int));
                lemma_value_be_prefix(bits, x + 1);
            }
            let bit = self.get(row, igrande[x]);
            acc = acc * 2 + if bit { 1 } else { 0 };
            x = x + 1;
        }
        proof {
            assert(bits.take(x as int) =~= bits);
        }
        acc
    }

    /// Counts the rows that show `needle` in the columns `igrande`, and
    /// gives the distance of that count from `lambda`.
    pub fn delta(&self, igrande: &[usize], needle: usize, lambda: usize) -> (r: usize)
        requires
            self.well_formed(),
            self.selects(igrande@),
            pow2(igrande@.len()) <= usize::MAX,
        ensures
            r == deviation(
                self.columns(),
                igrande@,
                needle as nat,
                lambda as nat,
                self.ngrande as nat,
            ),
    {
        let mut out: usize = 0;
        let mut i: usize = 0;
        while i < self.ngrande
            invariant
                i <= self.ngrande,
                self.well_formed(),
                self.selects(igrande@),
                pow2(igrande@.len()) <= usize::MAX,
                out == occurrences(self.columns(), igrande@, needle as nat, i as nat),
                out <= i,
            decreases self.ngrande - i,
        {
            let cur_row = self.row_pattern(igrande, i);
            if cur_row == needle {
                out = out + 1;
            }
            i = i + 1;
        }
        if lambda >= out {
            lambda - out
        } else {
            out - lambda
        }
    }

    /// The squared defect of the columns `igrande`: for each pattern in
    /// turn, the rows are scanned and the deviation squared.
    pub fn delta_grande(&self, igrande: &[usize]) -> (r: u128)
        requires
            self.well_formed(),
            self.selects(igrande@),
            pow2(igrande@.len()) <= usize::MAX,
        ensures
            r == subset_defect(self.columns(), igrande@, self.ngrande as nat),
    {
        proof {
            lemma_pow2_positive(igrande@.len());
        }
        let t_num = igrande.len();
        let num_representable_strings = power_of_two(t_num);
        let lambda = self.ngrande / num_representable_strings;
        let mut total: u128 = 0;
        let mut i: usize = 0;
        while i < num_representable_strings
            invariant
                i <= num_representable_strings,
                self.well_formed(),
                self.selects(igrande@),
                num_representable_strings == pow2(igrande@.len()),
                pow2(igrande@.len()) <= usize::MAX,
                lambda <= self.ngrande,
                total == squared_deviations(
                    self.columns(),
                    igrande@,
                    lambda as nat,
                    self.ngrande as nat,
                    i as nat,
                ),
                total <= i * 0x4000_0000_0000_0000,
            decreases num_representable_strings - i,
        {
            let d = self.delta(igrande, i, lambda);
            proof {
                lemma_occurrences_bound(
                    self.columns(),
                    igrande@,
                    i as nat,
                    self.ngrande as nat,
                );
                assert(d <= MAX_ROWS);
                assert(d * d <= 0x4000_0000_0000_0000) by (nonlinear_arith)
                    requires
                        d <= 0x7FFF_FFFF,
                ;
            }
            total = total + (d as u128) * (d as u128);
            i = i + 1;
        }
        total
    }

    /// The squared defect of the columns `igrande`, found in one pass over
    /// the rows: a counter for each pattern starts at the ideal count and
    /// drops by one for each row that shows the pattern.
    pub fn delta_grande_faster(&self, igrande: &[usize]) -> (r: u128)
        requires
            self.well_formed(),
            self.selects(igrande@),
            pow2(igrande@.len()) <= usize::MAX,
        ensures
            r == subset_defect(self.columns(), igrande@, self.ngrande as nat),
    {
        proof {
            lemma_pow2_positive(igrande@.len());
        }
        let t_num = igrande.len();
        let num_representable_strings = power_of_two(t_num);
        let lambda = self.ngrande / num_representable_strings;
        let mut counts: Vec<i64> = vec![lambda as i64; num_representable_strings];
        let mut i: usize = 0;
        while i < self.ngrande
            invariant
                i <= self.ngrande,
                self.well_formed(),
                self.selects(igrande@),
                num_representable_strings == pow2(igrande@.len()),
                pow2(igrande@.len()) <= usize::MAX,
                lambda <= self.ngrande,
                counts@.len() == num_representable_strings,
                forall|p: int|
                    0 <= p < counts@.len() ==> (#[trigger] counts@[p]) == lambda - occurrences(
                        self.columns(),
                        igrande@,
                        p as nat,
                        i as nat,
                    ),
            decreases self.ngrande - i,
        {
            let cur_row = self.row_pattern(igrande, i);
            proof {
                lemma_occurrences_bound(self.columns(), igrande@, cur_row as nat, i as nat);
            }
            let old_count = counts[cur_row];
            counts[cur_row] = old_count - 1;
            i = i + 1;
        }
        let mut total: u128 = 0;
        let mut p: usize = 0;
        while p < num_representable_strings
            invariant
                p <= num_representable_strings,
                lambda <= self.ngrande,
                self.ngrande <= MAX_ROWS,
                counts@.len() == num_representable_strings,
                forall|q: int|
                    0 <= q < counts@.len() ==> (#[trigger] counts@[q]) == lambda - occurrences(
                        self.columns(),
                        igrande@,
                        q as nat,
                        self.ngrande as nat,
                    ),
                total == squared_deviations(
                    self.columns(),
                    igrande@,
                    lambda as nat,
                    self.ngrande as nat,
                    p as nat,
                ),
                total <= p * 0x4000_0000_0000_0000,
            decreases num_representable_strings - p,
        {
            let c = counts[p];
            proof {
                lemma_occurrences_bound(
                    self.columns(),
                    igrande@,
                    p as nat,
                    self.ngrande as nat,
                );
            }
            let d: u128 = if c >= 0 {
                c as u128
            } else {
                (-c) as u128
            };
            proof {
                assert(d == deviation(
                    self.columns(),
                    igrande@,
                    p as nat,
                    lambda as nat,
                    self.ngrande as nat,
                ));
                assert(d * d <= 0x4000_0000_0000_0000) by (nonlinear_arith)
                    requires
                        d <= 0x7FFF_FFFF,
                ;
            }
            total = total + d * d;
            p = p + 1;
        }
        total
    }

    /// The squared defect of every subset of `target_t` columns, each
    /// found pattern by pattern.
    pub fn delta_fitness(&self) -> (r: Vec<u128>)
        requires
            self.valid(),
            self.target_t <= self.k,
        ensures
            r@.map_values(|q: u128| q as nat) == delta_defects(
                self.columns(),
                self.ngrande as nat,
                self.k as nat,
                self.target_t as nat,
            ),
    {
        self.delta_scan(false)
    }

    /// The squared defect of every subset of `target_t` columns, each
    /// found in one pass over the rows.
    pub fn delta_fitness_fast(&self) -> (r: Vec<u128>)
        requires
            self.valid(),
            self.target_t <= self.k,
        ensures
            r@.map_values(|q: u128| q as nat) == delta_defects(
                self.columns(),
                self.ngrande as nat,
                self.k as nat,
                self.target_t as nat,
            ),
    {
        self.delta_scan(true)
    }

    /// Walks the subsets of `target_t` columns and collects the squared
    /// defect of each, by the fast method or the slow one.
    fn delta_scan(&self, fast: bool) -> (r: Vec<u128>)
        requires
            self.valid(),
            self.target_t <= self.k,
        ensures
            r@.map_values(|q: u128| q as nat) == delta_defects(
                self.columns(),
                self.ngrande as nat,
                self.k as nat,
                self.target_t as nat,
            ),
    {
        let mut comb = Combinations::new(self.k, self.target_t);
        let mut it = comb.stream_iter();
        let mut out: Vec<u128> = Vec::new();
        let ghost all = yielded(self.k as nat, self.target_t as nat);
        let ghost cols = self.columns();
        loop
            invariant
                self.valid(),
                cols == self.columns(),
                it.pool() == self.k,
                it.size() == self.target_t,
                all == yielded(it.pool(), it.size()),
                -1 <= it.cursor() <= all.len(),
                it.cursor() < all.len() ==> out@.len() == it.cursor() + 1,
                it.cursor() == all.len() ==> out@.len() == all.len(),
                forall|i: int|
                    0 <= i < out@.len() ==> (#[trigger] out@[i]) as nat == subset_defect(
                        cols,
                        all[i],
                        self.ngrande as nat,
                    ),
            ensures
                out@.len() == all.len(),
                forall|i: int|
                    0 <= i < out@.len() ==> (#[trigger] out@[i]) as nat == subset_defect(
                        cols,
                        all[i],
                        self.ngrande as nat,
                    ),
            decreases all.len() - it.cursor(),
        {
            it.advance();
            match it.get() {
                Some(igrande) => {
                    proof {
                        lemma_combos_valid(
                            self.k as nat,
                            self.target_t as nat,
                            it.cursor(),
                        );
                        crate::binary_strings::lemma_pow2_monotone(
                            igrande@.len(),
                            self.target_t as nat,
                        );
                    }
                    let q = if fast {
                        self.delta_grande_faster(igrande)
                    } else {
                        self.delta_grande(igrande)
                    };
                    out.push(q);
                },
                None => {
                    break ;
                },
            }
        }
        proof {
            assert(out@.map_values(|q: u128| q as nat) =~= delta_defects(
                cols,
                self.ngrande as nat,
                self.k as nat,
                self.target_t as nat,
            ));
        }
        out
    }
}

/// `2^t` for a `t` whose power fits.
fn power_of_two(t: usize) -> (r: usize)
    requires
        pow2(t as nat) <= usize::MAX,
    ensures
        r == pow2(t as nat),
{
    let mut p: usize = 1;
    let mut i: usize = 0;
    while i < t
        invariant
            i <= t,
            p == pow2(i as nat),
            pow2(t as nat) <= usize::MAX,
        decreases t - i,
    {
        proof {
            crate::binary_strings::lemma_pow2_monotone((i + 1) as nat, t as nat);
        }
        p = p * 2;
        i = i + 1;
    }
    p
}

/// A number as a 64-bit value, where it fits.
pub open spec fn fits(x: nat) -> Option<u64> {
    if x <= u64::MAX {
        Some(x as u64)
    } else {
        None
    }
}

/// The columns held by `cols`, as plain sequences.
pub open spec fn views(cols: Seq<Vec<bool>>) -> Seq<Seq<bool>> {
    Seq::new(cols.len(), |j: int| cols[j]@)
}

/// A power of a positive number is positive.
pub proof fn lemma_power_positive(b: nat, e: nat)
    requires
        b >= 1,
    ensures
        power(b, e) >= 1,
    decreases e,
{
    if e > 0 {
        lemma_power_positive(b, (e - 1) as nat);
        assert(b * power(b, (e - 1) as nat) >= 1) by (nonlinear_arith)
            requires
                b >= 1,
                power(b, (e - 1) as nat) >= 1,
        ;
    }
}

/// For a base of one or more, a larger exponent gives no smaller power.
pub proof fn lemma_power_monotone(b: nat, a: nat, e: nat)
    requires
        b >= 1,
        a <= e,
    ensures
        power(b, a) <= power(b, e),
    decreases e,
{
    if a < e {
        lemma_power_monotone(b, a, (e - 1) as nat);
        lemma_power_positive(b, (e - 1) as nat);
        assert(b * power(b, (e - 1) as nat) >= power(b, (e - 1) as nat)) by (nonlinear_arith)
            requires
                b >= 1,
        ;
    }
}

/// A power vanishes only where its base does.
pub proof fn lemma_power_zero(b: nat, e: nat)
    ensures
        power(b, e) == 0 <==> (b == 0 && e > 0),
    decreases e,
{
    if e > 0 {
        lemma_power_zero(b, (e - 1) as nat);
        let rest = power(b, (e - 1) as nat);
        assert(b * rest == 0 <==> (b == 0 || rest == 0)) by (nonlinear_arith);
    }
}

/// The sum of two totals, each given where it fits.
pub(crate) fn add_fitting(a: Option<u64>, b: Option<u64>, Ghost(x): Ghost<nat>, Ghost(y): Ghost<nat>) -> (r:
    Option<u64>)
    requires
        a == fits(x),
        b == fits(y),
    ensures
        r == fits(x + y),
{
    match (a, b) {
        (Some(u), Some(v)) => u.checked_add(v),
        _ => None,
    }
}

/// `base` to the power `exp`, where it fits in 64 bits.
pub fn checked_power(base: u64, exp: u32) -> (r: Option<u64>)
    ensures
        r == fits(power(base as nat, exp as nat)),
{
    let mut acc: u64 = 1;
    let mut i: u32 = 0;
    while i < exp
        invariant
            i <= exp,
            acc == power(base as nat, i as nat),
        decreases exp - i,
    {
        assert(power(base as nat, (i + 1) as nat) == acc * base) by {
            assert(base as nat * power(base as nat, i as nat) == acc * base) by (nonlinear_arith)
                requires
                    acc == power(base as nat, i as nat),
            ;
        }
        match acc.checked_mul(base) {
            Some(v) => {
                acc = v;
            },
            None => {
                proof {
                    assert(base >= 1) by (nonlinear_arith)
                        requires
                            acc * base > u64::MAX,
                            acc >= 0,
                            base >= 0,
                    ;
                    lemma_power_monotone(base as nat, (i + 1) as nat, exp as nat);
                }
                return None;
            },
        }
        i = i + 1;
    }
    Some(acc)
}

/// The signed sum of a column: one bits count `-1`, zero bits `+1`.
pub fn column_sum(col: &Vec<bool>) -> (r: i64)
    requires
        col.len() <= MAX_ROWS,
    ensures
        r == signed_sum(col@, col@.len()),
        magnitude(r as int) <= col@.len(),
{
    let mut total: i64 = 0;
    let mut i: usize = 0;
    while i < col.len()
        invariant
            i <= col.len(),
            col.len() <= MAX_ROWS,
            total == signed_sum(col@, i as nat),
            -i <= total <= i,
        decreases col.len() - i,
    {
        if col[i] {
            total = total - 1;
        } else {
            total = total + 1;
        }
        i = i + 1;
    }
    total
}

/// What the column `col` adds to a Walsh score with exponent `exp`.
pub fn column_term(col: &Vec<bool>, exp: u32) -> (r: Option<u64>)
    requires
        col.len() <= MAX_ROWS,
    ensures
        r == fits(walsh_term(col@, exp as nat)),
{
    let total = column_sum(col);
    let size: u64 = if total >= 0 {
        total as u64
    } else {
        (-total) as u64
    };
    checked_power(size, exp)
}

/// The entrywise exclusive or of two columns of equal length.
pub fn xor_bits(a: &Vec<bool>, b: &Vec<bool>) -> (r: Vec<bool>)
    requires
        a.len() == b.len(),
    ensures
        r@ == xor_seq(a@, b@),
{
    let mut out: Vec<bool> = Vec::with_capacity(a.len());
    let mut i: usize = 0;
    while i < a.len()
        invariant
            i <= a.len(),
            a.len() == b.len(),
            out@.len() == i,
            forall|x: int| 0 <= x < i ==> out@[x] == (a@[x] != b@[x]),
        decreases a.len() - i,
    {
        out.push(a[i] != b[i]);
        i = i + 1;
    }
    proof {
        assert(out@ =~= xor_seq(a@, b@));
    }
    out
}

/// The Walsh total by descent. Starting from the column `tmp`, each
/// column from `base` on is combined with it in turn; the set reached is
/// counted, and the descent goes on below it with one column fewer to
/// take. No exclusive or is computed twice.
pub fn combinations_descent(
    cols: &Vec<Vec<bool>>,
    depth: usize,
    base: usize,
    tmp: &Vec<bool>,
    exp: u32,
) -> (r: Option<u64>)
    requires
        tmp.len() <= MAX_ROWS,
        forall|j: int| 0 <= j < cols@.len() ==> (#[trigger] cols@[j])@.len() == tmp@.len(),
    ensures
        r == fits(
            descent(views(cols@), cols@.len(), depth as nat, base as nat, tmp@, exp as nat),
        ),
    decreases cols@.len() - base,
{
    if depth == 0 {
        return Some(0);
    }
    let ghost all = views(cols@);
    let ghost k = cols@.len();
    let mut total: Option<u64> = Some(0);
    let ghost mut total_nat: nat = 0;
    let mut i: usize = base;
    while i < cols.len()
        invariant
            base <= i,
            depth > 0,
            all == views(cols@),
            k == cols@.len(),
            tmp.len() <= MAX_ROWS,
            forall|j: int| 0 <= j < cols@.len() ==> (#[trigger] cols@[j])@.len() == tmp@.len(),
            total == fits(total_nat),
            total_nat + descent(all, k, depth as nat, i as nat, tmp@, exp as nat) == descent(
                all,
                k,
                depth as nat,
                base as nat,
                tmp@,
                exp as nat,
            ),
        decreases cols.len() - i,
    {
        let tmp1 = xor_bits(tmp, &cols[i]);
        proof {
            assert(all[i as int] == cols@[i as int]@);
        }
        let term = column_term(&tmp1, exp);
        let below = combinations_descent(cols, depth - 1, i + 1, &tmp1, exp);
        let ghost term_nat = walsh_term(tmp1@, exp as nat);
        let ghost below_nat = descent(all, k, (depth - 1) as nat, (i + 1) as nat, tmp1@, exp as nat);
        let here = add_fitting(term, below, Ghost(term_nat), Ghost(below_nat));
        total = add_fitting(total, here, Ghost(total_nat), Ghost(term_nat + below_nat));
        proof {
            total_nat = total_nat + term_nat + below_nat;
        }
        i = i + 1;
    }
    total
}

/// The exclusive or of `column` with column `i` of `agrande`, columns
/// being counted from one, and what the result adds to a Walsh score.
pub fn walsh_step(agrande: &OArray, i: usize, column: Vec<bool>, exp: u32) -> (r: (
    Vec<bool>,
    Option<u64>,
))
    requires
        agrande.well_formed(),
        1 <= i <= agrande.k,
        column.len() == agrande.ngrande,
    ensures
        r.0@ == xor_seq(column@, agrande.columns()[i - 1]),
        r.1 == fits(walsh_term(r.0@, exp as nat)),
{
    let other = agrande.column(i - 1);
    let new_column = xor_bits(&column, &other);
    let term = column_term(&new_column, exp);
    (new_column, term)
}

/// The Walsh total by descent over the columns of `agrande` from column
/// `base` on, columns being counted from one; `comb_len` is the number of
/// columns still to take.
pub fn recurse_comb(
    k: usize,
    comb_len: usize,
    base: usize,
    column: Vec<bool>,
    agrande: &OArray,
    exp: u32,
) -> (r: Option<u64>)
    requires
        agrande.well_formed(),
        k == agrande.k,
        base >= 1,
        column.len() == agrande.ngrande,
    ensures
        r == fits(
            descent(
                agrande.columns(),
                k as nat,
                comb_len as nat,
                (base - 1) as nat,
                column@,
                exp as nat,
            ),
        ),
    decreases k + 1 - base,
{
    if comb_len < 1 {
        return Some(0);
    }
    let ghost all = agrande.columns();
    let mut total: Option<u64> = Some(0);
    let ghost mut total_nat: nat = 0;
    let mut i: usize = base;
    while i <= k
        invariant
            1 <= base <= i,
            comb_len >= 1,
            agrande.well_formed(),
            k == agrande.k,
            all == agrande.columns(),
            column.len() == agrande.ngrande,
            total == fits(total_nat),
            total_nat + descent(all, k as nat, comb_len as nat, (i - 1) as nat, column@, exp as nat)
                == descent(
                all,
                k as nat,
                comb_len as nat,
                (base - 1) as nat,
                column@,
                exp as nat,
            ),
        decreases k + 1 - i,
    {
        let (new_column, partial) = walsh_step(agrande, i, crate::oarray::copy_bits(&column), exp);
        let ghost term_nat = walsh_term(new_column@, exp as nat);
        let ghost below_nat = descent(
            all,
            k as nat,
            (comb_len - 1) as nat,
            i as nat,
            new_column@,
            exp as nat,
        );
        let rec = recurse_comb(k, comb_len - 1, i + 1, new_column, agrande, exp);
        let here = add_fitting(partial, rec, Ghost(term_nat), Ghost(below_nat));
        total = add_fitting(total, here, Ghost(total_nat), Ghost(term_nat + below_nat));
        proof {
            total_nat = total_nat + term_nat + below_nat;
        }
        i = i + 1;
    }
    total
}

impl OArray {
    /// The signed sum, over the rows, of the parity that each row has in
    /// the columns `comb`, combined with the bit that `start` has in the
    /// row.
    pub fn parity_sum(&self, comb: &[usize], start: &Vec<bool>) -> (r: i64)
        requires
            self.well_formed(),
            self.selects(comb@),
            start.len() == self.ngrande,
        ensures
            r == signed_sum(xor_columns(self.columns(), comb@, start@), self.ngrande as nat),
            magnitude(r as int) <= self.ngrande,
    {
        let ghost cols = self.columns();
        let ghost mixed = xor_columns(cols, comb@, start@);
        let mut vec_tot: i64 = 0;
        let mut row: usize = 0;
        while row < self.ngrande
            invariant
                row <= self.ngrande,
                self.well_formed(),
                self.selects(comb@),
                start.len() == self.ngrande,
                cols == self.columns(),
                mixed == xor_columns(cols, comb@, start@),
                vec_tot == signed_sum(mixed, row as nat),
                -row <= vec_tot <= row,
            decreases self.ngrande - row,
        {
            let mut prod = start[row];
            let mut x: usize = 0;
            while x < comb.len()
                invariant
                    x <= comb.len(),
                    row < self.ngrande,
                    self.well_formed(),
                    self.selects(comb@),
                    start.len() == self.ngrande,
                    cols == self.columns(),
                    prod == xor_columns(cols, comb@.take(x as int), start@)[row as int],
                decreases comb.len() - x,
            {
                proof {
                    let sel = comb@.take(x + 1);
                    assert(sel.drop_last() =~= comb@.take(x as int));
                    lemma_xor_columns_shift(
                        cols,
                        comb@.take(x as int),
                        start@,
                        cols[comb@[x as int] as int],
                    );
                }
                prod = prod != self.get(row, comb[x]);
                x = x + 1;
            }
            proof {
                assert(comb@.take(x as int) =~= comb@);
            }
            vec_tot = vec_tot + if prod {
                -1
            } else {
                1
            };
            row = row + 1;
        }
        vec_tot
    }

    /// The terms of all sets of one up to `upto` columns, each set
    /// combined with the column `start`, found weight by weight: for each
    /// set, the rows are scanned for their parity. `None` where the total
    /// exceeds 64 bits.
    pub fn walsh_layers(&self, upto: u32, start: &Vec<bool>, exp: u32) -> (r: Option<u64>)
        requires
            self.well_formed(),
            upto <= self.k,
            start.len() == self.ngrande,
        ensures
            r == fits(walsh_sum(self.columns(), self.k as nat, upto as nat, start@, exp as nat)),
    {
        let ghost cols = self.columns();
        let mut grand_tot: Option<u64> = Some(0);
        let mut w: u32 = 1;
        while w <= upto
            invariant
                1 <= w <= upto + 1,
                self.well_formed(),
                upto <= self.k,
                start.len() == self.ngrande,
                cols == self.columns(),
                grand_tot == fits(
                    walsh_sum(cols, self.k as nat, (w - 1) as nat, start@, exp as nat),
                ),
            decreases upto + 1 - w,
        {
            let mut combs = Combinations::new(self.k, w);
            let mut comb_iter = combs.stream_iter();
            let ghost all = combos(self.k as nat, w as nat);
            let mut layer: Option<u64> = Some(0);
            let ghost mut seen: nat = 0;
            loop
                invariant
                    w >= 1,
                    self.well_formed(),
                    start.len() == self.ngrande,
                    cols == self.columns(),
                    comb_iter.pool() == self.k,
                    comb_iter.size() == w,
                    all == combos(self.k as nat, w as nat),
                    -1 <= comb_iter.cursor() <= all.len(),
                    comb_iter.cursor() < all.len() ==> seen == comb_iter.cursor() + 1,
                    comb_iter.cursor() == all.len() ==> seen == all.len(),
                    layer == fits(terms_over(cols, all, start@, exp as nat, seen)),
                ensures
                    layer == fits(weight_sum(cols, self.k as nat, w as nat, start@, exp as nat)),
                decreases all.len() - comb_iter.cursor(),
            {
                comb_iter.advance();
                match comb_iter.get() {
                    Some(comb) => {
                        proof {
                            lemma_combos_valid(self.k as nat, w as nat, comb_iter.cursor());
                        }
                        let vec_tot = self.parity_sum(comb, start);
                        let size: u64 = if vec_tot >= 0 {
                            vec_tot as u64
                        } else {
                            (-vec_tot) as u64
                        };
                        let term = checked_power(size, exp);
                        proof {
                            lemma_xor_columns_shift(cols, comb@, start@, start@);
                        }
                        let ghost term_nat = walsh_term(
                            xor_columns(cols, comb@, start@),
                            exp as nat,
                        );
                        layer = add_fitting(
                            layer,
                            term,
                            Ghost(terms_over(cols, all, start@, exp as nat, seen)),
                            Ghost(term_nat),
                        );
                        proof {
                            seen = seen + 1;
                        }
                    },
                    None => {
                        break ;
                    },
                }
            }
            grand_tot = add_fitting(
                grand_tot,
                layer,
                Ghost(walsh_sum(cols, self.k as nat, (w - 1) as nat, start@, exp as nat)),
                Ghost(weight_sum(cols, self.k as nat, w as nat, start@, exp as nat)),
            );
            w = w + 1;
        }
        grand_tot
    }

    /// The Walsh defect with exponent `exp`, found weight by weight: for
    /// each set of one up to `target_t` columns, the rows are scanned for
    /// the parity they have in these columns. `None` where the total
    /// exceeds 64 bits.
    pub fn walsh_fitness(&self, exp: u32) -> (r: Option<u64>)
        requires
            self.well_formed(),
            self.target_t <= self.k,
        ensures
            r == fits(
                walsh_total(
                    self.columns(),
                    self.ngrande as nat,
                    self.k as nat,
                    self.target_t as nat,
                    exp as nat,
                ),
            ),
    {
        let start = vec![false; self.ngrande];
        proof {
            assert(start@ =~= zeros(self.ngrande as nat));
        }
        self.walsh_layers(self.target_t, &start, exp)
    }

    /// The Walsh defect with exponent `exp`, found by descent: the
    /// exclusive or of each set of columns is built from that of the set
    /// without its last column. `None` where the total exceeds 64 bits.
    pub fn walsh_faster(&self, exp: u32) -> (r: Option<u64>)
        requires
            self.well_formed(),
        ensures
            r == fits(
                walsh_total(
                    self.columns(),
                    self.ngrande as nat,
                    self.k as nat,
                    self.target_t as nat,
                    exp as nat,
                ),
            ),
    {
        let cols = self.iter_cols();
        let tmp0 = vec![false; self.ngrande];
        proof {
            assert(views(cols@) =~= self.columns());
            assert(tmp0@ =~= zeros(self.ngrande as nat));
            lemma_walsh_methods_agree(
                self.columns(),
                self.k as nat,
                self.target_t as nat,
                zeros(self.ngrande as nat),
                exp as nat,
            );
        }
        combinations_descent(&cols, self.target_t as usize, 0, &tmp0, exp)
    }

    /// The Walsh defect with exponent `exp`, found by descent with columns
    /// counted from one. `None` where the total exceeds 64 bits.
    pub fn walsh_fitness_rec(&self, exp: u32) -> (r: Option<u64>)
        requires
            self.well_formed(),
        ensures
            r == fits(
                walsh_total(
                    self.columns(),
                    self.ngrande as nat,
                    self.k as nat,
                    self.target_t as nat,
                    exp as nat,
                ),
            ),
    {
        let column = vec![false; self.ngrande];
        proof {
            assert(column@ =~= zeros(self.ngrande as nat));
            lemma_walsh_methods_agree(
                self.columns(),
                self.k as nat,
                self.target_t as nat,
                zeros(self.ngrande as nat),
                exp as nat,
            );
        }
        recurse_comb(self.k, self.target_t as usize, 1, column, self, exp)
    }
}

/// The largest size of a coefficient in the spectrum of `oa`.
pub open spec fn radius_of(oa: &OArray) -> int {
    max_size(spectrum_of(oa), spectrum_of(oa).len())
}

/// The larger of `x` and zero.
pub open spec fn positive_part(x: int) -> nat {
    if x >= 0 {
        x as nat
    } else {
        0
    }
}

/// Every pattern of `t` bits occurs equally often, `n / 2^t` times, in
/// every choice of `t` among the `k` columns.
pub open spec fn is_orthogonal(cols: Seq<Seq<bool>>, n: nat, k: nat, t: nat) -> bool {
    forall|i: int, p: nat|
        0 <= i < yielded(k, t).len() && p < pow2(t) ==> #[trigger] occurrences(
            cols,
            yielded(k, t)[i],
            p,
            n,
        ) == n / pow2(t)
}

/// The Delta defect is zero exactly for an orthogonal array.
pub proof fn lemma_delta_zero_iff_orthogonal(cols: Seq<Seq<bool>>, n: nat, k: nat, t: nat)
    requires
        k <= usize::MAX,
    ensures
        all_zero(delta_defects(cols, n, k, t)) <==> is_orthogonal(cols, n, k, t),
{
    let all = yielded(k, t);
    let qs = delta_defects(cols, n, k, t);
    assert forall|i: int| 0 <= i < all.len() implies (#[trigger] qs[i] == 0 <==> forall|p: nat|
        p < pow2(t) ==> #[trigger] occurrences(cols, all[i], p, n) == n / pow2(t)) by {
        lemma_combos_valid(k, t, i);
        lemma_squared_deviations_zero(cols, all[i], n / pow2(t), n, pow2(t));
    }
    if all_zero(qs) {
        assert forall|i: int, p: nat| 0 <= i < all.len() && p < pow2(t) implies #[trigger] occurrences(
            cols,
            all[i],
            p,
            n,
        ) == n / pow2(t) by {
            assert(qs[i] == 0);
        }
    }
    if is_orthogonal(cols, n, k, t) {
        assert forall|i: int| 0 <= i < qs.len() implies #[trigger] qs[i] == 0 by {
            assert forall|p: nat| p < pow2(t) implies #[trigger] occurrences(cols, all[i], p, n)
                == n / pow2(t) by {}
        }
    }
}

impl OArray {
    /// The defect of the array under the method `f`.
    pub open spec fn defect_by(&self, f: FitnessFunction) -> Defect {
        let cols = self.columns();
        let n = self.ngrande as nat;
        let k = self.k as nat;
        let t = self.target_t as nat;
        match f {
            FitnessFunction::Delta => Defect::RootSum(delta_defects(cols, n, k, t)),
            FitnessFunction::DeltaFast => Defect::RootSum(delta_defects(cols, n, k, t)),
            FitnessFunction::Walsh(e) => Defect::Whole(walsh_total(cols, n, k, t, e as nat)),
            FitnessFunction::WalshFaster(e) => Defect::Whole(
                descent(cols, k, t, 0, zeros(n), e as nat),
            ),
            FitnessFunction::WalshRec(e) => Defect::Whole(
                descent(cols, k, t, 0, zeros(n), e as nat),
            ),
            FitnessFunction::Cidev => Defect::Whole(cidev_of(self) as nat),
            FitnessFunction::SheerLuck => Defect::Whole(
                if all_zero(delta_defects(cols, n, k, t)) {
                    0
                } else {
                    1
                },
            ),
            FitnessFunction::Comb(p) => Defect::Whole(
                descent(cols, k, t, 0, zeros(n), 2) + positive_part(p * k - 1 - radius_of(self)),
            ),
        }
    }

    /// The defect of the array under its own method.
    pub open spec fn defect(&self) -> Defect {
        self.defect_by(self.fitness_f)
    }

    /// The array can be scored under the method `f`: it is valid, has at
    /// least as many columns as its strength, and for the methods that
    /// read the spectrum, has between one and `MAX_INPUTS` columns and
    /// strength at least one.
    pub open spec fn scorable_by(&self, f: FitnessFunction) -> bool {
        &&& self.valid()
        &&& self.target_t <= self.k
        &&& (f is Cidev || f is Comb) ==> 1 <= self.k <= MAX_INPUTS && self.target_t >= 1
    }

    /// The array can be scored under its own method.
    pub open spec fn scorable(&self) -> bool {
        self.scorable_by(self.fitness_f)
    }

    /// Whether the array can be scored under its own method.
    pub fn is_scorable(&self) -> (r: bool)
        ensures
            r == self.scorable(),
    {
        if !self.is_valid() {
            return false;
        }
        if self.target_t as usize > self.k {
            return false;
        }
        match self.fitness_f {
            FitnessFunction::Cidev => 1 <= self.k && self.k <= MAX_INPUTS && self.target_t >= 1,
            FitnessFunction::Comb(_) => 1 <= self.k && self.k <= MAX_INPUTS && self.target_t >= 1,
            _ => true,
        }
    }

    /// The methods agree: Delta with DeltaFast, and Walsh with WalshFaster
    /// and WalshRec at any one exponent.
    pub proof fn lemma_methods_agree(&self, exp: u32)
        ensures
            self.defect_by(FitnessFunction::Delta) == self.defect_by(FitnessFunction::DeltaFast),
            self.defect_by(FitnessFunction::Walsh(exp)) == self.defect_by(
                FitnessFunction::WalshFaster(exp),
            ),
            self.defect_by(FitnessFunction::Walsh(exp)) == self.defect_by(
                FitnessFunction::WalshRec(exp),
            ),
    {
        lemma_walsh_methods_agree(
            self.columns(),
            self.k as nat,
            self.target_t as nat,
            zeros(self.ngrande as nat),
            exp as nat,
        );
    }

    /// The largest size of a low-weight coefficient in the spectrum of
    /// the array.
    pub fn cidev_fitness(&self) -> (r: u32)
        requires
            self.well_formed(),
            1 <= self.k <= MAX_INPUTS,
            self.target_t >= 1,
        ensures
            r == cidev_of(self),
    {
        let tt = self.truth_table();
        proof {
            assert(tt.table@ =~= table_of(self));
        }
        let ptt = PolarTruthTable::from(&tt);
        let wtf = ptt.walsh_tform();
        wtf.cidev(self.target_t as usize)
    }

    /// Zero for an orthogonal array and one for any other.
    pub fn sheer_luck_fitness(&self) -> (r: u64)
        requires
            self.valid(),
            self.target_t <= self.k,
        ensures
            r == if all_zero(
                delta_defects(
                    self.columns(),
                    self.ngrande as nat,
                    self.k as nat,
                    self.target_t as nat,
                ),
            ) {
                0u64
            } else {
                1u64
            },
    {
        let score = Score::RootSum(self.delta_fitness_fast());
        proof {
            assert(score.entries() =~= delta_defects(
                self.columns(),
                self.ngrande as nat,
                self.k as nat,
                self.target_t as nat,
            ));
        }
        if score.is_perfect() {
            0
        } else {
            1
        }
    }

    /// The Walsh defect with exponent two, raised by the amount by which
    /// the largest coefficient of the spectrum falls short of `p * k - 1`.
    pub fn comb_fitness(&self, p: u32) -> (r: Option<u64>)
        requires
            self.well_formed(),
            1 <= self.k <= MAX_INPUTS,
        ensures
            r == fits(
                descent(
                    self.columns(),
                    self.k as nat,
                    self.target_t as nat,
                    0,
                    zeros(self.ngrande as nat),
                    2,
                ) + positive_part(p * self.k - 1 - radius_of(self)),
            ),
    {
        let a = self.walsh_fitness_rec(2);
        let tt = self.truth_table();
        proof {
            assert(tt.table@ =~= table_of(self));
            lemma_walsh_methods_agree(
                self.columns(),
                self.k as nat,
                self.target_t as nat,
                zeros(self.ngrande as nat),
                2,
            );
        }
        let b = PolarTruthTable::from(&tt).walsh_tform().nonlinearity();
        assert(p * self.k <= 0xFFFF_FFFF * 30) by (nonlinear_arith)
            requires
                p <= 0xFFFF_FFFF,
                self.k <= 30,
        ;
        let gap: i64 = (p as i64) * (self.k as i64) - 1 - (b as i64);
        let extra: u64 = if gap >= 0 {
            gap as u64
        } else {
            0
        };
        add_fitting(
            a,
            Some(extra),
            Ghost(
                descent(
                    self.columns(),
                    self.k as nat,
                    self.target_t as nat,
                    0,
                    zeros(self.ngrande as nat),
                    2,
                ),
            ),
            Ghost(extra as nat),
        )
    }

    /// The score of the array under its own method; `None` where a whole
    /// defect exceeds 64 bits.
    pub fn fitness(&self) -> (r: Option<Score>)
        requires
            self.scorable(),
        ensures
            match r {
                Some(score) => score@ == self.defect(),
                None => self.defect() matches Defect::Whole(x) && x > u64::MAX,
            },
    {
        proof {
            self.lemma_methods_agree(0);
        }
        match self.fitness_f {
            FitnessFunction::Delta => {
                let qs = self.delta_fitness();
                let score = Score::RootSum(qs);
                proof {
                    assert(score.entries() =~= delta_defects(
                        self.columns(),
                        self.ngrande as nat,
                        self.k as nat,
                        self.target_t as nat,
                    ));
                }
                Some(score)
            },
            FitnessFunction::DeltaFast => {
                let qs = self.delta_fitness_fast();
                let score = Score::RootSum(qs);
                proof {
                    assert(score.entries() =~= delta_defects(
                        self.columns(),
                        self.ngrande as nat,
                        self.k as nat,
                        self.target_t as nat,
                    ));
                }
                Some(score)
            },
            FitnessFunction::Walsh(exponent) => whole(self.walsh_fitness(exponent)),
            FitnessFunction::WalshFaster(exponent) => {
                proof {
                    self.lemma_methods_agree(exponent);
                }
                whole(self.walsh_faster(exponent))
            },
            FitnessFunction::WalshRec(exponent) => {
                proof {
                    self.lemma_methods_agree(exponent);
                }
                whole(self.walsh_fitness_rec(exponent))
            },
            FitnessFunction::Cidev => Some(Score::Whole(self.cidev_fitness() as u64)),
            FitnessFunction::SheerLuck => Some(Score::Whole(self.sheer_luck_fitness())),
            FitnessFunction::Comb(exponent) => whole(self.comb_fitness(exponent)),
        }
    }
}

/// Row `i` of the array whose `k` columns are `cols`.
pub open spec fn row_in(cols: Seq<Seq<bool>>, k: nat, i: int) -> Seq<bool> {
    Seq::new(k, |j: int| cols[j][i])
}

/// The truth table of the array of `n` rows whose `k` columns are
/// `cols`: true on the values of its rows.
pub open spec fn table_in(cols: Seq<Seq<bool>>, n: nat, k: nat) -> Seq<bool> {
    Seq::new(
        pow2(k),
        |v: int| exists|i: int| 0 <= i < n && #[trigger] value_be(row_in(cols, k, i)) == v,
    )
}

/// The defect, under the method `f`, of the array of `n` rows and
/// strength `t` whose `k` columns are `cols`.
pub open spec fn defect_of(
    cols: Seq<Seq<bool>>,
    n: nat,
    k: nat,
    t: nat,
    f: FitnessFunction,
) -> Defect {
    let spectrum = walsh_spectrum(polar(table_in(cols, n, k)));
    match f {
        FitnessFunction::Delta => Defect::RootSum(delta_defects(cols, n, k, t)),
        FitnessFunction::DeltaFast => Defect::RootSum(delta_defects(cols, n, k, t)),
        FitnessFunction::Walsh(e) => Defect::Whole(walsh_total(cols, n, k, t, e as nat)),
        FitnessFunction::WalshFaster(e) => Defect::Whole(descent(cols, k, t, 0, zeros(n), e as nat)),
        FitnessFunction::WalshRec(e) => Defect::Whole(descent(cols, k, t, 0, zeros(n), e as nat)),
        FitnessFunction::Cidev => Defect::Whole(
            crate::wtform::max_low_weight(spectrum, t, spectrum.len()) as nat,
        ),
        FitnessFunction::SheerLuck => Defect::Whole(
            if all_zero(delta_defects(cols, n, k, t)) {
                0
            } else {
                1
            },
        ),
        FitnessFunction::Comb(p) => Defect::Whole(
            descent(cols, k, t, 0, zeros(n), 2) + positive_part(
                p * k - 1 - max_size(spectrum, spectrum.len()),
            ),
        ),
    }
}

/// The defect of an array is that of its columns.
pub proof fn lemma_defect_of_columns(oa: &OArray, f: FitnessFunction)
    requires
        oa.well_formed(),
    ensures
        oa.defect_by(f) == defect_of(
            oa.columns(),
            oa.ngrande as nat,
            oa.k as nat,
            oa.target_t as nat,
            f,
        ),
{
    let cols = oa.columns();
    let n = oa.ngrande as nat;
    let k = oa.k as nat;
    assert forall|i: int| 0 <= i < n implies #[trigger] oa.row(i) == row_in(cols, k, i) by {
        assert forall|j: int| 0 <= j < k implies oa.row(i)[j] == row_in(cols, k, i)[j] by {
            assert(cols[j][i] == oa.cell(i, j));
        }
        assert(oa.row(i) =~= row_in(cols, k, i));
    }
    assert(table_of(oa) =~= table_in(cols, n, k)) by {
        assert forall|v: int| 0 <= v < pow2(k) implies table_of(oa)[v] == table_in(cols, n, k)[v] by {
            if oa.has_value(v) {
                let i = choose|i: int| 0 <= i < oa.ngrande && #[trigger] value_be(oa.row(i)) == v;
                assert(value_be(row_in(cols, k, i)) == v);
            }
            if table_in(cols, n, k)[v] {
                let i = choose|i: int|
                    0 <= i < n && #[trigger] value_be(row_in(cols, k, i)) == v;
                assert(value_be(oa.row(i)) == v);
            }
        }
    }
}

/// A whole defect as a score, where it fits.
fn whole(total: Option<u64>) -> (r: Option<Score>)
    ensures
        match (total, r) {
            (Some(x), Some(score)) => score@ == Defect::Whole(x as nat),
            (None, None) => true,
            _ => false,
        },
{
    match total {
        Some(x) => Some(Score::Whole(x)),
        None => None,
    }
}

} // verus!
