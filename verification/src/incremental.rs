//! Building an array column by column: the full design to start from,
//! and the scores of an array that read only what its last column adds.

use vstd::prelude::*;
use crate::balance::flatten;
use crate::binary_strings::{checked_pow2, lemma_pow2_monotone, lemma_pow2_positive, pow2};
use crate::fitness::{
    combinations_descent, column_term, delta_defects, fits, occurrences, pattern, selected_bits,
    squared_deviations, subset_defect, views, FitnessFunction,
};
use crate::oarray::{valid_parameters, OArray, MAX_ROWS};
use crate::t_combinations::{
    combos, lemma_combos_index, lemma_combos_len, lemma_combos_valid, with_last, yielded,
    Combinations,
};
use crate::walsh::{descent, lemma_walsh_methods_agree, one_less, walsh_increment, walsh_term};

verus! {

/// The squared defects of the subsets of `t` among `k` columns that hold
/// the last column: each subset of `t - 1` among the first `k - 1`
/// columns, in the order of the enumeration, with the last column added.
/// At strength one that is the last column alone.
pub open spec fn incremental_defects(cols: Seq<Seq<bool>>, n: nat, k: nat, t: nat) -> Seq<nat> {
    let rest = combos((k - 1) as nat, (t - 1) as nat);
    Seq::new(rest.len(), |i: int| subset_defect(cols, with_last(rest[i], (k - 1) as usize), n))
}

/// The squared defect of a set of columns reads only these columns.
pub proof fn lemma_subset_defect_agrees(
    cols: Seq<Seq<bool>>,
    more: Seq<Seq<bool>>,
    sel: Seq<usize>,
    n: nat,
)
    requires
        forall|x: int| 0 <= x < sel.len() ==> cols[(#[trigger] sel[x]) as int] == more[sel[x] as int],
    ensures
        subset_defect(cols, sel, n) == subset_defect(more, sel, n),
{
    let lambda = n / pow2(sel.len());
    assert forall|row: int| #[trigger] pattern(cols, sel, row) == pattern(more, sel, row) by {
        assert(selected_bits(cols, sel, row) =~= selected_bits(more, sel, row));
    }
    lemma_squared_agree(cols, more, sel, lambda, n, pow2(sel.len()));
}

proof fn lemma_occurrences_agree(
    cols: Seq<Seq<bool>>,
    more: Seq<Seq<bool>>,
    sel: Seq<usize>,
    needle: nat,
    m: nat,
)
    requires
        forall|row: int| #[trigger] pattern(cols, sel, row) == pattern(more, sel, row),
    ensures
        occurrences(cols, sel, needle, m) == occurrences(more, sel, needle, m),
    decreases m,
{
    if m > 0 {
        lemma_occurrences_agree(cols, more, sel, needle, (m - 1) as nat);
    }
}

proof fn lemma_squared_agree(
    cols: Seq<Seq<bool>>,
    more: Seq<Seq<bool>>,
    sel: Seq<usize>,
    lambda: nat,
    n: nat,
    m: nat,
)
    requires
        forall|row: int| #[trigger] pattern(cols, sel, row) == pattern(more, sel, row),
    ensures
        squared_deviations(cols, sel, lambda, n, m) == squared_deviations(more, sel, lambda, n, m),
    decreases m,
{
    if m > 0 {
        lemma_squared_agree(cols, more, sel, lambda, n, (m - 1) as nat);
        lemma_occurrences_agree(cols, more, sel, (m - 1) as nat, n);
    }
}

/// The Delta defects of an array with a new last column: those of the
/// array without it, followed by those of the subsets that hold the new
/// column. So where the array without the column is orthogonal, the
/// defect of the longer array is the sum over the incremental part alone.
pub proof fn lemma_delta_incremental(
    cols: Seq<Seq<bool>>,
    last: Seq<bool>,
    n: nat,
    k: nat,
    t: nat,
)
    requires
        k == cols.len(),
        k < usize::MAX,
        t >= 1,
    ensures
        delta_defects(cols.push(last), n, k + 1, t) == delta_defects(cols, n, k, t)
            + incremental_defects(cols.push(last), n, k + 1, t),
{
    let more = cols.push(last);
    let whole = delta_defects(more, n, k + 1, t);
    let first = delta_defects(cols, n, k, t);
    let second = incremental_defects(more, n, k + 1, t);
    let t1 = (t - 1) as nat;
    lemma_combos_len(k, t);
    lemma_combos_len(k, t1);
    lemma_combos_len(k + 1, t);
    assert(whole.len() == first.len() + second.len());
    assert forall|i: int| 0 <= i < whole.len() implies whole[i] == (first + second)[i] by {
        lemma_combos_index(k + 1, t, i);
        if i < first.len() {
            lemma_combos_valid(k, t, i);
            lemma_subset_defect_agrees(cols, more, combos(k, t)[i], n);
        } else {
            let x = i - first.len();
            assert(second[x] == subset_defect(more, with_last(combos(k, t1)[x], k as usize), n));
        }
    }
    assert(whole =~= first + second);
}

impl OArray {
    /// The array of `target_t` columns in which every pattern occurs
    /// equally often: column `c` holds `2^c` zeros, then `2^c` ones, and
    /// so on down the rows.
    pub fn generate_partial(ngrande: usize, target_t: u32, fitness_f: FitnessFunction) -> (r: Self)
        requires
            valid_parameters(ngrande, target_t),
            ngrande <= MAX_ROWS,
            ngrande * target_t <= usize::MAX,
        ensures
            r.valid(),
            r.ngrande == ngrande,
            r.k == target_t,
            r.target_t == target_t,
            r.fitness_f == fitness_f,
            forall|i: int, c: int|
                0 <= i < ngrande && 0 <= c < target_t ==> #[trigger] r.columns()[c][i] == ((i
                    / pow2(c as nat) as int) % 2 == 1),
            crate::fitness::is_orthogonal(
                r.columns(),
                ngrande as nat,
                target_t as nat,
                target_t as nat,
            ),
    {
        let mut cols: Vec<Vec<bool>> = Vec::new();
        let mut col: u32 = 0;
        while col < target_t
            invariant
                col <= target_t,
                valid_parameters(ngrande, target_t),
                cols@.len() == col,
                forall|c: int| 0 <= c < col ==> (#[trigger] cols@[c])@.len() == ngrande,
                forall|i: int, c: int|
                    0 <= i < ngrande && 0 <= c < col ==> #[trigger] cols@[c]@[i] == ((i / pow2(
                        c as nat,
                    ) as int) % 2 == 1),
            decreases target_t - col,
        {
            proof {
                lemma_pow2_monotone(col as nat, target_t as nat);
                lemma_pow2_positive(col as nat);
            }
            let num = checked_pow2(col).unwrap();
            let mut dati_colonna: Vec<bool> = Vec::new();
            let mut i: usize = 0;
            while i < ngrande
                invariant
                    i <= ngrande,
                    num == pow2(col as nat),
                    num >= 1,
                    dati_colonna@.len() == i,
                    forall|x: int|
                        0 <= x < i ==> dati_colonna@[x] == ((x / num as int) % 2 == 1),
                decreases ngrande - i,
            {
                dati_colonna.push((i / num) % 2 == 1);
                i = i + 1;
            }
            cols.push(dati_colonna);
            col = col + 1;
        }
        let d = flatten(&cols, ngrande);
        proof {
            crate::binary_strings::lemma_pow2_32();
            if target_t > 31 {
                lemma_pow2_monotone(32, target_t as nat);
            }
        }
        let out = OArray::new(ngrande, target_t as usize, target_t, d, fitness_f);
        proof {
            assert(out.columns() == views(cols@));
            assert forall|i: int, c: int| 0 <= i < ngrande && 0 <= c < target_t implies #[trigger] out.columns()[c][i]
                == ((i / pow2(c as nat) as int) % 2 == 1) by {
                assert(out.columns()[c] == cols@[c]@);
            }
            crate::design::lemma_design_orthogonal(
                out.columns(),
                ngrande as nat,
                target_t as nat,
            );
        }
        out
    }

    /// The squared defects of the subsets of `target_t` columns that hold
    /// the last column, in the order of the enumeration. At strength one
    /// that is the squared defect of the last column alone.
    pub fn delta_incremental_faster(&self) -> (r: Vec<u128>)
        requires
            self.valid(),
            1 <= self.target_t <= self.k,
        ensures
            r@.map_values(|q: u128| q as nat) == incremental_defects(
                self.columns(),
                self.ngrande as nat,
                self.k as nat,
                self.target_t as nat,
            ),
    {
        let mut out: Vec<u128> = Vec::new();
        let ghost k1 = (self.k - 1) as nat;
        let ghost t1 = (self.target_t - 1) as nat;
        let ghost all = combos(k1, t1);
        let ghost cols = self.columns();
        if self.target_t == 1 {
            let mut my_igrande: Vec<usize> = Vec::new();
            my_igrande.push(self.k - 1);
            proof {
                lemma_pow2_monotone(1, self.target_t as nat);
                assert(all[0] =~= Seq::<usize>::empty());
                assert(my_igrande@ =~= with_last(all[0], k1 as usize));
            }
            let q = self.delta_grande_faster(my_igrande.as_slice());
            out.push(q);
        } else {
            let mut comb = Combinations::new(self.k - 1, self.target_t - 1);
            let mut it = comb.stream_iter();
            loop
                invariant
                    self.valid(),
                    2 <= self.target_t <= self.k,
                    cols == self.columns(),
                    k1 == self.k - 1,
                    t1 == self.target_t - 1,
                    it.pool() == k1,
                    it.size() == t1,
                    all == combos(k1, t1),
                    all == yielded(k1, t1),
                    -1 <= it.cursor() <= all.len(),
                    it.cursor() < all.len() ==> out@.len() == it.cursor() + 1,
                    it.cursor() == all.len() ==> out@.len() == all.len(),
                    forall|i: int|
                        0 <= i < out@.len() ==> (#[trigger] out@[i]) as nat == subset_defect(
                            cols,
                            with_last(all[i], k1 as usize),
                            self.ngrande as nat,
                        ),
                ensures
                    out@.len() == all.len(),
                    forall|i: int|
                        0 <= i < out@.len() ==> (#[trigger] out@[i]) as nat == subset_defect(
                            cols,
                            with_last(all[i], k1 as usize),
                            self.ngrande as nat,
                        ),
                decreases all.len() - it.cursor(),
            {
                match it.next() {
                    Some(igrande) => {
                        proof {
                            lemma_combos_valid(k1, t1, it.cursor());
                        }
                        let mut my_igrande = igrande;
                        my_igrande.push(self.k - 1);
                        let q = self.delta_grande_faster(my_igrande.as_slice());
                        out.push(q);
                    },
                    None => {
                        break ;
                    },
                }
            }
        }
        proof {
            assert(out@.map_values(|q: u128| q as nat) =~= incremental_defects(
                cols,
                self.ngrande as nat,
                self.k as nat,
                self.target_t as nat,
            ));
        }
        out
    }

    /// What the column `last` would add to the Walsh defect of this array
    /// as a new last column, found by descent. `None` where the total
    /// exceeds 64 bits.
    pub fn walsh_incremental_faster(&self, exp: u32, last: &[bool]) -> (r: Option<u64>)
        requires
            self.well_formed(),
            self.target_t >= 1,
            last.len() == self.ngrande,
        ensures
            r == fits(
                walsh_increment(
                    self.columns(),
                    self.k as nat,
                    self.target_t as nat,
                    last@,
                    exp as nat,
                ),
            ),
    {
        let cols = self.iter_cols();
        let tmp0 = slice_to_vec(last);
        let head = column_term(&tmp0, exp);
        proof {
            assert(views(cols@) =~= self.columns());
            lemma_walsh_methods_agree(
                self.columns(),
                self.k as nat,
                one_less(self.target_t as nat),
                last@,
                exp as nat,
            );
        }
        let rest = combinations_descent(&cols, self.target_t as usize - 1, 0, &tmp0, exp);
        sum_fitting(
            head,
            rest,
            Ghost(walsh_term(last@, exp as nat)),
            Ghost(
                descent(
                    self.columns(),
                    self.k as nat,
                    one_less(self.target_t as nat),
                    0,
                    last@,
                    exp as nat,
                ),
            ),
        )
    }

    /// What the column `last` would add to the Walsh defect of this array
    /// as a new last column, found weight by weight. `None` where the
    /// total exceeds 64 bits.
    pub fn walsh_incremental(&self, exp: u32, last: &[bool]) -> (r: Option<u64>)
        requires
            self.well_formed(),
            self.target_t <= self.k + 1,
            last.len() == self.ngrande,
        ensures
            r == fits(
                walsh_increment(
                    self.columns(),
                    self.k as nat,
                    self.target_t as nat,
                    last@,
                    exp as nat,
                ),
            ),
    {
        let start = slice_to_vec(last);
        let head = column_term(&start, exp);
        let upto = if self.target_t >= 1 {
            self.target_t - 1
        } else {
            0
        };
        let rest = self.walsh_layers(upto, &start, exp);
        sum_fitting(
            head,
            rest,
            Ghost(walsh_term(last@, exp as nat)),
            Ghost(
                crate::walsh::walsh_sum(
                    self.columns(),
                    self.k as nat,
                    one_less(self.target_t as nat),
                    last@,
                    exp as nat,
                ),
            ),
        )
    }
}

/// The sum of two totals, each given where it fits.
fn sum_fitting(a: Option<u64>, b: Option<u64>, Ghost(x): Ghost<nat>, Ghost(y): Ghost<nat>) -> (r:
    Option<u64>)
    requires
        a == fits(x),
        b == fits(y),
    ensures
        r == fits(x + y),
{
    match (a, b) {
        (Some(u), Some(v)) => u.checked_add(v),
        _ => None,
    }
}

/// A vector with the bits of `s`.
pub fn slice_to_vec(s: &[bool]) -> (r: Vec<bool>)
    ensures
        r@ == s@,
{
    let mut out: Vec<bool> = Vec::with_capacity(s.len());
    let mut i: usize = 0;
    while i < s.len()
        invariant
            i <= s.len(),
            out@ == s@.take(i as int),
        decreases s.len() - i,
    {
        out.push(s[i]);
        proof {
            assert(s@.take(i as int).push(s@[i as int]) =~= s@.take(i + 1));
        }
        i = i + 1;
    }
    proof {
        assert(s@.take(i as int) =~= s@);
    }
    out
}

} // verus!
