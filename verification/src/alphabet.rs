//! Arrays over an alphabet of any size: the symbols are known by their
//! index, a number from zero up to the size of the alphabet.

use vstd::prelude::*;
use rand::rngs::ThreadRng;
use crate::genetic_operators::{random_order, Probability};
use crate::oarray::{cell_index, lemma_cell_index, lemma_cell_index_distinct};
use crate::random::{local_rng, random_below, shuffle};
use crate::t_combinations::{lemma_combos_valid, yielded, Combinations};
use crate::walsh::power;

verus! {

/// What a type of symbols can do: each symbol has an index, and the
/// symbol of a given index can be had where the type has one.
pub trait Alphabet: Sized + Copy {
    /// The index of the symbol.
    spec fn index_spec(&self) -> nat;

    /// The symbol of index `i`, where the type has one.
    spec fn symbol_spec(i: nat) -> Option<Self>;

    /// A symbol of the type exists for every index below this bound.
    spec fn cardinality() -> nat;

    fn to_index(&self) -> (r: usize)
        ensures
            r == self.index_spec(),
    ;

    fn from_index(i: usize) -> (r: Option<Self>)
        ensures
            r == Self::symbol_spec(i as nat),
            i < Self::cardinality() ==> r.is_some(),
            r matches Some(x) ==> x.index_spec() == i,
    ;
}

impl Alphabet for u8 {
    open spec fn index_spec(&self) -> nat {
        *self as nat
    }

    open spec fn symbol_spec(i: nat) -> Option<Self> {
        if i <= u8::MAX {
            Some(i as u8)
        } else {
            None
        }
    }

    open spec fn cardinality() -> nat {
        256
    }

    fn to_index(&self) -> (r: usize) {
        *self as usize
    }

    fn from_index(i: usize) -> (r: Option<Self>) {
        if i <= 255 {
            Some(i as u8)
        } else {
            None
        }
    }
}

impl Alphabet for usize {
    open spec fn index_spec(&self) -> nat {
        *self as nat
    }

    open spec fn symbol_spec(i: nat) -> Option<Self> {
        if i <= usize::MAX {
            Some(i as usize)
        } else {
            None
        }
    }

    open spec fn cardinality() -> nat {
        usize::MAX as nat + 1
    }

    fn to_index(&self) -> (r: usize) {
        *self
    }

    fn from_index(i: usize) -> (r: Option<Self>) {
        Some(i)
    }
}

/// An array of `ngrande` rows and `k` columns over the alphabet of the
/// symbols with index below that of `s`, stored column after column,
/// which a search tries to bring to strength `target_t`.
#[derive(Clone, Debug)]
pub struct OArray<T: Alphabet> {
    pub ngrande: usize,
    pub k: usize,
    pub s: T,
    pub target_t: usize,
    pub d: Vec<T>,
}

/// The indices of the symbols of `col`.
pub open spec fn indices<T: Alphabet>(col: Seq<T>) -> Seq<nat> {
    Seq::new(col.len(), |i: int| col[i].index_spec())
}

/// How often the index `v` occurs among the first `m` entries of `col`.
pub open spec fn occ(col: Seq<nat>, v: nat, m: nat) -> nat
    decreases m,
{
    if m == 0 {
        0
    } else {
        occ(col, v, (m - 1) as nat) + if col[m - 1] == v { 1nat } else { 0nat }
    }
}

/// Every symbol of the alphabet of size `s` occurs equally often in
/// `col`.
pub open spec fn balanced_over(col: Seq<nat>, s: nat) -> bool {
    forall|v: nat| v < s ==> s * #[trigger] occ(col, v, col.len()) == col.len()
}

/// The value of the digits `digits` in base `base`, first digit most
/// significant.
pub open spec fn value_in_base(digits: Seq<nat>, base: nat) -> nat
    decreases digits.len(),
{
    if digits.len() == 0 {
        0
    } else {
        value_in_base(digits.drop_last(), base) * base + digits.last()
    }
}

/// Writing an index into a column changes the count of the old index and
/// that of the new one, and no other.
pub proof fn lemma_occ_update(col: Seq<nat>, at: int, x: nat, v: nat, m: nat)
    requires
        0 <= at < col.len(),
        m <= col.len(),
    ensures
        occ(col.update(at, x), v, m) + (if at < m && col[at] == v { 1int } else { 0int }) == occ(
            col,
            v,
            m,
        ) + (if at < m && x == v { 1int } else { 0int }),
    decreases m,
{
    if m > 0 {
        lemma_occ_update(col, at, x, v, (m - 1) as nat);
    }
}

/// Two columns with the same indices in another order count alike.
pub proof fn lemma_occ_permuted(a: Seq<nat>, b: Seq<nat>, v: nat)
    requires
        a.to_multiset() == b.to_multiset(),
    ensures
        occ(a, v, a.len()) == occ(b, v, b.len()),
        a.len() == b.len(),
{
    lemma_occ_count(a, v);
    lemma_occ_count(b, v);
    a.to_multiset_ensures();
    b.to_multiset_ensures();
}

/// The count of an index is the number of times it occurs.
pub proof fn lemma_occ_count(s: Seq<nat>, v: nat)
    ensures
        occ(s, v, s.len()) == s.to_multiset().count(v),
    decreases s.len(),
{
    broadcast use vstd::seq_lib::group_to_multiset_ensures;

    if s.len() == 0 {
        assert(s.to_multiset().count(v) <= s.to_multiset().len()) by {
            if s.to_multiset().count(v) > 0 {
                assert(s.contains(v));
            }
        }
    } else {
        lemma_occ_count(s.drop_last(), v);
        assert(s.drop_last().push(s.last()) =~= s);
        lemma_occ_prefix(s, s.drop_last(), v, (s.len() - 1) as nat);
    }
}

/// A count reads only the entries it counts over.
pub proof fn lemma_occ_prefix(a: Seq<nat>, b: Seq<nat>, v: nat, m: nat)
    requires
        m <= a.len(),
        m <= b.len(),
        forall|i: int| 0 <= i < m ==> a[i] == b[i],
    ensures
        occ(a, v, m) == occ(b, v, m),
    decreases m,
{
    if m > 0 {
        lemma_occ_prefix(a, b, v, (m - 1) as nat);
    }
}

impl<T: Alphabet> OArray<T> {
    /// The data has one cell for each row and column.
    pub open spec fn well_formed(&self) -> bool {
        self.d.len() == self.ngrande * self.k
    }

    /// The size of the alphabet.
    pub open spec fn size(&self) -> nat {
        self.s.index_spec()
    }

    /// The index of the symbol in row `row` of column `col`.
    pub open spec fn cell(&self, row: int, col: int) -> nat {
        self.d@[cell_index(self.ngrande as int, row, col)].index_spec()
    }

    /// Column `col` as indices, top to bottom.
    pub open spec fn column(&self, col: int) -> Seq<nat> {
        Seq::new(self.ngrande as nat, |i: int| self.cell(i, col))
    }

    /// Row `row` as indices, left to right.
    pub open spec fn row(&self, row: int) -> Seq<nat> {
        Seq::new(self.k as nat, |j: int| self.cell(row, j))
    }

    /// The indices that row `row` has in the columns `sel`.
    pub open spec fn digits(&self, sel: Seq<usize>, row: int) -> Seq<nat> {
        Seq::new(sel.len(), |x: int| self.cell(row, sel[x] as int))
    }

    /// The pattern of row `row` in the columns `sel`: its indices there,
    /// read as a number in the base of the alphabet size.
    pub open spec fn pattern(&self, sel: Seq<usize>, row: int) -> nat {
        value_in_base(self.digits(sel, row), self.size())
    }

    /// How many of the first `m` rows show the pattern `needle` in the
    /// columns `sel`.
    pub open spec fn occurrences(&self, sel: Seq<usize>, needle: nat, m: nat) -> nat
        decreases m,
    {
        if m == 0 {
            0
        } else {
            self.occurrences(sel, needle, (m - 1) as nat) + if self.pattern(sel, m - 1)
                == needle {
                1nat
            } else {
                0nat
            }
        }
    }

    /// The squared deviations from `lambda` of the counts of the patterns
    /// below `m`, summed.
    pub open spec fn squared_deviations(&self, sel: Seq<usize>, lambda: nat, m: nat) -> nat
        decreases m,
    {
        if m == 0 {
            0
        } else {
            let dev = crate::fitness::abs_diff(
                lambda as int,
                self.occurrences(sel, (m - 1) as nat, self.ngrande as nat) as int,
            );
            self.squared_deviations(sel, lambda, (m - 1) as nat) + dev * dev
        }
    }

    /// The squared defect of the columns `sel`: over all patterns that
    /// these columns can show, the squared distance between the number
    /// of rows with the pattern and the ideal count, summed.
    pub open spec fn subset_defect(&self, sel: Seq<usize>) -> nat {
        let patterns = power(self.size(), sel.len());
        self.squared_deviations(sel, self.ngrande as nat / patterns, patterns)
    }

    /// The columns named by `igrande` exist.
    pub open spec fn selects(&self, igrande: Seq<usize>) -> bool {
        forall|x: int| 0 <= x < igrande.len() ==> (#[trigger] igrande[x]) < self.k
    }

    /// The patterns of all rows in the columns `igrande` fit a machine
    /// word, whatever part of them has been read.
    pub open spec fn patterns_fit(&self, igrande: Seq<usize>) -> bool {
        forall|row: int, x: int|
            0 <= row < self.ngrande && 0 <= x <= igrande.len() ==> #[trigger] value_in_base(
                self.digits(igrande, row).take(x),
                self.size(),
            ) <= usize::MAX
    }

    /// An array of the given shape over the alphabet of the symbols below
    /// `s`, holding the data `d`.
    pub fn new(ngrande: usize, k: usize, s: T, target_t: usize, d: Vec<T>) -> (r: Self)
        ensures
            r.ngrande == ngrande,
            r.k == k,
            r.s == s,
            r.target_t == target_t,
            r.d == d,
    {
        OArray { ngrande, k, s, target_t, d }
    }

    /// The size of the alphabet.
    pub fn s_usize(&self) -> (r: usize)
        ensures
            r == self.size(),
    {
        self.s.to_index()
    }

    /// The index of the symbol in row `row` of column `col`.
    pub fn get(&self, row: usize, col: usize) -> (r: usize)
        requires
            self.well_formed(),
            row < self.ngrande,
            col < self.k,
        ensures
            r == self.cell(row as int, col as int),
    {
        proof {
            lemma_cell_index(self.ngrande as int, self.k as int, row as int, col as int);
        }
        self.d[col * self.ngrande + row].to_index()
    }

    /// The columns, first to last, as copies.
    pub fn iter_cols(&self) -> (r: Vec<Vec<T>>)
        requires
            self.well_formed(),
        ensures
            r@.len() == self.k,
            forall|j: int| 0 <= j < self.k ==> indices((#[trigger] r@[j])@) == self.column(j),
    {
        let mut out: Vec<Vec<T>> = Vec::new();
        let mut j: usize = 0;
        while j < self.k
            invariant
                j <= self.k,
                self.well_formed(),
                out@.len() == j,
                forall|c: int| 0 <= c < j ==> indices((#[trigger] out@[c])@) == self.column(c),
            decreases self.k - j,
        {
            let mut col: Vec<T> = Vec::new();
            let mut i: usize = 0;
            while i < self.ngrande
                invariant
                    i <= self.ngrande,
                    j < self.k,
                    self.well_formed(),
                    col@.len() == i,
                    forall|r: int| 0 <= r < i ==> col@[r].index_spec() == self.cell(r, j as int),
                decreases self.ngrande - i,
            {
                proof {
                    lemma_cell_index(self.ngrande as int, self.k as int, i as int, j as int);
                }
                col.push(self.d[j * self.ngrande + i]);
                i = i + 1;
            }
            proof {
                assert(indices(col@) =~= self.column(j as int));
            }
            out.push(col);
            j = j + 1;
        }
        out
    }

    /// The rows, top to bottom, as copies.
    pub fn iter_rows(&self) -> (r: Vec<Vec<T>>)
        requires
            self.well_formed(),
        ensures
            r@.len() == self.ngrande,
            forall|i: int| 0 <= i < self.ngrande ==> indices((#[trigger] r@[i])@) == self.row(i),
    {
        let mut out: Vec<Vec<T>> = Vec::new();
        let mut i: usize = 0;
        while i < self.ngrande
            invariant
                i <= self.ngrande,
                self.well_formed(),
                out@.len() == i,
                forall|r: int| 0 <= r < i ==> indices((#[trigger] out@[r])@) == self.row(r),
            decreases self.ngrande - i,
        {
            let mut row: Vec<T> = Vec::new();
            let mut j: usize = 0;
            while j < self.k
                invariant
                    j <= self.k,
                    i < self.ngrande,
                    self.well_formed(),
                    row@.len() == j,
                    forall|c: int| 0 <= c < j ==> row@[c].index_spec() == self.cell(i as int, c),
                decreases self.k - j,
            {
                proof {
                    lemma_cell_index(self.ngrande as int, self.k as int, i as int, j as int);
                }
                row.push(self.d[j * self.ngrande + i]);
                j = j + 1;
            }
            proof {
                assert(indices(row@) =~= self.row(i as int));
            }
            out.push(row);
            i = i + 1;
        }
        out
    }

    /// The pattern of row `row` in the columns `igrande`.
    pub fn row_pattern(&self, igrande: &[usize], row: usize) -> (r: usize)
        requires
            self.well_formed(),
            self.selects(igrande@),
            self.patterns_fit(igrande@),
            row < self.ngrande,
        ensures
            r == self.pattern(igrande@, row as int),
    {
        let ghost digits = self.digits(igrande@, row as int);
        let base = self.s_usize();
        let mut acc: usize = 0;
        let mut x: usize = 0;
        while x < igrande.len()
            invariant
                x <= igrande.len(),
                self.well_formed(),
                self.selects(igrande@),
                self.patterns_fit(igrande@),
                row < self.ngrande,
                base == self.size(),
                digits == self.digits(igrande@, row as int),
                acc == value_in_base(digits.take(x as int), base as nat),
            decreases igrande.len() - x,
        {
            proof {
                assert(digits.take(x + 1).drop_last() =~= digits.take(x as int));
                assert(value_in_base(digits.take(x + 1), self.size()) <= usize::MAX);
                assert(acc * base >= 0) by (nonlinear_arith)
                    requires
                        acc >= 0,
                        base >= 0,
                ;
            }
            let digit = self.get(row, igrande[x]);
            acc = acc * base + digit;
            x = x + 1;
        }
        proof {
            assert(digits.take(x as int) =~= digits);
        }
        acc
    }

    /// Counts the rows that show `needle` in the columns `igrande`, and
    /// gives the distance of that count from `lambda`.
    pub fn delta(&self, igrande: &[usize], needle: usize, lambda: usize) -> (r: usize)
        requires
            self.well_formed(),
            self.selects(igrande@),
            self.patterns_fit(igrande@),
        ensures
            r == crate::fitness::abs_diff(
                lambda as int,
                self.occurrences(igrande@, needle as nat, self.ngrande as nat) as int,
            ),
    {
        let mut out: usize = 0;
        let mut i: usize = 0;
        while i < self.ngrande
            invariant
                i <= self.ngrande,
                self.well_formed(),
                self.selects(igrande@),
                self.patterns_fit(igrande@),
                out == self.occurrences(igrande@, needle as nat, i as nat),
                out <= i,
            decreases self.ngrande - i,
        {
            let cur_row = self.row_pattern(igrande, i);
            if cur_row == needle {
                out = out + 1;
            }
            i = i + 1;
        }
        if lambda >= out {
            lambda - out
        } else {
            out - lambda
        }
    }
}

/// The entries of `cnt` below `m`, summed.
pub open spec fn total(cnt: Seq<usize>, m: nat) -> nat
    decreases m,
{
    if m == 0 {
        0
    } else {
        total(cnt, (m - 1) as nat) + cnt[m - 1] as nat
    }
}

/// How many of the entries of `cnt` below `m` are positive.
pub open spec fn positives(cnt: Seq<usize>, m: nat) -> nat
    decreases m,
{
    if m == 0 {
        0
    } else {
        positives(cnt, (m - 1) as nat) + if cnt[m - 1] > 0 { 1nat } else { 0nat }
    }
}

/// Lowering one entry by one lowers the sum by one.
pub proof fn lemma_total_lowered(cnt: Seq<usize>, at: int, m: nat)
    requires
        0 <= at < cnt.len(),
        m <= cnt.len(),
        cnt[at] > 0,
    ensures
        total(cnt.update(at, (cnt[at] - 1) as usize), m) + (if at < m { 1int } else { 0int })
            == total(cnt, m),
    decreases m,
{
    if m > 0 {
        lemma_total_lowered(cnt, at, (m - 1) as nat);
    }
}

/// A positive sum has a positive entry, and a sum of zero has none.
pub proof fn lemma_total_positive(cnt: Seq<usize>, m: nat)
    requires
        m <= cnt.len(),
    ensures
        total(cnt, m) > 0 <==> positives(cnt, m) > 0,
        total(cnt, m) == 0 ==> forall|v: int| 0 <= v < m ==> #[trigger] cnt[v] == 0,
    decreases m,
{
    if m > 0 {
        lemma_total_positive(cnt, (m - 1) as nat);
    }
}

/// A sum of equal entries.
pub proof fn lemma_total_equal(cnt: Seq<usize>, value: usize, m: nat)
    requires
        m <= cnt.len(),
        forall|v: int| 0 <= v < cnt.len() ==> #[trigger] cnt[v] == value,
    ensures
        total(cnt, m) == m * value,
    decreases m,
{
    if m > 0 {
        lemma_total_equal(cnt, value, (m - 1) as nat);
        assert(cnt[m - 1] == value);
        assert((m - 1) * value + value == m * value) by (nonlinear_arith);
    } else {
        assert(m * value == 0) by (nonlinear_arith)
            requires
                m == 0,
        ;
    }
}

/// The place of the positive entry of `cnt` that has `rank` positive
/// entries before it.
pub fn nth_positive(cnt: &Vec<usize>, rank: usize) -> (r: usize)
    requires
        rank < positives(cnt@, cnt@.len()),
    ensures
        r < cnt.len(),
        cnt@[r as int] > 0,
        positives(cnt@, r as nat) == rank,
{
    let mut seen: usize = 0;
    let mut i: usize = 0;
    while i < cnt.len()
        invariant
            i <= cnt.len(),
            seen == positives(cnt@, i as nat),
            seen <= rank,
            seen <= i,
            rank < positives(cnt@, cnt@.len()),
        decreases cnt.len() - i,
    {
        if cnt[i] > 0 {
            if seen == rank {
                return i;
            }
            seen = seen + 1;
        }
        i = i + 1;
    }
    vstd::pervasive::unreached()
}

/// How many entries of `cnt` are positive.
pub fn count_positive(cnt: &Vec<usize>) -> (r: usize)
    ensures
        r == positives(cnt@, cnt@.len()),
{
    let mut out: usize = 0;
    let mut i: usize = 0;
    while i < cnt.len()
        invariant
            i <= cnt.len(),
            out == positives(cnt@, i as nat),
            out <= i,
        decreases cnt.len() - i,
    {
        if cnt[i] > 0 {
            out = out + 1;
        }
        i = i + 1;
    }
    out
}

/// Every symbol of `col` has an index below `s`.
pub open spec fn within<T: Alphabet>(col: Seq<T>, s: nat) -> bool {
    forall|i: int| 0 <= i < col.len() ==> (#[trigger] col[i]).index_spec() < s
}

/// The index of the symbol that the crossover gives to one row. `cnt`
/// tells how often each symbol may still be given out; `a` and `b` are
/// the indices of the parents' symbols in that row. Where both may still
/// be given out, it is that of the first parent if `first` holds and
/// that of the second if not; where only one may, that one; and where
/// neither may, the symbol `pick`.
pub open spec fn symbol_choice(cnt: Seq<usize>, a: nat, b: nat, first: bool, pick: nat) -> nat {
    if cnt[a as int] > 0 && cnt[b as int] > 0 {
        if first {
            a
        } else {
            b
        }
    } else if cnt[a as int] == 0 && cnt[b as int] > 0 {
        b
    } else if cnt[a as int] > 0 && cnt[b as int] == 0 {
        a
    } else {
        pick
    }
}

/// What `m` steps of the crossover of `a` and `b` over the alphabet of
/// size `s` give, where the rows are visited in the order `pos` and the
/// draws at step `x` are `firsts[x]` and `picks[x]`: the indices given so
/// far, with `s` in the rows not yet visited, and how often each symbol
/// may still be given out.
pub open spec fn symbol_run(
    a: Seq<nat>,
    b: Seq<nat>,
    s: nat,
    pos: Seq<usize>,
    firsts: Seq<bool>,
    picks: Seq<nat>,
    m: nat,
) -> (Seq<nat>, Seq<usize>)
    decreases m,
{
    if m == 0 {
        (Seq::new(a.len(), |i: int| s), Seq::new(s, |v: int| (a.len() / s) as usize))
    } else {
        let before = symbol_run(a, b, s, pos, firsts, picks, (m - 1) as nat);
        let j = pos[m - 1] as int;
        let c = symbol_choice(before.1, a[j], b[j], firsts[m - 1], picks[m - 1]);
        (before.0.update(j, c), before.1.update(c as int, (before.1[c as int] - 1) as usize))
    }
}

/// The pick at step `m` is a symbol that may still be given out, where
/// neither parent's symbol may.
pub open spec fn pick_allowed(
    a: Seq<nat>,
    b: Seq<nat>,
    s: nat,
    pos: Seq<usize>,
    firsts: Seq<bool>,
    picks: Seq<nat>,
    m: int,
) -> bool {
    let before = symbol_run(a, b, s, pos, firsts, picks, m as nat);
    let j = pos[m] as int;
    before.1[a[j] as int] == 0 && before.1[b[j] as int] == 0 ==> picks[m] < s
        && before.1[picks[m] as int] > 0
}

/// `out` holds the indices of a crossover of `a` and `b` over the
/// alphabet of size `s`, for some order of the rows and some draws.
pub open spec fn symbol_crossover_of(a: Seq<nat>, b: Seq<nat>, s: nat, out: Seq<nat>) -> bool {
    exists|pos: Seq<usize>, firsts: Seq<bool>, picks: Seq<nat>|
        crate::genetic_operators::is_order(pos, a.len()) && firsts.len() == a.len() && picks.len()
            == a.len() && (forall|m: int|
            0 <= m < a.len() ==> #[trigger] pick_allowed(a, b, s, pos, firsts, picks, m)) && out == (
        #[trigger] symbol_run(a, b, s, pos, firsts, picks, a.len())).0
}

/// A run reads only the draws of its steps.
pub proof fn lemma_symbol_run_prefix(
    a: Seq<nat>,
    b: Seq<nat>,
    s: nat,
    pos: Seq<usize>,
    firsts: Seq<bool>,
    picks: Seq<nat>,
    more_firsts: Seq<bool>,
    more_picks: Seq<nat>,
    m: nat,
)
    requires
        m <= firsts.len(),
        m <= picks.len(),
        m <= more_firsts.len(),
        m <= more_picks.len(),
        forall|i: int| 0 <= i < m ==> firsts[i] == more_firsts[i],
        forall|i: int| 0 <= i < m ==> picks[i] == more_picks[i],
    ensures
        symbol_run(a, b, s, pos, firsts, picks, m) == symbol_run(
            a,
            b,
            s,
            pos,
            more_firsts,
            more_picks,
            m,
        ),
    decreases m,
{
    if m > 0 {
        lemma_symbol_run_prefix(
            a,
            b,
            s,
            pos,
            firsts,
            picks,
            more_firsts,
            more_picks,
            (m - 1) as nat,
        );
    }
}

/// Joins two columns over the alphabet of size `s` into a balanced one.
/// The rows are visited in random order, and each symbol may be given
/// out as often as it occurs in a balanced column. A row gets the symbol
/// of one of its parents, drawn at random, where both may still be given
/// out; the one that may, where only one may; and where neither may, a
/// symbol drawn among those that still may. The size of the alphabet
/// divides the length of the columns.
pub fn balanced_crossover<T: Alphabet>(a: &[T], b: &[T], s: T, r: &mut ThreadRng) -> (out: Vec<T>)
    requires
        a.len() == b.len(),
        s.index_spec() >= 1,
        s.index_spec() <= T::cardinality(),
        a.len() as nat % s.index_spec() == 0,
        within(a@, s.index_spec()),
        within(b@, s.index_spec()),
    ensures
        out@.len() == a@.len(),
        within(out@, s.index_spec()),
        balanced_over(indices(out@), s.index_spec()),
        symbol_crossover_of(indices(a@), indices(b@), s.index_spec(), indices(out@)),
{
    let ngrande = a.len();
    let ghost a_idx = indices(a@);
    let ghost b_idx = indices(b@);
    let s_size = s.to_index();
    let balance = ngrande / s_size;
    let mut cnt: Vec<usize> = vec![balance; s_size];
    let pos = random_order(ngrande, r);
    if ngrande == 0 {
        let out: Vec<T> = Vec::new();
        proof {
            assert forall|v: nat| v < s_size implies s_size * #[trigger] occ(
                indices(out@),
                v,
                indices(out@).len(),
            ) == indices(out@).len() by {
                assert(indices(out@).len() == 0);
                assert(occ(indices(out@), v, 0) == 0);
                assert(s_size * 0 == 0);
            }
            let none = Seq::<usize>::empty();
            assert(crate::genetic_operators::is_order(none, 0));
            assert(indices(out@) =~= symbol_run(
                a_idx,
                b_idx,
                s_size as nat,
                none,
                Seq::<bool>::empty(),
                Seq::<nat>::empty(),
                0,
            ).0);
        }
        return out;
    }
    let mut out: Vec<T> = vec![a[0]; ngrande];
    let ghost mut idx: Seq<nat> = Seq::new(ngrande as nat, |p: int| s_size as nat);
    let ghost mut firsts: Seq<bool> = Seq::empty();
    let ghost mut picks: Seq<nat> = Seq::empty();
    proof {
        assert(cnt@ =~= Seq::new(s_size as nat, |v: int| (a_idx.len() / s_size as nat) as usize));
        assert(idx =~= Seq::new(a_idx.len(), |i: int| s_size as nat));
        lemma_total_equal(cnt@, balance, s_size as nat);
        assert(balance * s_size == ngrande) by (nonlinear_arith)
            requires
                balance == ngrande / s_size,
                ngrande % s_size == 0,
                s_size >= 1,
        ;
        assert(s_size * balance == balance * s_size) by (nonlinear_arith);
        assert forall|v: nat| v < s_size implies #[trigger] occ(idx, v, ngrande as nat) == 0 by {
            lemma_occ_absent(idx, v, ngrande as nat);
        }
    }
    let mut step: usize = 0;
    while step < ngrande
        invariant
            step <= ngrande,
            ngrande == a.len(),
            ngrande == b.len(),
            s_size == s.index_spec(),
            s_size >= 1,
            s_size <= T::cardinality(),
            s_size * balance == ngrande,
            within(a@, s_size as nat),
            within(b@, s_size as nat),
            pos@.len() == ngrande,
            pos@.no_duplicates(),
            forall|x: int| 0 <= x < ngrande ==> (#[trigger] pos@[x]) < ngrande,
            out@.len() == ngrande,
            idx.len() == ngrande,
            cnt@.len() == s_size,
            total(cnt@, s_size as nat) == ngrande - step,
            forall|v: int|
                0 <= v < s_size ==> occ(idx, v as nat, ngrande as nat) + #[trigger] cnt@[v]
                    == balance,
            forall|x: int|
                0 <= x < step ==> idx[(#[trigger] pos@[x]) as int] == out@[pos@[x] as int].index_spec()
                    && idx[pos@[x] as int] < s_size,
            forall|x: int| step <= x < ngrande ==> idx[(#[trigger] pos@[x]) as int] == s_size,
            a_idx == indices(a@),
            b_idx == indices(b@),
            firsts.len() == step,
            picks.len() == step,
            symbol_run(a_idx, b_idx, s_size as nat, pos@, firsts, picks, step as nat) == (idx, cnt@),
            forall|m: int|
                0 <= m < step ==> #[trigger] pick_allowed(
                    a_idx,
                    b_idx,
                    s_size as nat,
                    pos@,
                    firsts,
                    picks,
                    m,
                ),
        decreases ngrande - step,
    {
        let j = pos[step];
        let a_usize = a[j].to_index();
        let b_usize = b[j].to_index();
        let choice: T;
        let ghost mut first_drawn = true;
        let ghost mut picked: nat = 0;
        if cnt[a_usize] > 0 && cnt[b_usize] > 0 {
            let first = random_below(r, 2) == 0;
            choice = if first {
                a[j]
            } else {
                b[j]
            };
            proof {
                first_drawn = first;
            }
        } else if cnt[a_usize] == 0 && cnt[b_usize] > 0 {
            choice = b[j];
        } else if cnt[a_usize] > 0 && cnt[b_usize] == 0 {
            choice = a[j];
        } else {
            proof {
                lemma_total_positive(cnt@, s_size as nat);
            }
            let open = count_positive(&cnt);
            let rank = random_below(r, open);
            let v = nth_positive(&cnt, rank);
            choice = T::from_index(v).unwrap();
            proof {
                picked = v as nat;
            }
        }
        let choice_u = choice.to_index();
        let ghost old_firsts = firsts;
        let ghost old_picks = picks;
        let ghost prev_idx = idx;
        let ghost prev_cnt = cnt@;
        let ghost prev_out = out@;
        out[j] = choice;
        let left = cnt[choice_u];
        cnt[choice_u] = left - 1;
        proof {
            firsts = firsts.push(first_drawn);
            picks = picks.push(picked);
            assert(a_idx[j as int] == a_usize && b_idx[j as int] == b_usize);
            assert forall|m: nat| m <= step implies #[trigger] symbol_run(
                a_idx,
                b_idx,
                s_size as nat,
                pos@,
                firsts,
                picks,
                m,
            ) == symbol_run(a_idx, b_idx, s_size as nat, pos@, old_firsts, old_picks, m) by {
                lemma_symbol_run_prefix(
                    a_idx,
                    b_idx,
                    s_size as nat,
                    pos@,
                    old_firsts,
                    old_picks,
                    firsts,
                    picks,
                    m,
                );
            }
            assert forall|m: int| 0 <= m < step + 1 implies #[trigger] pick_allowed(
                a_idx,
                b_idx,
                s_size as nat,
                pos@,
                firsts,
                picks,
                m,
            ) by {
                assert(symbol_run(a_idx, b_idx, s_size as nat, pos@, firsts, picks, m as nat)
                    == symbol_run(
                    a_idx,
                    b_idx,
                    s_size as nat,
                    pos@,
                    old_firsts,
                    old_picks,
                    m as nat,
                ));
                if m < step {
                    assert(pick_allowed(a_idx, b_idx, s_size as nat, pos@, old_firsts, old_picks, m));
                    assert(picks[m] == old_picks[m]);
                }
            }
            assert(symbol_run(a_idx, b_idx, s_size as nat, pos@, firsts, picks, step as nat) == (
                prev_idx,
                prev_cnt,
            ));
            assert(choice_u == symbol_choice(
                prev_cnt,
                a_usize as nat,
                b_usize as nat,
                first_drawn,
                picked,
            ));
            idx = idx.update(j as int, choice_u as nat);
            lemma_total_lowered(prev_cnt, choice_u as int, s_size as nat);
            assert(prev_idx[pos@[step as int] as int] == s_size);
            assert forall|v: int| 0 <= v < s_size implies occ(idx, v as nat, ngrande as nat)
                + #[trigger] cnt@[v] == balance by {
                lemma_occ_update(prev_idx, j as int, choice_u as nat, v as nat, ngrande as nat);
                assert(occ(prev_idx, v as nat, ngrande as nat) + prev_cnt[v] == balance);
            }
            assert forall|x: int| 0 <= x < step + 1 implies idx[(#[trigger] pos@[x]) as int]
                == out@[pos@[x] as int].index_spec() && idx[pos@[x] as int] < s_size by {
                if x < step {
                    assert(pos@[x] != pos@[step as int]);
                    assert(prev_idx[pos@[x] as int] == prev_out[pos@[x] as int].index_spec());
                }
            }
            assert forall|x: int| step + 1 <= x < ngrande implies idx[(#[trigger] pos@[x]) as int]
                == s_size by {
                assert(pos@[x] != pos@[step as int]);
                assert(prev_idx[pos@[x] as int] == s_size);
            }
        }
        step = step + 1;
    }
    proof {
        lemma_total_positive(cnt@, s_size as nat);
        assert forall|p: int| 0 <= p < ngrande implies idx[p] == (#[trigger] out@[p]).index_spec()
            && idx[p] < s_size by {
            assert(pos@.contains(p as usize));
            let x = choose|x: int| 0 <= x < pos@.len() && pos@[x] == p as usize;
            assert(idx[pos@[x] as int] == out@[pos@[x] as int].index_spec());
        }
        assert(idx =~= indices(out@));
        assert(crate::genetic_operators::is_order(pos@, a_idx.len()));
        assert(indices(out@) == symbol_run(
            a_idx,
            b_idx,
            s_size as nat,
            pos@,
            firsts,
            picks,
            a_idx.len(),
        ).0);
        assert forall|v: nat| v < s_size implies s_size * #[trigger] occ(
            indices(out@),
            v,
            indices(out@).len(),
        ) == indices(out@).len() by {
            assert(occ(idx, v, ngrande as nat) + cnt@[v as int] == balance);
        }
    }
    out
}

/// An index that does not occur is counted zero times.
pub proof fn lemma_occ_absent(col: Seq<nat>, v: nat, m: nat)
    requires
        m <= col.len(),
        forall|i: int| 0 <= i < col.len() ==> col[i] != v,
    ensures
        occ(col, v, m) == 0,
    decreases m,
{
    if m > 0 {
        lemma_occ_absent(col, v, (m - 1) as nat);
    }
}

/// How many of the first `m` symbols of `col` have an index other than
/// `index`.
pub open spec fn others(col: Seq<nat>, index: nat, m: nat) -> nat
    decreases m,
{
    if m == 0 {
        0
    } else {
        others(col, index, (m - 1) as nat) + if col[m - 1] != index { 1nat } else { 0nat }
    }
}

/// `after` is `before` with two symbols of different index exchanged.
pub open spec fn symbols_exchanged<T: Alphabet>(before: Seq<T>, after: Seq<T>) -> bool {
    exists|i: int, j: int|
        0 <= i < before.len() && 0 <= j < before.len() && before[i].index_spec()
            != before[j].index_spec() && after == #[trigger] before.update(i, before[j]).update(
            j,
            before[i],
        )
}

/// `after` is `before`, or `before` with two symbols of different index
/// exchanged.
pub open spec fn one_exchange<T: Alphabet>(before: Seq<T>, after: Seq<T>) -> bool {
    after == before || symbols_exchanged(before, after)
}

/// Not all symbols of `col` are alike: some symbol has another index than
/// the first.
pub open spec fn mixed<T: Alphabet>(col: Seq<T>) -> bool {
    others(indices(col), col[0].index_spec(), col.len()) > 0
}

/// Where an index other than `index` is counted, it stands somewhere.
pub proof fn lemma_others_witness(col: Seq<nat>, index: nat, m: nat) -> (at: int)
    requires
        m <= col.len(),
        others(col, index, m) > 0,
    ensures
        0 <= at < m,
        col[at] != index,
    decreases m,
{
    if col[m - 1] != index {
        m - 1
    } else {
        lemma_others_witness(col, index, (m - 1) as nat)
    }
}

/// An index that stands somewhere is counted among the others of any
/// index it differs from.
pub proof fn lemma_others_at(col: Seq<nat>, index: nat, m: nat, at: int)
    requires
        0 <= at < m,
        m <= col.len(),
        col[at] != index,
    ensures
        others(col, index, m) > 0,
    decreases m,
{
    if at < m - 1 {
        lemma_others_at(col, index, (m - 1) as nat, at);
    }
}

/// In a column whose symbols are not all alike, every symbol has a
/// symbol that differs from it; in any other column, none has.
pub proof fn lemma_mixed_at<T: Alphabet>(col: Seq<T>, at: int)
    requires
        0 <= at < col.len(),
    ensures
        mixed(col) == (others(indices(col), col[at].index_spec(), col.len()) > 0),
{
    let idx = indices(col);
    let n = col.len();
    if mixed(col) {
        let p = lemma_others_witness(idx, idx[0], n);
        if idx[at] == idx[0] {
        } else {
            lemma_others_at(idx, idx[at], n, 0);
        }
    }
    if others(idx, idx[at], n) > 0 {
        let p = lemma_others_witness(idx, idx[at], n);
        if idx[at] == idx[0] {
        } else {
            lemma_others_at(idx, idx[0], n, at);
        }
    }
}

/// An exchange of two symbols leaves the count of every symbol as it
/// was.
pub proof fn lemma_exchange_counts<T: Alphabet>(before: Seq<T>, after: Seq<T>, v: nat)
    requires
        one_exchange(before, after),
    ensures
        occ(indices(after), v, after.len()) == occ(indices(before), v, before.len()),
        after.len() == before.len(),
{
    if after != before {
        assert(symbols_exchanged(before, after));
        let (i, j) = choose|i: int, j: int|
            0 <= i < before.len() && 0 <= j < before.len() && before[i].index_spec()
                != before[j].index_spec() && after == #[trigger] before.update(
                i,
                before[j],
            ).update(j, before[i]);
        let first = indices(before).update(i, before[j].index_spec());
        lemma_occ_update(indices(before), i, before[j].index_spec(), v, before.len());
        lemma_occ_update(first, j, before[i].index_spec(), v, before.len());
        assert(indices(after) =~= first.update(j, before[i].index_spec()));
    }
}

/// Exchanges two symbols of `col` that differ, both drawn at random: the
/// first among all, the second among those that differ from the first. A
/// column whose symbols are all alike stays as it is.
pub fn mutate_column<T: Alphabet>(col: &mut Vec<T>, rng: &mut ThreadRng)
    ensures
        one_exchange(old(col)@, final(col)@),
        mixed(old(col)@) ==> symbols_exchanged(old(col)@, final(col)@),
        !mixed(old(col)@) ==> final(col)@ == old(col)@,
{
    let n = col.len();
    if n == 0 {
        return ;
    }
    let coord1 = random_below(rng, n);
    let first = col[coord1];
    let index = first.to_index();
    proof {
        lemma_mixed_at(col@, coord1 as int);
    }
    let mut differ: usize = 0;
    let mut i: usize = 0;
    while i < n
        invariant
            i <= n,
            n == col.len(),
            differ == others(indices(col@), index as nat, i as nat),
            differ <= i,
        decreases n - i,
    {
        if col[i].to_index() != index {
            differ = differ + 1;
        }
        i = i + 1;
    }
    if differ == 0 {
        return ;
    }
    let rank = random_below(rng, differ);
    let mut seen: usize = 0;
    let mut coord2: usize = 0;
    while coord2 < n
        invariant
            coord2 <= n,
            n == col.len(),
            seen == others(indices(col@), index as nat, coord2 as nat),
            seen <= rank,
            rank < others(indices(col@), index as nat, n as nat),
        ensures
            coord2 < n,
            col@[coord2 as int].index_spec() != index,
        decreases n - coord2,
    {
        if col[coord2].to_index() != index {
            if seen == rank {
                break ;
            }
            seen = seen + 1;
        }
        coord2 = coord2 + 1;
    }
    let ghost before = col@;
    let second = col[coord2];
    col[coord1] = second;
    col[coord2] = first;
    proof {
        assert(col@ == before.update(coord1 as int, before[coord2 as int]).update(
            coord2 as int,
            before[coord1 as int],
        ));
        assert(symbols_exchanged(before, col@));
    }
}

/// `out` can be the column that two parents' columns `a` and `b` breed
/// over the alphabet of size `s`: a crossover of `a` and `b` for some
/// order of the rows and some draws, with at most one exchange of two
/// symbols that differ.
pub open spec fn bred_symbols<T: Alphabet>(a: Seq<T>, b: Seq<T>, s: nat, out: Seq<T>) -> bool {
    exists|mid: Seq<T>|
        #[trigger] symbol_crossover_of(indices(a), indices(b), s, indices(mid)) && one_exchange(
            mid,
            out,
        )
}

/// The columns `cols`, each of `n` symbols, laid end to end.
pub fn flatten<T: Alphabet>(cols: &Vec<Vec<T>>, n: usize) -> (d: Vec<T>)
    requires
        n * cols.len() <= usize::MAX,
        forall|j: int| 0 <= j < cols@.len() ==> (#[trigger] cols@[j])@.len() == n,
    ensures
        d.len() == n * cols.len(),
        forall|r: int, c: int|
            0 <= r < n && 0 <= c < cols@.len() ==> d@[#[trigger] cell_index(n as int, r, c)]
                == cols@[c]@[r],
{
    let mut d: Vec<T> = Vec::new();
    let mut j: usize = 0;
    while j < cols.len()
        invariant
            j <= cols.len(),
            n * cols.len() <= usize::MAX,
            forall|c: int| 0 <= c < cols@.len() ==> (#[trigger] cols@[c])@.len() == n,
            d@.len() == j * n,
            forall|r: int, c: int|
                0 <= r < n && 0 <= c < j ==> d@[#[trigger] cell_index(n as int, r, c)]
                    == cols@[c]@[r],
        decreases cols.len() - j,
    {
        let mut i: usize = 0;
        while i < n
            invariant
                i <= n,
                j < cols.len(),
                n * cols.len() <= usize::MAX,
                forall|c: int| 0 <= c < cols@.len() ==> (#[trigger] cols@[c])@.len() == n,
                d@.len() == j * n + i,
                forall|r: int, c: int|
                    0 <= r < n && 0 <= c < j ==> d@[#[trigger] cell_index(n as int, r, c)]
                        == cols@[c]@[r],
                forall|r: int|
                    0 <= r < i ==> d@[#[trigger] cell_index(n as int, r, j as int)]
                        == cols@[j as int]@[r],
            decreases n - i,
        {
            let ghost prev = d@;
            let column = &cols[j];
            d.push(column[i]);
            proof {
                assert forall|r: int, c: int| 0 <= r < n && 0 <= c < j implies d@[
                #[trigger] cell_index(n as int, r, c)] == cols@[c]@[r] by {
                    lemma_cell_index(n as int, j as int, r, c);
                    assert(n * j == j * n) by (nonlinear_arith);
                    assert(prev[cell_index(n as int, r, c)] == cols@[c]@[r]);
                }
                assert forall|r: int| 0 <= r < i + 1 implies d@[#[trigger] cell_index(
                    n as int,
                    r,
                    j as int,
                )] == cols@[j as int]@[r] by {
                    if r < i {
                        assert(prev[cell_index(n as int, r, j as int)] == cols@[j as int]@[r]);
                    }
                }
            }
            i = i + 1;
        }
        proof {
            assert(j * n + n == (j + 1) * n) by (nonlinear_arith);
        }
        j = j + 1;
    }
    proof {
        assert(cols.len() * n == n * cols.len()) by (nonlinear_arith);
    }
    d
}

impl<T: Alphabet> OArray<T> {
    /// Every column is balanced over the alphabet.
    pub open spec fn all_balanced(&self) -> bool {
        forall|j: int| 0 <= j < self.k ==> balanced_over(#[trigger] self.column(j), self.size())
    }

    /// The symbols of column `col`, top to bottom.
    pub open spec fn symbols(&self, col: int) -> Seq<T> {
        Seq::new(self.ngrande as nat, |i: int| self.d@[cell_index(self.ngrande as int, i, col)])
    }

    /// Every symbol of the data belongs to the alphabet.
    pub open spec fn in_alphabet(&self) -> bool {
        within(self.d@, self.size())
    }

    /// The squared defect of the columns `igrande`: for each pattern in
    /// turn, the rows are scanned and the deviation squared.
    pub fn delta_grande(&self, igrande: &[usize]) -> (r: u128)
        requires
            self.well_formed(),
            self.selects(igrande@),
            self.patterns_fit(igrande@),
            self.ngrande <= crate::oarray::MAX_ROWS,
            1 <= power(self.size(), igrande@.len()) <= usize::MAX,
        ensures
            r == self.subset_defect(igrande@),
    {
        let t_num = igrande.len();
        let base = self.s_usize();
        let mut num_representable_strings: usize = 1;
        let mut e: usize = 0;
        while e < t_num
            invariant
                e <= t_num,
                t_num == igrande@.len(),
                base == self.size(),
                num_representable_strings == power(base as nat, e as nat),
                1 <= power(base as nat, t_num as nat) <= usize::MAX,
            decreases t_num - e,
        {
            proof {
                lemma_power_step(base as nat, (e + 1) as nat, t_num as nat);
                assert(base as nat * power(base as nat, e as nat) == num_representable_strings
                    * base) by (nonlinear_arith)
                    requires
                        num_representable_strings == power(base as nat, e as nat),
                ;
            }
            num_representable_strings = num_representable_strings * base;
            e = e + 1;
        }
        let lambda = self.ngrande / num_representable_strings;
        let mut total: u128 = 0;
        let mut i: usize = 0;
        while i < num_representable_strings
            invariant
                i <= num_representable_strings,
                self.well_formed(),
                self.selects(igrande@),
                self.patterns_fit(igrande@),
                self.ngrande <= crate::oarray::MAX_ROWS,
                lambda <= self.ngrande,
                total == self.squared_deviations(igrande@, lambda as nat, i as nat),
                total <= i * 0x4000_0000_0000_0000,
            decreases num_representable_strings - i,
        {
            let d = self.delta(igrande, i, lambda);
            proof {
                self.lemma_occurrences_bound(igrande@, i as nat, self.ngrande as nat);
                assert(d * d <= 0x4000_0000_0000_0000) by (nonlinear_arith)
                    requires
                        d <= 0x7FFF_FFFF,
                ;
            }
            total = total + (d as u128) * (d as u128);
            i = i + 1;
        }
        total
    }

    /// A pattern occurs among `m` rows at most `m` times.
    pub proof fn lemma_occurrences_bound(&self, sel: Seq<usize>, needle: nat, m: nat)
        ensures
            self.occurrences(sel, needle, m) <= m,
        decreases m,
    {
        if m > 0 {
            self.lemma_occurrences_bound(sel, needle, (m - 1) as nat);
        }
    }

    /// The squared defect of every subset of `target_t` columns, in the
    /// order of the enumeration. The Delta score of the array is minus
    /// the sum of their square roots.
    pub fn fitness(&self) -> (r: Vec<u128>)
        requires
            self.well_formed(),
            self.target_t <= self.k,
            self.k + 2 <= usize::MAX,
            self.target_t <= u32::MAX,
            self.ngrande <= crate::oarray::MAX_ROWS,
            1 <= power(self.size(), self.target_t as nat) <= usize::MAX,
            forall|i: int|
                0 <= i < yielded(self.k as nat, self.target_t as nat).len() ==> self.patterns_fit(
                    #[trigger] yielded(self.k as nat, self.target_t as nat)[i],
                ),
        ensures
            r@.len() == yielded(self.k as nat, self.target_t as nat).len(),
            forall|i: int|
                0 <= i < r@.len() ==> (#[trigger] r@[i]) as nat == self.subset_defect(
                    yielded(self.k as nat, self.target_t as nat)[i],
                ),
    {
        let mut comb = Combinations::new(self.k, self.target_t as u32);
        let mut it = comb.stream_iter();
        let mut out: Vec<u128> = Vec::new();
        let ghost all = yielded(self.k as nat, self.target_t as nat);
        loop
            invariant
                self.well_formed(),
                self.ngrande <= crate::oarray::MAX_ROWS,
                1 <= power(self.size(), self.target_t as nat) <= usize::MAX,
                it.pool() == self.k,
                it.size() == self.target_t,
                all == yielded(it.pool(), it.size()),
                forall|i: int| 0 <= i < all.len() ==> self.patterns_fit(#[trigger] all[i]),
                -1 <= it.cursor() <= all.len(),
                it.cursor() < all.len() ==> out@.len() == it.cursor() + 1,
                it.cursor() == all.len() ==> out@.len() == all.len(),
                forall|i: int|
                    0 <= i < out@.len() ==> (#[trigger] out@[i]) as nat == self.subset_defect(
                        all[i],
                    ),
            ensures
                out@.len() == all.len(),
                forall|i: int|
                    0 <= i < out@.len() ==> (#[trigger] out@[i]) as nat == self.subset_defect(
                        all[i],
                    ),
            decreases all.len() - it.cursor(),
        {
            it.advance();
            match it.get() {
                Some(igrande) => {
                    proof {
                        lemma_combos_valid(
                            self.k as nat,
                            self.target_t as nat,
                            it.cursor(),
                        );
                        assert(self.patterns_fit(all[it.cursor()]));
                    }
                    let q = self.delta_grande(igrande);
                    out.push(q);
                },
                None => {
                    break ;
                },
            }
        }
        out
    }

    /// An array of `ngrande` rows and `k` columns over the alphabet of
    /// size `s`, filled with the symbols in turn and then shuffled column
    /// by column: each column keeps the symbols it was filled with, in a
    /// random order. The number of rows is a positive multiple of the
    /// alphabet's size raised to the strength `target_t`, so at strength
    /// one or more every column holds each symbol equally often.
    pub fn new_random_balanced(
        ngrande: usize,
        k: usize,
        s: T,
        target_t: usize,
        rng: &mut ThreadRng,
    ) -> (r: Self)
        requires
            1 <= s.index_spec() <= T::cardinality(),
            power(s.index_spec(), target_t as nat) <= ngrande,
            ngrande as nat % power(s.index_spec(), target_t as nat) == 0,
            ngrande * k <= usize::MAX,
        ensures
            r.well_formed(),
            r.ngrande == ngrande,
            r.k == k,
            r.s == s,
            r.target_t == target_t,
            r.in_alphabet(),
            forall|j: int|
                0 <= j < k ==> (#[trigger] r.column(j)).to_multiset() == cycle(
                    (j * ngrande) as nat,
                    ngrande as nat,
                    s.index_spec(),
                ).to_multiset(),
            ngrande as nat % s.index_spec() == 0 ==> r.all_balanced(),
            target_t >= 1 ==> r.all_balanced(),
    {
        let s_usize = s.to_index();
        let mut cols: Vec<Vec<T>> = Vec::new();
        let mut j: usize = 0;
        while j < k
            invariant
                j <= k,
                ngrande * k <= usize::MAX,
                s_usize == s.index_spec(),
                1 <= s_usize <= T::cardinality(),
                cols@.len() == j,
                forall|c: int| 0 <= c < j ==> (#[trigger] cols@[c])@.len() == ngrande,
                forall|c: int|
                    0 <= c < j ==> indices((#[trigger] cols@[c])@).to_multiset() == cycle(
                        (c * ngrande) as nat,
                        ngrande as nat,
                        s_usize as nat,
                    ).to_multiset(),
            decreases k - j,
        {
            proof {
                assert(j * ngrande + ngrande <= ngrande * k) by (nonlinear_arith)
                    requires
                        j < k,
                ;
            }
            let offset = j * ngrande;
            let mut col: Vec<T> = Vec::new();
            let mut i: usize = 0;
            while i < ngrande
                invariant
                    i <= ngrande,
                    offset + ngrande <= usize::MAX,
                    s_usize == s.index_spec(),
                    1 <= s_usize <= T::cardinality(),
                    col@.len() == i,
                    forall|x: int|
                        0 <= x < i ==> (#[trigger] col@[x]).index_spec() == (offset + x) % (
                        s_usize as int),
                decreases ngrande - i,
            {
                col.push(T::from_index((offset + i) % s_usize).unwrap());
                i = i + 1;
            }
            proof {
                assert(indices(col@) =~= cycle(offset as nat, ngrande as nat, s_usize as nat));
            }
            let ghost filled = col@;
            shuffle(rng, &mut col);
            proof {
                lemma_indices_permuted(filled, col@);
            }
            cols.push(col);
            j = j + 1;
        }
        let d = flatten(&cols, ngrande);
        let out = OArray { ngrande, k, s, target_t, d };
        proof {
            assert forall|c: int| 0 <= c < k implies #[trigger] out.column(c) == indices(
                cols@[c]@,
            ) by {
                assert(out.column(c) =~= indices(cols@[c]@));
            }
            assert forall|p: int| 0 <= p < out.d@.len() implies (
            #[trigger] out.d@[p]).index_spec() < out.size() by {
                lemma_cell_of(ngrande as int, k as int, p);
                let c = p / ngrande as int;
                let r = p % ngrande as int;
                assert(out.d@[cell_index(ngrande as int, r, c)] == cols@[c]@[r]);
                let column = indices(cols@[c]@);
                let filled = cycle((c * ngrande) as nat, ngrande as nat, s_usize as nat);
                column.to_multiset_ensures();
                filled.to_multiset_ensures();
                assert(column.contains(column[r]));
                assert(column.to_multiset().count(column[r]) > 0);
                assert(filled.to_multiset().count(column[r]) > 0);
                assert(filled.contains(column[r]));
                let at = choose|at: int| 0 <= at < filled.len() && filled[at] == column[r];
                assert(filled[at] < s_usize);
            }
            if target_t >= 1 {
                let size = s.index_spec() as int;
                let rest = power(s.index_spec(), (target_t - 1) as nat) as int;
                let full = power(s.index_spec(), target_t as nat) as int;
                let times = ngrande as int / full;
                assert(full == size * rest);
                crate::fitness::lemma_power_positive(s.index_spec(), target_t as nat);
                vstd::arithmetic::div_mod::lemma_fundamental_div_mod(ngrande as int, full);
                assert(ngrande as int == (times * rest) * size) by (nonlinear_arith)
                    requires
                        ngrande as int == full * times,
                        full == size * rest,
                ;
                vstd::arithmetic::div_mod::lemma_mod_multiples_basic(times * rest, size);
            }
            if ngrande as nat % s.index_spec() == 0 {
                assert forall|c: int| 0 <= c < k implies balanced_over(
                    #[trigger] out.column(c),
                    out.size(),
                ) by {
                    let filled = cycle((c * ngrande) as nat, ngrande as nat, s_usize as nat);
                    assert forall|v: nat| v < s_usize implies s_usize * #[trigger] occ(
                        out.column(c),
                        v,
                        out.column(c).len(),
                    ) == out.column(c).len() by {
                        lemma_occ_permuted(out.column(c), filled, v);
                        lemma_cycle_balanced((c * ngrande) as nat, ngrande as nat, s_usize as nat, v);
                    }
                }
            }
        }
        out
    }

    /// Goes through the columns; each is mutated with probability `prob`,
    /// by one exchange of two symbols that differ. So every column is as
    /// it was or has two symbols exchanged; with a probability that is
    /// certain, every column whose symbols are not all alike has two
    /// symbols exchanged, and with one that never happens, nothing
    /// changes.
    pub fn mutate_with_prob(&mut self, prob: Probability, rng: &mut ThreadRng)
        requires
            old(self).well_formed(),
        ensures
            final(self).ngrande == old(self).ngrande,
            final(self).k == old(self).k,
            final(self).s == old(self).s,
            final(self).target_t == old(self).target_t,
            final(self).well_formed(),
            forall|c: int|
                0 <= c < old(self).k ==> one_exchange(
                    old(self).symbols(c),
                    #[trigger] final(self).symbols(c),
                ),
            prob.is_certain() ==> forall|c: int|
                0 <= c < old(self).k && mixed(old(self).symbols(c)) ==> symbols_exchanged(
                    old(self).symbols(c),
                    #[trigger] final(self).symbols(c),
                ),
            prob.is_never() ==> final(self).d@ == old(self).d@,
            forall|c: int, v: nat|
                0 <= c < old(self).k ==> #[trigger] occ(
                    final(self).column(c),
                    v,
                    old(self).ngrande as nat,
                ) == occ(old(self).column(c), v, old(self).ngrande as nat),
    {
        let n = self.ngrande;
        let k = self.k;
        let ghost start = *self;
        let mut c: usize = 0;
        while c < k
            invariant
                c <= k,
                n == self.ngrande,
                k == self.k,
                self.ngrande == start.ngrande,
                self.k == start.k,
                self.s == start.s,
                self.target_t == start.target_t,
                self.well_formed(),
                start.well_formed(),
                forall|x: int, v: nat|
                    0 <= x < k ==> #[trigger] occ(self.column(x), v, n as nat) == occ(
                        start.column(x),
                        v,
                        n as nat,
                    ),
                forall|x: int|
                    0 <= x < c ==> one_exchange(start.symbols(x), #[trigger] self.symbols(x)),
                forall|x: int| c <= x < k ==> #[trigger] self.symbols(x) == start.symbols(x),
                prob.is_certain() ==> forall|x: int|
                    0 <= x < c && mixed(start.symbols(x)) ==> symbols_exchanged(
                        start.symbols(x),
                        #[trigger] self.symbols(x),
                    ),
                prob.is_never() ==> self.d@ == start.d@,
            decreases k - c,
        {
            if prob.draw(rng) {
                let mut col: Vec<T> = Vec::new();
                let mut i: usize = 0;
                while i < n
                    invariant
                        i <= n,
                        c < k,
                        n == self.ngrande,
                        k == self.k,
                        self.well_formed(),
                        col@.len() == i,
                        forall|r: int|
                            0 <= r < i ==> col@[r] == self.d@[cell_index(n as int, r, c as int)],
                    decreases n - i,
                {
                    proof {
                        lemma_cell_index(n as int, k as int, i as int, c as int);
                    }
                    col.push(self.d[c * n + i]);
                    i = i + 1;
                }
                let ghost taken = col@;
                mutate_column(&mut col, rng);
                let ghost before = *self;
                proof {
                    assert(indices(taken) =~= before.column(c as int));
                    assert(taken =~= before.symbols(c as int));
                }
                let mut i: usize = 0;
                while i < n
                    invariant
                        i <= n,
                        c < k,
                        n == self.ngrande,
                        k == self.k,
                        self.ngrande == start.ngrande,
                        self.k == start.k,
                        self.s == start.s,
                        self.target_t == start.target_t,
                        self.well_formed(),
                        before.well_formed(),
                        before.ngrande == n,
                        before.k == k,
                        col@.len() == n,
                        forall|r: int, x: int|
                            0 <= r < n && 0 <= x < k && x != c ==> self.d@[#[trigger] cell_index(
                                n as int,
                                r,
                                x,
                            )] == before.d@[cell_index(n as int, r, x)],
                        forall|r: int|
                            0 <= r < i ==> self.d@[#[trigger] cell_index(n as int, r, c as int)]
                                == col@[r],
                    decreases n - i,
                {
                    proof {
                        lemma_cell_index(n as int, k as int, i as int, c as int);
                    }
                    let ghost prev = self.d@;
                    self.d[c * n + i] = col[i];
                    proof {
                        assert forall|r: int, x: int| 0 <= r < n && 0 <= x < k && x != c implies self.d@[
                        #[trigger] cell_index(n as int, r, x)] == before.d@[cell_index(
                            n as int,
                            r,
                            x,
                        )] by {
                            lemma_cell_index(n as int, k as int, r, x);
                            lemma_cell_index_distinct(n as int, r, x, i as int, c as int);
                            assert(prev[cell_index(n as int, r, x)] == before.d@[cell_index(
                                n as int,
                                r,
                                x,
                            )]);
                        }
                        assert forall|r: int| 0 <= r < i + 1 implies self.d@[#[trigger] cell_index(
                            n as int,
                            r,
                            c as int,
                        )] == col@[r] by {
                            if r < i {
                                lemma_cell_index(n as int, k as int, r, c as int);
                                lemma_cell_index_distinct(n as int, r, c as int, i as int, c as int);
                                assert(prev[cell_index(n as int, r, c as int)] == col@[r]);
                            }
                        }
                    }
                    i = i + 1;
                }
                proof {
                    assert(self.symbols(c as int) =~= col@);
                    assert forall|x: int| 0 <= x < k && x != c implies #[trigger] self.symbols(x)
                        == before.symbols(x) by {
                        assert(self.symbols(x) =~= before.symbols(x));
                    }
                    assert(self.column(c as int) =~= indices(col@));
                    assert forall|x: int, v: nat| 0 <= x < k implies #[trigger] occ(
                        self.column(x),
                        v,
                        n as nat,
                    ) == occ(start.column(x), v, n as nat) by {
                        if x == c {
                            lemma_exchange_counts(taken, col@, v);
                            assert(occ(before.column(x), v, n as nat) == occ(
                                start.column(x),
                                v,
                                n as nat,
                            ));
                        } else {
                            assert(self.column(x) =~= before.column(x));
                            assert(occ(before.column(x), v, n as nat) == occ(
                                start.column(x),
                                v,
                                n as nat,
                            ));
                        }
                    }
                }
            }
            c = c + 1;
        }
    }

    /// An offspring of two arrays of the same shape over the same
    /// alphabet, whose size divides the number of rows: each column is
    /// the balanced crossover of the parents' columns, and is then
    /// mutated with probability one in five. So each column of the
    /// offspring is a crossover of the parents' columns at its place with
    /// at most one exchange of two symbols that differ.
    pub fn breed_with(&self, other: &Self) -> (child: Self)
        requires
            self.well_formed(),
            other.well_formed(),
            other.ngrande == self.ngrande,
            other.k == self.k,
            self.in_alphabet(),
            within(other.d@, self.size()),
            1 <= self.size() <= T::cardinality(),
            self.ngrande as nat % self.size() == 0,
        ensures
            child.well_formed(),
            child.ngrande == self.ngrande,
            child.k == self.k,
            child.s == self.s,
            child.target_t == self.target_t,
            child.all_balanced(),
            forall|c: int|
                0 <= c < self.k ==> bred_symbols(
                    self.symbols(c),
                    other.symbols(c),
                    self.size(),
                    #[trigger] child.symbols(c),
                ),
    {
        let mut rng = local_rng();
        let n = self.ngrande;
        let mut cols: Vec<Vec<T>> = Vec::new();
        let mut c: usize = 0;
        while c < self.k
            invariant
                c <= self.k,
                n == self.ngrande,
                self.well_formed(),
                other.well_formed(),
                other.ngrande == self.ngrande,
                other.k == self.k,
                self.in_alphabet(),
                within(other.d@, self.size()),
                1 <= self.size() <= T::cardinality(),
                self.ngrande as nat % self.size() == 0,
                cols@.len() == c,
                forall|x: int| 0 <= x < c ==> (#[trigger] cols@[x])@.len() == n,
                forall|x: int|
                    0 <= x < c ==> balanced_over(indices((#[trigger] cols@[x])@), self.size()),
                forall|x: int|
                    0 <= x < c ==> symbol_crossover_of(
                        indices(self.symbols(x)),
                        indices(other.symbols(x)),
                        self.size(),
                        indices((#[trigger] cols@[x])@),
                    ),
            decreases self.k - c,
        {
            let mut col1: Vec<T> = Vec::new();
            let mut col2: Vec<T> = Vec::new();
            let mut i: usize = 0;
            while i < n
                invariant
                    i <= n,
                    c < self.k,
                    n == self.ngrande,
                    self.well_formed(),
                    other.well_formed(),
                    other.ngrande == self.ngrande,
                    other.k == self.k,
                    self.in_alphabet(),
                    within(other.d@, self.size()),
                    col1@.len() == i,
                    col2@.len() == i,
                    within(col1@, self.size()),
                    within(col2@, self.size()),
                    forall|r: int|
                        0 <= r < i ==> col1@[r] == self.d@[cell_index(n as int, r, c as int)],
                    forall|r: int|
                        0 <= r < i ==> col2@[r] == other.d@[cell_index(n as int, r, c as int)],
                decreases n - i,
            {
                proof {
                    lemma_cell_index(n as int, self.k as int, i as int, c as int);
                }
                col1.push(self.d[c * n + i]);
                col2.push(other.d[c * n + i]);
                i = i + 1;
            }
            proof {
                assert(col1@ =~= self.symbols(c as int));
                assert(col2@ =~= other.symbols(c as int));
            }
            let col3 = balanced_crossover(col1.as_slice(), col2.as_slice(), self.s, &mut rng);
            cols.push(col3);
            c = c + 1;
        }
        proof {
            assert(n * cols.len() == self.ngrande * self.k);
        }
        let d = flatten(&cols, n);
        let mut out = OArray { ngrande: n, k: self.k, s: self.s, target_t: self.target_t, d };
        let ghost bred = out;
        proof {
            assert forall|x: int| 0 <= x < self.k implies #[trigger] out.column(x) == indices(
                cols@[x]@,
            ) by {
                assert(out.column(x) =~= indices(cols@[x]@));
            }
        }
        out.mutate_with_prob(Probability::new(1, 5), &mut rng);
        proof {
            assert forall|x: int| 0 <= x < self.k implies balanced_over(
                #[trigger] out.column(x),
                out.size(),
            ) by {
                assert(balanced_over(bred.column(x), self.size()));
                assert forall|v: nat| v < out.size() implies out.size() * #[trigger] occ(
                    out.column(x),
                    v,
                    out.column(x).len(),
                ) == out.column(x).len() by {
                    assert(occ(out.column(x), v, n as nat) == occ(bred.column(x), v, n as nat));
                    assert(self.size() * occ(bred.column(x), v, bred.column(x).len())
                        == bred.column(x).len());
                }
            }
            assert forall|x: int| 0 <= x < self.k implies bred_symbols(
                self.symbols(x),
                other.symbols(x),
                self.size(),
                #[trigger] out.symbols(x),
            ) by {
                let mid = bred.symbols(x);
                assert(mid =~= cols@[x]@);
                assert(symbol_crossover_of(
                    indices(self.symbols(x)),
                    indices(other.symbols(x)),
                    self.size(),
                    indices(mid),
                ));
                assert(one_exchange(mid, out.symbols(x)));
            }
        }
        out
    }
}

/// The `n` indices from place `start` on of the endless string
/// `0, 1, .., s-1, 0, 1, ..`.
pub open spec fn cycle(start: nat, n: nat, s: nat) -> Seq<nat> {
    Seq::new(n, |i: int| ((start + i) % (s as int)) as nat)
}

/// The place `p` of the data is the cell of a row and a column.
pub proof fn lemma_cell_of(n: int, k: int, p: int)
    requires
        0 <= p < n * k,
        n >= 0,
        k >= 0,
    ensures
        n > 0,
        0 <= p % n < n,
        0 <= p / n < k,
        cell_index(n, p % n, p / n) == p,
{
    assert(n > 0) by (nonlinear_arith)
        requires
            0 <= p < n * k,
            n >= 0,
    ;
    assert(p == n * (p / n) + p % n) by {
        vstd::arithmetic::div_mod::lemma_fundamental_div_mod(p, n);
    }
    assert((p / n) * n == n * (p / n)) by (nonlinear_arith);
    assert(p / n < k) by (nonlinear_arith)
        requires
            p < n * k,
            p == n * (p / n) + p % n,
            0 <= p % n,
            n > 0,
    ;
    assert(0 <= p / n) by (nonlinear_arith)
        requires
            p >= 0,
            n > 0,
            p == n * (p / n) + p % n,
            p % n < n,
    ;
}

/// The indices of a column in another order are the indices in that
/// order.
pub proof fn lemma_indices_permuted<T: Alphabet>(a: Seq<T>, b: Seq<T>)
    requires
        a.to_multiset() == b.to_multiset(),
    ensures
        indices(a).to_multiset() == indices(b).to_multiset(),
        a.len() == b.len(),
{
    a.to_multiset_ensures();
    b.to_multiset_ensures();
    assert(indices(a) =~= a.map_values(|x: T| x.index_spec()));
    assert(indices(b) =~= b.map_values(|x: T| x.index_spec()));
    lemma_map_multiset(a, b);
}

/// Two strings with the same items in another order still have the same
/// items after each item is replaced by its index.
proof fn lemma_map_multiset<T: Alphabet>(a: Seq<T>, b: Seq<T>)
    requires
        a.to_multiset() == b.to_multiset(),
    ensures
        a.map_values(|x: T| x.index_spec()).to_multiset() == b.map_values(
            |x: T| x.index_spec(),
        ).to_multiset(),
    decreases a.len(),
{
    broadcast use vstd::seq_lib::group_to_multiset_ensures;

    a.to_multiset_ensures();
    b.to_multiset_ensures();
    let f = |x: T| x.index_spec();
    if a.len() == 0 {
        assert(b.len() == 0);
        assert(a.map_values(f) =~= b.map_values(f));
    } else {
        let x = a.last();
        assert(a.contains(x));
        assert(b.to_multiset().count(x) > 0);
        assert(b.contains(x));
        let at = choose|at: int| 0 <= at < b.len() && b[at] == x;
        let a1 = a.drop_last();
        let b1 = b.remove(at);
        assert(a1.push(x) =~= a);
        assert(a1.to_multiset() =~= a.to_multiset().remove(x)) by {
            assert(a.to_multiset() =~= a1.to_multiset().insert(x));
        }
        assert(b1.to_multiset() =~= b.to_multiset().remove(x));
        lemma_map_multiset(a1, b1);
        assert(a.map_values(f) =~= a1.map_values(f).push(f(x)));
        assert(b1.map_values(f) =~= b.map_values(f).remove(at));
        b.map_values(f).to_multiset_ensures();
        assert(b.map_values(f).to_multiset() =~= b1.map_values(f).to_multiset().insert(f(x))) by {
            assert(b.map_values(f).remove(at).to_multiset() =~= b.map_values(f).to_multiset().remove(
                b.map_values(f)[at],
            ));
            assert(b.map_values(f).to_multiset().count(f(x)) > 0) by {
                assert(b.map_values(f)[at] == f(x));
                assert(b.map_values(f).contains(f(x)));
            }
        }
    }
}

/// In a stretch of the endless string whose length is a multiple of `s`,
/// every index occurs equally often.
pub proof fn lemma_cycle_balanced(start: nat, n: nat, s: nat, v: nat)
    requires
        s >= 1,
        n % s == 0,
        v < s,
    ensures
        s * occ(cycle(start, n, s), v, n) == n,
    decreases n,
{
    if n == 0 {
        assert(occ(cycle(start, n, s), v, n) == 0);
        assert(s * 0 == 0);
    } else {
        let shorter = (n - s) as nat;
        assert(n >= s) by {
            if n < s {
                assert(n % s == n) by {
                    vstd::arithmetic::div_mod::lemma_small_mod(n, s);
                }
            }
        }
        assert(shorter % s == 0) by {
            vstd::arithmetic::div_mod::lemma_mod_sub_multiples_vanish(n as int, s as int);
        }
        lemma_cycle_balanced(start, shorter, s, v);
        lemma_occ_prefix(cycle(start, n, s), cycle(start, shorter, s), v, shorter);
        lemma_one_period(cycle(start, n, s), start, shorter, s, v, s);
        let less = occ(cycle(start, shorter, s), v, shorter);
        assert(occ(cycle(start, n, s), v, n) == less + 1);
        assert(s * (less + 1) == s * less + s) by (nonlinear_arith);
    }
}

/// The remainder of `h` on division by `s`.
pub open spec fn residue(h: int, s: int) -> int {
    h % s
}

/// Among `s` places in a row of the endless string, each index is met
/// once.
proof fn lemma_one_period(col: Seq<nat>, start: nat, from: nat, s: nat, v: nat, m: nat)
    requires
        s >= 1,
        v < s,
        m <= s,
        from + s <= col.len(),
        forall|i: int| from <= i < from + s ==> col[i] == ((start + i) % (s as int)) as nat,
    ensures
        occ(col, v, from + m) - occ(col, v, from) == if exists|i: int|
            from <= i < from + m && #[trigger] residue(start + i, s as int) == v {
            1int
        } else {
            0int
        },
        m == s ==> occ(col, v, from + m) - occ(col, v, from) == 1,
    decreases m,
{
    if m > 0 {
        let m1 = (m - 1) as nat;
        lemma_one_period(col, start, from, s, v, m1);
        let at = (from + m1) as int;
        assert(col[at] == residue(start + at, s as int));
        if exists|i: int| from <= i < from + m1 && #[trigger] residue(start + i, s as int) == v {
            let i = choose|i: int|
                from <= i < from + m1 && #[trigger] residue(start + i, s as int) == v;
            if residue(start + at, s as int) == v {
                lemma_mod_apart(start + i, start + at, s as int);
            }
            assert(from <= i < from + m && residue(start + i, s as int) == v);
        } else {
            if residue(start + at, s as int) == v {
                assert(from <= at < from + m && residue(start + at, s as int) == v);
            } else {
                assert forall|i: int| from <= i < from + m implies #[trigger] residue(
                    start + i,
                    s as int,
                ) != v by {
                    if i < from + m1 {
                    }
                }
            }
        }
        if m == s {
            lemma_period_hits((start + from) as int, s as int, v as int);
            let h = choose|h: int|
                start + from <= h < start + from + s && #[trigger] residue(h, s as int) == v;
            assert(from <= h - start < from + m && residue(start + (h - start), s as int) == v);
        }
    }
}

/// Two numbers less than `s` apart differ modulo `s`.
proof fn lemma_mod_apart(a: int, b: int, s: int)
    requires
        s >= 1,
        a < b < a + s,
        a >= 0,
    ensures
        a % s != b % s,
{
    if a % s == b % s {
        vstd::arithmetic::div_mod::lemma_fundamental_div_mod(a, s);
        vstd::arithmetic::div_mod::lemma_fundamental_div_mod(b, s);
        let qa = a / s;
        let qb = b / s;
        assert(b - a == s * (qb - qa)) by (nonlinear_arith)
            requires
                a == s * qa + a % s,
                b == s * qb + b % s,
                a % s == b % s,
        ;
        assert(false) by (nonlinear_arith)
            requires
                b - a == s * (qb - qa),
                0 < b - a < s,
        ;
    }
}

/// Every residue is met among `s` numbers in a row.
proof fn lemma_period_hits(from: int, s: int, v: int)
    requires
        s >= 1,
        0 <= v < s,
        from >= 0,
    ensures
        exists|h: int| from <= h < from + s && #[trigger] residue(h, s) == v,
{
    let r = from % s;
    let h = if v >= r {
        from + (v - r)
    } else {
        from + (v - r) + s
    };
    vstd::arithmetic::div_mod::lemma_fundamental_div_mod(from, s);
    let q = from / s;
    if v >= r {
        assert(h == q * s + v) by (nonlinear_arith)
            requires
                h == from + (v - r),
                from == s * q + r,
        ;
        vstd::arithmetic::div_mod::lemma_fundamental_div_mod_converse(h, s, q, v);
    } else {
        assert(h == (q + 1) * s + v) by (nonlinear_arith)
            requires
                h == from + (v - r) + s,
                from == s * q + r,
        ;
        vstd::arithmetic::div_mod::lemma_fundamental_div_mod_converse(h, s, q + 1, v);
    }
    assert(from <= h < from + s && residue(h, s) == v);
}

/// `b` to a power is at most `b` to any larger power, for `b` at least
/// one.
proof fn lemma_power_step(b: nat, a: nat, e: nat)
    requires
        a <= e,
        power(b, e) >= 1,
    ensures
        power(b, a) <= power(b, e),
        power(b, a) >= 1,
{
    if b == 0 {
        crate::fitness::lemma_power_zero(b, e);
        assert(e == 0);
    } else {
        crate::fitness::lemma_power_monotone(b, a, e);
        crate::fitness::lemma_power_positive(b, a);
    }
}

} // verus!
