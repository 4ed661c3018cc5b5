//! The array itself: an `ngrande` by `k` matrix of bits, stored column
//! after column, which a search tries to bring to strength `target_t`.

use vstd::prelude::*;
use crate::binary_strings::{checked_pow2, pow2, lemma_pow2_positive};
use crate::fitness::FitnessFunction;

verus! {

/// Largest row count the scores are computed for: with it every signed
/// sum over the rows fits in 32 bits.
pub const MAX_ROWS: usize = 0x7FFF_FFFF;

/// Largest column count the scores are computed for.
pub const MAX_COLUMNS: usize = 0x7FFF_FFFF;

/// An array of `ngrande` rows and `k` columns of bits, which a search
/// tries to bring to strength `target_t`. The data `d` holds the columns
/// one after the other, and `fitness_f` names the method by which the
/// array is scored.
#[derive(Debug, Eq, PartialEq)]
pub struct OArray {
    pub ngrande: usize,
    pub k: usize,
    pub target_t: u32,
    /// The ideal count of each pattern of `target_t` bits, as fixed when
    /// the array was made.
    pub lambda: usize,
    pub d: Vec<bool>,
    pub fitness_f: FitnessFunction,
}

/// A row count `ngrande` admits strength `t` when `2^t` divides it and the
/// quotient, the ideal count of every pattern, is at least one.
pub open spec fn valid_parameters(ngrande: usize, target_t: u32) -> bool {
    &&& pow2(target_t as nat) <= ngrande
    &&& ngrande as nat % pow2(target_t as nat) == 0
}

/// Position of the cell in row `row` and column `col` inside the flat data.
pub open spec fn cell_index(ngrande: int, row: int, col: int) -> int {
    col * ngrande + row
}

/// The flat data `d` cut into `k` columns of `n` cells each.
pub open spec fn columns_of(d: Seq<bool>, n: nat, k: nat) -> Seq<Seq<bool>> {
    Seq::new(k, |j: int| Seq::new(n, |i: int| d[cell_index(n as int, i, j)]))
}

/// Entrywise exclusive or of two strings of equal length.
pub open spec fn xor_seq(a: Seq<bool>, b: Seq<bool>) -> Seq<bool> {
    Seq::new(a.len(), |i: int| a[i] != b[i])
}

/// A cell of a well-shaped array lies inside its data.
pub proof fn lemma_cell_index(n: int, k: int, row: int, col: int)
    requires
        0 <= row < n,
        0 <= col < k,
    ensures
        0 <= cell_index(n, row, col) < n * k,
        cell_index(n, row, col) < (col + 1) * n,
        (col + 1) * n <= n * k,
        col * n >= 0,
{
    assert(col * n + n == (col + 1) * n) by (nonlinear_arith);
    assert((col + 1) * n <= k * n) by (nonlinear_arith)
        requires
            col + 1 <= k,
            n >= 0,
    ;
    assert(k * n == n * k) by (nonlinear_arith);
    assert(col * n >= 0) by (nonlinear_arith)
        requires
            col >= 0,
            n >= 0,
    ;
}

/// Different cells lie at different places of the data.
pub proof fn lemma_cell_index_distinct(n: int, r1: int, c1: int, r2: int, c2: int)
    requires
        0 <= r1 < n,
        0 <= r2 < n,
        0 <= c1,
        0 <= c2,
        r1 != r2 || c1 != c2,
    ensures
        cell_index(n, r1, c1) != cell_index(n, r2, c2),
{
    if c1 < c2 {
        assert(c1 * n + n <= c2 * n) by (nonlinear_arith)
            requires
                c1 + 1 <= c2,
                n >= 0,
        ;
    } else if c2 < c1 {
        assert(c2 * n + n <= c1 * n) by (nonlinear_arith)
            requires
                c2 + 1 <= c1,
                n >= 0,
        ;
    }
}

/// Writing one cell of the data changes that cell of its column and
/// nothing else.
pub proof fn lemma_columns_update(d: Seq<bool>, n: nat, k: nat, row: int, col: int, v: bool)
    requires
        0 <= row < n,
        0 <= col < k,
        d.len() == n * k,
    ensures
        columns_of(d.update(cell_index(n as int, row, col), v), n, k) == columns_of(d, n, k).update(
            col,
            columns_of(d, n, k)[col].update(row, v),
        ),
{
    let after = columns_of(d.update(cell_index(n as int, row, col), v), n, k);
    let expected = columns_of(d, n, k).update(col, columns_of(d, n, k)[col].update(row, v));
    lemma_cell_index(n as int, k as int, row, col);
    assert forall|c: int| 0 <= c < k implies #[trigger] after[c] =~= expected[c] by {
        assert forall|r: int| 0 <= r < n implies after[c][r] == expected[c][r] by {
            lemma_cell_index(n as int, k as int, r, c);
            if r != row || c != col {
                lemma_cell_index_distinct(n as int, r, c, row, col);
            }
        }
    }
    assert(after =~= expected);
}

impl Clone for OArray {
    fn clone(&self) -> (r: Self)
        ensures
            r.same_as(self),
    {
        OArray {
            ngrande: self.ngrande,
            k: self.k,
            target_t: self.target_t,
            lambda: self.lambda,
            d: copy_bits(&self.d),
            fitness_f: self.fitness_f,
        }
    }
}

/// A fresh vector holding the same bits.
pub fn copy_bits(v: &Vec<bool>) -> (r: Vec<bool>)
    ensures
        r@ == v@,
{
    let mut out: Vec<bool> = Vec::with_capacity(v.len());
    let mut i: usize = 0;
    while i < v.len()
        invariant
            i <= v.len(),
            out@ == v@.take(i as int),
        decreases v.len() - i,
    {
        out.push(v[i]);
        proof {
            assert(v@.take(i as int).push(v@[i as int]) =~= v@.take(i + 1));
        }
        i = i + 1;
    }
    proof {
        assert(v@.take(i as int) =~= v@);
        assert(out@ =~= v@);
    }
    out
}

impl OArray {
    /// The data has one cell for each row and column, and the row and
    /// column counts are within `MAX_ROWS` and `MAX_COLUMNS`.
    pub open spec fn well_formed(&self) -> bool {
        &&& self.d.len() == self.ngrande * self.k
        &&& self.ngrande <= MAX_ROWS
        &&& self.k <= MAX_COLUMNS
    }

    /// The array is well formed, its row count admits its strength, and
    /// `lambda` is the ideal count that goes with them.
    pub open spec fn valid(&self) -> bool {
        &&& self.well_formed()
        &&& valid_parameters(self.ngrande, self.target_t)
        &&& self.lambda as nat == self.ngrande as nat / pow2(self.target_t as nat)
    }

    /// Both arrays have the same parameters and hold the same bits.
    pub open spec fn same_as(&self, other: &OArray) -> bool {
        &&& self.ngrande == other.ngrande
        &&& self.k == other.k
        &&& self.target_t == other.target_t
        &&& self.lambda == other.lambda
        &&& self.d@ == other.d@
        &&& self.fitness_f == other.fitness_f
    }

    /// The bit in row `row` of column `col`.
    pub open spec fn cell(&self, row: int, col: int) -> bool {
        self.d@[cell_index(self.ngrande as int, row, col)]
    }

    /// The columns, first to last, each read top to bottom.
    pub open spec fn columns(&self) -> Seq<Seq<bool>> {
        columns_of(self.d@, self.ngrande as nat, self.k as nat)
    }

    /// Row `row`, read left to right.
    pub open spec fn row(&self, row: int) -> Seq<bool> {
        Seq::new(self.k as nat, |j: int| self.cell(row, j))
    }

    /// Some row of the array equals `v`.
    pub open spec fn has_row(&self, v: Seq<bool>) -> bool {
        exists|i: int| 0 <= i < self.ngrande && #[trigger] self.row(i) == v
    }

    /// The rows form a linear code: the zero row is present, and the
    /// exclusive or of any two rows is a row again.
    pub open spec fn is_linear(&self) -> bool {
        &&& self.has_row(Seq::new(self.k as nat, |j: int| false))
        &&& forall|a: int, b: int|
            0 <= a < b < self.ngrande ==> self.has_row(
                #[trigger] xor_seq(self.row(a), self.row(b)),
            )
    }

    /// Whether `ngrande` rows admit strength `target_t`.
    pub fn admits(ngrande: usize, target_t: u32) -> (r: bool)
        ensures
            r == valid_parameters(ngrande, target_t),
    {
        match checked_pow2(target_t) {
            Some(p) => {
                proof {
                    lemma_pow2_positive(target_t as nat);
                }
                p <= ngrande && ngrande % p == 0
            },
            None => false,
        }
    }

    /// Whether the data has the shape that `ngrande` and `k` announce.
    pub fn is_well_formed(&self) -> (r: bool)
        ensures
            r == self.well_formed(),
    {
        if self.ngrande > MAX_ROWS || self.k > MAX_COLUMNS {
            return false;
        }
        match self.ngrande.checked_mul(self.k) {
            Some(len) => self.d.len() == len,
            None => false,
        }
    }

    /// Whether the array is valid.
    pub fn is_valid(&self) -> (r: bool)
        ensures
            r == self.valid(),
    {
        if !self.is_well_formed() {
            return false;
        }
        match checked_pow2(self.target_t) {
            Some(p) => {
                proof {
                    lemma_pow2_positive(self.target_t as nat);
                }
                p <= self.ngrande && self.ngrande % p == 0 && self.lambda == self.ngrande / p
            },
            None => false,
        }
    }

    /// An array of `ngrande` rows and `k` columns with the data `d`, to be
    /// brought to strength `target_t` and scored by `fitness_f`. The row
    /// count admits the strength.
    pub fn new(
        ngrande: usize,
        k: usize,
        target_t: u32,
        d: Vec<bool>,
        fitness_f: FitnessFunction,
    ) -> (r: Self)
        requires
            valid_parameters(ngrande, target_t),
        ensures
            r.ngrande == ngrande,
            r.k == k,
            r.target_t == target_t,
            r.d == d,
            r.fitness_f == fitness_f,
            r.lambda as nat == ngrande as nat / pow2(target_t as nat),
    {
        proof {
            lemma_pow2_positive(target_t as nat);
        }
        let num_t_strings = checked_pow2(target_t).unwrap();
        let lambda = ngrande / num_t_strings;
        OArray { ngrande, k, target_t, lambda, d, fitness_f }
    }

    /// Drops the columns from the `k`-th on: the first `k` columns stay
    /// as they are, and so does everything else.
    pub fn keep_columns(&mut self, k: usize)
        requires
            old(self).well_formed(),
            k <= old(self).k,
        ensures
            final(self).k == k,
            final(self).ngrande == old(self).ngrande,
            final(self).target_t == old(self).target_t,
            final(self).lambda == old(self).lambda,
            final(self).fitness_f == old(self).fitness_f,
            final(self).columns() == old(self).columns().take(k as int),
            final(self).well_formed(),
            old(self).valid() ==> final(self).valid(),
    {
        let ghost before = *self;
        proof {
            assert(self.ngrande * k <= self.ngrande * self.k) by (nonlinear_arith)
                requires
                    k <= self.k,
                    self.ngrande >= 0,
            ;
        }
        self.d.truncate(self.ngrande * k);
        self.k = k;
        proof {
            let n = self.ngrande as int;
            assert forall|j: int| 0 <= j < k implies #[trigger] self.columns()[j]
                =~= before.columns()[j] by {
                assert forall|i: int| 0 <= i < n implies self.columns()[j][i]
                    == before.columns()[j][i] by {
                    lemma_cell_index(n, k as int, i, j);
                }
            }
            assert(self.columns() =~= before.columns().take(k as int));
        }
    }

    /// The bit in row `row` of column `col`.
    pub fn get(&self, row: usize, col: usize) -> (r: bool)
        requires
            self.well_formed(),
            row < self.ngrande,
            col < self.k,
        ensures
            r == self.cell(row as int, col as int),
            r == self.columns()[col as int][row as int],
    {
        proof {
            lemma_cell_index(self.ngrande as int, self.k as int, row as int, col as int);
        }
        self.d[col * self.ngrande + row]
    }

    /// A copy of column `col`.
    pub fn column(&self, col: usize) -> (r: Vec<bool>)
        requires
            self.well_formed(),
            col < self.k,
        ensures
            r@ == self.columns()[col as int],
    {
        let mut out: Vec<bool> = Vec::with_capacity(self.ngrande);
        let mut i: usize = 0;
        while i < self.ngrande
            invariant
                i <= self.ngrande,
                self.well_formed(),
                col < self.k,
                out@.len() == i,
                forall|r: int| 0 <= r < i ==> out@[r] == self.cell(r, col as int),
            decreases self.ngrande - i,
        {
            out.push(self.get(i, col));
            i = i + 1;
        }
        proof {
            assert(out@ =~= self.columns()[col as int]);
        }
        out
    }

    /// A copy of row `row`.
    pub fn row_values(&self, row: usize) -> (r: Vec<bool>)
        requires
            self.well_formed(),
            row < self.ngrande,
        ensures
            r@ == self.row(row as int),
    {
        let mut out: Vec<bool> = Vec::with_capacity(self.k);
        let mut j: usize = 0;
        while j < self.k
            invariant
                j <= self.k,
                self.well_formed(),
                row < self.ngrande,
                out@.len() == j,
                forall|c: int| 0 <= c < j ==> out@[c] == self.cell(row as int, c),
            decreases self.k - j,
        {
            out.push(self.get(row, j));
            j = j + 1;
        }
        proof {
            assert(out@ =~= self.row(row as int));
        }
        out
    }

    /// The columns, first to last.
    pub fn iter_cols(&self) -> (r: Vec<Vec<bool>>)
        requires
            self.well_formed(),
        ensures
            r@.len() == self.k,
            forall|j: int| 0 <= j < self.k ==> (#[trigger] r@[j])@ == self.columns()[j],
    {
        let mut out: Vec<Vec<bool>> = Vec::with_capacity(self.k);
        let mut j: usize = 0;
        while j < self.k
            invariant
                j <= self.k,
                self.well_formed(),
                out@.len() == j,
                forall|c: int| 0 <= c < j ==> (#[trigger] out@[c])@ == self.columns()[c],
            decreases self.k - j,
        {
            out.push(self.column(j));
            j = j + 1;
        }
        out
    }

    /// The rows, top to bottom.
    pub fn iter_rows(&self) -> (r: Vec<Vec<bool>>)
        requires
            self.well_formed(),
        ensures
            r@.len() == self.ngrande,
            forall|i: int| 0 <= i < self.ngrande ==> (#[trigger] r@[i])@ == self.row(i),
    {
        let mut out: Vec<Vec<bool>> = Vec::with_capacity(self.ngrande);
        let mut i: usize = 0;
        while i < self.ngrande
            invariant
                i <= self.ngrande,
                self.well_formed(),
                out@.len() == i,
                forall|r: int| 0 <= r < i ==> (#[trigger] out@[r])@ == self.row(r),
            decreases self.ngrande - i,
        {
            out.push(self.row_values(i));
            i = i + 1;
        }
        out
    }

    /// Whether row `row` equals `v`.
    fn row_equals(&self, row: usize, v: &Vec<bool>) -> (r: bool)
        requires
            self.well_formed(),
            row < self.ngrande,
        ensures
            r == (self.row(row as int) == v@),
    {
        if v.len() != self.k {
            return false;
        }
        let mut j: usize = 0;
        while j < self.k
            invariant
                j <= self.k,
                self.well_formed(),
                row < self.ngrande,
                v@.len() == self.k,
                forall|c: int| 0 <= c < j ==> v@[c] == self.cell(row as int, c),
            decreases self.k - j,
        {
            if self.get(row, j) != v[j] {
                proof {
                    assert(self.row(row as int)[j as int] != v@[j as int]);
                }
                return false;
            }
            j = j + 1;
        }
        proof {
            assert(self.row(row as int) =~= v@);
        }
        true
    }

    /// Whether some row equals `v`.
    pub fn contains_row(&self, v: &Vec<bool>) -> (r: bool)
        requires
            self.well_formed(),
        ensures
            r == self.has_row(v@),
    {
        let mut i: usize = 0;
        while i < self.ngrande
            invariant
                i <= self.ngrande,
                self.well_formed(),
                forall|r: int| 0 <= r < i ==> #[trigger] self.row(r) != v@,
            decreases self.ngrande - i,
        {
            if self.row_equals(i, v) {
                return true;
            }
            i = i + 1;
        }
        false
    }

    /// The exclusive or of rows `a` and `b`.
    fn xor_rows(&self, a: usize, b: usize) -> (r: Vec<bool>)
        requires
            self.well_formed(),
            a < self.ngrande,
            b < self.ngrande,
        ensures
            r@ == xor_seq(self.row(a as int), self.row(b as int)),
    {
        let mut out: Vec<bool> = Vec::with_capacity(self.k);
        let mut j: usize = 0;
        while j < self.k
            invariant
                j <= self.k,
                self.well_formed(),
                a < self.ngrande,
                b < self.ngrande,
                out@.len() == j,
                forall|c: int|
                    0 <= c < j ==> out@[c] == (self.cell(a as int, c) != self.cell(b as int, c)),
            decreases self.k - j,
        {
            out.push(self.get(a, j) != self.get(b, j));
            j = j + 1;
        }
        proof {
            assert(out@ =~= xor_seq(self.row(a as int), self.row(b as int)));
        }
        out
    }

    /// Whether the rows form a linear code.
    pub fn check_linear(&self) -> (r: bool)
        requires
            self.well_formed(),
        ensures
            r == self.is_linear(),
    {
        let mut zero: Vec<bool> = Vec::with_capacity(self.k);
        let mut j: usize = 0;
        while j < self.k
            invariant
                j <= self.k,
                zero@.len() == j,
                forall|c: int| 0 <= c < j ==> !zero@[c],
            decreases self.k - j,
        {
            zero.push(false);
            j = j + 1;
        }
        proof {
            assert(zero@ =~= Seq::new(self.k as nat, |j: int| false));
        }
        if !self.contains_row(&zero) {
            return false;
        }
        let mut a: usize = 0;
        while a < self.ngrande
            invariant
                a <= self.ngrande,
                self.well_formed(),
                forall|x: int, y: int|
                    0 <= x < a && x < y < self.ngrande ==> self.has_row(
                        #[trigger] xor_seq(self.row(x), self.row(y)),
                    ),
            decreases self.ngrande - a,
        {
            let mut b: usize = a + 1;
            while b < self.ngrande
                invariant
                    a < b <= self.ngrande,
                    self.well_formed(),
                    forall|x: int, y: int|
                        0 <= x < a && x < y < self.ngrande ==> self.has_row(
                            #[trigger] xor_seq(self.row(x), self.row(y)),
                        ),
                    forall|y: int|
                        a < y < b ==> self.has_row(
                            #[trigger] xor_seq(self.row(a as int), self.row(y)),
                        ),
                decreases self.ngrande - b,
            {
                let x = self.xor_rows(a, b);
                if !self.contains_row(&x) {
                    return false;
                }
                b = b + 1;
            }
            a = a + 1;
        }
        true
    }
}

} // verus!
