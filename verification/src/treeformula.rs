//! Boolean formulas as trees: an array can be given by one formula for
//! each column, evaluated on the number of each row.

use vstd::prelude::*;
use crate::balance::flatten;
use crate::binary_strings::{pow2, value_le, BinaryStringIterator};
use crate::fitness::{column_sum, views, FitnessFunction};
use crate::oarray::{valid_parameters, OArray, MAX_COLUMNS, MAX_ROWS};
use crate::walsh::{magnitude, signed_sum};

verus! {

/// A formula over the variables `x_0, x_1, ..`.
#[derive(Debug, PartialEq, Eq)]
pub enum TreeFormula {
    Xor(Box<TreeFormula>, Box<TreeFormula>),
    If(Box<TreeFormula>, Box<TreeFormula>, Box<TreeFormula>),
    And(Box<TreeFormula>, Box<TreeFormula>),
    Or(Box<TreeFormula>, Box<TreeFormula>),
    Not(Box<TreeFormula>),
    Var(usize),
}

/// How many variables the formulas of a search may read.
pub struct TreeFormulaConfig {
    pub n_variables: usize,
}

/// The `n` binary digits of `r`, least significant first.
pub open spec fn bits_le(r: nat, n: nat) -> Seq<bool>
    decreases n,
{
    if n == 0 {
        Seq::<bool>::empty()
    } else {
        seq![r % 2 == 1] + bits_le(r / 2, (n - 1) as nat)
    }
}

/// A string is the digits of its value.
pub proof fn lemma_value_le_bits(s: Seq<bool>)
    ensures
        s == bits_le(value_le(s), s.len()),
    decreases s.len(),
{
    if s.len() > 0 {
        lemma_value_le_bits(s.drop_first());
        assert(s =~= seq![s[0]] + s.drop_first());
    } else {
        assert(s =~= Seq::<bool>::empty());
    }
}

impl TreeFormula {
    /// The value of the formula where variable `i` has the value
    /// `env[i]`.
    pub open spec fn value(&self, env: Seq<bool>) -> bool
        decreases self,
    {
        match self {
            TreeFormula::Xor(a, b) => a.value(env) != b.value(env),
            TreeFormula::And(a, b) => a.value(env) && b.value(env),
            TreeFormula::Or(a, b) => a.value(env) || b.value(env),
            TreeFormula::Not(a) => !a.value(env),
            TreeFormula::Var(i) => env[*i as int],
            TreeFormula::If(cond, a, b) => if cond.value(env) {
                a.value(env)
            } else {
                b.value(env)
            },
        }
    }

    /// Every variable that the formula reads has an index below `n`.
    pub open spec fn reads_below(&self, n: nat) -> bool
        decreases self,
    {
        match self {
            TreeFormula::Xor(a, b) => a.reads_below(n) && b.reads_below(n),
            TreeFormula::And(a, b) => a.reads_below(n) && b.reads_below(n),
            TreeFormula::Or(a, b) => a.reads_below(n) && b.reads_below(n),
            TreeFormula::Not(a) => a.reads_below(n),
            TreeFormula::Var(i) => *i < n,
            TreeFormula::If(cond, a, b) => cond.reads_below(n) && a.reads_below(n)
                && b.reads_below(n),
        }
    }

    /// How many formulas stand directly under this one.
    pub open spec fn arity(&self) -> nat {
        match self {
            TreeFormula::Xor(_, _) => 2,
            TreeFormula::And(_, _) => 2,
            TreeFormula::Or(_, _) => 2,
            TreeFormula::If(_, _, _) => 3,
            TreeFormula::Not(_) => 1,
            TreeFormula::Var(_) => 0,
        }
    }

    /// How many formulas stand directly under this one.
    pub fn count_children(&self) -> (r: usize)
        ensures
            r == self.arity(),
    {
        match self {
            TreeFormula::Xor(_, _) => 2,
            TreeFormula::And(_, _) => 2,
            TreeFormula::Or(_, _) => 2,
            TreeFormula::If(_, _, _) => 3,
            TreeFormula::Not(_) => 1,
            TreeFormula::Var(_) => 0,
        }
    }

    /// Whether every variable that the formula reads has an index below
    /// `n`.
    pub fn fits(&self, n: usize) -> (r: bool)
        ensures
            r == self.reads_below(n as nat),
        decreases self,
    {
        match self {
            TreeFormula::Xor(a, b) => a.fits(n) && b.fits(n),
            TreeFormula::And(a, b) => a.fits(n) && b.fits(n),
            TreeFormula::Or(a, b) => a.fits(n) && b.fits(n),
            TreeFormula::Not(a) => a.fits(n),
            TreeFormula::Var(i) => *i < n,
            TreeFormula::If(cond, a, b) => cond.fits(n) && a.fits(n) && b.fits(n),
        }
    }

    /// The value of the formula where variable `i` has the value `env[i]`.
    pub fn evaluate(&self, env: &Vec<bool>) -> (r: bool)
        requires
            self.reads_below(env@.len()),
        ensures
            r == self.value(env@),
        decreases self,
    {
        match self {
            TreeFormula::Xor(a, b) => a.evaluate(env) != b.evaluate(env),
            TreeFormula::And(a, b) => a.evaluate(env) && b.evaluate(env),
            TreeFormula::Or(a, b) => a.evaluate(env) || b.evaluate(env),
            TreeFormula::Not(a) => !a.evaluate(env),
            TreeFormula::Var(i) => env[*i],
            TreeFormula::If(cond, a, b) => {
                if cond.evaluate(env) {
                    a.evaluate(env)
                } else {
                    b.evaluate(env)
                }
            },
        }
    }

    /// The column of the formula: its value on the digits of each row
    /// number from zero up to, not including, `ngrande`.
    pub fn column(&self, n: usize, ngrande: usize) -> (r: Vec<bool>)
        requires
            self.reads_below(n as nat),
            ngrande <= pow2(n as nat),
        ensures
            r@.len() == ngrande,
            forall|row: int|
                0 <= row < ngrande ==> r@[row] == self.value(bits_le(row as nat, n as nat)),
    {
        let mut out: Vec<bool> = Vec::new();
        let mut envs = BinaryStringIterator::new(n);
        let mut row: usize = 0;
        while row < ngrande
            invariant
                row <= ngrande,
                ngrande <= pow2(n as nat),
                self.reads_below(n as nat),
                envs.string().len() == n,
                row < ngrande ==> !envs.finished() && value_le(envs.string()) == row,
                out@.len() == row,
                forall|x: int| 0 <= x < row ==> out@[x] == self.value(bits_le(x as nat, n as nat)),
            decreases ngrande - row,
        {
            let env = envs.next().unwrap();
            proof {
                lemma_value_le_bits(env@);
            }
            out.push(self.evaluate(&env));
            row = row + 1;
        }
        out
    }
}

/// An array given by a formula for each column.
pub struct GPOArray {
    pub trees: Vec<TreeFormula>,
    pub ngrande: usize,
    pub n: usize,
    pub k: usize,
    pub target_t: u32,
    pub fitness_f: FitnessFunction,
}

/// The sizes of the signed sums of the first `m` columns, summed.
pub open spec fn imbalance_upto(cols: Seq<Seq<bool>>, m: nat) -> nat
    decreases m,
{
    if m == 0 {
        0
    } else {
        imbalance_upto(cols, (m - 1) as nat) + magnitude(
            signed_sum(cols[m - 1], cols[m - 1].len()),
        )
    }
}

/// How far the columns of `oa` are from being balanced: the sizes of
/// their signed sums, summed.
pub fn imbalance(oa: &OArray) -> (r: u64)
    requires
        oa.well_formed(),
    ensures
        r == imbalance_upto(oa.columns(), oa.k as nat),
{
    let mut tot: u64 = 0;
    let mut j: usize = 0;
    while j < oa.k
        invariant
            j <= oa.k,
            oa.well_formed(),
            tot == imbalance_upto(oa.columns(), j as nat),
            tot <= j * 0x7FFF_FFFF,
        decreases oa.k - j,
    {
        let col = oa.column(j);
        let acc = column_sum(&col);
        let size: u64 = if acc >= 0 {
            acc as u64
        } else {
            (-acc) as u64
        };
        proof {
            assert((j + 1) * 0x7FFF_FFFF <= 0x7FFF_FFFF * 0x7FFF_FFFF) by (nonlinear_arith)
                requires
                    j + 1 <= 0x7FFF_FFFF,
            ;
        }
        tot = tot + size;
        j = j + 1;
    }
    tot
}

impl GPOArray {
    /// There is a formula for each column, each reads the `n` digits of
    /// a row number only, and the shape admits an array.
    pub open spec fn well_formed(&self) -> bool {
        &&& self.trees@.len() == self.k
        &&& forall|c: int| 0 <= c < self.k ==> (#[trigger] self.trees@[c]).reads_below(self.n as nat)
        &&& self.ngrande <= pow2(self.n as nat)
        &&& valid_parameters(self.ngrande, self.target_t)
        &&& self.ngrande <= MAX_ROWS
        &&& self.k <= MAX_COLUMNS
        &&& self.ngrande * self.k <= usize::MAX
    }

    /// The array that the formulas give: in row `r` of column `c` stands
    /// the value of formula `c` on the digits of `r`.
    pub fn to_oarray(&self) -> (r: OArray)
        requires
            self.well_formed(),
        ensures
            r.valid(),
            r.ngrande == self.ngrande,
            r.k == self.k,
            r.target_t == self.target_t,
            r.fitness_f == self.fitness_f,
            forall|c: int, row: int|
                0 <= c < self.k && 0 <= row < self.ngrande ==> #[trigger] r.columns()[c][row]
                    == self.trees@[c].value(bits_le(row as nat, self.n as nat)),
    {
        let mut cols: Vec<Vec<bool>> = Vec::new();
        let mut col: usize = 0;
        while col < self.k
            invariant
                col <= self.k,
                self.well_formed(),
                cols@.len() == col,
                forall|c: int| 0 <= c < col ==> (#[trigger] cols@[c])@.len() == self.ngrande,
                forall|c: int, row: int|
                    0 <= c < col && 0 <= row < self.ngrande ==> #[trigger] cols@[c]@[row]
                        == self.trees@[c].value(bits_le(row as nat, self.n as nat)),
            decreases self.k - col,
        {
            let tree = &self.trees[col];
            cols.push(tree.column(self.n, self.ngrande));
            col = col + 1;
        }
        let oa_data = flatten(&cols, self.ngrande);
        let out = OArray::new(self.ngrande, self.k, self.target_t, oa_data, self.fitness_f);
        proof {
            assert(out.columns() == views(cols@));
            assert forall|c: int, row: int|
                0 <= c < self.k && 0 <= row < self.ngrande implies #[trigger] out.columns()[c][row]
                == self.trees@[c].value(bits_le(row as nat, self.n as nat)) by {
                assert(out.columns()[c] == cols@[c]@);
            }
        }
        out
    }
}

} // verus!
