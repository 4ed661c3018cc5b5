//! The genetic search for one more column: a unit is an orthogonal array
//! together with a candidate for its next column.

use vstd::prelude::*;
use rand::rngs::ThreadRng;
use crate::balance::{alternating, balanced, lemma_alternating_balanced, lemma_weight_permuted};
use crate::binary_strings::weight;
use crate::epoch::Unit;
use crate::fitness::FitnessFunction;
use crate::genetic_operators::{
    at_most_one_exchange, balanced_crossover, bred_column, bred_columns, crossover_of,
    exchange_of, lemma_exchange_weight, mutate_column, varied, GAOArray, Probability,
};
use crate::incremental::incremental_defects;
use crate::oarray::{columns_of, copy_bits, lemma_cell_index, OArray, MAX_COLUMNS};
use crate::random::{local_rng, shuffle};
use crate::score::{Defect, Score};
use crate::walsh::walsh_increment;
use crate::wtform::MAX_INPUTS;

verus! {

/// An array that is already orthogonal, a candidate `last_col` for its
/// next column, and the probability by which an offspring's column is
/// mutated.
pub struct IncGAOArray<'a> {
    pub partial: &'a OArray,
    pub last_col: Vec<bool>,
    pub mutation_prob: Probability,
    pub target_k: usize,
}

/// Appending a column to the data appends it to the columns.
pub proof fn lemma_columns_appended(d: Seq<bool>, col: Seq<bool>, n: nat, k: nat)
    requires
        d.len() == n * k,
        col.len() == n,
    ensures
        columns_of(d + col, n, k + 1) == columns_of(d, n, k).push(col),
{
    let after = columns_of(d + col, n, k + 1);
    let expected = columns_of(d, n, k).push(col);
    assert(k * n == n * k) by (nonlinear_arith);
    assert forall|c: int| 0 <= c < k + 1 implies #[trigger] after[c] =~= expected[c] by {
        assert forall|r: int| 0 <= r < n implies after[c][r] == expected[c][r] by {
            lemma_cell_index(n as int, (k + 1) as int, r, c);
            if c < k {
                lemma_cell_index(n as int, k as int, r, c);
            }
        }
    }
    assert(after =~= expected);
}

impl<'a> IncGAOArray<'a> {
    /// The partial array is valid and the candidate column fits it; the
    /// array with the column added is within the limits on size and can
    /// be scored under the method of the partial array.
    pub open spec fn well_formed(&self) -> bool {
        &&& self.partial.valid()
        &&& self.last_col.len() == self.partial.ngrande
        &&& self.partial.k < MAX_COLUMNS
        &&& self.partial.ngrande * (self.partial.k + 1) <= usize::MAX
        &&& 1 <= self.partial.target_t <= self.partial.k + 1
        &&& (self.partial.fitness_f is Cidev || self.partial.fitness_f is Comb)
            ==> self.partial.k + 1 <= MAX_INPUTS
    }

    /// The columns of the partial array followed by the candidate.
    pub open spec fn completed(&self) -> Seq<Seq<bool>> {
        self.partial.columns().push(self.last_col@)
    }

    /// A unit for `partial` with a random balanced candidate: ones and
    /// zeros in turn, shuffled. The partial array has a perfect score.
    pub fn new(partial: &'a OArray, mutation_prob: Probability, target_k: usize) -> (r: Self)
        requires
            partial.scorable(),
            partial.defect().is_zero(),
        ensures
            r.partial == partial,
            r.mutation_prob == mutation_prob,
            r.target_k == target_k,
            r.last_col@.to_multiset() == alternating(0, partial.ngrande as nat).to_multiset(),
            r.last_col.len() == partial.ngrande,
            partial.ngrande % 2 == 0 ==> balanced(r.last_col@),
    {
        let mut r = local_rng();
        let mut last_col: Vec<bool> = Vec::new();
        let mut i: usize = 0;
        while i < partial.ngrande
            invariant
                i <= partial.ngrande,
                last_col@.len() == i,
                forall|x: int| 0 <= x < i ==> last_col@[x] == (x % 2 == 0),
            decreases partial.ngrande - i,
        {
            last_col.push(i % 2 == 0);
            i = i + 1;
        }
        proof {
            assert(last_col@ =~= alternating(0, partial.ngrande as nat));
        }
        shuffle(&mut r, &mut last_col);
        proof {
            lemma_weight_permuted(last_col@, alternating(0, partial.ngrande as nat));
            if partial.ngrande % 2 == 0 {
                lemma_alternating_balanced(0, partial.ngrande as nat);
            }
        }
        IncGAOArray { partial, last_col, mutation_prob, target_k }
    }

    /// With probability `prob`, exchanges two bits of the candidate that
    /// differ. So the candidate is as it was or has two bits exchanged;
    /// with a probability that is certain, a candidate that holds zeros
    /// and ones has two bits exchanged, and with one that never happens,
    /// it stays as it is.
    pub fn mutate_with_prob(&mut self, prob: Probability, rng: &mut ThreadRng)
        ensures
            final(self).partial == old(self).partial,
            final(self).mutation_prob == old(self).mutation_prob,
            final(self).target_k == old(self).target_k,
            at_most_one_exchange(old(self).last_col@, final(self).last_col@),
            weight(final(self).last_col@) == weight(old(self).last_col@),
            final(self).last_col@.len() == old(self).last_col@.len(),
            prob.is_never() ==> final(self).last_col@ == old(self).last_col@,
            prob.is_certain() && varied(old(self).last_col@) ==> exchange_of(
                old(self).last_col@,
                final(self).last_col@,
            ),
    {
        if prob.draw(rng) {
            mutate_column(&mut self.last_col, rng);
        }
        proof {
            lemma_exchange_weight(old(self).last_col@, self.last_col@);
        }
    }

    /// The partial array with the candidate as its last column.
    pub fn complete_oa(&self) -> (r: OArray)
        requires
            self.well_formed(),
        ensures
            r.valid(),
            r.ngrande == self.partial.ngrande,
            r.k == self.partial.k + 1,
            r.target_t == self.partial.target_t,
            r.fitness_f == self.partial.fitness_f,
            r.columns() == self.completed(),
    {
        let mut other = self.partial.clone();
        let mut last = copy_bits(&self.last_col);
        proof {
            lemma_columns_appended(
                other.d@,
                last@,
                other.ngrande as nat,
                other.k as nat,
            );
            assert(other.ngrande * (other.k + 1) == other.ngrande * other.k + other.ngrande)
                by (nonlinear_arith);
        }
        other.d.append(&mut last);
        other.k = other.k + 1;
        other
    }

    /// The defect by which the unit is ranked: for the Walsh methods and
    /// for DeltaFast, what the candidate adds to the defect of the
    /// partial array; for the other methods, the defect of the completed
    /// array.
    pub open spec fn defect(&self) -> Defect {
        let cols = self.partial.columns();
        let n = self.partial.ngrande as nat;
        let k = self.partial.k as nat;
        let t = self.partial.target_t as nat;
        match self.partial.fitness_f {
            FitnessFunction::Walsh(x) => Defect::Whole(
                walsh_increment(cols, k, t, self.last_col@, x as nat),
            ),
            FitnessFunction::WalshFaster(x) => Defect::Whole(
                walsh_increment(cols, k, t, self.last_col@, x as nat),
            ),
            FitnessFunction::DeltaFast => Defect::RootSum(
                incremental_defects(self.completed(), n, k + 1, t),
            ),
            f => crate::fitness::defect_of(self.completed(), n, k + 1, t, f),
        }
    }

    /// The score by which the unit is ranked; `None` where a whole defect
    /// exceeds 64 bits.
    pub fn score(&self) -> (r: Option<Score>)
        requires
            self.well_formed(),
        ensures
            match r {
                Some(score) => score@ == self.defect(),
                None => self.defect() matches Defect::Whole(x) && x > u64::MAX,
            },
    {
        match self.partial.fitness_f {
            FitnessFunction::Walsh(x) => {
                match self.partial.walsh_incremental(x, self.last_col.as_slice()) {
                    Some(v) => Some(Score::Whole(v)),
                    None => None,
                }
            },
            FitnessFunction::WalshFaster(x) => {
                match self.partial.walsh_incremental_faster(x, self.last_col.as_slice()) {
                    Some(v) => Some(Score::Whole(v)),
                    None => None,
                }
            },
            FitnessFunction::DeltaFast => {
                let oa = self.complete_oa();
                let qs = oa.delta_incremental_faster();
                let score = Score::RootSum(qs);
                proof {
                    assert(score.entries() =~= incremental_defects(
                        self.completed(),
                        self.partial.ngrande as nat,
                        (self.partial.k + 1) as nat,
                        self.partial.target_t as nat,
                    ));
                }
                Some(score)
            },
            _ => {
                let oa = self.complete_oa();
                proof {
                    crate::fitness::lemma_defect_of_columns(&oa, oa.fitness_f);
                }
                oa.fitness()
            },
        }
    }
}

/// The incremental score is the score of the completed array: where the
/// partial array has a perfect score under a Walsh method or under
/// DeltaFast, the defect by which a unit is ranked has the key of the
/// defect of the partial array with the candidate as its last column, and
/// is zero exactly where that is. Under the Walsh methods the two defects
/// are the same number.
pub proof fn lemma_incremental_score(unit: &IncGAOArray)
    requires
        unit.well_formed(),
        unit.partial.defect().is_zero(),
        unit.partial.fitness_f is Walsh || unit.partial.fitness_f is WalshFaster
            || unit.partial.fitness_f is DeltaFast,
    ensures
        ({
            let whole = crate::fitness::defect_of(
                unit.completed(),
                unit.partial.ngrande as nat,
                (unit.partial.k + 1) as nat,
                unit.partial.target_t as nat,
                unit.partial.fitness_f,
            );
            &&& unit.defect().key() == whole.key()
            &&& unit.defect().is_zero() == whole.is_zero()
            &&& !(unit.partial.fitness_f is DeltaFast) ==> unit.defect() == whole
        }),
{
    let cols = unit.partial.columns();
    let n = unit.partial.ngrande as nat;
    let k = unit.partial.k as nat;
    let t = unit.partial.target_t as nat;
    let last = unit.last_col@;
    match unit.partial.fitness_f {
        FitnessFunction::Walsh(x) => {
            crate::walsh::lemma_walsh_incremental(cols, n, k, t, last, x as nat);
        },
        FitnessFunction::WalshFaster(x) => {
            crate::walsh::lemma_walsh_methods_agree(cols, k, t, crate::walsh::zeros(n), x as nat);
            crate::walsh::lemma_walsh_methods_agree(
                cols.push(last),
                k + 1,
                t,
                crate::walsh::zeros(n),
                x as nat,
            );
            crate::walsh::lemma_walsh_incremental(cols, n, k, t, last, x as nat);
        },
        FitnessFunction::DeltaFast => {
            crate::incremental::lemma_delta_incremental(cols, last, n, k, t);
            crate::score::lemma_zeros_before(
                crate::fitness::delta_defects(cols, n, k, t),
                incremental_defects(cols.push(last), n, k + 1, t),
            );
        },
        _ => {},
    }
}

impl<'a> Unit for IncGAOArray<'a> {
    open spec fn ready(&self) -> bool {
        self.well_formed() && self.partial.ngrande % 2 == 0
    }

    open spec fn family(&self) -> Seq<int> {
        seq![self.partial.ngrande as int, self.partial.k as int, self.partial.target_t as int]
    }

    open spec fn fitness_spec(&self) -> int {
        self.defect().key()
    }

    open spec fn bred_from(&self, mother: &Self, father: &Self) -> bool {
        &&& self.partial == mother.partial
        &&& self.mutation_prob == mother.mutation_prob
        &&& self.target_k == mother.target_k
        &&& self.last_col@.len() == mother.last_col@.len()
        &&& balanced(self.last_col@)
        &&& bred_column(
            mother.last_col@,
            father.last_col@,
            mother.mutation_prob,
            self.last_col@,
        )
    }

    fn fitness(&self) -> (r: i64) {
        match self.score() {
            Some(score) => score.key(),
            None => -0x7FFF_FFFF_FFFF_FFFF,
        }
    }

    /// An offspring for the same partial array: its candidate is the
    /// balanced crossover of the parents' candidates, mutated with the
    /// probability of the first parent.
    fn breed_with(&self, other: &Self) -> (child: Self) {
        let mut rng = local_rng();
        let last_col = balanced_crossover(
            self.last_col.as_slice(),
            other.last_col.as_slice(),
            &mut rng,
        );
        let mut out = IncGAOArray {
            partial: self.partial,
            last_col,
            mutation_prob: self.mutation_prob,
            target_k: self.target_k,
        };
        let ghost mid = out.last_col@;
        out.mutate_with_prob(self.mutation_prob, &mut rng);
        proof {
            assert(crossover_of(self.last_col@, other.last_col@, mid));
            assert(at_most_one_exchange(mid, out.last_col@));
        }
        out
    }
}

impl Unit for GAOArray {
    open spec fn ready(&self) -> bool {
        self.oa.scorable() && self.oa.ngrande % 2 == 0
    }

    open spec fn family(&self) -> Seq<int> {
        seq![self.oa.ngrande as int, self.oa.k as int, self.oa.target_t as int]
    }

    open spec fn fitness_spec(&self) -> int {
        self.oa.defect().key()
    }

    open spec fn bred_from(&self, mother: &Self, father: &Self) -> bool {
        &&& self.oa.valid()
        &&& self.oa.ngrande == mother.oa.ngrande
        &&& self.oa.k == mother.oa.k
        &&& self.oa.target_t == mother.oa.target_t
        &&& self.oa.fitness_f == mother.oa.fitness_f
        &&& self.mutation_prob == mother.mutation_prob
        &&& self.oa.all_balanced()
        &&& bred_columns(
            mother.oa.columns(),
            father.oa.columns(),
            mother.mutation_prob,
            self.oa.columns(),
            mother.oa.k as nat,
        )
    }

    fn fitness(&self) -> (r: i64) {
        match self.oa.fitness() {
            Some(score) => score.key(),
            None => -0x7FFF_FFFF_FFFF_FFFF,
        }
    }

    fn breed_with(&self, other: &Self) -> (child: Self) {
        proof {
            assert(self.family()[0] == other.family()[0]);
            assert(self.family()[1] == other.family()[1]);
        }
        GAOArray::breed_with(self, other)
    }
}

} // verus!
