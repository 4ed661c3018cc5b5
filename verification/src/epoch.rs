//! One generation of the search by tournaments: three units are drawn,
//! the two fittest breed, and the best unit of the old generation is kept
//! where no offspring matches it.

use vstd::prelude::*;
use rand::rngs::ThreadRng;
use crate::random::random_below;

verus! {

/// What the generations are made of. A unit has a fitness, a whole number
/// by which units are ranked: larger is better, and zero is perfect. Two
/// units of one family can breed.
pub trait Unit: Sized {
    /// The unit can be scored and bred.
    spec fn ready(&self) -> bool;

    /// What two units must share to breed.
    spec fn family(&self) -> Seq<int>;

    /// The fitness of the unit.
    spec fn fitness_spec(&self) -> int;

    /// The unit can be an offspring of `mother` and `father`.
    spec fn bred_from(&self, mother: &Self, father: &Self) -> bool;

    fn fitness(&self) -> (r: i64)
        requires
            self.ready(),
        ensures
            r == self.fitness_spec(),
    ;

    fn breed_with(&self, other: &Self) -> (child: Self)
        requires
            self.ready(),
            other.ready(),
            self.family() == other.family(),
        ensures
            child.ready(),
            child.family() == self.family(),
            child.bred_from(self, other),
    ;
}

/// A unit with its fitness, once that has been computed.
pub struct LazyUnit<T> {
    pub unit: T,
    pub lazy_fitness: Option<i64>,
}

impl<T: Unit> LazyUnit<T> {
    /// The unit is ready, and the fitness kept with it, if any, is its
    /// own.
    pub open spec fn sound(&self) -> bool {
        &&& self.unit.ready()
        &&& match self.lazy_fitness {
            Some(f) => f == self.unit.fitness_spec(),
            None => true,
        }
    }

    /// The unit, with no fitness computed yet.
    pub fn from(unit: T) -> (r: Self)
        ensures
            r.unit == unit,
            r.lazy_fitness.is_none(),
    {
        LazyUnit { unit, lazy_fitness: None }
    }

    /// The fitness of the unit, computed at the first call and kept.
    pub fn fitness(&mut self) -> (r: i64)
        requires
            old(self).sound(),
        ensures
            final(self).unit == old(self).unit,
            final(self).lazy_fitness == Some(r),
            r == old(self).unit.fitness_spec(),
    {
        match self.lazy_fitness {
            Some(f) => f,
            None => {
                let f = self.unit.fitness();
                self.lazy_fitness = Some(f);
                f
            },
        }
    }
}

/// The fitness of each unit of a generation.
pub open spec fn scores<T: Unit>(units: Seq<LazyUnit<T>>) -> Seq<int> {
    Seq::new(units.len(), |i: int| units[i].unit.fitness_spec())
}

/// The largest of the first `m` scores; of none, the first score.
pub open spec fn best_upto(s: Seq<int>, m: nat) -> int
    decreases m,
{
    if m <= 1 {
        s[0]
    } else if s[m - 1] >= best_upto(s, (m - 1) as nat) {
        s[m - 1]
    } else {
        best_upto(s, (m - 1) as nat)
    }
}

/// The largest score.
pub open spec fn best(s: Seq<int>) -> int {
    best_upto(s, s.len())
}

/// The best score is a score, and no score exceeds it.
pub proof fn lemma_best(s: Seq<int>, m: nat)
    requires
        1 <= m <= s.len(),
    ensures
        forall|i: int| 0 <= i < m ==> #[trigger] s[i] <= best_upto(s, m),
        exists|i: int| 0 <= i < m && #[trigger] s[i] == best_upto(s, m),
    decreases m,
{
    if m > 1 {
        lemma_best(s, (m - 1) as nat);
        if s[m - 1] >= best_upto(s, (m - 1) as nat) {
            assert(s[m - 1] == best_upto(s, m));
        } else {
            let i = choose|i: int| 0 <= i < m - 1 && #[trigger] s[i] == best_upto(s, (m - 1) as nat);
            assert(s[i] == best_upto(s, m));
        }
    } else {
        assert(s[0] == best_upto(s, m));
    }
}

/// `(a, b, c)` are three different places below `len`.
pub open spec fn distinct_triple(a: int, b: int, c: int, len: int) -> bool {
    &&& 0 <= a < len
    &&& 0 <= b < len
    &&& 0 <= c < len
    &&& a != b
    &&& a != c
    &&& b != c
}

/// Three different places below `len`, drawn at random: the first among
/// all, the second among the others, the third among the rest.
pub fn draw_triple(len: usize, r: &mut ThreadRng) -> (t: (usize, usize, usize))
    requires
        len >= 3,
    ensures
        distinct_triple(t.0 as int, t.1 as int, t.2 as int, len as int),
{
    let a = random_below(r, len);
    let mut b = random_below(r, len - 1);
    if b >= a {
        b = b + 1;
    }
    let low = if a < b {
        a
    } else {
        b
    };
    let high = if a < b {
        b
    } else {
        a
    };
    let mut c = random_below(r, len - 2);
    if c >= low {
        c = c + 1;
    }
    if c >= high {
        c = c + 1;
    }
    (a, b, c)
}

/// The two fittest of three units, by their fitness `fa`, `fb`, `fc`:
/// the place, zero to two, of the fittest and of the runner-up. Of two
/// units of equal fitness the later one ranks higher, as after a stable
/// sort in rising order.
pub open spec fn top_two(fa: int, fb: int, fc: int) -> (int, int) {
    if fa <= fb {
        if fb <= fc {
            (2, 1)
        } else if fa <= fc {
            (1, 2)
        } else {
            (1, 0)
        }
    } else {
        if fa <= fc {
            (2, 0)
        } else if fb <= fc {
            (0, 2)
        } else {
            (0, 1)
        }
    }
}

/// The places, zero to two, of the fittest and of the runner-up among
/// three units of fitness `fa`, `fb`, `fc`.
pub fn rank_triple(fa: i64, fb: i64, fc: i64) -> (r: (usize, usize))
    ensures
        (r.0 as int, r.1 as int) == top_two(fa as int, fb as int, fc as int),
        r.0 < 3,
        r.1 < 3,
        r.0 != r.1,
{
    if fa <= fb {
        if fb <= fc {
            (2, 1)
        } else if fa <= fc {
            (1, 2)
        } else {
            (1, 0)
        }
    } else {
        if fa <= fc {
            (2, 0)
        } else if fb <= fc {
            (0, 2)
        } else {
            (0, 1)
        }
    }
}

/// The fittest of three is at least as fit as the runner-up, and the
/// runner-up at least as fit as the third.
pub proof fn lemma_top_two(fa: int, fb: int, fc: int)
    ensures
        ({
            let f = seq![fa, fb, fc];
            let (first, second) = top_two(fa, fb, fc);
            let third = 3 - first - second;
            &&& 0 <= first < 3 && 0 <= second < 3 && 0 <= third < 3
            &&& first != second && first != third && second != third
            &&& f[first] >= f[second] >= f[third]
        }),
{
}

/// The place of the last among the largest of `keys`.
pub fn index_of_best(keys: &Vec<i64>) -> (r: usize)
    requires
        keys.len() >= 1,
    ensures
        r < keys.len(),
        forall|i: int| 0 <= i < keys@.len() ==> keys@[i] <= keys@[r as int],
        forall|i: int| r < i < keys@.len() ==> keys@[i] < keys@[r as int],
{
    let mut at: usize = 0;
    let mut i: usize = 1;
    while i < keys.len()
        invariant
            1 <= i <= keys.len(),
            at < i,
            forall|x: int| 0 <= x < i ==> keys@[x] <= keys@[at as int],
            forall|x: int| at < x < i ==> keys@[x] < keys@[at as int],
        decreases keys.len() - i,
    {
        if keys[i] >= keys[at] {
            at = i;
        }
        i = i + 1;
    }
    at
}

/// The place of the first among the smallest of `keys`.
pub fn index_of_worst(keys: &Vec<i64>) -> (r: usize)
    requires
        keys.len() >= 1,
    ensures
        r < keys.len(),
        forall|i: int| 0 <= i < keys@.len() ==> keys@[i] >= keys@[r as int],
        forall|i: int| 0 <= i < r ==> keys@[i] > keys@[r as int],
{
    let mut at: usize = 0;
    let mut i: usize = 1;
    while i < keys.len()
        invariant
            1 <= i <= keys.len(),
            at < i,
            forall|x: int| 0 <= x < i ==> keys@[x] >= keys@[at as int],
            forall|x: int| 0 <= x < at ==> keys@[x] > keys@[at as int],
        decreases keys.len() - i,
    {
        if keys[i] < keys[at] {
            at = i;
        }
        i = i + 1;
    }
    at
}

/// Of the places `a`, `b`, `c`, the one that stands at place `which` of
/// the three.
pub open spec fn drawn(a: int, b: int, c: int, which: int) -> int {
    if which == 0 {
        a
    } else if which == 1 {
        b
    } else {
        c
    }
}

/// `child` can be the offspring of the tournament among the units at the
/// places `a`, `b`, `c` of `old`: of the fittest of the three as mother
/// and the runner-up as father.
pub open spec fn won_by<T: Unit>(old: Seq<LazyUnit<T>>, child: &T, a: int, b: int, c: int) -> bool {
    let ranks = top_two(
        old[a].unit.fitness_spec(),
        old[b].unit.fitness_spec(),
        old[c].unit.fitness_spec(),
    );
    &&& distinct_triple(a, b, c, old.len() as int)
    &&& child.bred_from(&old[drawn(a, b, c, ranks.0)].unit, &old[drawn(a, b, c, ranks.1)].unit)
}

/// `child` can be the offspring of a tournament among three different
/// units of `old`.
pub open spec fn tournament_child<T: Unit>(old: Seq<LazyUnit<T>>, child: &T) -> bool {
    exists|a: int, b: int, c: int| #[trigger] won_by(old, child, a, b, c)
}

/// `i` is the place of the last among the largest of `s`.
pub open spec fn is_last_best(s: Seq<int>, i: int) -> bool {
    &&& 0 <= i < s.len()
    &&& forall|x: int| 0 <= x < s.len() ==> #[trigger] s[x] <= s[i]
    &&& forall|x: int| i < x < s.len() ==> #[trigger] s[x] < s[i]
}

/// `i` is the place of the first among the smallest of `s`.
pub open spec fn is_first_worst(s: Seq<int>, i: int) -> bool {
    &&& 0 <= i < s.len()
    &&& forall|x: int| 0 <= x < s.len() ==> #[trigger] s[x] >= s[i]
    &&& forall|x: int| 0 <= x < i ==> #[trigger] s[x] > s[i]
}

/// `next` is the generation that follows from the old generation `old`
/// and its offspring `bred`: the offspring, and where the best of the old
/// generation is fitter than all of them, that unit in the place of the
/// first among the least fit offspring. Of several best units the last
/// one is taken.
pub open spec fn elected<T: Unit>(
    old: Seq<LazyUnit<T>>,
    bred: Seq<LazyUnit<T>>,
    next: Seq<LazyUnit<T>>,
) -> bool {
    if best(scores(old)) > best(scores(bred)) {
        exists|b: int, w: int|
            #![trigger is_last_best(scores(old), b), is_first_worst(scores(bred), w)]
            is_last_best(scores(old), b) && is_first_worst(scores(bred), w) && next.len()
                == bred.len() && next[w].unit == old[b].unit && forall|x: int|
                0 <= x < bred.len() && x != w ==> #[trigger] next[x] == bred[x]
    } else {
        next == bred
    }
}

/// Every unit of `bred` can be the offspring of a tournament among three
/// different units of `old`.
pub open spec fn all_bred<T: Unit>(old: Seq<LazyUnit<T>>, bred: Seq<LazyUnit<T>>) -> bool {
    forall|x: int| 0 <= x < bred.len() ==> tournament_child(old, &(#[trigger] bred[x]).unit)
}

/// Every unit of the generation is sound, and all are of one family.
pub open spec fn generation<T: Unit>(units: Seq<LazyUnit<T>>, family: Seq<int>) -> bool {
    forall|i: int|
        0 <= i < units.len() ==> (#[trigger] units[i]).sound() && units[i].unit.family() == family
}

/// The policy of one generation: tournaments of three, and the best of
/// the old generation kept.
pub struct TournamentEpoch {}

impl TournamentEpoch {
    /// The policy has no parameters.
    pub fn new() -> (r: Self) {
        TournamentEpoch {  }
    }

    /// Replaces `units` by the next generation, of `size` units. Each new
    /// unit is bred from the two fittest of three different units drawn
    /// at random. Where the best of the old generation is fitter than
    /// every offspring, it takes the place of the least fit offspring.
    /// The result tells whether the search should go on: whether the
    /// best of the old generation fell short of the perfect fitness,
    /// zero.
    pub fn epoch<T: Unit>(
        &self,
        units: &mut Vec<LazyUnit<T>>,
        size: usize,
        r: &mut ThreadRng,
    ) -> (go_on: bool)
        requires
            old(units).len() >= 3,
            size >= 1,
            generation(old(units)@, old(units)@[0].unit.family()),
        ensures
            final(units).len() == size,
            generation(final(units)@, old(units)@[0].unit.family()),
            best(scores(final(units)@)) >= best(scores(old(units)@)),
            go_on == (best(scores(old(units)@)) != 0),
            forall|i: int| 0 <= i < size ==> (#[trigger] final(units)@[i]).lazy_fitness.is_some(),
            exists|bred: Seq<LazyUnit<T>>|
                bred.len() == size && all_bred(old(units)@, bred) && #[trigger] elected(
                    old(units)@,
                    bred,
                    final(units)@,
                ),
    {
        let ghost family = units@[0].unit.family();
        let ghost old_units = units@;
        let unit_len = units.len();
        // The fitness of every unit of the old generation.
        let mut old_keys: Vec<i64> = Vec::with_capacity(unit_len);
        let mut i: usize = 0;
        while i < unit_len
            invariant
                i <= unit_len,
                unit_len == units.len(),
                units@.len() == old_units.len(),
                old_keys@.len() == i,
                generation(units@, family),
                forall|x: int|
                    0 <= x < unit_len ==> (#[trigger] units@[x]).unit == old_units[x].unit,
                forall|x: int|
                    0 <= x < i ==> old_keys@[x] == (#[trigger] old_units[x]).unit.fitness_spec(),
                forall|x: int| 0 <= x < i ==> (#[trigger] units@[x]).lazy_fitness.is_some(),
            decreases unit_len - i,
        {
            let ghost before = units@;
            let f = units[i].fitness();
            old_keys.push(f);
            proof {
                assert forall|x: int| 0 <= x < unit_len implies (#[trigger] units@[x]).sound()
                    && units@[x].unit.family() == family && units@[x].unit
                    == old_units[x].unit by {
                    if x != i {
                        assert(units@[x] == before[x]);
                    } else {
                        assert(before[x].sound());
                    }
                }
                assert forall|x: int| 0 <= x < i + 1 implies (
                #[trigger] units@[x]).lazy_fitness.is_some() by {
                    if x != i {
                        assert(units@[x] == before[x]);
                    }
                }
            }
            i = i + 1;
        }
        // Breeding.
        let mut new_vec: Vec<LazyUnit<T>> = Vec::with_capacity(size);
        let mut new_keys: Vec<i64> = Vec::with_capacity(size);
        let mut made: usize = 0;
        while made < size
            invariant
                made <= size,
                unit_len == units.len(),
                unit_len >= 3,
                old_keys@.len() == unit_len,
                old_units.len() == unit_len,
                generation(units@, family),
                forall|x: int|
                    0 <= x < unit_len ==> (#[trigger] units@[x]).unit == old_units[x].unit,
                forall|x: int|
                    0 <= x < unit_len ==> old_keys@[x] == (
                    #[trigger] old_units[x]).unit.fitness_spec(),
                forall|x: int| 0 <= x < unit_len ==> (#[trigger] units@[x]).lazy_fitness.is_some(),
                new_vec@.len() == made,
                new_keys@.len() == made,
                generation(new_vec@, family),
                forall|x: int|
                    0 <= x < made ==> (#[trigger] new_vec@[x]).lazy_fitness == Some(new_keys@[x]),
                forall|x: int|
                    0 <= x < made ==> tournament_child(old_units, &(#[trigger] new_vec@[x]).unit),
            decreases size - made,
        {
            let (a, b, c) = draw_triple(unit_len, r);
            let (first, second) = rank_triple(old_keys[a], old_keys[b], old_keys[c]);
            let triple: [usize; 3] = [a, b, c];
            let mother = triple[first];
            let father = triple[second];
            let child = units[mother].unit.breed_with(&units[father].unit);
            proof {
                assert(mother == drawn(a as int, b as int, c as int, first as int));
                assert(father == drawn(a as int, b as int, c as int, second as int));
                assert(won_by(old_units, &child, a as int, b as int, c as int));
            }
            let mut unit = LazyUnit::from(child);
            let f = unit.fitness();
            let ghost bred = new_vec@;
            new_vec.push(unit);
            new_keys.push(f);
            proof {
                assert forall|x: int| 0 <= x < made + 1 implies tournament_child(
                    old_units,
                    &(#[trigger] new_vec@[x]).unit,
                ) by {
                    if x < made {
                        assert(new_vec@[x] == bred[x]);
                    }
                }
            }
            made = made + 1;
        }
        let new_best = index_of_best(&new_keys);
        let old_best = index_of_best(&old_keys);
        let ghost offspring = new_vec@;
        let new_best_fitness = new_keys[new_best];
        let old_best_fitness = old_keys[old_best];
        proof {
            assert(scores(old_units)[old_best as int] == old_best_fitness);
            assert(new_vec@[new_best as int].sound());
            assert(scores(new_vec@)[new_best as int] == new_best_fitness);
            assert forall|x: int| 0 <= x < size implies #[trigger] scores(new_vec@)[x]
                <= new_best_fitness by {
                assert(new_vec@[x].sound());
            }
            lemma_best_is(scores(old_units), old_best_fitness as int);
            lemma_best_is(scores(new_vec@), new_best_fitness as int);
        }
        if old_best_fitness > new_best_fitness {
            let new_worst_index = index_of_worst(&new_keys);
            let ghost taken = units@[old_best as int];
            let old_best_unit = units.swap_remove(old_best);
            let ghost bred = new_vec@;
            new_vec[new_worst_index] = old_best_unit;
            proof {
                assert(taken.sound() && taken.unit.family() == family);
                assert(new_vec@ == bred.update(new_worst_index as int, taken));
                assert(scores(new_vec@)[new_worst_index as int] == old_best_fitness);
                lemma_best(scores(new_vec@), size as nat);
                assert forall|x: int| 0 <= x < size implies (#[trigger] new_vec@[x]).sound()
                    && new_vec@[x].unit.family() == family && new_vec@[x].lazy_fitness.is_some() by {
                    if x != new_worst_index {
                        assert(new_vec@[x] == bred[x]);
                    }
                }
                assert(is_last_best(scores(old_units), old_best as int));
                assert(is_first_worst(scores(bred), new_worst_index as int)) by {
                    assert forall|x: int| 0 <= x < size implies #[trigger] scores(bred)[x]
                        == new_keys@[x] by {
                        assert(bred[x].sound());
                    }
                }
                assert(elected(old_units, offspring, new_vec@));
            }
        }
        proof {
            assert(elected(old_units, offspring, new_vec@));
            assert(all_bred(old_units, offspring));
        }
        std::mem::swap(&mut new_vec, units);
        old_best_fitness != 0
    }
}

/// A score that no other exceeds is the best score.
pub proof fn lemma_best_is(s: Seq<int>, top: int)
    requires
        s.len() >= 1,
        exists|i: int| 0 <= i < s.len() && #[trigger] s[i] == top,
        forall|i: int| 0 <= i < s.len() ==> #[trigger] s[i] <= top,
    ensures
        best(s) == top,
{
    lemma_best(s, s.len());
}

} // verus!
