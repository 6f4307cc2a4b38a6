//! The evolution: one generation after another, and the champion.

use rand::rngs::StdRng;
use vstd::prelude::*;
use crate::census::levels;
use crate::grow::sprouted;
use crate::heap::{grafted, Layout};
use crate::index::MAX_DEPTH;
use crate::individual::{
    crossover_of, Individual, lemma_levels_at_least_two, mated, mutation, survives,
};
use crate::mutation::{grown_from, lemma_one_level};
use crate::node::slot_arity;
use crate::numerics::{Numerics, Point};
use crate::population::{
    chosen, cumulative, find_fittest, first_fittest, get_cumulative_weights, random_population,
    select_parents,
};
use crate::random::chance;

verus! {

/// A probability, as so many chances in so many.
#[derive(Clone, Copy, Debug, PartialEq, Eq, Structural)]
pub struct Probability {
    pub numerator: u32,
    pub denominator: u32,
}

impl Probability {
    /// The chances are no more than there are, and there are some.
    pub open spec fn wf(self) -> bool {
        self.numerator <= self.denominator && self.denominator > 0
    }

    /// The event is sure: it has all the chances.
    pub open spec fn sure(self) -> bool {
        self.numerator == self.denominator
    }

    /// The event never takes place: it has no chance.
    pub open spec fn never(self) -> bool {
        self.numerator == 0
    }

    /// The probability of `numerator` chances in `denominator`, where that
    /// is one.
    pub fn new(numerator: u32, denominator: u32) -> (made: Option<Probability>)
        ensures
            made is Some <==> numerator <= denominator && denominator > 0,
            made is Some ==> made->0.numerator == numerator && made->0.denominator == denominator,
    {
        if numerator <= denominator && denominator > 0 {
            Some(Probability { numerator, denominator })
        } else {
            None
        }
    }

    /// Whether the event takes place this time: always with all the
    /// chances, never with none.
    pub fn occurs(&self, rng: &mut StdRng) -> (hit: bool)
        requires
            self.wf(),
        ensures
            self.sure() ==> hit,
            self.never() ==> !hit,
    {
        chance(rng, self.numerator, self.denominator)
    }
}

/// What to print of a generation.
#[derive(Clone, Copy, Debug, PartialEq, Eq, Structural)]
pub enum Report {
    /// Nothing.
    Silent,
    /// One line of numbers.
    Line,
    /// The champion and the challenger.
    Listing,
    /// The champion, the challenger and the whole population.
    Population,
}

/// What to print of generation `epoch`, counted from 1: something every
/// `skip` generations, and then a line at level 1, the population too at
/// level 3, and a listing at every other level from 2 on.
pub fn report_for(debug_level: usize, epoch: usize, skip: usize) -> (report: Report)
    requires
        skip > 0,
    ensures
        report == if epoch % skip != 0 || debug_level == 0 {
            Report::Silent
        } else if debug_level == 1 {
            Report::Line
        } else if debug_level == 3 {
            Report::Population
        } else {
            Report::Listing
        },
{
    if epoch % skip != 0 || debug_level == 0 {
        Report::Silent
    } else if debug_level == 1 {
        Report::Line
    } else if debug_level == 3 {
        Report::Population
    } else {
        Report::Listing
    }
}

/// A search for the expression that fits the points best.
#[derive(Debug)]
pub struct Simulation<T> {
    pub iterations: usize,
    pub crossover_probability: Probability,
    pub mutation_probability: Probability,
    pub population_size: usize,
    pub number_of_points: usize,
    pub points: Vec<Point<T>>,
    pub evaluations: usize,
    pub number_of_mutations: usize,
    pub number_of_crossovers: usize,
    pub champion: Individual<T>,
}

/// The greatest number of scorings that a member of the population stands
/// for; 0 for an empty population.
pub open spec fn peak<T>(population: Seq<Individual<T>>) -> int
    decreases population.len(),
{
    if population.len() == 0 {
        0
    } else if population.last().evaluations > peak(population.drop_last()) {
        population.last().evaluations as int
    } else {
        peak(population.drop_last())
    }
}

/// The number of scorings that the members of the population stand for
/// together.
pub open spec fn total_evaluations<T>(population: Seq<Individual<T>>) -> int
    decreases population.len(),
{
    if population.len() == 0 {
        0
    } else {
        total_evaluations(population.drop_last()) + population.last().evaluations
    }
}

/// Every member of the population is viable.
pub open spec fn all_viable<T: Copy>(population: Seq<Individual<T>>) -> bool {
    forall|k: int| 0 <= k < population.len() ==> (#[trigger] population[k]).viable()
}

/// The fitness of every member of the population is what `numerics` gave
/// for its expression and these points.
pub open spec fn all_fresh<T: Copy, N: Numerics<T>>(
    population: Seq<Individual<T>>,
    numerics: &N,
    points: Seq<Point<T>>,
) -> bool {
    forall|k: int| 0 <= k < population.len() ==> (#[trigger] population[k]).fresh(numerics, points)
}

/// No member of the population fits better than `champion`.
pub open spec fn unbeaten<T>(champion: Individual<T>, population: Seq<Individual<T>>) -> bool {
    forall|k: int| 0 <= k < population.len() ==> (#[trigger] population[k]).fitness <= champion.fitness
}

/// A parent as the making of a generation may leave it: as it was, or made
/// ready for a crossover.
pub open spec fn kept_or_grown<T: Copy, N: Numerics<T>>(
    before: Individual<T>,
    after: Individual<T>,
    numerics: &N,
    points: Seq<Point<T>>,
) -> bool {
    &&& after.viable()
    &&& after.alike(before) || readied(before, after, numerics, points)
}

/// `after` is what a mutation makes of `before`: its expression has
/// undergone one of the mutations that apply to it, and was scored anew.
pub open spec fn mutated<T: Copy, N: Numerics<T>>(
    before: Individual<T>,
    after: Individual<T>,
    numerics: &N,
    points: Seq<Point<T>>,
) -> bool {
    &&& mutation(before.dna@, after.dna@, numerics)
    &&& after.viable()
    &&& after.fresh(numerics, points)
    &&& after.evaluations == before.evaluations + 1
}

/// `after` is a new random tree of two levels, an operator with its
/// operands, set in place of the tree `before`.
pub open spec fn regrown<T: Copy, N: Numerics<T>>(before: Layout<T>, after: Layout<T>, numerics: &N) -> bool {
    exists|donor: Layout<T>| #[trigger] grown_from(before, after, 0, 2, donor, numerics)
}

/// A tree of two levels sprouted at the root is a tree regrown.
pub proof fn lemma_regrown<T: Copy, N: Numerics<T>>(before: Layout<T>, after: Layout<T>, numerics: &N)
    requires
        exists|donor: Layout<T>| #[trigger] sprouted(donor, 2, numerics) && after == grafted(before, 0, donor, 0),
    ensures
        regrown(before, after, numerics),
{
    let donor = choose|donor: Layout<T>| #[trigger]
        sprouted(donor, 2, numerics) && after == grafted(before, 0, donor, 0);
    assert(grown_from(before, after, 0, 2, donor, numerics));
}

/// `after` is a parent made ready for a crossover: one of a single node has
/// given way to a new random tree of two levels, an operator with its
/// operands, and was scored once more; any other is as it was.
pub open spec fn readied<T: Copy, N: Numerics<T>>(
    before: Individual<T>,
    after: Individual<T>,
    numerics: &N,
    points: Seq<Point<T>>,
) -> bool {
    if levels(before.dna@, 0) == 1 {
        &&& after.thriving()
        &&& regrown(before.dna@, after.dna@, numerics)
        &&& after.fresh(numerics, points)
        &&& after.evaluations == before.evaluations + 1
    } else {
        after.alike(before)
    }
}

/// `first` and `second` are the children that the parents `mom` and `dad`
/// are given, and `father` is what becomes of `dad`. Where the parents are
/// `crossed`, both are made ready and the children are what their crossover
/// leaves; else the children are the parents themselves.
pub open spec fn begotten<T: Copy, N: Numerics<T>>(
    mom: Individual<T>,
    dad: Individual<T>,
    father: Individual<T>,
    first: Individual<T>,
    second: Individual<T>,
    crossed: bool,
    numerics: &N,
    points: Seq<Point<T>>,
) -> bool {
    if crossed {
        exists|mother: Individual<T>| #[trigger]
            readied(mom, mother, numerics, points) && readied(dad, father, numerics, points) && crossover_of(
                mother,
                father,
                first,
                second,
                numerics,
                points,
            )
    } else {
        first.alike(mom) && second.alike(dad) && father.alike(dad)
    }
}

/// `after` is `before` as it was, or what a mutation makes of it.
pub open spec fn mutated_or_kept<T: Copy, N: Numerics<T>>(
    before: Individual<T>,
    after: Individual<T>,
    numerics: &N,
    points: Seq<Point<T>>,
) -> bool {
    after.alike(before) || mutated(before, after, numerics, points)
}

/// `first` and `second` are a pair of the next generation made from the
/// parents `mom` and `dad`: the children that the two are given, each of
/// them then mutated or left as it is.
pub open spec fn raised<T: Copy, N: Numerics<T>>(
    mom: Individual<T>,
    dad: Individual<T>,
    first: Individual<T>,
    second: Individual<T>,
    numerics: &N,
    points: Seq<Point<T>>,
) -> bool {
    exists|father: Individual<T>, daughter: Individual<T>, son: Individual<T>, crossed: bool| #[trigger]
        begotten(mom, dad, father, daughter, son, crossed, numerics, points) && mutated_or_kept(
            daughter,
            first,
            numerics,
            points,
        ) && mutated_or_kept(son, second, numerics, points)
}

/// The members `2 * pair` and `2 * pair + 1` of `after` were made from two
/// members of `before` that the wheel with these weights can choose, each
/// as it was or as an earlier crossover of the same generation had grown
/// it.
pub open spec fn descends_at<T: Copy, N: Numerics<T>>(
    before: Seq<Individual<T>>,
    weights: Seq<u64>,
    after: Seq<Individual<T>>,
    pair: int,
    numerics: &N,
    points: Seq<Point<T>>,
) -> bool {
    exists|m: int, d: int, mom: Individual<T>, dad: Individual<T>|
        #![trigger kept_or_grown(before[m], mom, numerics, points), kept_or_grown(before[d], dad, numerics, points)]
        {
            &&& 0 <= m < before.len()
            &&& 0 <= d < before.len()
            &&& chosen(weights, m, numerics)
            &&& chosen(weights, d, numerics)
            &&& kept_or_grown(before[m], mom, numerics, points)
            &&& kept_or_grown(before[d], dad, numerics, points)
            &&& raised(mom, dad, after[2 * pair], after[2 * pair + 1], numerics, points)
        }
}

/// `after` is made from `before` pair by pair, by a selection with these
/// weights: the running sums of the fitness of the members of `before`.
pub open spec fn made_with<T: Copy, N: Numerics<T>>(
    before: Seq<Individual<T>>,
    weights: Seq<u64>,
    after: Seq<Individual<T>>,
    numerics: &N,
    points: Seq<Point<T>>,
) -> bool {
    &&& cumulative(weights, before, numerics, before.len() as int)
    &&& forall|pair: int|
        0 <= pair < after.len() / 2 ==> #[trigger] descends_at(before, weights, after, pair, numerics, points)
}

/// `after` is a generation made from `before`: pair by pair, each pair from
/// two members of `before` that the selection by fitness can choose.
pub open spec fn succeeds<T: Copy, N: Numerics<T>>(
    before: Seq<Individual<T>>,
    after: Seq<Individual<T>>,
    numerics: &N,
    points: Seq<Point<T>>,
) -> bool {
    &&& after.len() % 2 == 0
    &&& exists|weights: Seq<u64>| #[trigger] made_with(before, weights, after, numerics, points)
}

/// `child` is as some member of the population.
pub open spec fn copied<T: Copy>(population: Seq<Individual<T>>, child: Individual<T>) -> bool {
    exists|m: int| 0 <= m < population.len() && child.alike(#[trigger] population[m])
}

/// Every member of `after` is as some member of `before`.
pub open spec fn copies<T: Copy>(before: Seq<Individual<T>>, after: Seq<Individual<T>>) -> bool {
    forall|k: int| 0 <= k < after.len() ==> copied(before, #[trigger] after[k])
}

/// `champion` is the fittest of all the members of all the generations: it
/// is one of them, and none of them fits better.
pub open spec fn crowned<T: Copy>(champion: Individual<T>, generations: Seq<Seq<Individual<T>>>) -> bool {
    &&& forall|g: int| 0 <= g < generations.len() ==> unbeaten(champion, #[trigger] generations[g])
    &&& exists|g: int, k: int|
        0 <= g < generations.len() && 0 <= k < generations[g].len() && champion.alike(#[trigger] generations[g][k])
}

/// The population is a first one: every member has an operator at its root
/// and fewer levels than a tree can have, and was scored once.
pub open spec fn founded<T: Copy>(population: Seq<Individual<T>>) -> bool {
    forall|k: int|
        0 <= k < population.len() ==> {
            &&& (#[trigger] population[k]).thriving()
            &&& population[k].evaluations == 1
            &&& levels(population[k].dna@, 0) < MAX_DEPTH
        }
}

/// The population is one of a run: of the size of the population of the
/// search, with every member viable and freshly scored.
pub open spec fn in_shape<T: Copy, N: Numerics<T>>(
    population: Seq<Individual<T>>,
    search: Simulation<T>,
    numerics: &N,
) -> bool {
    &&& population.len() == search.population_size
    &&& all_viable(population)
    &&& all_fresh(population, numerics, search.points@)
}

/// `generations` can be the generations of a run that leaves the search as
/// `after`: a first population and one more for each iteration, each in
/// shape and each but the first made from the one before it. The champion
/// is the fittest of all their members, and the scorings of the last one
/// were added to the count, which was `counted` before.
pub open spec fn closes<T: Copy, N: Numerics<T>>(
    generations: Seq<Seq<Individual<T>>>,
    after: Simulation<T>,
    counted: int,
    numerics: &N,
) -> bool {
    &&& generations.len() == after.iterations + 1
    &&& founded(generations[0])
    &&& forall|g: int| 0 <= g < generations.len() ==> in_shape(#[trigger] generations[g], after, numerics)
    &&& forall|g: int|
        1 <= g < generations.len() ==> succeeds(generations[g - 1], #[trigger] generations[g], numerics, after.points@)
    &&& crowned(after.champion, generations)
    &&& after.evaluations == counted + total_evaluations(generations.last())
}

/// A champion that fits no worse than the one before is unbeaten where
/// that one was.
pub proof fn lemma_unbeaten_still<T>(before: Individual<T>, after: Individual<T>, population: Seq<Individual<T>>)
    requires
        unbeaten(before, population),
        before.fitness <= after.fitness,
    ensures
        unbeaten(after, population),
{
    assert forall|k: int| 0 <= k < population.len() implies (#[trigger] population[k]).fitness <= after.fitness by {
        assert(population[k].fitness <= before.fitness);
    }
}

/// No member stands for more scorings than the peak.
pub proof fn lemma_peak<T>(population: Seq<Individual<T>>)
    ensures
        0 <= peak(population),
        forall|k: int| 0 <= k < population.len() ==> (#[trigger] population[k]).evaluations <= peak(population),
    decreases population.len(),
{
    if population.len() > 0 {
        let head = population.drop_last();
        lemma_peak(head);
        assert forall|k: int| 0 <= k < population.len() implies (#[trigger] population[k]).evaluations <= peak(
            population,
        ) by {
            if k < population.len() - 1 {
                assert(head[k].evaluations <= peak(head));
            }
        }
    }
}

/// A population whose members stand for at most `bound` scorings each has
/// a peak of at most `bound`.
pub proof fn lemma_peak_bound<T>(population: Seq<Individual<T>>, bound: int)
    requires
        0 <= bound,
        forall|k: int| 0 <= k < population.len() ==> (#[trigger] population[k]).evaluations <= bound,
    ensures
        peak(population) <= bound,
    decreases population.len(),
{
    if population.len() > 0 {
        let head = population.drop_last();
        assert forall|k: int| 0 <= k < head.len() implies (#[trigger] head[k]).evaluations <= bound by {
            assert(population[k].evaluations <= bound);
        }
        lemma_peak_bound(head, bound);
        assert(population[population.len() - 1].evaluations <= bound);
    }
}

/// The scorings of a population are at most its size times its peak.
pub proof fn lemma_total_bound<T>(population: Seq<Individual<T>>, bound: int)
    requires
        peak(population) <= bound,
    ensures
        0 <= total_evaluations(population) <= population.len() * bound,
    decreases population.len(),
{
    if population.len() > 0 {
        lemma_total_bound(population.drop_last(), bound);
        assert((population.len() - 1) * bound + bound == population.len() * bound) by (nonlinear_arith);
    }
}

/// The scorings of the first members of a population, one member more.
pub proof fn lemma_total_grows<T>(population: Seq<Individual<T>>, upto: int)
    requires
        1 <= upto <= population.len(),
    ensures
        total_evaluations(population.take(upto)) == total_evaluations(population.take(upto - 1)) + population[upto
            - 1].evaluations,
        total_evaluations(population.take(upto)) <= total_evaluations(population),
    decreases population.len() - upto,
{
    assert(population.take(upto).drop_last() =~= population.take(upto - 1));
    if upto < population.len() {
        lemma_total_grows(population, upto + 1);
    } else {
        assert(population.take(upto) =~= population);
    }
}

impl<T: Copy> Simulation<T> {
    /// The probabilities are probabilities and the champion is a valid
    /// expression.
    pub open spec fn wf(&self) -> bool {
        &&& self.crossover_probability.wf()
        &&& self.mutation_probability.wf()
        &&& self.champion.dna.wf()
    }

    /// The two searches are set up alike.
    pub open spec fn same_setup(&self, other: &Self) -> bool {
        &&& self.iterations == other.iterations
        &&& self.crossover_probability == other.crossover_probability
        &&& self.mutation_probability == other.mutation_probability
        &&& self.population_size == other.population_size
        &&& self.number_of_points == other.number_of_points
        &&& self.points@ == other.points@
    }

    /// The counts of crossovers and of mutations can each grow by the size
    /// of the population `generations` times over.
    pub open spec fn has_room(&self, generations: int) -> bool {
        &&& self.number_of_crossovers + self.population_size * generations <= usize::MAX
        &&& self.number_of_mutations + self.population_size * generations <= usize::MAX
    }

    /// The counts of crossovers and of mutations have not fallen since
    /// `before`, and have each grown by at most `most`; the count of scorings
    /// by at most `scorings`.
    pub open spec fn counted_on(&self, before: &Self, most: int, scorings: int) -> bool {
        &&& before.number_of_crossovers <= self.number_of_crossovers <= before.number_of_crossovers + most
        &&& before.number_of_mutations <= self.number_of_mutations <= before.number_of_mutations + most
        &&& before.evaluations <= self.evaluations <= before.evaluations + scorings
    }

    /// The search is set up as `before` was and has counted no scoring
    /// since; its counts of crossovers and of mutations have not fallen, and
    /// have grown by at most `crossovers` and `mutations`.
    pub open spec fn moved_on(&self, before: &Self, crossovers: int, mutations: int) -> bool {
        &&& self.wf()
        &&& self.same_setup(before)
        &&& self.evaluations == before.evaluations
        &&& before.number_of_crossovers <= self.number_of_crossovers <= before.number_of_crossovers + crossovers
        &&& before.number_of_mutations <= self.number_of_mutations <= before.number_of_mutations + mutations
    }

    /// The counts since `before`, where `made` children were made: the
    /// crossovers are counted by the pair. Where a crossover is sure, every
    /// child counts for one, and where there never is one, none does; and
    /// so for the mutations.
    pub open spec fn tallied(&self, before: &Self, made: int) -> bool {
        &&& (self.number_of_crossovers - before.number_of_crossovers) % 2 == 0
        &&& before.crossover_probability.sure() ==> self.number_of_crossovers == before.number_of_crossovers + made
        &&& before.crossover_probability.never() ==> self.number_of_crossovers == before.number_of_crossovers
        &&& before.mutation_probability.sure() ==> self.number_of_mutations == before.number_of_mutations + made
        &&& before.mutation_probability.never() ==> self.number_of_mutations == before.number_of_mutations
    }

    /// A search over the given points, with a random expression for its
    /// first champion and its counts at zero.
    pub fn new<N: Numerics<T>>(
        iterations: usize,
        crossover_probability: Probability,
        mutation_probability: Probability,
        population_size: usize,
        points: Vec<Point<T>>,
        rng: &mut StdRng,
        numerics: &N,
    ) -> (simulation: Self)
        requires
            population_size % 10 == 0,
            crossover_probability.wf(),
            mutation_probability.wf(),
        ensures
            simulation.wf(),
            simulation.iterations == iterations,
            simulation.crossover_probability == crossover_probability,
            simulation.mutation_probability == mutation_probability,
            simulation.population_size == population_size,
            simulation.points@ == points@,
            simulation.number_of_points == points@.len(),
            simulation.evaluations == 0,
            simulation.number_of_mutations == 0,
            simulation.number_of_crossovers == 0,
            simulation.champion.thriving(),
            simulation.champion.fresh(numerics, points@),
    {
        let number_of_points: usize = points.len();
        let champion = Individual::new(points.as_slice(), rng, numerics);
        Simulation {
            iterations,
            crossover_probability,
            mutation_probability,
            population_size,
            number_of_points,
            points,
            evaluations: 0,
            number_of_mutations: 0,
            number_of_crossovers: 0,
            champion,
        }
    }

    /// The two children of a pair of parents. With the probability of a
    /// crossover they are what the crossover of the parents leaves, a parent
    /// of a single node being grown to two levels first, and the crossovers
    /// count two more; else they are the parents themselves. A crossover
    /// that is sure is always made, and one that has no chance never.
    pub fn generate_children<N: Numerics<T>>(
        &mut self,
        mom: Individual<T>,
        dad: &mut Individual<T>,
        rng: &mut StdRng,
        numerics: &N,
    ) -> (children: (Individual<T>, Individual<T>))
        requires
            old(self).wf(),
            old(self).number_of_crossovers + 2 <= usize::MAX,
            mom.viable(),
            old(dad).viable(),
            mom.evaluations + 2 <= usize::MAX,
            old(dad).evaluations + 2 <= usize::MAX,
        ensures
            final(self).moved_on(old(self), 2, 0),
            final(self).champion == old(self).champion,
            final(self).number_of_crossovers == old(self).number_of_crossovers || final(self).number_of_crossovers
                == old(self).number_of_crossovers + 2,
            old(self).crossover_probability.sure() ==> final(self).number_of_crossovers
                == old(self).number_of_crossovers + 2,
            old(self).crossover_probability.never() ==> final(self).number_of_crossovers
                == old(self).number_of_crossovers,
            begotten(
                mom,
                *old(dad),
                *final(dad),
                children.0,
                children.1,
                final(self).number_of_crossovers != old(self).number_of_crossovers,
                numerics,
                old(self).points@,
            ),
            kept_or_grown(*old(dad), *final(dad), numerics, old(self).points@),
            children.0.viable(),
            children.1.viable(),
            mom.thriving() ==> children.0.thriving(),
            old(dad).thriving() ==> children.1.thriving(),
            children.0.evaluations <= mom.evaluations + 2,
            mom.thriving() ==> children.0.evaluations <= mom.evaluations + 1,
            children.1.evaluations <= final(dad).evaluations + 1,
            mom.fresh(numerics, old(self).points@) ==> children.0.fresh(numerics, old(self).points@),
            old(dad).fresh(numerics, old(self).points@) ==> final(dad).fresh(numerics, old(self).points@)
                && children.1.fresh(numerics, old(self).points@),
    {
        proof {
            if mom.thriving() {
                lemma_levels_at_least_two(mom.dna@);
            }
            if dad.thriving() {
                lemma_levels_at_least_two(dad.dna@);
            }
        }
        if self.crossover_probability.occurs(rng) {
            let ghost given = mom;
            let mut mom = mom;
            if mom.dna.depth() == 1 {
                mom.dna.random_instantiate(0, 2, rng, numerics);
                proof {
                    lemma_regrown(given.dna@, mom.dna@, numerics);
                }
                mom.update_fitness(self.points.as_slice(), numerics);
            }
            if dad.dna.depth() == 1 {
                dad.dna.random_instantiate(0, 2, rng, numerics);
                proof {
                    lemma_regrown(old(dad).dna@, dad.dna@, numerics);
                }
                dad.update_fitness(self.points.as_slice(), numerics);
            }
            proof {
                if slot_arity(mom.dna@[0]) == 0 {
                    lemma_one_level(mom.dna@);
                }
                if slot_arity(dad.dna@[0]) == 0 {
                    lemma_one_level(dad.dna@);
                }
            }
            self.number_of_crossovers = self.number_of_crossovers + 2;
            let ghost mother = mom;
            let ghost father = *dad;
            let children = mom.cross_over(dad, self.points.as_slice(), rng, numerics);
            proof {
                let points = self.points@;
                assert(readied(given, mother, numerics, points));
                assert(readied(*old(dad), *dad, numerics, points));
                let (daughter, son) = choose|daughter: Individual<T>, son: Individual<T>| #[trigger]
                    mated(mother, daughter, father, son, numerics, points) && survives(
                        mother,
                        daughter,
                        children.0,
                    ) && survives(father, son, children.1);
                assert(mated(mother, daughter, *dad, son, numerics, points));
                assert(survives(*dad, son, children.1));
                assert(crossover_of(mother, *dad, children.0, children.1, numerics, points));
            }
            children
        } else {
            let son = dad.clone();
            (mom, son)
        }
    }

    /// With the probability of a mutation, mutates the child and counts one
    /// mutation more: always where the probability is one, never where it
    /// is zero. A child that is not mutated stays as it is.
    pub fn might_mutate_child<N: Numerics<T>>(
        &mut self,
        child: &mut Individual<T>,
        rng: &mut StdRng,
        numerics: &N,
    )
        requires
            old(self).wf(),
            old(self).number_of_mutations < usize::MAX,
            old(child).viable(),
            old(child).evaluations < usize::MAX,
        ensures
            final(self).moved_on(old(self), 0, 1),
            final(self).champion == old(self).champion,
            final(child).viable(),
            old(child).thriving() ==> final(child).thriving(),
            old(child).fresh(numerics, old(self).points@) ==> final(child).fresh(numerics, old(self).points@),
            old(self).mutation_probability.sure() ==> final(self).number_of_mutations == old(self).number_of_mutations
                + 1,
            old(self).mutation_probability.never() ==> final(self).number_of_mutations
                == old(self).number_of_mutations,
            if final(self).number_of_mutations == old(self).number_of_mutations {
                final(child).alike(*old(child))
            } else {
                mutated(*old(child), *final(child), numerics, old(self).points@)
            },
    {
        if self.mutation_probability.occurs(rng) {
            child.mutate(self.points.as_slice(), rng, numerics);
            self.number_of_mutations = self.number_of_mutations + 1;
        }
    }

    /// The next generation: `population_size` children, made pair by pair
    /// from parents that the roulette wheel chooses, each child mutated
    /// with the probability of a mutation. Where no crossover and no
    /// mutation was made, every child is a copy of a member of the
    /// population.
    pub fn generate_population<N: Numerics<T>>(
        &mut self,
        individuals: Vec<Individual<T>>,
        rng: &mut StdRng,
        numerics: &N,
    ) -> (next_population: Vec<Individual<T>>)
        requires
            old(self).wf(),
            old(self).population_size % 2 == 0,
            old(self).has_room(1),
            individuals@.len() > 0,
            all_viable(individuals@),
            peak(individuals@) + 3 <= usize::MAX,
        ensures
            final(self).moved_on(old(self), old(self).population_size as int, old(self).population_size as int),
            final(self).champion == old(self).champion,
            final(self).tallied(old(self), old(self).population_size as int),
            next_population@.len() == old(self).population_size,
            succeeds(individuals@, next_population@, numerics, old(self).points@),
            final(self).number_of_crossovers == old(self).number_of_crossovers && final(self).number_of_mutations
                == old(self).number_of_mutations ==> copies(individuals@, next_population@),
            old(self).crossover_probability.never() && old(self).mutation_probability.never() ==> copies(
                individuals@,
                next_population@,
            ),
            all_viable(next_population@),
            all_fresh(individuals@, numerics, old(self).points@) ==> all_fresh(
                next_population@,
                numerics,
                old(self).points@,
            ),
            peak(next_population@) <= peak(individuals@) + 3,
    {
        let ghost parents = individuals@;
        let ghost given = self.points@;
        let mut individuals = individuals;
        let cumulative_weights: Vec<u64> = get_cumulative_weights(individuals.as_slice(), numerics);
        let mut next_population: Vec<Individual<T>> = Vec::with_capacity(self.population_size);
        let pairs: usize = self.population_size / 2;
        let mut made: usize = 0;
        proof {
            lemma_peak(parents);
        }
        while made < pairs
            invariant
                made <= pairs,
                pairs * 2 == old(self).population_size,
                old(self).has_room(1),
                self.moved_on(old(self), 2 * made, 2 * made),
                self.tallied(old(self), 2 * made),
                self.champion == old(self).champion,
                individuals@.len() == parents.len(),
                cumulative(cumulative_weights@, parents, numerics, parents.len() as int),
                forall|pair: int| 0 <= pair < made ==> #[trigger] descends_at(
                    parents,
                    cumulative_weights@,
                    next_population@,
                    pair,
                    numerics,
                    given,
                ),
                self.number_of_crossovers == old(self).number_of_crossovers ==> forall|k: int|
                    0 <= k < parents.len() ==> (#[trigger] individuals@[k]).alike(parents[k]),
                self.number_of_crossovers == old(self).number_of_crossovers && self.number_of_mutations
                    == old(self).number_of_mutations ==> copies(parents, next_population@),
                cumulative_weights@.len() == parents.len() + 1,
                parents.len() > 0,
                peak(parents) + 3 <= usize::MAX,
                forall|k: int| 0 <= k < parents.len() ==> (#[trigger] parents[k]).evaluations <= peak(parents),
                forall|k: int| 0 <= k < parents.len() ==> kept_or_grown(
                    parents[k],
                    #[trigger] individuals@[k],
                    numerics,
                    given,
                ),
                given == old(self).points@,
                all_fresh(parents, numerics, given) ==> all_fresh(individuals@, numerics, given) && all_fresh(
                    next_population@,
                    numerics,
                    given,
                ),
                next_population@.len() == 2 * made,
                forall|k: int|
                    0 <= k < next_population@.len() ==> (#[trigger] next_population@[k]).viable()
                        && next_population@[k].evaluations <= peak(parents) + 3,
            decreases pairs - made,
        {
            let (mom_index, dad_index) = select_parents(cumulative_weights.as_slice(), rng, numerics);
            assert(kept_or_grown(parents[mom_index as int], individuals@[mom_index as int], numerics, given));
            assert(kept_or_grown(parents[dad_index as int], individuals@[dad_index as int], numerics, given));
            let mom: Individual<T> = individuals[mom_index].clone();
            let ghost held = individuals@;
            let ghost mother = mom;
            let ghost crossovers = self.number_of_crossovers;
            let ghost mutations = self.number_of_mutations;
            proof {
                if held[dad_index as int].thriving() {
                    lemma_levels_at_least_two(held[dad_index as int].dna@);
                }
            }
            let dad: &mut Individual<T> = &mut individuals[dad_index];
            let (mut daughter, mut son) = self.generate_children(mom, dad, rng, numerics);
            proof {
                assert forall|k: int| 0 <= k < parents.len() implies kept_or_grown(
                    parents[k],
                    #[trigger] individuals@[k],
                    numerics,
                    given,
                ) by {
                    if k != dad_index {
                        assert(kept_or_grown(parents[k], held[k], numerics, given));
                    }
                }
                if all_fresh(parents, numerics, given) {
                    assert(held[mom_index as int].fresh(numerics, given));
                    assert(held[dad_index as int].fresh(numerics, given));
                    assert forall|k: int| 0 <= k < individuals@.len() implies (#[trigger] individuals@[k]).fresh(
                        numerics,
                        given,
                    ) by {
                        if k != dad_index {
                            assert(held[k].fresh(numerics, given));
                        }
                    }
                }
            }
            let ghost bred_so_far = next_population@;
            let ghost first = daughter;
            let ghost second = son;
            let ghost crossed = self.number_of_crossovers != crossovers;
            self.might_mutate_child(&mut daughter, rng, numerics);
            self.might_mutate_child(&mut son, rng, numerics);
            next_population.push(daughter);
            next_population.push(son);
            proof {
                let m = mom_index as int;
                let d = dad_index as int;
                let after = next_population@;
                assert(begotten(mother, held[d], individuals@[d], first, second, crossed, numerics, given));
                assert(mutated_or_kept(first, daughter, numerics, given));
                assert(mutated_or_kept(second, son, numerics, given));
                assert(raised(mother, held[d], daughter, son, numerics, given));
                assert(kept_or_grown(parents[m], mother, numerics, given));
                assert(kept_or_grown(parents[d], held[d], numerics, given));
                assert(after[2 * made] == daughter && after[2 * made + 1] == son);
                let weights = cumulative_weights@;
                assert(chosen(weights, m, numerics) && chosen(weights, d, numerics));
                assert(descends_at(parents, weights, after, made as int, numerics, given));
                assert forall|pair: int| 0 <= pair < made + 1 implies #[trigger] descends_at(
                    parents,
                    weights,
                    after,
                    pair,
                    numerics,
                    given,
                ) by {
                    if pair < made {
                        assert(descends_at(parents, weights, bred_so_far, pair, numerics, given));
                        assert(after[2 * pair] == bred_so_far[2 * pair]);
                        assert(after[2 * pair + 1] == bred_so_far[2 * pair + 1]);
                    }
                }
                if self.number_of_crossovers == old(self).number_of_crossovers {
                    assert forall|k: int| 0 <= k < parents.len() implies (#[trigger] individuals@[k]).alike(
                        parents[k],
                    ) by {
                        assert(held[k].alike(parents[k]));
                    }
                    if self.number_of_mutations == old(self).number_of_mutations {
                        assert(daughter.alike(parents[m]));
                        assert(son.alike(parents[d]));
                        assert forall|k: int| 0 <= k < after.len() implies copied(parents, #[trigger] after[k]) by {
                            if k < bred_so_far.len() {
                                assert(copied(parents, bred_so_far[k]));
                            }
                        }
                    }
                }
            }
            proof {
                if all_fresh(parents, numerics, given) {
                    assert forall|k: int| 0 <= k < next_population@.len()
                        implies (#[trigger] next_population@[k]).fresh(
                        numerics,
                        given,
                    ) by {
                        if k < bred_so_far.len() {
                            assert(bred_so_far[k].fresh(numerics, given));
                        }
                    }
                }
            }
            made = made + 1;
        }
        proof {
            lemma_peak_bound(next_population@, peak(parents) + 3);
            assert(made_with(parents, cumulative_weights@, next_population@, numerics, given));
        }
        next_population
    }

    /// Adds to the count of scorings those that the members of the
    /// population stand for.
    pub fn update_evaluations(&mut self, population: &[Individual<T>])
        requires
            old(self).evaluations + total_evaluations(population@) <= usize::MAX,
        ensures
            final(self).evaluations == old(self).evaluations + total_evaluations(population@),
            final(self).same_setup(old(self)),
            final(self).champion == old(self).champion,
            final(self).number_of_mutations == old(self).number_of_mutations,
            final(self).number_of_crossovers == old(self).number_of_crossovers,
    {
        let mut idx: usize = 0;
        let mut sum: usize = 0;
        while idx < population.len()
            invariant
                idx <= population@.len(),
                sum == total_evaluations(population@.take(idx as int)),
                self.evaluations + total_evaluations(population@) <= usize::MAX,
            decreases population@.len() - idx,
        {
            proof {
                lemma_total_grows(population@, idx + 1);
            }
            sum = sum + population[idx].evaluations;
            idx = idx + 1;
        }
        assert(population@.take(idx as int) =~= population@);
        self.evaluations = self.evaluations + sum;
    }

    /// A first population of random candidates, the fittest of which
    /// becomes the champion.
    pub fn populate<N: Numerics<T>>(
        &mut self,
        rng: &mut StdRng,
        numerics: &N,
    ) -> (population: Vec<Individual<T>>)
        requires
            old(self).wf(),
            old(self).population_size > 0,
        ensures
            final(self).moved_on(old(self), 0, 0),
            in_shape(population@, *final(self), numerics),
            founded(population@),
            peak(population@) <= 1,
            exists|k: int| #[trigger] first_fittest(population@, k) && final(self).champion.alike(population@[k]),
    {
        let population = random_population(self.population_size, self.points.as_slice(), rng, numerics);
        self.champion = find_fittest(population.as_slice());
        proof {
            lemma_peak_bound(population@, 1);
        }
        population
    }

    /// One generation: the population gives way to the next, which is made
    /// from it pair by pair, and the fittest of the new one becomes the
    /// champion unless the champion fits better.
    pub fn advance<N: Numerics<T>>(
        &mut self,
        population: Vec<Individual<T>>,
        rng: &mut StdRng,
        numerics: &N,
    ) -> (next_population: Vec<Individual<T>>)
        requires
            old(self).wf(),
            old(self).population_size % 2 == 0,
            old(self).population_size > 0,
            old(self).has_room(1),
            population@.len() > 0,
            all_viable(population@),
            peak(population@) + 3 <= usize::MAX,
        ensures
            final(self).moved_on(old(self), old(self).population_size as int, old(self).population_size as int),
            final(self).tallied(old(self), old(self).population_size as int),
            next_population@.len() == old(self).population_size,
            succeeds(population@, next_population@, numerics, old(self).points@),
            final(self).number_of_crossovers == old(self).number_of_crossovers && final(self).number_of_mutations
                == old(self).number_of_mutations ==> copies(population@, next_population@),
            old(self).crossover_probability.never() && old(self).mutation_probability.never() ==> copies(
                population@,
                next_population@,
            ),
            all_viable(next_population@),
            all_fresh(population@, numerics, old(self).points@) ==> all_fresh(
                next_population@,
                numerics,
                old(self).points@,
            ),
            peak(next_population@) <= peak(population@) + 3,
            final(self).champion.fitness >= old(self).champion.fitness,
            unbeaten(final(self).champion, next_population@),
            exists|k: int| #[trigger]
                first_fittest(next_population@, k) && if old(self).champion.fitness <= next_population@[k].fitness {
                    final(self).champion.alike(next_population@[k])
                } else {
                    final(self).champion.alike(old(self).champion)
                },
    {
        let next_population = self.generate_population(population, rng, numerics);
        let challenger = find_fittest(next_population.as_slice());
        if self.champion.fitness <= challenger.fitness {
            self.champion = challenger;
        }
        next_population
    }

    /// The whole search: a first population, `iterations` generations, each
    /// made from the one before it, and the count of the scorings of the
    /// last one. The champion is the fittest candidate of all the
    /// generations.
    pub fn run<N: Numerics<T>>(&mut self, rng: &mut StdRng, numerics: &N)
        requires
            old(self).wf(),
            old(self).population_size % 2 == 0,
            old(self).population_size > 0,
            old(self).has_room(old(self).iterations as int),
            old(self).evaluations + old(self).population_size * (3 * old(self).iterations + 1) <= usize::MAX,
        ensures
            final(self).wf(),
            final(self).same_setup(old(self)),
            final(self).counted_on(
                old(self),
                old(self).population_size * old(self).iterations,
                old(self).population_size * (3 * old(self).iterations + 1),
            ),
            final(self).tallied(old(self), old(self).population_size * old(self).iterations),
            exists|generations: Seq<Seq<Individual<T>>>| #[trigger]
                closes(generations, *final(self), old(self).evaluations as int, numerics),
    {
        let mut population = self.populate(rng, numerics);
        let mut epoch: usize = 0;
        let ghost size = self.population_size as int;
        let ghost rounds = self.iterations as int;
        let ghost mut generations: Seq<Seq<Individual<T>>> = seq![population@];
        proof {
            let k = choose|k: int| #[trigger] first_fittest(population@, k) && self.champion.alike(population@[k]);
            assert(first_fittest(population@, k));
            assert(self.champion.alike(generations[0][k]));
            assert(size * (3 * rounds + 1) >= 3 * rounds + 1) by (nonlinear_arith)
                requires
                    size >= 1,
                    rounds >= 0,
            ;
            assert(size * 0 == 0);
        }
        while epoch < self.iterations
            invariant
                epoch <= self.iterations,
                size == self.population_size,
                rounds == self.iterations,
                size > 0,
                size % 2 == 0,
                old(self).has_room(rounds),
                self.moved_on(old(self), size * epoch, size * epoch),
                self.tallied(old(self), size * epoch),
                in_shape(population@, *self, numerics),
                forall|g: int|
                    1 <= g < generations.len() ==> succeeds(
                        generations[g - 1],
                        #[trigger] generations[g],
                        numerics,
                        self.points@,
                    ),
                peak(population@) <= 3 * epoch + 1,
                3 * rounds + 1 <= usize::MAX,
                generations.len() == epoch + 1,
                generations.last() == population@,
                founded(generations[0]),
                forall|g: int| 0 <= g < generations.len() ==> in_shape(#[trigger] generations[g], *self, numerics),
                crowned(self.champion, generations),
            decreases self.iterations - epoch,
        {
            let ghost before = generations;
            let ghost held = self.champion;
            proof {
                assert(size * epoch + size == size * (epoch + 1)) by (nonlinear_arith);
                assert(size * (epoch + 1) <= size * rounds) by (nonlinear_arith)
                    requires
                        epoch + 1 <= rounds,
                        size >= 0,
                ;
                assert(size * 1 == size);
            }
            population = self.advance(population, rng, numerics);
            proof {
                generations = before.push(population@);
                assert forall|g: int| 1 <= g < generations.len() implies succeeds(
                    generations[g - 1],
                    #[trigger] generations[g],
                    numerics,
                    self.points@,
                ) by {
                    if g < before.len() {
                        assert(succeeds(before[g - 1], before[g], numerics, self.points@));
                    }
                }
                assert forall|g: int| 0 <= g < generations.len() implies in_shape(
                    #[trigger] generations[g],
                    *self,
                    numerics,
                ) by {
                    if g < before.len() {
                        assert(in_shape(before[g], *self, numerics));
                    }
                }
                assert forall|g: int| 0 <= g < generations.len() implies unbeaten(
                    self.champion,
                    #[trigger] generations[g],
                ) by {
                    if g < before.len() {
                        assert(generations[g] == before[g]);
                        lemma_unbeaten_still(held, self.champion, before[g]);
                    }
                }
                if self.champion.alike(held) {
                    let (g, k) = choose|g: int, k: int|
                        0 <= g < before.len() && 0 <= k < before[g].len() && held.alike(#[trigger] before[g][k]);
                    assert(self.champion.alike(generations[g][k]));
                } else {
                    let k = choose|k: int| #[trigger]
                        first_fittest(population@, k) && if held.fitness <= population@[k].fitness {
                            self.champion.alike(population@[k])
                        } else {
                            self.champion.alike(held)
                        };
                    assert(self.champion.alike(generations[before.len() as int][k]));
                }
            }
            epoch = epoch + 1;
        }
        proof {
            lemma_total_bound(population@, 3 * rounds + 1);
            assert(size * epoch <= size * rounds) by (nonlinear_arith)
                requires
                    epoch <= rounds,
                    size >= 0,
            ;
        }
        let ghost crowned_one = self.champion;
        self.update_evaluations(population.as_slice());
        proof {
            assert(self.champion == crowned_one);
            assert forall|g: int| 0 <= g < generations.len() implies in_shape(
                #[trigger] generations[g],
                *self,
                numerics,
            ) by {}
            assert(closes(generations, *self, old(self).evaluations as int, numerics));
        }
    }
}

} // verus!
