//! A population of candidates: making one, weighing it, and choosing from
//! it.

use rand::rngs::StdRng;
use vstd::prelude::*;
use crate::helper::{select_index, spun};
use crate::individual::Individual;
use crate::index::MAX_DEPTH;
use crate::census::levels;
use crate::numerics::{is_least, is_number, is_rank, is_sum, Numerics, Point};

verus! {

/// Position `best` holds the first of the fittest members of the
/// population.
pub open spec fn first_fittest<T>(population: Seq<Individual<T>>, best: int) -> bool {
    &&& 0 <= best < population.len()
    &&& forall|k: int| 0 <= k < population.len() ==> (#[trigger] population[k]).fitness <= population[best].fitness
    &&& forall|k: int| 0 <= k < best ==> (#[trigger] population[k]).fitness < population[best].fitness
}

/// `place` is a member that a draw from the wheel with these weights can
/// choose.
pub open spec fn chosen<T: Copy, N: Numerics<T>>(weights: Seq<u64>, place: int, numerics: &N) -> bool {
    exists|r: u64, fallback: int| #[trigger] spun(weights, r, fallback, place, numerics)
}

/// Two draws from the selection, one for each parent.
pub fn select_parents<T: Copy, N: Numerics<T>>(
    w: &[u64],
    rng: &mut StdRng,
    numerics: &N,
) -> (parents: (usize, usize))
    requires
        w@.len() >= 2,
    ensures
        parents.0 < w@.len() - 1,
        parents.1 < w@.len() - 1,
        chosen(w@, parents.0 as int, numerics),
        chosen(w@, parents.1 as int, numerics),
{
    let mom_index: usize = select_index(w, rng, numerics);
    let dad_index: usize = select_index(w, rng, numerics);
    (mom_index, dad_index)
}

/// A copy of the fittest member of the population; of several that fit
/// best, the first.
pub fn find_fittest<T: Copy>(population: &[Individual<T>]) -> (best: Individual<T>)
    requires
        population@.len() > 0,
    ensures
        exists|k: int| #[trigger] first_fittest(population@, k) && best.alike(population@[k]),
{
    let mut best: usize = 0;
    let mut idx: usize = 1;
    while idx < population.len()
        invariant
            1 <= idx <= population@.len(),
            first_fittest(population@.take(idx as int), best as int),
        decreases population@.len() - idx,
    {
        let ghost seen = population@.take(idx as int);
        let ghost held = best as int;
        if population[best].fitness < population[idx].fitness {
            best = idx;
        }
        proof {
            let now = population@.take(idx + 1);
            assert forall|k: int| 0 <= k < now.len()
                implies (#[trigger] now[k]).fitness <= now[best as int].fitness by {
                if k < idx {
                    assert(seen[k].fitness <= seen[held].fitness);
                }
            }
            assert forall|k: int| 0 <= k < best implies (#[trigger] now[k]).fitness < now[best as int].fitness by {
                if k < held {
                    assert(seen[k].fitness < seen[held].fitness);
                } else {
                    assert(seen[k].fitness <= seen[held].fitness);
                }
            }
        }
        idx = idx + 1;
    }
    assert(population@.take(idx as int) =~= population@);
    population[best].clone()
}

/// `weight` is the least weight: the rank of the least number above zero.
pub open spec fn least<T: Copy, N: Numerics<T>>(numerics: &N, weight: u64) -> bool {
    exists|value: T| is_least(numerics, value) && #[trigger] is_rank(numerics, value, weight)
}

/// `total` is the weight that `sum` and one more fitness add up to: the
/// rank of the sum of their numbers.
pub open spec fn summed<T: Copy, N: Numerics<T>>(numerics: &N, sum: u64, fitness: u64, total: u64) -> bool {
    exists|a: T, b: T, both: T|
        is_number(numerics, sum, a) && is_number(numerics, fitness, b) && #[trigger] is_sum(numerics, a, b, both)
            && is_rank(numerics, both, total)
}

/// The least weight.
pub fn least_weight<T: Copy, N: Numerics<T>>(numerics: &N) -> (weight: u64)
    ensures
        least::<T, N>(numerics, weight),
{
    let value: T = numerics.least();
    let weight: u64 = numerics.rank(value);
    assert(is_rank(numerics, value, weight));
    weight
}

/// The weight that `sum` and one more fitness add up to.
pub fn accumulate<T: Copy, N: Numerics<T>>(sum: u64, fitness: u64, numerics: &N) -> (total: u64)
    ensures
        summed::<T, N>(numerics, sum, fitness, total),
{
    let a: T = numerics.number(sum);
    let b: T = numerics.number(fitness);
    let both: T = numerics.sum(a, b);
    let total: u64 = numerics.rank(both);
    assert(is_sum(numerics, a, b, both));
    total
}

/// `weights` are the running sums of the fitness of the first `upto`
/// members of the population, from the least weight on.
pub open spec fn cumulative<T: Copy, N: Numerics<T>>(
    weights: Seq<u64>,
    population: Seq<Individual<T>>,
    numerics: &N,
    upto: int,
) -> bool {
    &&& weights.len() == upto + 1
    &&& least::<T, N>(numerics, weights[0])
    &&& forall|k: int|
        0 <= k < upto ==> summed::<T, N>(numerics, weights[k], population[k].fitness, #[trigger] weights[k + 1])
}

/// The weights for the selection: the first is the least weight, and each
/// further one adds the fitness of one more member.
pub fn get_cumulative_weights<T: Copy, N: Numerics<T>>(
    individuals: &[Individual<T>],
    numerics: &N,
) -> (weights: Vec<u64>)
    ensures
        cumulative(weights@, individuals@, numerics, individuals@.len() as int),
{
    let mut running_sum: u64 = least_weight::<T, N>(numerics);
    let mut cumulative_weights: Vec<u64> = Vec::new();
    cumulative_weights.push(running_sum);
    let mut idx: usize = 0;
    while idx < individuals.len()
        invariant
            idx <= individuals@.len(),
            running_sum == cumulative_weights@[idx as int],
            cumulative(cumulative_weights@, individuals@, numerics, idx as int),
        decreases individuals@.len() - idx,
    {
        let ghost before = cumulative_weights@;
        running_sum = accumulate::<T, N>(running_sum, individuals[idx].fitness, numerics);
        cumulative_weights.push(running_sum);
        proof {
            assert forall|k: int| 0 <= k < idx + 1 implies summed::<T, N>(
                numerics,
                cumulative_weights@[k],
                individuals@[k].fitness,
                #[trigger] cumulative_weights@[k + 1],
            ) by {
                if k < idx {
                    assert(summed::<T, N>(numerics, before[k], individuals@[k].fitness, before[k + 1]));
                }
            }
        }
        idx = idx + 1;
    }
    cumulative_weights
}

/// As many new random candidates as asked for, each scored against the
/// points.
pub fn random_population<T: Copy, N: Numerics<T>>(
    population_size: usize,
    points: &[Point<T>],
    rng: &mut StdRng,
    numerics: &N,
) -> (individuals: Vec<Individual<T>>)
    ensures
        individuals@.len() == population_size,
        forall|k: int|
            0 <= k < population_size ==> {
                &&& (#[trigger] individuals@[k]).thriving()
                &&& individuals@[k].fresh(numerics, points@)
                &&& individuals@[k].evaluations == 1
                &&& levels(individuals@[k].dna@, 0) < MAX_DEPTH
            },
{
    let mut individuals: Vec<Individual<T>> = Vec::new();
    let mut made: usize = 0;
    while made < population_size
        invariant
            made <= population_size,
            individuals@.len() == made,
            forall|k: int|
                0 <= k < made ==> {
                    &&& (#[trigger] individuals@[k]).thriving()
                    &&& individuals@[k].fresh(numerics, points@)
                    &&& individuals@[k].evaluations == 1
                    &&& levels(individuals@[k].dna@, 0) < MAX_DEPTH
                },
        decreases population_size - made,
    {
        let indiv = Individual::new(points, rng, numerics);
        individuals.push(indiv);
        made = made + 1;
    }
    individuals
}

} // verus!
