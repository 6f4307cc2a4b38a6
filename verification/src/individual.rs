//! A candidate expression with the fitness it was last scored at.

use rand::rngs::StdRng;
use vstd::prelude::*;
use crate::census::{is_kind, Kind, levels, node_count};
use crate::crossover::{crossed, crossed_at};
use crate::exchange::lemma_levels_fit;
use crate::grow::lemma_levels_between;
use crate::heap::{fitted, Layout, SymbolicBinaryHeap, valid};
use crate::index::{in_subtree, MAX_DEPTH, MAX_IDX};
use crate::mutation::{
    clip_mutation, constant_mutation, lemma_mutation_keeps_root, lemma_one_level, similar_mutation,
    swap_mutation,
};
use crate::node::slot_arity;
use crate::numerics::{Numerics, Point};
use crate::score::{fitness, scored};
use crate::random::draw;

verus! {

/// An expression, the rank of its fit as last scored, and the number of
/// scorings it stands for.
#[derive(Debug, PartialEq)]
pub struct Individual<T> {
    pub dna: SymbolicBinaryHeap<T>,
    pub fitness: u64,
    pub evaluations: usize,
}

/// Whether `child` takes the place of `parent`: it does if it fits better,
/// or fits as well with fewer nodes.
pub open spec fn supplants<T>(parent: Individual<T>, child: Individual<T>) -> bool {
    ||| child.fitness > parent.fitness
    ||| child.fitness == parent.fitness && node_count(child.dna@) < node_count(parent.dna@)
}

/// `kept` is the one of `parent` and `child` that goes on: the child as it
/// is if it supplants the parent, else the parent with one scoring more to
/// its count.
pub open spec fn survives<T: Copy>(parent: Individual<T>, child: Individual<T>, kept: Individual<T>) -> bool {
    if supplants(parent, child) {
        kept.alike(child)
    } else {
        &&& kept.dna@ == parent.dna@
        &&& kept.fitness == parent.fitness
        &&& kept.evaluations == parent.evaluations + 1
    }
}

/// `child` is a candidate that a crossover makes from `parent` with a
/// subtree of `donor`: a valid tree, scored once.
pub open spec fn bred<T: Copy, N: Numerics<T>>(
    parent: Individual<T>,
    child: Individual<T>,
    donor: Individual<T>,
    numerics: &N,
    points: Seq<Point<T>>,
) -> bool {
    &&& child.evaluations == 1
    &&& child.dna.wf()
    &&& child.fresh(numerics, points)
    &&& offspring(parent.dna@, child.dna@, donor.dna@, numerics)
}

/// `after` is what a crossover makes of `host`: the subtree at some node
/// below the root has given way to the subtree at some node below the root
/// of `donor`, cut to fit.
pub open spec fn offspring<T: Copy, N: Numerics<T>>(
    host: Layout<T>,
    after: Layout<T>,
    donor: Layout<T>,
    numerics: &N,
) -> bool {
    exists|own: int, other: int|
        1 <= own < MAX_IDX && 1 <= other < MAX_IDX && host[own] is Some && donor[other] is Some
            && #[trigger] crossed(host, after, own, donor, other, numerics)
}

/// The two trees `first` and `second` are what `host` and `donor` make of
/// each other by one exchange: each has picked a node below its root, and
/// the subtree at the place of each has given way to the subtree at the
/// place of the other, cut to fit.
pub open spec fn exchanged<T: Copy, N: Numerics<T>>(
    host: Layout<T>,
    first: Layout<T>,
    donor: Layout<T>,
    second: Layout<T>,
    numerics: &N,
) -> bool {
    exists|own: int, other: int|
        1 <= own < MAX_IDX && 1 <= other < MAX_IDX && host[own] is Some && donor[other] is Some
            && #[trigger] crossed(host, first, own, donor, other, numerics)
            && crossed(donor, second, other, host, own, numerics)
}

/// `daughter` and `son` are the two candidates of one crossover of `mother`
/// and `father`: valid trees, each scored once, made by one exchange of
/// subtrees between the parents.
pub open spec fn mated<T: Copy, N: Numerics<T>>(
    mother: Individual<T>,
    daughter: Individual<T>,
    father: Individual<T>,
    son: Individual<T>,
    numerics: &N,
    points: Seq<Point<T>>,
) -> bool {
    &&& bred(mother, daughter, father, numerics, points)
    &&& bred(father, son, mother, numerics, points)
    &&& exchanged(mother.dna@, daughter.dna@, father.dna@, son.dna@, numerics)
}

/// `first` and `second` are what a crossover of `mother` and `father`
/// leaves: of each parent and the candidate made from it, the one that goes
/// on.
pub open spec fn crossover_of<T: Copy, N: Numerics<T>>(
    mother: Individual<T>,
    father: Individual<T>,
    first: Individual<T>,
    second: Individual<T>,
    numerics: &N,
    points: Seq<Point<T>>,
) -> bool {
    exists|daughter: Individual<T>, son: Individual<T>| #[trigger]
        mated(mother, daughter, father, son, numerics, points) && survives(mother, daughter, first) && survives(
            father,
            son,
            second,
        )
}

/// The outcome of a mutation of a tree of the given layout: of any of the
/// four kinds where the tree has more than two levels, else a constant
/// mutation or a point mutation.
pub open spec fn mutation<T: Copy, N: Numerics<T>>(before: Layout<T>, after: Layout<T>, numerics: &N) -> bool {
    ||| constant_mutation(before, after, numerics)
    ||| similar_mutation(before, after, numerics)
    ||| levels(before, 0) > 2 && clip_mutation(before, after, numerics)
    ||| levels(before, 0) > 2 && swap_mutation(before, after, numerics)
}

impl<T: Copy> Clone for Individual<T> {
    fn clone(&self) -> (copy: Self)
        ensures
            copy.alike(*self),
    {
        Individual { dna: self.dna.clone(), fitness: self.fitness, evaluations: self.evaluations }
    }
}

impl<T: Copy> Individual<T> {
    /// The two hold the same expression, fitness and count.
    pub open spec fn alike(self, other: Self) -> bool {
        &&& self.dna@ == other.dna@
        &&& self.fitness == other.fitness
        &&& self.evaluations == other.evaluations
    }

    /// A valid expression with an operator at the root.
    pub open spec fn thriving(self) -> bool {
        &&& self.dna.wf()
        &&& is_kind(self.dna@[0], Kind::Operator)
    }

    /// A valid expression that every mutation applies to: the root holds
    /// an operator or a number.
    pub open spec fn viable(self) -> bool {
        &&& self.dna.wf()
        &&& is_kind(self.dna@[0], Kind::Mutable)
    }

    /// The fitness is what `numerics` gave for this expression and these
    /// points.
    pub open spec fn fresh<N: Numerics<T>>(self, numerics: &N, points: Seq<Point<T>>) -> bool {
        scored(numerics, self.dna@, points, self.fitness)
    }

    /// A new random expression, scored against the points.
    pub fn new<N: Numerics<T>>(points: &[Point<T>], rng: &mut StdRng, numerics: &N) -> (individual: Self)
        ensures
            individual.thriving(),
            individual.fresh(numerics, points@),
            2 <= levels(individual.dna@, 0) < MAX_DEPTH,
            individual.evaluations == 1,
    {
        let mut dna = SymbolicBinaryHeap::<T>::new();
        dna.spawn(rng, numerics);
        let fitness: u64 = fitness(&dna, points, numerics);
        Individual { dna, fitness, evaluations: 1 }
    }

    /// The given expression, scored against the points.
    pub fn new_from<N: Numerics<T>>(
        dna: SymbolicBinaryHeap<T>,
        points: &[Point<T>],
        numerics: &N,
    ) -> (individual: Self)
        requires
            dna.sized(),
        ensures
            individual.dna@ == dna@,
            individual.fresh(numerics, points@),
            individual.evaluations == 1,
    {
        let fitness: u64 = fitness(&dna, points, numerics);
        Individual { dna, fitness, evaluations: 1 }
    }

    /// Scores the expression anew.
    pub fn update_fitness<N: Numerics<T>>(&mut self, points: &[Point<T>], numerics: &N)
        requires
            old(self).dna.sized(),
            old(self).evaluations < usize::MAX,
        ensures
            final(self).dna@ == old(self).dna@,
            final(self).fresh(numerics, points@),
            final(self).evaluations == old(self).evaluations + 1,
    {
        self.fitness = fitness(&self.dna, points, numerics);
        self.evaluations = self.evaluations + 1;
    }

    /// Mutates the expression and scores it anew. A tree of more than two
    /// levels undergoes one of the four mutations, each as likely as the
    /// others; a smaller one a constant mutation or a point mutation.
    pub fn mutate<N: Numerics<T>>(&mut self, points: &[Point<T>], rng: &mut StdRng, numerics: &N)
        requires
            old(self).viable(),
            old(self).evaluations < usize::MAX,
        ensures
            final(self).viable(),
            final(self).fresh(numerics, points@),
            mutation(old(self).dna@, final(self).dna@, numerics),
            old(self).thriving() ==> final(self).thriving(),
            final(self).evaluations == old(self).evaluations + 1,
    {
        if self.dna.depth() > 2 {
            proof {
                if slot_arity(self.dna@[0]) == 0 {
                    lemma_one_level(self.dna@);
                }
            }
            let choice: usize = draw(rng, 0, 4);
            if choice == 0 {
                self.dna.mutate_constant(rng, numerics);
            } else if choice == 1 {
                self.dna.mutate_clip(rng, numerics);
            } else if choice == 2 {
                self.dna.mutate_swap(rng, numerics);
            } else {
                self.dna.mutate_similar(rng, numerics);
            }
        } else {
            let choice: usize = draw(rng, 0, 2);
            if choice == 0 {
                self.dna.mutate_constant(rng, numerics);
            } else {
                self.dna.mutate_similar(rng, numerics);
            }
        }
        proof {
            lemma_mutation_keeps_root(old(self).dna@, self.dna@, numerics);
        }
        self.update_fitness(points, numerics);
    }

    /// Of a parent and the child made from it, the one that goes on: the
    /// child if it fits better, or as well with fewer nodes; else the
    /// parent, which takes over the scoring spent on the child.
    pub fn survivor(parent: Self, child: Self) -> (kept: Self)
        requires
            parent.dna@.len() <= u32::MAX,
            child.dna@.len() <= u32::MAX,
            parent.evaluations < usize::MAX,
        ensures
            survives(parent, child, kept),
            kept.fitness >= parent.fitness,
            kept.fitness >= child.fitness,
    {
        if child.fitness > parent.fitness
            || (child.fitness == parent.fitness && child.dna.complexity() < parent.dna.complexity()) {
            child
        } else {
            let mut kept = parent;
            kept.evaluations = kept.evaluations + 1;
            kept
        }
    }

    /// Crossover with `father`: each parent picks a place, the subtrees at
    /// the two places change trees, and the two trees made so are scored.
    /// Of each parent and the tree made from it, the survivor is returned:
    /// first the one for `self`, then the one for `father`.
    pub fn cross_over<N: Numerics<T>>(
        self,
        father: &mut Individual<T>,
        points: &[Point<T>],
        rng: &mut StdRng,
        numerics: &N,
    ) -> (children: (Individual<T>, Individual<T>))
        requires
            self.thriving(),
            old(father).thriving(),
            self.evaluations < usize::MAX,
            old(father).evaluations < usize::MAX,
        ensures
            final(father).alike(*old(father)),
            children.0.thriving(),
            children.1.thriving(),
            children.0.fitness >= self.fitness,
            children.1.fitness >= old(father).fitness,
            self.fresh(numerics, points@) ==> children.0.fresh(numerics, points@),
            old(father).fresh(numerics, points@) ==> children.1.fresh(numerics, points@),
            crossover_of(self, *old(father), children.0, children.1, numerics, points@),
    {
        let mut mother = self;
        proof {
            assert(fitted(mother.dna@, 0));
            assert(fitted(father.dna@, 0));
            lemma_levels_at_least_two(mother.dna@);
            lemma_levels_at_least_two(father.dna@);
        }
        let mom_idx: usize = mother.dna.get_swap_idx(rng);
        let dad_idx: usize = father.dna.get_swap_idx(rng);
        mother.dna.check_swap_idx(mom_idx, rng, numerics);
        father.dna.check_swap_idx(dad_idx, rng, numerics);
        let mut daughter_dna = mother.dna.clone();
        let mut son_dna = father.dna.clone();
        daughter_dna.implant(mom_idx, &father.dna, dad_idx, rng, numerics);
        son_dna.implant(dad_idx, &mother.dna, mom_idx, rng, numerics);
        proof {
            assert(!in_subtree(mom_idx as int, 0));
            assert(!in_subtree(dad_idx as int, 0));
            assert(crossed_at(self.dna@, daughter_dna@, mom_idx as int, old(father).dna@, dad_idx as int, 0, numerics));
            assert(crossed_at(old(father).dna@, son_dna@, dad_idx as int, self.dna@, mom_idx as int, 0, numerics));
            assert(crossed(self.dna@, daughter_dna@, mom_idx as int, old(father).dna@, dad_idx as int, numerics));
            assert(crossed(old(father).dna@, son_dna@, dad_idx as int, self.dna@, mom_idx as int, numerics));
            assert(offspring(self.dna@, daughter_dna@, old(father).dna@, numerics));
            assert(offspring(old(father).dna@, son_dna@, self.dna@, numerics));
            assert(exchanged(self.dna@, daughter_dna@, old(father).dna@, son_dna@, numerics));
        }
        let son = Individual::new_from(son_dna, points, numerics);
        let daughter = Individual::new_from(daughter_dna, points, numerics);
        assert(mated(self, daughter, *old(father), son, numerics, points@));
        let second = Individual::survivor(father.clone(), son);
        let first = Individual::survivor(mother, daughter);
        (first, second)
    }
}

/// A valid tree with an operator at the root has two levels or more.
pub proof fn lemma_levels_at_least_two<T>(layout: Layout<T>)
    requires
        valid(layout),
        is_kind(layout[0], Kind::Operator),
    ensures
        2 <= levels(layout, 0),
{
    lemma_levels_fit(layout, 0);
    lemma_levels_between(layout, 0, MAX_DEPTH as int);
}

} // verus!
