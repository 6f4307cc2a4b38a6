//! The four mutations of an expression.

use rand::rngs::StdRng;
use vstd::prelude::*;
use crate::census::{
    all_of_kind, is_kind, Kind, lemma_fewer_nodes, lemma_kind_kept, lemma_kind_of, lemma_levels,
    lemma_topmost, levels, node_count, topmost,
};
use crate::exchange::{lemma_levels_fit, lemma_swap_valid, swapped};
use crate::grow::sprouted;
use crate::heap::{
    consistent, fitted, grafted, Layout, lemma_ancestors_operate, SymbolicBinaryHeap, valid,
};
use crate::index::{
    check_related, depth_from_idx, depth_of, in_subtree, lemma_depth_positive, lemma_depth_small,
    lemma_under_root, MAX_DEPTH, MAX_IDX, related,
};
use crate::node::{Node, slot_arity};
use crate::leaf::{perturb, perturbed};
use crate::numerics::Numerics;
use crate::prune::{lemma_admitted, lemma_planted, planted, stands_for};
use crate::random::{draw, pick_out, take_at};

verus! {

/// `after` is `before` with the subtree at `idx` replaced by the tree
/// `donor`, sprouted for `depth` levels that leave the last level free.
pub open spec fn grown_from<T: Copy, N: Numerics<T>>(
    before: Layout<T>,
    after: Layout<T>,
    idx: int,
    depth: int,
    donor: Layout<T>,
    numerics: &N,
) -> bool {
    &&& 2 <= depth <= MAX_DEPTH - depth_of(idx)
    &&& sprouted(donor, depth, numerics)
    &&& after == grafted(before, idx, donor, 0)
}

/// `after` is `before` with the terminal at `idx` grown into a random
/// subtree whose root is an operator.
pub open spec fn grown_at<T: Copy, N: Numerics<T>>(
    before: Layout<T>,
    after: Layout<T>,
    idx: int,
    numerics: &N,
) -> bool {
    &&& 0 <= idx < MAX_IDX
    &&& is_kind(before[idx], Kind::Terminal)
    &&& depth_of(idx) + 2 <= MAX_DEPTH
    &&& exists|depth: int, donor: Layout<T>| #[trigger] grown_from(before, after, idx, depth, donor, numerics)
}

/// The terminal `after` is what a retuning makes of the terminal
/// `before`: the variable stays, and a number gives way to one that
/// `numerics` gave as a number near it.
pub open spec fn retuned<T: Copy, N: Numerics<T>>(before: Node<T>, after: Node<T>, numerics: &N) -> bool {
    match before {
        Node::Variable => after is Variable,
        Node::Number(number) => after is Number && perturbed(numerics, number, after->Number_0),
        _ => false,
    }
}

/// `after` is `before` but for the terminal at `idx`, which was retuned.
pub open spec fn retuned_at<T: Copy, N: Numerics<T>>(
    before: Layout<T>,
    after: Layout<T>,
    idx: int,
    numerics: &N,
) -> bool {
    &&& 0 <= idx < MAX_IDX
    &&& before[idx] is Some
    &&& after[idx] is Some
    &&& retuned(before[idx]->0, after[idx]->0, numerics)
    &&& after == before.update(idx, after[idx])
}

/// `after` is `before` with the subtree at the operator `idx`, not the
/// root, clipped to a terminal that stands for it.
pub open spec fn clipped_at<T: Copy, N: Numerics<T>>(
    before: Layout<T>,
    after: Layout<T>,
    idx: int,
    numerics: &N,
) -> bool {
    &&& 1 <= idx < MAX_IDX
    &&& is_kind(before[idx], Kind::Operator)
    &&& after[idx] is Some
    &&& stands_for(after[idx]->0, before, idx as usize, numerics)
    &&& after == planted(before, idx, after[idx])
}

/// `after` is `before` with the operator at `idx` turned into its twin.
pub open spec fn twinned_at<T>(before: Layout<T>, after: Layout<T>, idx: int) -> bool {
    &&& 0 <= idx < MAX_IDX
    &&& is_kind(before[idx], Kind::Operator)
    &&& after == before.update(idx, Some(before[idx]->0.twin()))
}

/// The subtrees at `first` and `second` may change places: both are nodes
/// below the root, neither is under the other, and the tree is no deeper
/// than `MAX_DEPTH` when the levels of the one are counted in place of the
/// levels of the other.
pub open spec fn tradable<T>(layout: Layout<T>, first: int, second: int) -> bool {
    &&& 1 <= first < MAX_IDX
    &&& 1 <= second < MAX_IDX
    &&& layout[first] is Some
    &&& layout[second] is Some
    &&& !related(first, second)
    &&& levels(layout, 0) - levels(layout, first) + levels(layout, second) <= MAX_DEPTH
    &&& levels(layout, 0) - levels(layout, second) + levels(layout, first) <= MAX_DEPTH
}

/// `after` is `before` with the subtrees at `first` and `second` in each
/// other's place.
pub open spec fn traded_at<T>(before: Layout<T>, after: Layout<T>, first: int, second: int) -> bool {
    &&& tradable(before, first, second)
    &&& after == swapped(before, first, second)
}

/// The node at `first`, below the root, has no subtree to change places
/// with.
pub open spec fn stuck_at<T>(layout: Layout<T>, first: int) -> bool {
    &&& 1 <= first < MAX_IDX
    &&& layout[first] is Some
    &&& forall|second: int| !#[trigger] tradable(layout, first, second)
}

/// The terminal at `idx` has two levels or more to grow into.
pub open spec fn roomy_at<T>(layout: Layout<T>, idx: int) -> bool {
    &&& 0 <= idx < MAX_IDX
    &&& is_kind(layout[idx], Kind::Terminal)
    &&& depth_of(idx) + 2 <= MAX_DEPTH
}

/// The tree stops short of the last level and has a terminal with room to
/// grow.
pub open spec fn can_grow<T>(layout: Layout<T>) -> bool {
    &&& levels(layout, 0) < MAX_DEPTH
    &&& exists|idx: int| #[trigger] roomy_at(layout, idx)
}

/// The outcome of a constant mutation: a terminal has grown or was retuned.
pub open spec fn constant_mutation<T: Copy, N: Numerics<T>>(
    before: Layout<T>,
    after: Layout<T>,
    numerics: &N,
) -> bool {
    ||| exists|idx: int| #[trigger] grown_at(before, after, idx, numerics)
    ||| exists|idx: int| #[trigger] retuned_at(before, after, idx, numerics)
}

/// The outcome of a clip: an operator below the root has become a terminal.
pub open spec fn clip_mutation<T: Copy, N: Numerics<T>>(before: Layout<T>, after: Layout<T>, numerics: &N) -> bool {
    exists|idx: int| #[trigger] clipped_at(before, after, idx, numerics)
}

/// The outcome of a point mutation: an operator has become its twin, or a
/// number another number.
pub open spec fn similar_mutation<T: Copy, N: Numerics<T>>(
    before: Layout<T>,
    after: Layout<T>,
    numerics: &N,
) -> bool {
    ||| exists|idx: int| #[trigger] twinned_at(before, after, idx)
    ||| exists|idx: int| #[trigger] retuned_at(before, after, idx, numerics) && before[idx]->0 is Number
}

/// The outcome of a swap mutation: two subtrees have changed places, or,
/// where the node taken first had none to change places with, a constant
/// mutation took place.
pub open spec fn swap_mutation<T: Copy, N: Numerics<T>>(before: Layout<T>, after: Layout<T>, numerics: &N) -> bool {
    ||| exists|first: int, second: int| #[trigger] traded_at(before, after, first, second)
    ||| (exists|first: int| #[trigger] stuck_at(before, first)) && constant_mutation(before, after, numerics)
}

/// A terminal that has grown has become an operator, and the tree is as
/// it was outside the new subtree.
pub proof fn lemma_grown<T: Copy, N: Numerics<T>>(before: Layout<T>, after: Layout<T>, idx: int, numerics: &N)
    requires
        grown_at(before, after, idx, numerics),
    ensures
        after.len() == MAX_IDX,
        is_kind(after[idx], Kind::Operator),
        forall|k: int| 0 <= k < MAX_IDX && !#[trigger] in_subtree(idx, k) ==> after[k] == before[k],
{
    let (depth, donor) = choose|depth: int, donor: Layout<T>| #[trigger]
        grown_from(before, after, idx, depth, donor, numerics);
    assert(in_subtree(idx, idx));
}

/// A mutation of a valid tree leaves at the root a node that a point
/// mutation can change, and leaves an operator there an operator.
pub proof fn lemma_mutation_keeps_root<T: Copy, N: Numerics<T>>(before: Layout<T>, after: Layout<T>, numerics: &N)
    requires
        valid(before),
        is_kind(before[0], Kind::Mutable),
        constant_mutation(before, after, numerics) || similar_mutation(before, after, numerics)
            || clip_mutation(before, after, numerics)
            || swap_mutation(before, after, numerics),
    ensures
        is_kind(after[0], Kind::Mutable),
        is_kind(before[0], Kind::Operator) ==> is_kind(after[0], Kind::Operator),
{
    if slot_arity(before[0]) == 0 {
        lemma_lone_root(before, MAX_IDX as int);
    }
    if constant_mutation(before, after, numerics) {
        lemma_constant_keeps_root(before, after, numerics);
    } else if similar_mutation(before, after, numerics) {
        if exists|idx: int| #[trigger] twinned_at(before, after, idx) {
            let idx = choose|idx: int| #[trigger] twinned_at(before, after, idx);
        } else {
            let idx = choose|idx: int| #[trigger] retuned_at(before, after, idx, numerics)
                && before[idx]->0 is Number;
        }
    } else if clip_mutation(before, after, numerics) {
        let idx = choose|idx: int| #[trigger] clipped_at(before, after, idx, numerics);
        lemma_planted(before, idx, after[idx]);
        assert(!in_subtree(idx, 0));
    } else if exists|first: int, second: int| #[trigger] traded_at(before, after, first, second) {
        let (first, second) = choose|first: int, second: int| #[trigger] traded_at(before, after, first, second);
        assert(!in_subtree(first, 0));
        assert(!in_subtree(second, 0));
    } else {
        lemma_constant_keeps_root(before, after, numerics);
    }
}

/// A constant mutation of a valid tree leaves at the root a node that a
/// point mutation can change, and leaves an operator there an operator.
pub proof fn lemma_constant_keeps_root<T: Copy, N: Numerics<T>>(before: Layout<T>, after: Layout<T>, numerics: &N)
    requires
        valid(before),
        is_kind(before[0], Kind::Mutable),
        constant_mutation(before, after, numerics),
    ensures
        is_kind(after[0], Kind::Mutable),
        is_kind(before[0], Kind::Operator) ==> is_kind(after[0], Kind::Operator),
{
    if exists|idx: int| #[trigger] grown_at(before, after, idx, numerics) {
        let idx = choose|idx: int| #[trigger] grown_at(before, after, idx, numerics);
        lemma_grown(before, after, idx, numerics);
        if idx != 0 {
            assert(!in_subtree(idx, 0));
        }
    } else {
        let idx = choose|idx: int| #[trigger] retuned_at(before, after, idx, numerics);
    }
}

/// A tree in which a terminal has grown has more nodes.
pub proof fn lemma_growth_adds<T: Copy, N: Numerics<T>>(before: Layout<T>, after: Layout<T>, idx: int, numerics: &N)
    requires
        valid(before),
        valid(after),
        grown_at(before, after, idx, numerics),
    ensures
        node_count(after) > node_count(before),
{
    lemma_grown(before, after, idx, numerics);
    assert(fitted(after, idx));
    let below = 2 * idx + 1;
    assert(in_subtree(idx, idx));
    assert(in_subtree(idx, below));
    assert(fitted(before, idx));
    assert forall|k: int| 0 <= k < MAX_IDX && (#[trigger] before[k]) is Some implies after[k] is Some by {
        if in_subtree(idx, k) && k != idx {
            lemma_ancestors_operate(before, idx, k);
        }
    }
    lemma_fewer_nodes(after, before, MAX_IDX as int);
}

/// A point mutation and a retuning leave every slot filled as it was, with
/// a node that takes as many children.
pub proof fn lemma_shape_kept<T: Copy, N: Numerics<T>>(before: Layout<T>, after: Layout<T>, numerics: &N)
    requires
        before.len() == MAX_IDX,
        similar_mutation(before, after, numerics)
            || exists|idx: int| #[trigger] retuned_at(before, after, idx, numerics),
    ensures
        after.len() == MAX_IDX,
        forall|k: int|
            0 <= k < MAX_IDX ==> (#[trigger] after[k] is Some <==> before[k] is Some)
                && slot_arity(after[k]) == slot_arity(before[k]),
{
    if exists|idx: int| #[trigger] twinned_at(before, after, idx) {
        let idx = choose|idx: int| #[trigger] twinned_at(before, after, idx);
    } else if exists|idx: int| #[trigger] retuned_at(before, after, idx, numerics) {
        let idx = choose|idx: int| #[trigger] retuned_at(before, after, idx, numerics);
    } else {
        let idx = choose|idx: int| #[trigger] retuned_at(before, after, idx, numerics) && before[idx]->0 is Number;
    }
}

/// The outcome of a clip has fewer nodes.
pub proof fn lemma_clip_shrinks<T: Copy, N: Numerics<T>>(before: Layout<T>, after: Layout<T>, numerics: &N)
    requires
        valid(before),
        clip_mutation(before, after, numerics),
    ensures
        node_count(after) < node_count(before),
{
    let idx = choose|idx: int| #[trigger] clipped_at(before, after, idx, numerics);
    lemma_planted(before, idx, after[idx]);
    assert(fitted(before, idx));
    let below = 2 * idx + 1;
    assert(in_subtree(idx, idx));
    assert(in_subtree(idx, below));
    assert(after[below] is None && before[below] is Some);
    assert forall|k: int| 0 <= k < MAX_IDX && (#[trigger] after[k]) is Some implies before[k] is Some by {
        if in_subtree(idx, k) && k != idx {
            assert(after[k] is None);
        }
    }
    lemma_fewer_nodes(before, after, MAX_IDX as int);
}

/// A slot may give way to one that is filled alike and takes as many
/// children.
pub proof fn lemma_update_valid<T>(layout: Layout<T>, idx: int, slot: Option<Node<T>>)
    requires
        valid(layout),
        0 <= idx < MAX_IDX,
        slot is Some <==> layout[idx] is Some,
        slot_arity(slot) == slot_arity(layout[idx]),
    ensures
        valid(layout.update(idx, slot)),
{
    let after = layout.update(idx, slot);
    assert forall|k: int| 0 <= k < MAX_IDX implies #[trigger] fitted(after, k) by {
        assert(fitted(layout, k));
    }
}

/// The last node of a valid tree is a terminal: a valid tree has one.
pub proof fn lemma_has_terminal<T>(layout: Layout<T>) -> (idx: int)
    requires
        valid(layout),
    ensures
        0 <= idx < MAX_IDX,
        is_kind(layout[idx], Kind::Terminal),
{
    let top = topmost(layout, 0, MAX_IDX as int);
    lemma_topmost(layout, 0, MAX_IDX as int);
    assert(in_subtree(0, 0));
    assert(fitted(layout, top));
    if slot_arity(layout[top]) >= 1 {
        lemma_under_root(2 * top + 1);
    }
    top
}

/// A valid tree of three levels or more has an operator below the root.
pub proof fn lemma_has_inner_operator<T>(layout: Layout<T>) -> (idx: int)
    requires
        valid(layout),
        levels(layout, 0) >= 3,
    ensures
        1 <= idx < MAX_IDX,
        is_kind(layout[idx], Kind::Operator),
{
    let top = topmost(layout, 0, MAX_IDX as int);
    lemma_topmost(layout, 0, MAX_IDX as int);
    lemma_depth_small(top);
    let up = (top - 1) / 2;
    assert(fitted(layout, up));
    up
}

impl<T: Copy> SymbolicBinaryHeap<T> {
    /// Puts the number `number` in place of the number at `idx`.
    pub fn set_number(&mut self, idx: usize, number: T)
        requires
            idx < old(self)@.len(),
        ensures
            final(self)@ == old(self)@.update(idx as int, Some(Node::Number(number))),
    {
        self.heap[idx] = Some(Node::Number(number));
    }

    /// Retunes one of the listed terminals, each as likely as the others: a
    /// number gives way to a number near it, the variable stays.
    pub fn mutate_number<N: Numerics<T>>(&mut self, terminals: &Vec<usize>, rng: &mut StdRng, numerics: &N)
        requires
            old(self).wf(),
            terminals@.len() > 0,
            all_of_kind(terminals@, old(self)@, Kind::Terminal),
        ensures
            final(self).wf(),
            exists|idx: int| terminals@.contains(idx as usize)
                && #[trigger] retuned_at(old(self)@, final(self)@, idx, numerics),
    {
        let place: usize = draw(rng, 0, terminals.len());
        let choice: usize = terminals[place];
        match self.heap[choice] {
            Some(Node::Number(number)) => {
                let near: T = perturb(number, rng, numerics);
                proof {
                    lemma_update_valid(self@, choice as int, Some(Node::Number(near)));
                }
                self.set_number(choice, near);
            },
            _ => {
                assert(self@ =~= self@.update(choice as int, self@[choice as int]));
            },
        }
        assert(is_kind(self@[terminals@[place as int] as int], Kind::Terminal));
        assert(terminals@.contains(choice));
        assert(retuned_at(old(self)@, self@, choice as int, numerics));
    }

    /// Turns one operator into the other of its pair (addition and
    /// subtraction, multiplication and division, sine and cosine), or one
    /// number into a number near it. Each operator and each number is as
    /// likely to be the one as the others.
    pub fn mutate_similar<N: Numerics<T>>(&mut self, rng: &mut StdRng, numerics: &N)
        requires
            old(self).wf(),
            exists|idx: int| 0 <= idx < MAX_IDX && is_kind(#[trigger] old(self)@[idx], Kind::Mutable),
        ensures
            final(self).wf(),
            similar_mutation(old(self)@, final(self)@, numerics),
    {
        let found: Vec<usize> = self.positions(Kind::Mutable);
        proof {
            let idx = choose|idx: int| 0 <= idx < MAX_IDX && is_kind(#[trigger] self@[idx], Kind::Mutable);
            assert(found@.contains(idx as usize));
        }
        let place: usize = draw(rng, 0, found.len());
        let choice: usize = found[place];
        assert(is_kind(self@[found@[place as int] as int], Kind::Mutable));
        match self.heap[choice] {
            Some(Node::Number(_)) => {
                let mut single: Vec<usize> = Vec::new();
                single.push(choice);
                self.mutate_number(&single, rng, numerics);
                assert(retuned_at(old(self)@, self@, choice as int, numerics));
            },
            Some(node) => {
                let other: Node<T> = node.similar();
                proof {
                    lemma_update_valid(self@, choice as int, Some(other));
                }
                self.heap[choice] = Some(other);
                assert(twinned_at(old(self)@, self@, choice as int));
            },
            None => {},
        }
    }

    /// Grows a terminal into a random subtree where the tree stops short of
    /// the last level and some terminal has two levels or more below it;
    /// elsewhere retunes a terminal.
    pub fn mutate_constant<N: Numerics<T>>(&mut self, rng: &mut StdRng, numerics: &N)
        requires
            old(self).wf(),
        ensures
            final(self).wf(),
            can_grow(old(self)@) ==> exists|idx: int| #[trigger] grown_at(old(self)@, final(self)@, idx, numerics),
            !can_grow(old(self)@) ==> exists|idx: int| #[trigger] retuned_at(old(self)@, final(self)@, idx, numerics),
            constant_mutation(old(self)@, final(self)@, numerics),
    {
        let terminals: Vec<usize> = self.get_terminal_idxs();
        proof {
            let last = lemma_has_terminal(self@);
            assert(terminals@.contains(last as usize));
        }
        if self.depth() < MAX_DEPTH {
            let mut pool: Vec<usize> = self.get_terminal_idxs();
            let total: usize = pool.len();
            let mut tried: usize = 0;
            while tried < total
                invariant
                    tried <= total,
                    pool@.len() == total - tried,
                    self@ == old(self)@,
                    self.wf(),
                    levels(self@, 0) < MAX_DEPTH,
                    all_of_kind(pool@, self@, Kind::Terminal),
                    forall|idx: int| roomy_at(self@, idx) ==> pool@.contains(idx as usize),
                decreases total - tried,
            {
                let ghost before = pool@;
                let choice: usize = pick_out(&mut pool, rng);
                proof {
                    lemma_kind_of(before, choice, self@, Kind::Terminal);
                    lemma_kind_kept(before, pool@, self@, Kind::Terminal);
                    lemma_depth_small(choice as int);
                }
                let room: u32 = MAX_DEPTH - depth_from_idx(choice) + 1;
                if room > 2 {
                    let spawn_depth: usize = draw(rng, 2, room as usize);
                    self.random_instantiate(choice, spawn_depth as u32, rng, numerics);
                    proof {
                        let donor = choose|donor: Layout<T>| #[trigger]
                            sprouted(donor, spawn_depth as int, numerics)
                                && self@ == grafted(old(self)@, choice as int, donor, 0);
                        assert(grown_from(old(self)@, self@, choice as int, spawn_depth as int, donor, numerics));
                        assert(grown_at(old(self)@, self@, choice as int, numerics));
                        assert(roomy_at(old(self)@, choice as int));
                    }
                    return;
                }
                tried = tried + 1;
            }
            assert(pool@.len() == 0);
            assert forall|idx: int| !roomy_at(self@, idx) by {
                if roomy_at(self@, idx) {
                    assert(pool@.contains(idx as usize));
                }
            }
        }
        self.mutate_number(&terminals, rng, numerics);
        proof {
            let idx = choose|idx: int| terminals@.contains(idx as usize)
                && #[trigger] retuned_at(old(self)@, self@, idx, numerics);
            assert(retuned_at(old(self)@, self@, idx, numerics));
        }
    }

    /// Swaps two subtrees: one node below the root is taken, and the first
    /// of the others, taken in random order, that is not related to it and
    /// whose subtree can change places with its own within the depth bound.
    /// Where there is none, a constant mutation takes place instead.
    pub fn mutate_swap<N: Numerics<T>>(&mut self, rng: &mut StdRng, numerics: &N)
        requires
            old(self).wf(),
            is_kind(old(self)@[0], Kind::Operator),
        ensures
            final(self).wf(),
            swap_mutation(old(self)@, final(self)@, numerics),
    {
        let full: u32 = self.depth();
        let mut nodes: Vec<usize> = self.positions(Kind::Occupied);
        let ghost all = nodes@;
        proof {
            assert(fitted(self@, 0));
            assert(all.contains(0usize));
            assert(all.contains(1usize));
            let k = choose|k: int| 0 <= k < all.len() && all[k] == 0usize;
            assert(k == 0) by {
                if k > 0 {
                    assert(all[0] < all[k]);
                }
            }
            assert(all.no_duplicates());
        }
        let root: usize = take_at(&mut nodes, 0);
        let ghost rest = nodes@;
        assert(rest.contains(1usize));
        let choice1: usize = pick_out(&mut nodes, rng);
        assert(1 <= choice1 < MAX_IDX && self@[choice1 as int] is Some) by {
            let k = choose|k: int| 0 <= k < rest.len() && rest[k] == choice1;
            assert(rest.contains(rest[k]));
            assert(all.contains(choice1));
            let j = choose|j: int| 0 <= j < all.len() && all[j] == choice1;
            assert(is_kind(self@[all[j] as int], Kind::Occupied));
        }
        let depth1: u32 = self.subtree_depth(choice1);
        proof {
            lemma_levels(self@, choice1 as int);
            lemma_levels_fit(self@, choice1 as int);
            lemma_depth_positive(choice1 as int);
            assert forall|member: int|
                1 <= member < MAX_IDX && self@[member] is Some && member != choice1
            implies nodes@.contains(member as usize) by {
                assert(is_kind(self@[member], Kind::Occupied));
                assert(all.contains(member as usize));
                assert(rest.contains(member as usize));
            }
            assert forall|member: usize| nodes@.contains(member)
            implies 1 <= member < MAX_IDX && self@[member as int] is Some by {
                assert(all.contains(member));
                let j = choose|j: int| 0 <= j < all.len() && all[j] == member;
                assert(is_kind(self@[all[j] as int], Kind::Occupied));
                assert(rest.contains(member));
            }
        }
        let total: usize = nodes.len();
        let mut tried: usize = 0;
        while tried < total
            invariant
                tried <= total,
                nodes@.len() == total - tried,
                self@ == old(self)@,
                self.wf(),
                full == levels(self@, 0),
                depth1 == levels(self@, choice1 as int),
                1 <= depth1 <= full <= MAX_DEPTH,
                depth_of(choice1 as int) + depth1 - 1 <= full,
                1 <= choice1 < MAX_IDX,
                self@[choice1 as int] is Some,
                forall|member: usize| nodes@.contains(member) ==> 1 <= member < MAX_IDX
                    && self@[member as int] is Some,
                forall|member: int|
                    1 <= member < MAX_IDX && self@[member] is Some && member != choice1
                        && !nodes@.contains(member as usize)
                        ==> !tradable(self@, choice1 as int, member),
            decreases total - tried,
        {
            let choice2: usize = pick_out(&mut nodes, rng);
            let depth2: u32 = self.subtree_depth(choice2);
            proof {
                lemma_levels(self@, choice2 as int);
                lemma_levels_fit(self@, choice2 as int);
                lemma_depth_positive(choice2 as int);
            }
            let fits: bool = full - depth1 + depth2 <= MAX_DEPTH && full - depth2 + depth1 <= MAX_DEPTH;
            if fits && !check_related(choice1, choice2) {
                proof {
                    lemma_swap_valid(self@, choice1 as int, choice2 as int);
                }
                self.swap_from(None, choice1, choice2);
                assert(traded_at(old(self)@, self@, choice1 as int, choice2 as int));
                return;
            }
            tried = tried + 1;
        }
        proof {
            assert(nodes@.len() == 0);
            assert forall|second: int| !#[trigger] tradable(self@, choice1 as int, second) by {
                if 1 <= second < MAX_IDX && self@[second] is Some && second != choice1 {
                    if nodes@.contains(second as usize) {
                        let k = choose|k: int| 0 <= k < nodes@.len() && nodes@[k] == second as usize;
                    }
                } else if second == choice1 {
                    assert(in_subtree(second, second));
                }
            }
            assert(stuck_at(old(self)@, choice1 as int));
        }
        self.mutate_constant(rng, numerics);
    }

    /// Deletes the subtree at an operator below the root, each such
    /// operator as likely as the others: a terminal takes its place.
    pub fn mutate_clip<N: Numerics<T>>(&mut self, rng: &mut StdRng, numerics: &N)
        requires
            old(self).wf(),
            levels(old(self)@, 0) > 2,
        ensures
            final(self).wf(),
            clip_mutation(old(self)@, final(self)@, numerics),
            node_count(final(self)@) < node_count(old(self)@),
    {
        let ops: Vec<usize> = self.get_op_idxs();
        proof {
            let inner = lemma_has_inner_operator(self@);
            assert(fitted(self@, 0));
            assert(ops@.contains(inner as usize));
            let k = choose|k: int| 0 <= k < ops@.len() && ops@[k] == inner as usize;
            if k == 0 {
                assert(ops@.contains(0usize)) by {
                    let ghost top = topmost(self@, 0, MAX_IDX as int);
                    lemma_topmost(self@, 0, MAX_IDX as int);
                    lemma_depth_small(top);
                    assert(is_kind(self@[0], Kind::Operator)) by {
                        if slot_arity(self@[0]) == 0 {
                            lemma_one_level(self@);
                        }
                    }
                }
                let j = choose|j: int| 0 <= j < ops@.len() && ops@[j] == 0usize;
                assert(j != k);
            }
        }
        let place: usize = draw(rng, 1, ops.len());
        let choice: usize = ops[place];
        assert(ops@[0] < ops@[place as int]);
        assert(is_kind(self@[ops@[place as int] as int], Kind::Operator));
        proof {
            lemma_admitted(self@, choice as int);
        }
        self.delete_from_idx(choice, rng, numerics);
        assert(clipped_at(old(self)@, self@, choice as int, numerics));
        proof {
            lemma_clip_shrinks(old(self)@, self@, numerics);
        }
    }
}

/// A valid tree with a terminal at the root has one level.
pub proof fn lemma_one_level<T>(layout: Layout<T>)
    requires
        valid(layout),
        slot_arity(layout[0]) == 0,
    ensures
        levels(layout, 0) == 1,
{
    lemma_lone_root(layout, MAX_IDX as int);
    lemma_topmost(layout, 0, MAX_IDX as int);
    assert(in_subtree(0, 0));
}

/// Under a terminal at the root of a consistent tree every slot is empty.
pub proof fn lemma_lone_root<T>(layout: Layout<T>, upto: int)
    requires
        consistent(layout),
        slot_arity(layout[0]) == 0,
        0 <= upto <= MAX_IDX,
    ensures
        forall|k: int| 1 <= k < upto ==> layout[k] is None,
    decreases upto,
{
    if upto > 1 {
        lemma_lone_root(layout, upto - 1);
        let k = upto - 1;
        assert(fitted(layout, (k - 1) / 2));
    }
}

} // verus!
