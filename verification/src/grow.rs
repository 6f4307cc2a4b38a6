//! Random construction of expressions.

use rand::rngs::StdRng;
use vstd::arithmetic::power2::{lemma2_to64, lemma_pow2_unfold, pow2};
use vstd::prelude::*;
use crate::census::{lemma_levels, levels};
use crate::heap::{
    consistent, fitted, grafted, Layout, lemma_graft_valid, SymbolicBinaryHeap, valid,
    within_levels,
};
use crate::index::{
    counterpart, depth_of, in_subtree, lemma_counterpart_depth, lemma_counterpart_self,
    lemma_depth_bound, lemma_depth_small, lemma_under_root, length_from_depth, MAX_DEPTH, MAX_IDX,
};
use crate::node::{arity_of, Node, slot_arity};
use crate::leaf::{drawn, get_val};
use crate::numerics::Numerics;
use crate::prune::{lemma_plant_valid, lemma_planted, planted};
use crate::random::{draw, flip, get_op};

verus! {

/// A subtree set in place of another is as shallow as it was in the donor.
pub proof fn lemma_graft_levels<T>(host: Layout<T>, base: int, donor: Layout<T>, from: int, bound: int)
    requires
        0 <= base,
        0 <= from,
        within_levels(donor, from, bound),
    ensures
        within_levels(grafted(host, base, donor, from), base, bound),
{
    let after = grafted(host, base, donor, from);
    assert forall|idx: int|
        0 <= idx < after.len() && #[trigger] in_subtree(base, idx) && after[idx] is Some
    implies depth_of(idx) - depth_of(base) < bound by {
        lemma_counterpart_depth(base, from, idx);
        assert(in_subtree(from, counterpart(base, from, idx)));
    }
}

/// A subtree with a node at its root and no node deeper than `bound` levels
/// has between 1 and `bound` levels; under an operator in a consistent tree
/// it has at least 2.
pub proof fn lemma_levels_between<T>(layout: Layout<T>, base: int, bound: int)
    requires
        0 <= base < layout.len(),
        layout[base] is Some,
        within_levels(layout, base, bound),
    ensures
        1 <= levels(layout, base) <= bound,
        consistent(layout) && slot_arity(layout[base]) >= 1 ==> 2 <= levels(layout, base),
{
    lemma_levels(layout, base);
    if consistent(layout) && slot_arity(layout[base]) >= 1 {
        assert(fitted(layout, base));
        let below = 2 * base + 1;
        assert(in_subtree(base, base));
        assert(in_subtree(base, below));
        assert(depth_of(below) == depth_of(base) + 1);
    }
}

/// The content of the slot is no number, or a number that `numerics` gave
/// for a new number leaf.
pub open spec fn new_leaf<T: Copy, N: Numerics<T>>(slot: Option<Node<T>>, numerics: &N) -> bool {
    match slot {
        Some(Node::Number(number)) => drawn(numerics, number),
        _ => true,
    }
}

/// A tree as `sprout` makes it for `depth` levels: valid, with an operator
/// at the root, no node deeper than `depth`, every number one that
/// `numerics` gave for a new leaf, and, down to the last level but two, an
/// operator among the children of each binary operator.
pub open spec fn sprouted<T: Copy, N: Numerics<T>>(layout: Layout<T>, depth: int, numerics: &N) -> bool {
    &&& valid(layout)
    &&& slot_arity(layout[0]) >= 1
    &&& within_levels(layout, 0, depth)
    &&& forall|idx: int| 0 <= idx < MAX_IDX ==> new_leaf(#[trigger] layout[idx], numerics)
    &&& forall|idx: int|
        0 <= idx < pow2((depth - 2) as nat) - 1 && slot_arity(#[trigger] layout[idx]) == 2
            ==> slot_arity(layout[2 * idx + 1]) >= 1 || slot_arity(layout[2 * idx + 2]) >= 1
}

impl<T: Copy> SymbolicBinaryHeap<T> {
    /// Gives the node at `idx` the children that its kind demands, and
    /// empties the child slots that it does not fill. A child is an operator
    /// where the flag for its side is set, else a terminal.
    pub fn fill_node<N: Numerics<T>>(
        &mut self,
        idx: usize,
        left_op: bool,
        right_op: bool,
        rng: &mut StdRng,
        numerics: &N,
    )
        requires
            old(self).sized(),
            2 * idx + 2 < MAX_IDX,
        ensures
            final(self).sized(),
            fitted(final(self)@, idx as int),
            forall|k: int| 0 <= k < MAX_IDX && k != 2 * idx + 1 && k != 2 * idx + 2
                ==> final(self)@[k] == old(self)@[k],
            !left_op ==> slot_arity(final(self)@[2 * idx + 1]) == 0,
            !right_op ==> slot_arity(final(self)@[2 * idx + 2]) == 0,
            left_op && slot_arity(old(self)@[idx as int]) >= 1 ==> slot_arity(final(self)@[2 * idx + 1]) >= 1,
            right_op && slot_arity(old(self)@[idx as int]) == 2 ==> slot_arity(final(self)@[2 * idx + 2]) >= 1,
            new_leaf(final(self)@[2 * idx + 1], numerics),
            new_leaf(final(self)@[2 * idx + 2], numerics),
    {
        let demand: usize = arity_of(&self.heap[idx]);
        let mut left: Option<Node<T>> = None;
        let mut right: Option<Node<T>> = None;
        if demand >= 1 {
            left = if left_op { get_op(rng) } else { get_val(rng, numerics) };
        }
        if demand == 2 {
            right = if right_op { get_op(rng) } else { get_val(rng, numerics) };
        }
        self.heap[2 * idx + 1] = left;
        self.heap[2 * idx + 2] = right;
    }

    /// A new random expression of at most `depth` levels with an operator at
    /// the root. Down to the last level but one, a binary operator gets one
    /// operator child and one child that is an operator or a terminal, and a
    /// unary operator gets an operator or a terminal; the last level holds
    /// terminals only.
    pub fn sprout<N: Numerics<T>>(depth: u32, rng: &mut StdRng, numerics: &N) -> (tree: Self)
        requires
            2 <= depth <= MAX_DEPTH,
        ensures
            sprouted(tree@, depth as int, numerics),
    {
        let mut tree = SymbolicBinaryHeap::<T>::new();
        tree.heap[0] = get_op(rng);
        proof {
            lemma2_to64();
        }
        let parents: usize = length_from_depth(depth - 1);
        let inner: usize = length_from_depth(depth - 2);
        proof {
            lemma2_to64();
            lemma_pow2_unfold(depth as nat);
            lemma_pow2_unfold((depth - 1) as nat);
            lemma_depth_bound(parents as int, MAX_DEPTH as nat);
        }
        let mut idx: usize = 0;
        while idx < parents
            invariant
                idx <= parents,
                parents == pow2((depth - 1) as nat) - 1,
                parents == 2 * inner + 1,
                parents <= 31,
                tree.sized(),
                tree@[0] is Some,
                tree@[0]->0.is_operator(),
                forall|k: int| 0 <= k < idx ==> #[trigger] fitted(tree@, k),
                forall|k: int| 2 * idx < k < MAX_IDX ==> tree@[k] is None,
                forall|k: int| parents <= k < MAX_IDX ==> slot_arity(#[trigger] tree@[k]) == 0,
                forall|k: int| 0 <= k < MAX_IDX ==> new_leaf(#[trigger] tree@[k], numerics),
                inner == pow2((depth - 2) as nat) - 1,
                forall|k: int|
                    0 <= k < idx && k < inner && slot_arity(#[trigger] tree@[k]) == 2
                        ==> slot_arity(tree@[2 * k + 1]) >= 1
                        || slot_arity(tree@[2 * k + 2]) >= 1,
            decreases parents - idx,
        {
            let ghost before = tree@;
            if idx < inner {
                let both: bool = flip(rng);
                if flip(rng) {
                    tree.fill_node(idx, true, both, rng, numerics);
                } else {
                    tree.fill_node(idx, both, true, rng, numerics);
                }
            } else {
                tree.fill_node(idx, false, false, rng, numerics);
            }
            assert forall|k: int| 0 <= k < idx + 1 implies #[trigger] fitted(tree@, k) by {
                if k < idx {
                    assert(fitted(before, k));
                }
            }
            assert forall|k: int| 0 <= k < MAX_IDX implies new_leaf(#[trigger] tree@[k], numerics) by {
                if k != 2 * idx + 1 && k != 2 * idx + 2 {
                    assert(new_leaf(before[k], numerics));
                }
            }
            assert forall|k: int|
                0 <= k < idx + 1 && k < inner && slot_arity(#[trigger] tree@[k]) == 2
            implies slot_arity(tree@[2 * k + 1]) >= 1 || slot_arity(tree@[2 * k + 2]) >= 1 by {
                if k < idx {
                    assert(slot_arity(before[k]) == 2);
                }
            }
            idx = idx + 1;
        }
        proof {
            assert forall|k: int| 0 <= k < MAX_IDX implies #[trigger] fitted(tree@, k) by {
                if k >= parents {
                    assert(slot_arity(tree@[k]) == 0);
                }
            }
            assert forall|k: int|
                0 <= k < tree@.len() && #[trigger] in_subtree(0, k) && tree@[k] is Some
            implies depth_of(k) - depth_of(0) < depth by {
                lemma_depth_bound(k, depth as nat);
            }
        }
        tree
    }

    /// Sets a new random subtree of at most `depth` levels at `base_idx`, in
    /// place of what was there. With `depth` 1 it is a single terminal, else
    /// its root is an operator.
    pub fn random_instantiate<N: Numerics<T>>(
        &mut self,
        base_idx: usize,
        depth: u32,
        rng: &mut StdRng,
        numerics: &N,
    )
        requires
            old(self).sized(),
            base_idx < MAX_IDX,
            1 <= depth,
            base_idx == 0 ==> 2 <= depth,
            depth_of(base_idx as int) + depth - 1 <= MAX_DEPTH,
        ensures
            final(self).sized(),
            forall|k: int| 0 <= k < MAX_IDX && !#[trigger] in_subtree(base_idx as int, k)
                ==> final(self)@[k] == old(self)@[k],
            final(self)@[base_idx as int] is Some,
            depth == 1 ==> final(self)@[base_idx as int]->0.is_terminal(),
            depth >= 2 ==> final(self)@[base_idx as int]->0.is_operator(),
            within_levels(final(self)@, base_idx as int, depth as int),
            base_idx == 0 || (old(self).wf() && old(self)@[base_idx as int] is Some) ==> final(self).wf(),
            depth == 1 ==> final(self)@ == planted(old(self)@, base_idx as int, final(self)@[base_idx as int])
                && new_leaf(final(self)@[base_idx as int], numerics),
            depth >= 2 ==> exists|donor: Layout<T>| #[trigger]
                sprouted(donor, depth as int, numerics)
                    && final(self)@ == grafted(old(self)@, base_idx as int, donor, 0),
    {
        proof {
            lemma_depth_small(base_idx as int);
        }
        if depth == 1 {
            let slot: Option<Node<T>> = get_val(rng, numerics);
            proof {
                lemma_planted(self@, base_idx as int, slot);
                if self.wf() && self@[base_idx as int] is Some {
                    lemma_plant_valid(self@, base_idx as int, slot);
                }
                let after = planted(self@, base_idx as int, slot);
                assert forall|k: int|
                    0 <= k < after.len() && #[trigger] in_subtree(base_idx as int, k) && after[k] is Some
                implies depth_of(k) - depth_of(base_idx as int) < 1 by {}
            }
            self.plant(base_idx, slot);
        } else {
            let donor = SymbolicBinaryHeap::<T>::sprout(depth, rng, numerics);
            proof {
                lemma_graft_levels(self@, base_idx as int, donor@, 0, depth as int);
                if base_idx == 0 {
                    lemma_graft_valid(donor@, 0, donor@, 0, depth as int);
                    assert forall|k: int| 0 <= k < MAX_IDX implies in_subtree(0, k) by {
                        lemma_under_root(k);
                    }
                    assert(grafted(self@, 0, donor@, 0) =~= grafted(donor@, 0, donor@, 0));
                } else if self.wf() && self@[base_idx as int] is Some {
                    lemma_graft_valid(self@, base_idx as int, donor@, 0, depth as int);
                }
            }
            self.graft(base_idx, &donor, 0);
        }
    }

    /// Makes the tree a new random expression of 2 to 5 levels.
    pub fn spawn<N: Numerics<T>>(&mut self, rng: &mut StdRng, numerics: &N)
        requires
            old(self).sized(),
        ensures
            final(self).wf(),
            final(self)@[0]->0.is_operator(),
            2 <= levels(final(self)@, 0) < MAX_DEPTH,
            exists|depth: int| 2 <= depth < MAX_DEPTH && #[trigger] sprouted(final(self)@, depth, numerics),
    {
        let depth: usize = draw(rng, 2, MAX_DEPTH as usize);
        self.random_instantiate(0, depth as u32, rng, numerics);
        proof {
            lemma_levels_between(self@, 0, depth as int);
            let donor = choose|donor: Layout<T>| #[trigger]
                sprouted(donor, depth as int, numerics) && self@ == grafted(old(self)@, 0, donor, 0);
            assert forall|k: int| 0 <= k < MAX_IDX implies in_subtree(0, k) && counterpart(0, 0, k) == k by {
                lemma_under_root(k);
                lemma_counterpart_self(0, k);
            }
            assert(self@ =~= donor);
        }
    }
}

} // verus!
