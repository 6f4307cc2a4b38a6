//! Deletion: a subtree gives way to a single slot.

use rand::rngs::StdRng;
use vstd::prelude::*;
use crate::heap::{
    consistent, fitted, grafted, Layout, lemma_graft_valid, lone, SymbolicBinaryHeap, valid,
};
use crate::index::{
    depth_of, in_subtree, lemma_counterpart_depth, lemma_depth_small, lemma_under_root, MAX_IDX,
};
use crate::node::{arity_of, Node, slot_arity};
use crate::evaluate::{applied, evaluates, folded, operand};
use crate::numerics::Numerics;
use crate::random::flip;

verus! {

/// The layout with the subtree at `idx` replaced by the single slot `slot`.
pub open spec fn planted<T>(layout: Layout<T>, idx: int, slot: Option<Node<T>>) -> Layout<T> {
    grafted(layout, idx, lone(slot), 0)
}

/// Whether the parent of `idx` takes a child on the side of `idx`. The root
/// has no parent to refuse it.
pub open spec fn admitted<T>(layout: Layout<T>, idx: int) -> bool {
    if idx <= 0 {
        true
    } else if idx % 2 == 1 {
        slot_arity(layout[(idx - 1) / 2]) >= 1
    } else {
        slot_arity(layout[(idx - 1) / 2]) == 2
    }
}

/// In a consistent tree the slots that hold a node below the root are those
/// that their parent admits.
pub proof fn lemma_admitted<T>(layout: Layout<T>, idx: int)
    requires
        consistent(layout),
        1 <= idx < MAX_IDX,
    ensures
        admitted(layout, idx) <==> layout[idx] is Some,
{
    assert(fitted(layout, (idx - 1) / 2));
}

/// What `planted` holds at each position.
pub proof fn lemma_planted<T>(layout: Layout<T>, idx: int, slot: Option<Node<T>>)
    requires
        layout.len() == MAX_IDX,
        0 <= idx < MAX_IDX,
    ensures
        planted(layout, idx, slot).len() == MAX_IDX,
        planted(layout, idx, slot)[idx] == slot,
        forall|k: int| 0 <= k < MAX_IDX && k != idx && #[trigger] in_subtree(idx, k)
            ==> planted(layout, idx, slot)[k] is None,
        forall|k: int| 0 <= k < MAX_IDX && !#[trigger] in_subtree(idx, k)
            ==> planted(layout, idx, slot)[k] == layout[k],
{
    assert forall|k: int| 0 <= k < MAX_IDX && k != idx && #[trigger] in_subtree(idx, k)
    implies planted(layout, idx, slot)[k] is None by {
        lemma_counterpart_depth(idx, 0, k);
    }
}

/// A terminal, or nothing, planted where the parent wants as much, leaves a
/// valid tree valid.
pub proof fn lemma_plant_valid<T>(layout: Layout<T>, idx: int, slot: Option<Node<T>>)
    requires
        valid(layout),
        0 <= idx < MAX_IDX,
        slot_arity(slot) == 0,
        slot is Some <==> (idx == 0 || layout[idx] is Some),
    ensures
        valid(planted(layout, idx, slot)),
{
    let donor = lone(slot);
    assert forall|k: int| 0 <= k < MAX_IDX implies #[trigger] fitted(donor, k) by {}
    assert forall|k: int| 0 <= k < donor.len() && #[trigger] in_subtree(0, k) && donor[k] is Some
    implies depth_of(k) - depth_of(0) < 1 by {}
    lemma_depth_small(idx);
    lemma_graft_valid(layout, idx, donor, 0, 1);
}

/// What a deletion at the root leaves is a single slot in a tree of full
/// size, on which a new expression can be spawned.
pub proof fn lemma_root_planted<T>(layout: Layout<T>, slot: Option<Node<T>>)
    requires
        layout.len() == MAX_IDX,
    ensures
        planted(layout, 0, slot) == lone(slot),
        planted(layout, 0, slot).len() == MAX_IDX,
{
    lemma_planted(layout, 0, slot);
    assert forall|k: int| 0 <= k < MAX_IDX implies #[trigger] in_subtree(0, k) by {
        lemma_under_root(k);
    }
    assert(planted(layout, 0, slot) =~= lone(slot));
}

/// A number leaf that holds a value of the subtree it has taken the place
/// of leaves the tree with values that it had: where the subtree at `idx`
/// is worth `worth` for the variable `x`, what the tree with the number
/// `worth` in its place is worth at `place`, a position outside the
/// subtree or `idx` itself, the tree was worth there too.
pub proof fn lemma_fold_kept<T: Copy, N: Numerics<T>>(
    numerics: &N,
    layout: Layout<T>,
    idx: int,
    worth: T,
    place: int,
    x: T,
    value: T,
)
    requires
        layout.len() == MAX_IDX,
        0 <= idx < MAX_IDX,
        layout[idx] is Some,
        evaluates(numerics, layout, idx, x, worth),
        0 <= place < MAX_IDX,
        place == idx || !in_subtree(idx, place),
        evaluates(numerics, planted(layout, idx, Some(Node::Number(worth))), place, x, value),
    ensures
        evaluates(numerics, layout, place, x, value),
    decreases MAX_IDX - place,
{
    let after = planted(layout, idx, Some(Node::Number(worth)));
    lemma_planted(layout, idx, Some(Node::Number(worth)));
    let left = 2 * place + 1;
    let right = 2 * place + 2;
    let (l, r) = choose|l: T, r: T|
        #[trigger] applied(numerics, after[place], l, r, x, value) && operand(numerics, after, left, x, l)
            && operand(numerics, after, right, x, r);
    if place != idx {
        assert(after[place] == layout[place]);
        assert(in_subtree(idx, left) <==> left == idx);
        assert(in_subtree(idx, right) <==> right == idx);
        if left < MAX_IDX && after[left] is Some {
            lemma_fold_kept(numerics, layout, idx, worth, left, x, l);
        }
        if right < MAX_IDX && after[right] is Some {
            lemma_fold_kept(numerics, layout, idx, worth, right, x, r);
        }
        assert(operand(numerics, layout, left, x, l));
        assert(operand(numerics, layout, right, x, r));
        assert(applied(numerics, layout[place], l, r, x, value));
    }
}

/// `leaf` can stand for the subtree at `idx`: it is the variable, or the
/// number that `numerics` gives for the subtree when the variable is one.
pub open spec fn stands_for<T: Copy, N: Numerics<T>>(
    leaf: Node<T>,
    layout: Layout<T>,
    idx: usize,
    numerics: &N,
) -> bool {
    match leaf {
        Node::Variable => true,
        Node::Number(value) => folded(numerics, layout, idx, value),
        _ => false,
    }
}

impl<T: Copy> SymbolicBinaryHeap<T> {
    /// Puts `slot` at `idx` and empties every slot below it.
    pub fn plant(&mut self, idx: usize, slot: Option<Node<T>>)
        requires
            old(self).sized(),
            idx < MAX_IDX,
        ensures
            final(self)@ == planted(old(self)@, idx as int, slot),
    {
        let mut donor = SymbolicBinaryHeap::<T>::new();
        donor.heap[0] = slot;
        assert(donor@ =~= lone(slot));
        self.graft(idx, &donor, 0);
    }

    /// Whether the parent of `idx` takes a child on the side of `idx`.
    pub fn admits(&self, idx: usize) -> (taken: bool)
        requires
            self.sized(),
            idx < MAX_IDX,
        ensures
            taken == admitted(self@, idx as int),
    {
        if idx == 0 {
            true
        } else {
            let demand: usize = arity_of(&self.heap[(idx - 1) / 2]);
            if idx % 2 == 1 {
                demand >= 1
            } else {
                demand == 2
            }
        }
    }

    /// A terminal to stand for the subtree at `idx`: the variable, or the
    /// number that the subtree is worth when the variable is one, each as
    /// likely as the other.
    pub fn op_to_terminal<N: Numerics<T>>(
        &self,
        idx: usize,
        rng: &mut StdRng,
        numerics: &N,
    ) -> (leaf: Node<T>)
        requires
            self.sized(),
            idx < MAX_IDX,
        ensures
            stands_for(leaf, self@, idx, numerics),
    {
        if flip(rng) {
            Node::Variable
        } else {
            Node::Number(self.fold(idx, numerics))
        }
    }

    /// Deletes the subtree at `idx`: where the parent takes a child on that
    /// side, or `idx` is the root, a terminal takes the subtree's place;
    /// elsewhere the slot is left empty. Every slot below `idx` is emptied.
    pub fn delete_from_idx<N: Numerics<T>>(&mut self, idx: usize, rng: &mut StdRng, numerics: &N)
        requires
            old(self).sized(),
            idx < MAX_IDX,
        ensures
            final(self)@ == planted(old(self)@, idx as int, final(self)@[idx as int]),
            admitted(old(self)@, idx as int) ==> final(self)@[idx as int] is Some && stands_for(
                final(self)@[idx as int]->0,
                old(self)@,
                idx,
                numerics,
            ),
            !admitted(old(self)@, idx as int) ==> final(self)@[idx as int] is None,
            old(self).wf() ==> final(self).wf(),
    {
        let slot: Option<Node<T>> = if self.admits(idx) {
            Some(self.op_to_terminal(idx, rng, numerics))
        } else {
            None
        };
        proof {
            lemma_planted(self@, idx as int, slot);
            if self.wf() {
                if idx > 0 {
                    lemma_admitted(self@, idx as int);
                }
                lemma_plant_valid(self@, idx as int, slot);
            }
        }
        self.plant(idx, slot);
    }
}

} // verus!
