//! The expression tree: a level-order array of slots, its validity, and the
//! one structural edit from which the others are made, the graft.

use vstd::prelude::*;
use crate::index::{
    counterpart, depth_of, in_subtree, lemma_counterpart_depth, lemma_depth_small,
    lemma_subtree_below, MAX_DEPTH, MAX_IDX,
};
use crate::node::{arity_of, Node, slot_arity};

verus! {

/// The content of a tree, slot by slot.
pub type Layout<T> = Seq<Option<Node<T>>>;

/// The slot at position `idx`; a position outside the layout is empty.
pub open spec fn at<T>(layout: Layout<T>, idx: int) -> Option<Node<T>> {
    if 0 <= idx < layout.len() {
        layout[idx]
    } else {
        None
    }
}

/// The child slots of position `idx` are filled as its node demands: both
/// under a binary operator, the left one alone under a unary operator, none
/// under a terminal or an empty slot.
pub open spec fn fitted<T>(layout: Layout<T>, idx: int) -> bool {
    &&& at(layout, 2 * idx + 1) is Some <==> slot_arity(layout[idx]) >= 1
    &&& at(layout, 2 * idx + 2) is Some <==> slot_arity(layout[idx]) == 2
}

/// Every position has the children that its node demands.
pub open spec fn consistent<T>(layout: Layout<T>) -> bool {
    &&& layout.len() == MAX_IDX
    &&& forall|idx: int| 0 <= idx < MAX_IDX ==> #[trigger] fitted(layout, idx)
}

/// A live expression: consistent, with a node at the root.
pub open spec fn valid<T>(layout: Layout<T>) -> bool {
    &&& consistent(layout)
    &&& layout[0] is Some
}

/// The listing, cut or filled up with empty slots to the size of a tree.
pub open spec fn padded<T>(listing: Layout<T>) -> Layout<T> {
    Seq::new(MAX_IDX as nat, |idx: int| at(listing, idx))
}

/// The layout with no node.
pub open spec fn vacant<T>() -> Layout<T> {
    Seq::new(MAX_IDX as nat, |idx: int| None)
}

/// The layout that holds `slot` at the root and nothing below.
pub open spec fn lone<T>(slot: Option<Node<T>>) -> Layout<T> {
    Seq::new(MAX_IDX as nat, |idx: int| if idx == 0 { slot } else { None })
}

/// The layout `host` with the subtree at `base` replaced by the subtree of
/// `donor` at `from`. What the donor holds beyond the last level is left out.
pub open spec fn grafted<T>(host: Layout<T>, base: int, donor: Layout<T>, from: int) -> Layout<T> {
    Seq::new(
        MAX_IDX as nat,
        |idx: int|
            if in_subtree(base, idx) {
                at(donor, counterpart(base, from, idx))
            } else {
                host[idx]
            },
    )
}

/// No node of the subtree at `base` lies more than `bound` levels deep, the
/// subtree's root being at level 1.
pub open spec fn within_levels<T>(layout: Layout<T>, base: int, bound: int) -> bool {
    forall|idx: int|
        0 <= idx < layout.len() && #[trigger] in_subtree(base, idx) && layout[idx] is Some
            ==> depth_of(idx) - depth_of(base)
            < bound
}

/// The node at `idx` has what its kind demands: a binary operator both
/// children, a unary operator the left child alone, a terminal none. It
/// lies no deeper than `MAX_DEPTH`, and below the root it hangs from an
/// operator on a side that the operator has.
pub open spec fn in_order<T>(layout: Layout<T>, idx: int) -> bool {
    &&& slot_arity(layout[idx]) == 2 ==> {
        &&& 2 * idx + 2 < MAX_IDX
        &&& layout[2 * idx + 1] is Some
        &&& layout[2 * idx + 2] is Some
    }
    &&& slot_arity(layout[idx]) == 1 ==> {
        &&& 2 * idx + 2 < MAX_IDX
        &&& layout[2 * idx + 1] is Some
        &&& layout[2 * idx + 2] is None
    }
    &&& slot_arity(layout[idx]) == 0 ==> {
        &&& at(layout, 2 * idx + 1) is None
        &&& at(layout, 2 * idx + 2) is None
    }
    &&& layout[idx] is Some ==> depth_of(idx) <= MAX_DEPTH
    &&& layout[idx] is Some && idx >= 1 ==> {
        &&& layout[(idx - 1) / 2] is Some
        &&& slot_arity(layout[(idx - 1) / 2]) >= 2 - idx % 2
    }
}

/// What validity comes to, slot by slot: the root holds a node, and every
/// node is in order; under an empty slot there is no node.
pub proof fn lemma_valid_means<T>(layout: Layout<T>)
    requires
        layout.len() == MAX_IDX,
    ensures
        valid(layout) <==> layout[0] is Some && forall|idx: int| 0 <= idx < MAX_IDX
            ==> #[trigger] in_order(layout, idx),
{
    if valid(layout) {
        assert forall|idx: int| 0 <= idx < MAX_IDX implies #[trigger] in_order(layout, idx) by {
            assert(fitted(layout, idx));
            lemma_depth_small(idx);
            if idx >= 1 {
                assert(fitted(layout, (idx - 1) / 2));
            }
        }
    }
    if layout[0] is Some && forall|idx: int| 0 <= idx < MAX_IDX ==> #[trigger] in_order(layout, idx) {
        assert forall|idx: int| 0 <= idx < MAX_IDX implies #[trigger] fitted(layout, idx) by {
            assert(in_order(layout, idx));
            if 2 * idx + 1 < MAX_IDX {
                assert(in_order(layout, 2 * idx + 1));
            }
            if 2 * idx + 2 < MAX_IDX {
                assert(in_order(layout, 2 * idx + 2));
            }
        }
    }
}

/// In a consistent tree every position above a node holds an operator.
pub proof fn lemma_ancestors_operate<T>(layout: Layout<T>, above: int, idx: int)
    requires
        consistent(layout),
        0 <= above,
        in_subtree(above, idx),
        idx != above,
        idx < MAX_IDX,
        layout[idx] is Some,
    ensures
        slot_arity(layout[above]) >= 1,
    decreases idx,
{
    let up = (idx - 1) / 2;
    assert(fitted(layout, up));
    if up != above {
        lemma_ancestors_operate(layout, above, up);
    }
}

/// A graft of a consistent subtree that is short enough for its new place,
/// onto a slot that was filled as the new root is, leaves the tree valid.
pub proof fn lemma_graft_valid<T>(host: Layout<T>, base: int, donor: Layout<T>, from: int, bound: int)
    requires
        consistent(host),
        consistent(donor),
        0 <= base < MAX_IDX,
        0 <= from < MAX_IDX,
        within_levels(donor, from, bound),
        depth_of(base) + bound - 1 <= MAX_DEPTH,
        base > 0 ==> (donor[from] is Some <==> host[base] is Some),
        base > 0 ==> host[0] is Some,
        base == 0 ==> donor[from] is Some,
    ensures
        valid(grafted(host, base, donor, from)),
{
    let after = grafted(host, base, donor, from);
    assert forall|idx: int| 0 <= idx < MAX_IDX implies #[trigger] fitted(after, idx) by {
        let left = 2 * idx + 1;
        let right = 2 * idx + 2;
        if in_subtree(base, idx) {
            let there = counterpart(base, from, idx);
            lemma_subtree_below(base, idx);
            lemma_counterpart_depth(base, from, idx);
            assert(in_subtree(base, left));
            assert(in_subtree(base, right));
            assert(counterpart(base, from, left) == 2 * there + 1);
            assert(counterpart(base, from, right) == 2 * there + 2);
            if there < MAX_IDX {
                assert(fitted(donor, there));
                if left >= MAX_IDX && slot_arity(donor[there]) >= 1 {
                    let below = 2 * there + 1;
                    assert(in_subtree(from, below));
                    lemma_depth_small(idx);
                    lemma_depth_small(left);
                    assert(depth_of(below) == depth_of(there) + 1);
                    assert(depth_of(left) == depth_of(idx) + 1);
                }
            }
        } else {
            assert(fitted(host, idx));
            assert(in_subtree(base, left) <==> left == base);
            assert(in_subtree(base, right) <==> right == base);
        }
    }
}

/// Where the content of position `idx` comes from in a graft: `MAX_IDX + 1`
/// for a position that the graft leaves alone, else the counterpart, held
/// down to `MAX_IDX`.
pub open spec fn origin_of(base: int, from: int, idx: int) -> int {
    if !in_subtree(base, idx) {
        MAX_IDX + 1
    } else if counterpart(base, from, idx) >= MAX_IDX {
        MAX_IDX as int
    } else {
        counterpart(base, from, idx)
    }
}

/// An expression over one variable: a binary tree of at most `MAX_DEPTH`
/// levels, stored level by level in `MAX_IDX` slots.
#[derive(Debug, PartialEq)]
pub struct SymbolicBinaryHeap<T> {
    pub heap: Vec<Option<Node<T>>>,
}

impl<T> View for SymbolicBinaryHeap<T> {
    type V = Layout<T>;

    open spec fn view(&self) -> Layout<T> {
        self.heap@
    }
}

impl<T: Copy> Clone for SymbolicBinaryHeap<T> {
    fn clone(&self) -> (copy: Self)
        ensures
            copy@ == self@,
    {
        let mut heap: Vec<Option<Node<T>>> = Vec::with_capacity(self.heap.len());
        let mut idx: usize = 0;
        while idx < self.heap.len()
            invariant
                idx <= self.heap.len(),
                heap@ == self.heap@.take(idx as int),
            decreases self.heap.len() - idx,
        {
            heap.push(self.heap[idx]);
            assert(heap@ =~= self.heap@.take(idx + 1));
            idx = idx + 1;
        }
        assert(heap@ =~= self.heap@);
        SymbolicBinaryHeap { heap }
    }
}

impl<T: Copy> SymbolicBinaryHeap<T> {
    /// The tree has its `MAX_IDX` slots.
    pub open spec fn sized(&self) -> bool {
        self@.len() == MAX_IDX
    }

    /// The tree is a live expression: the root holds a node and every node
    /// has the children that its kind demands.
    pub open spec fn wf(&self) -> bool {
        valid(self@)
    }

    /// A tree with every slot empty.
    pub fn new() -> (tree: Self)
        ensures
            tree@ == vacant::<T>(),
    {
        let mut heap: Vec<Option<Node<T>>> = Vec::with_capacity(MAX_IDX);
        let mut idx: usize = 0;
        while idx < MAX_IDX
            invariant
                idx <= MAX_IDX,
                heap@.len() == idx,
                forall|k: int| 0 <= k < idx ==> heap@[k] is None,
            decreases MAX_IDX - idx,
        {
            heap.push(None);
            idx = idx + 1;
        }
        assert(heap@ =~= vacant::<T>());
        SymbolicBinaryHeap { heap }
    }

    /// A tree with the given slots in level order. Slots that the listing
    /// leaves out are empty, and what it lists beyond the last slot of a
    /// tree is left out.
    pub fn new_from(heap: Vec<Option<Node<T>>>) -> (tree: Self)
        ensures
            tree@ == padded(heap@),
    {
        let ghost listing = heap@;
        let mut heap = heap;
        if heap.len() > MAX_IDX {
            heap.truncate(MAX_IDX);
        }
        while heap.len() < MAX_IDX
            invariant
                heap@.len() <= MAX_IDX,
                forall|idx: int| 0 <= idx < MAX_IDX ==> at(heap@, idx) == at(listing, idx),
            decreases MAX_IDX - heap.len(),
        {
            heap.push(None);
        }
        assert(heap@ =~= padded(listing));
        SymbolicBinaryHeap { heap }
    }

    /// The slot of the left child of `base_idx`, the only child of a sine or
    /// cosine.
    pub fn left(&mut self, base_idx: usize) -> (slot: &mut Option<Node<T>>)
        requires
            2 * base_idx + 1 < old(self)@.len(),
        ensures
            *slot == old(self)@[2 * base_idx + 1],
            final(self)@ == old(self)@.update(2 * base_idx + 1, *final(slot)),
    {
        let slots: usize = self.heap.len();
        assert(2 * base_idx + 1 < slots);
        &mut self.heap[2 * base_idx + 1]
    }

    /// The slot of the right child of `base_idx`.
    pub fn right(&mut self, base_idx: usize) -> (slot: &mut Option<Node<T>>)
        requires
            2 * base_idx + 2 < old(self)@.len(),
        ensures
            *slot == old(self)@[2 * base_idx + 2],
            final(self)@ == old(self)@.update(2 * base_idx + 2, *final(slot)),
    {
        let slots: usize = self.heap.len();
        assert(2 * base_idx + 2 < slots);
        &mut self.heap[2 * base_idx + 2]
    }

    /// The slot of the parent of `idx`.
    pub fn parent(&mut self, idx: usize) -> (slot: &mut Option<Node<T>>)
        requires
            1 <= idx < old(self)@.len(),
        ensures
            *slot == old(self)@[(idx - 1) / 2],
            final(self)@ == old(self)@.update((idx - 1) / 2, *final(slot)),
    {
        &mut self.heap[(idx - 1) / 2]
    }

    /// Whether the tree is a live expression.
    pub fn is_valid(&self) -> (ok: bool)
        ensures
            ok == self.wf(),
    {
        if self.heap.len() != MAX_IDX || self.heap[0].is_none() {
            return false;
        }
        let mut idx: usize = 0;
        while idx < MAX_IDX
            invariant
                idx <= MAX_IDX,
                self@.len() == MAX_IDX,
                forall|k: int| 0 <= k < idx ==> #[trigger] fitted(self@, k),
            decreases MAX_IDX - idx,
        {
            let demand: usize = arity_of(&self.heap[idx]);
            let left: bool = 2 * idx + 1 < MAX_IDX && self.heap[2 * idx + 1].is_some();
            let right: bool = 2 * idx + 2 < MAX_IDX && self.heap[2 * idx + 2].is_some();
            if left != (demand >= 1) || right != (demand == 2) {
                assert(!fitted(self@, idx as int));
                return false;
            }
            idx = idx + 1;
        }
        true
    }

    /// Replaces the subtree at `base` by a copy of the donor's subtree at
    /// `from`. Slots outside the subtree at `base` keep their content.
    pub fn graft(&mut self, base: usize, donor: &Self, from: usize)
        requires
            old(self).sized(),
            donor.sized(),
            base < MAX_IDX,
            from < MAX_IDX,
        ensures
            final(self)@ == grafted(old(self)@, base as int, donor@, from as int),
    {
        let ghost goal = grafted(old(self)@, base as int, donor@, from as int);
        let mut origin: Vec<usize> = Vec::with_capacity(MAX_IDX);
        let mut idx: usize = 0;
        while idx < MAX_IDX
            invariant
                idx <= MAX_IDX,
                base < MAX_IDX,
                from < MAX_IDX,
                origin@.len() == idx,
                self@.len() == MAX_IDX,
                donor@.len() == MAX_IDX,
                goal == grafted(old(self)@, base as int, donor@, from as int),
                forall|k: int| 0 <= k < idx ==> #[trigger] origin@[k] == origin_of(base as int, from as int, k),
                forall|k: int| 0 <= k < idx ==> #[trigger] self@[k] == goal[k],
                forall|k: int| idx <= k < MAX_IDX ==> #[trigger] self@[k] == old(self)@[k],
            decreases MAX_IDX - idx,
        {
            let mut source: usize = MAX_IDX + 1;
            if idx == base {
                source = from;
            } else if idx > base {
                let above: usize = origin[(idx - 1) / 2];
                proof {
                    let up = (idx - 1) / 2;
                    if in_subtree(base as int, up) {
                        lemma_counterpart_depth(base as int, from as int, up);
                    }
                }
                if above >= MAX_IDX {
                    source = above;
                } else if idx % 2 == 1 {
                    source = 2 * above + 1;
                } else {
                    source = 2 * above + 2;
                }
                if above < MAX_IDX && source > MAX_IDX {
                    source = MAX_IDX;
                }
            }
            assert(source == origin_of(base as int, from as int, idx as int));
            if source < MAX_IDX {
                self.heap[idx] = donor.heap[source];
            } else if source == MAX_IDX {
                self.heap[idx] = None;
            }
            origin.push(source);
            idx = idx + 1;
        }
        assert(self@ =~= goal);
    }
}

} // verus!
