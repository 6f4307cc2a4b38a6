//! Questions about a tree: how many nodes, how deep, which positions hold
//! what.

use vstd::prelude::*;
use crate::heap::{at, Layout, SymbolicBinaryHeap, within_levels};
use crate::index::{
    depth_from_idx, depth_of, in_subtree, is_within, lemma_depth_monotone, lemma_depth_positive,
    lemma_depth_small, lemma_subtree_below, MAX_DEPTH, MAX_IDX,
};
use crate::node::Node;

verus! {

/// What a position may be asked to hold.
#[derive(Clone, Copy, Debug)]
pub enum Kind {
    /// Any node.
    Occupied,
    /// The variable or a number.
    Terminal,
    /// One of the six operators.
    Operator,
    /// A node that a point mutation can change: an operator or a number.
    Mutable,
}

/// Whether the content of a slot is of the given kind.
pub open spec fn is_kind<T>(slot: Option<Node<T>>, kind: Kind) -> bool {
    match slot {
        None => false,
        Some(node) => match kind {
            Kind::Occupied => true,
            Kind::Terminal => node.is_terminal(),
            Kind::Operator => node.is_operator(),
            Kind::Mutable => node.is_operator() || node is Number,
        },
    }
}

/// Every member of `found` is a position of `layout` whose content is of
/// the given kind.
pub open spec fn all_of_kind<T>(found: Seq<usize>, layout: Layout<T>, kind: Kind) -> bool {
    forall|k: int|
        0 <= k < found.len() ==> found[k] < layout.len() && is_kind(layout[#[trigger] found[k] as int], kind)
}

/// `found` lists, in ascending order, exactly the positions of `layout`
/// whose content is of the given kind.
pub open spec fn lists<T>(found: Seq<usize>, layout: Layout<T>, kind: Kind) -> bool {
    &&& all_of_kind(found, layout, kind)
    &&& forall|j: int, k: int| 0 <= j < k < found.len() ==> found[j] < found[k]
    &&& forall|idx: int|
        0 <= idx < layout.len() && is_kind(#[trigger] layout[idx], kind) ==> found.contains(idx as usize)
}

/// A list all of whose members are members of a list of positions of one
/// kind is such a list.
pub proof fn lemma_kind_kept<T>(most: Seq<usize>, some: Seq<usize>, layout: Layout<T>, kind: Kind)
    requires
        all_of_kind(most, layout, kind),
        forall|member: usize| some.contains(member) ==> most.contains(member),
    ensures
        all_of_kind(some, layout, kind),
{
    assert forall|k: int| 0 <= k < some.len() implies some[k] < layout.len() && is_kind(
        layout[#[trigger] some[k] as int],
        kind,
    ) by {
        assert(some.contains(some[k]));
        let j = choose|j: int| 0 <= j < most.len() && most[j] == some[k];
        assert(is_kind(layout[most[j] as int], kind));
    }
}

/// A member of a list of positions of one kind is such a position.
pub proof fn lemma_kind_of<T>(found: Seq<usize>, member: usize, layout: Layout<T>, kind: Kind)
    requires
        all_of_kind(found, layout, kind),
        found.contains(member),
    ensures
        member < layout.len(),
        is_kind(layout[member as int], kind),
{
    let k = choose|k: int| 0 <= k < found.len() && found[k] == member;
    assert(is_kind(layout[found[k] as int], kind));
}

/// The number of nodes among the first `upto` slots.
pub open spec fn nodes_upto<T>(layout: Layout<T>, upto: int) -> int
    decreases upto,
{
    if upto <= 0 {
        0
    } else if at(layout, upto - 1) is Some {
        nodes_upto(layout, upto - 1) + 1
    } else {
        nodes_upto(layout, upto - 1)
    }
}

/// The number of nodes of a layout.
pub open spec fn node_count<T>(layout: Layout<T>) -> int {
    nodes_upto(layout, layout.len() as int)
}

/// The greatest position below `upto` that holds a node of the subtree at
/// `base`, or -1 if there is none.
pub open spec fn topmost<T>(layout: Layout<T>, base: int, upto: int) -> int
    decreases upto,
{
    if upto <= 0 {
        -1
    } else if in_subtree(base, upto - 1) && at(layout, upto - 1) is Some {
        upto - 1
    } else {
        topmost(layout, base, upto - 1)
    }
}

/// The number of levels of the subtree at `base`: 0 where it has no node, 1
/// where it is a single node.
pub open spec fn levels<T>(layout: Layout<T>, base: int) -> int {
    let top = topmost(layout, base, layout.len() as int);
    if top < 0 {
        0
    } else {
        depth_of(top) - depth_of(base) + 1
    }
}

/// A layout that holds a node only where another does has no more nodes,
/// and fewer if it holds none somewhere where the other holds one.
pub proof fn lemma_fewer_nodes<T>(more: Layout<T>, fewer: Layout<T>, upto: int)
    requires
        more.len() == fewer.len(),
        0 <= upto <= more.len(),
        forall|k: int| 0 <= k < upto && (#[trigger] fewer[k]) is Some ==> more[k] is Some,
    ensures
        nodes_upto(fewer, upto) <= nodes_upto(more, upto),
        (exists|k: int| 0 <= k < upto && (#[trigger] fewer[k]) is None && more[k] is Some) ==> nodes_upto(fewer, upto)
            < nodes_upto(more, upto),
    decreases upto,
{
    if upto > 0 {
        lemma_fewer_nodes(more, fewer, upto - 1);
        if exists|k: int| 0 <= k < upto && (#[trigger] fewer[k]) is None && more[k] is Some {
            let k = choose|k: int| 0 <= k < upto && (#[trigger] fewer[k]) is None && more[k] is Some;
            if k < upto - 1 {
                assert(fewer[k] is None && more[k] is Some);
            }
        }
    }
}

/// `topmost` is what its name says.
pub proof fn lemma_topmost<T>(layout: Layout<T>, base: int, upto: int)
    requires
        0 <= upto <= layout.len(),
    ensures
        -1 <= topmost(layout, base, upto) < upto,
        topmost(layout, base, upto) >= 0 ==> in_subtree(base, topmost(layout, base, upto))
            && layout[topmost(layout, base, upto)] is Some,
        forall|idx: int|
            0 <= idx < upto && #[trigger] in_subtree(base, idx) && layout[idx] is Some
                ==> idx <= topmost(layout, base, upto),
    decreases upto,
{
    if upto > 0 {
        lemma_topmost(layout, base, upto - 1);
    }
}

/// No node of a subtree lies deeper than the subtree's number of levels,
/// and where the subtree has a node, the node `deep` lies that deep.
pub proof fn lemma_levels<T>(layout: Layout<T>, base: int) -> (deep: int)
    requires
        0 <= base,
    ensures
        0 <= levels(layout, base),
        within_levels(layout, base, levels(layout, base)),
        at(layout, base) is Some ==> levels(layout, base) >= 1,
        levels(layout, base) > 0 ==> {
            &&& 0 <= deep < layout.len()
            &&& in_subtree(base, deep)
            &&& layout[deep] is Some
            &&& depth_of(deep) - depth_of(base) + 1 == levels(layout, base)
        },
{
    let top = topmost(layout, base, layout.len() as int);
    lemma_topmost(layout, base, layout.len() as int);
    if top >= 0 {
        lemma_subtree_below(base, top);
    }
    assert forall|idx: int|
        0 <= idx < layout.len() && #[trigger] in_subtree(base, idx) && layout[idx] is Some
    implies depth_of(idx) - depth_of(base) < levels(layout, base) by {
        lemma_depth_monotone(idx, top);
    }
    if 0 <= base < layout.len() && layout[base] is Some {
        assert(in_subtree(base, base));
    }
    top
}

/// A tree of `MAX_IDX` slots is no deeper than `MAX_DEPTH`.
pub proof fn lemma_depth_limit<T>(layout: Layout<T>)
    requires
        layout.len() == MAX_IDX,
    ensures
        levels(layout, 0) <= MAX_DEPTH,
{
    lemma_topmost(layout, 0, MAX_IDX as int);
    let top = topmost(layout, 0, MAX_IDX as int);
    if top >= 0 {
        lemma_depth_small(top);
    }
}

impl<T: Copy> SymbolicBinaryHeap<T> {
    /// Whether position `idx` holds a node; a position outside the tree
    /// holds none.
    pub fn occupied(&self, idx: usize) -> (filled: bool)
        ensures
            filled == at(self@, idx as int) is Some,
    {
        idx < self.heap.len() && self.heap[idx].is_some()
    }

    /// Whether position `idx` holds a node of the given kind.
    pub fn holds(&self, idx: usize, kind: Kind) -> (held: bool)
        ensures
            held == is_kind(at(self@, idx as int), kind),
    {
        if idx >= self.heap.len() {
            return false;
        }
        match self.heap[idx] {
            None => false,
            Some(node) => match kind {
                Kind::Occupied => true,
                Kind::Terminal => node.children() == 0,
                Kind::Operator => node.children() > 0,
                Kind::Mutable => match node {
                    Node::Variable => false,
                    _ => true,
                },
            },
        }
    }

    /// The positions that hold a node of the given kind, in ascending order.
    pub fn positions(&self, kind: Kind) -> (found: Vec<usize>)
        ensures
            lists(found@, self@, kind),
    {
        let mut found: Vec<usize> = Vec::new();
        let mut idx: usize = 0;
        while idx < self.heap.len()
            invariant
                idx <= self.heap.len(),
                lists(found@, self@.take(idx as int), kind),
            decreases self.heap.len() - idx,
        {
            let ghost before = found@;
            if self.holds(idx, kind) {
                found.push(idx);
                assert forall|i: int|
                    0 <= i < idx + 1 && is_kind(#[trigger] self@.take(idx + 1)[i], kind)
                implies found@.contains(i as usize) by {
                    if i < idx {
                        assert(is_kind(self@.take(idx as int)[i], kind));
                        let k = choose|k: int| 0 <= k < before.len() && before[k] == i as usize;
                        assert(found@[k] == i as usize);
                    } else {
                        assert(found@[before.len() as int] == idx);
                    }
                }
            } else {
                assert forall|i: int|
                    0 <= i < idx + 1 && is_kind(#[trigger] self@.take(idx + 1)[i], kind)
                implies found@.contains(i as usize) by {
                    assert(is_kind(self@.take(idx as int)[i], kind));
                }
            }
            idx = idx + 1;
        }
        assert(self@.take(idx as int) =~= self@);
        found
    }

    /// The positions that hold the variable or a number, in ascending order.
    pub fn get_terminal_idxs(&self) -> (found: Vec<usize>)
        ensures
            lists(found@, self@, Kind::Terminal),
    {
        self.positions(Kind::Terminal)
    }

    /// The positions that hold an operator, in ascending order.
    pub fn get_op_idxs(&self) -> (found: Vec<usize>)
        ensures
            lists(found@, self@, Kind::Operator),
    {
        self.positions(Kind::Operator)
    }

    /// The number of nodes.
    pub fn complexity(&self) -> (count: u32)
        requires
            self@.len() <= u32::MAX,
        ensures
            count == node_count(self@),
    {
        let mut count: u32 = 0;
        let mut idx: usize = 0;
        while idx < self.heap.len()
            invariant
                idx <= self.heap.len() <= u32::MAX,
                count == nodes_upto(self@, idx as int),
                count <= idx,
            decreases self.heap.len() - idx,
        {
            if self.heap[idx].is_some() {
                count = count + 1;
            }
            idx = idx + 1;
        }
        count
    }

    /// Whether some position holds the variable.
    pub fn has_variable(&self) -> (found: bool)
        ensures
            found == exists|idx: int| 0 <= idx < self@.len() && #[trigger] self@[idx] == Some(Node::<T>::Variable),
    {
        let mut idx: usize = 0;
        while idx < self.heap.len()
            invariant
                idx <= self.heap.len(),
                forall|k: int| 0 <= k < idx ==> #[trigger] self@[k] != Some(Node::<T>::Variable),
            decreases self.heap.len() - idx,
        {
            match self.heap[idx] {
                Some(Node::Variable) => {
                    return true;
                },
                _ => {},
            }
            idx = idx + 1;
        }
        false
    }

    /// The number of levels of the subtree at `base`: the depth of its
    /// deepest node, counted from `base` as level 1; 0 if it has no node.
    pub fn subtree_depth(&self, base: usize) -> (depth: u32)
        ensures
            depth == levels(self@, base as int),
    {
        let mut upto: usize = self.heap.len();
        while upto > 0
            invariant
                upto <= self.heap.len(),
                topmost(self@, base as int, upto as int) == topmost(self@, base as int, self@.len() as int),
            decreases upto,
        {
            if self.heap[upto - 1].is_some() && is_within(base, upto - 1) {
                proof {
                    lemma_subtree_below(base as int, upto - 1);
                    lemma_depth_positive(base as int);
                }
                return depth_from_idx(upto - 1) - depth_from_idx(base) + 1;
            }
            upto = upto - 1;
        }
        0
    }

    /// The depth of the deepest node, the root being at depth 1; 0 for a
    /// tree without a node.
    pub fn depth(&self) -> (depth: u32)
        ensures
            depth == levels(self@, 0),
            self.sized() ==> depth <= MAX_DEPTH,
            self.wf() ==> depth >= 1,
    {
        proof {
            lemma_levels(self@, 0);
            if self.sized() {
                lemma_depth_limit(self@);
            }
        }
        self.subtree_depth(0)
    }
}

} // verus!
