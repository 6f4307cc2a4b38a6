//! Moving whole subtrees: out of a tree, and between two places.

use vstd::prelude::*;
use crate::numerics::Numerics;
use crate::census::{lemma_levels, levels};
use crate::heap::{
    at, consistent, fitted, grafted, Layout, lemma_graft_valid, SymbolicBinaryHeap, vacant, valid,
    within_levels,
};
use crate::evaluate::{applied, evaluates, operand};
use crate::grow::lemma_graft_levels;
use crate::index::{
    counterpart, depth_of, in_subtree, lemma_counterpart_depth, lemma_counterpart_inverse,
    lemma_depth_positive, lemma_depth_small, lemma_subtree_below, lemma_subtrees_overlap,
    lemma_under_root, MAX_DEPTH, MAX_IDX, related,
};

verus! {

/// The subtree of `layout` at `base`, as a tree of its own.
pub open spec fn extract<T>(layout: Layout<T>, base: int) -> Layout<T> {
    grafted(vacant(), 0, layout, base)
}

/// The layout with the subtrees at `first` and `second` in each other's
/// place.
pub open spec fn swapped<T>(layout: Layout<T>, first: int, second: int) -> Layout<T> {
    grafted(grafted(layout, first, layout, second), second, layout, first)
}

/// No subtree of a tree has more levels than the tree's slots allow below
/// its root.
pub proof fn lemma_levels_fit<T>(layout: Layout<T>, base: int)
    requires
        layout.len() == MAX_IDX,
        0 <= base,
    ensures
        within_levels(layout, base, MAX_DEPTH as int),
        levels(layout, base) > 0 ==> depth_of(base) + levels(layout, base) - 1 <= levels(layout, 0),
        levels(layout, 0) <= MAX_DEPTH,
{
    lemma_depth_positive(base);
    assert forall|idx: int|
        0 <= idx < layout.len() && #[trigger] in_subtree(base, idx) && layout[idx] is Some
    implies depth_of(idx) - depth_of(base) < MAX_DEPTH by {
        lemma_depth_small(idx);
    }
    let deep = lemma_levels(layout, base);
    let deepest = lemma_levels(layout, 0);
    if levels(layout, base) > 0 {
        lemma_under_root(deep);
        assert(in_subtree(0, deep));
    }
    if levels(layout, 0) > 0 {
        lemma_depth_small(deepest);
    }
}

/// The subtree at a node of a consistent tree is a valid tree of its own.
pub proof fn lemma_extract_valid<T>(layout: Layout<T>, base: int)
    requires
        consistent(layout),
        0 <= base < MAX_IDX,
        layout[base] is Some,
    ensures
        valid(extract(layout, base)),
{
    let empty = vacant::<T>();
    assert forall|k: int| 0 <= k < MAX_IDX implies #[trigger] fitted(empty, k) by {}
    lemma_levels_fit(layout, base);
    lemma_graft_valid(empty, 0, layout, base, MAX_DEPTH as int);
}

/// A subtree taken out as a tree of its own has as many levels as it had
/// in its place.
pub proof fn lemma_extract_levels<T>(layout: Layout<T>, base: int)
    requires
        layout.len() == MAX_IDX,
        0 <= base < MAX_IDX,
    ensures
        levels(extract(layout, base), 0) == levels(layout, base),
{
    let taken = extract(layout, base);
    let bound = levels(layout, base);
    let deep = lemma_levels(layout, base);
    let highest = lemma_levels(taken, 0);
    lemma_depth_positive(base);
    lemma_graft_levels(vacant::<T>(), 0, layout, base, bound);
    if levels(taken, 0) > 0 {
        assert(depth_of(highest) - depth_of(0) < bound);
    }
    if bound > 0 {
        let place = counterpart(base, 0, deep);
        lemma_counterpart_depth(base, 0, deep);
        lemma_counterpart_inverse(base, 0, deep);
        lemma_depth_small(deep);
        lemma_depth_small(place);
        lemma_under_root(place);
        assert(taken[place] == layout[deep]);
        assert(in_subtree(0, place));
    }
}

/// Two subtrees of a valid tree, neither inside the other, each short
/// enough for the other's place, can change places.
pub proof fn lemma_swap_valid<T>(layout: Layout<T>, first: int, second: int)
    requires
        valid(layout),
        0 <= first < MAX_IDX,
        0 <= second < MAX_IDX,
        !related(first, second),
        layout[first] is Some <==> layout[second] is Some,
        depth_of(first) + levels(layout, second) - 1 <= MAX_DEPTH,
        depth_of(second) + levels(layout, first) - 1 <= MAX_DEPTH,
    ensures
        valid(swapped(layout, first, second)),
{
    lemma_under_root(first);
    lemma_under_root(second);
    lemma_levels(layout, first);
    lemma_levels(layout, second);
    let half = grafted(layout, first, layout, second);
    lemma_graft_valid(layout, first, layout, second, levels(layout, second));
    lemma_graft_valid(half, second, layout, first, levels(layout, first));
}

/// A swap of two subtrees, neither inside the other, is the same swap
/// whichever of the two is named first.
pub proof fn lemma_swap_symmetric<T>(layout: Layout<T>, first: int, second: int)
    requires
        0 <= first,
        0 <= second,
        !related(first, second),
    ensures
        swapped(layout, first, second) == swapped(layout, second, first),
{
    assert forall|idx: int| 0 <= idx < MAX_IDX implies !(in_subtree(first, idx) && in_subtree(second, idx)) by {
        if in_subtree(first, idx) && in_subtree(second, idx) {
            lemma_subtrees_overlap(first, second, idx);
        }
    }
    assert(swapped(layout, first, second) =~= swapped(layout, second, first));
}

/// A swap of two subtrees, neither inside the other, each short enough
/// for the other's place, is undone by the same swap.
pub proof fn lemma_swap_twice<T>(layout: Layout<T>, first: int, second: int)
    requires
        layout.len() == MAX_IDX,
        0 <= first < MAX_IDX,
        0 <= second < MAX_IDX,
        !related(first, second),
        depth_of(first) + levels(layout, second) - 1 <= MAX_DEPTH,
        depth_of(second) + levels(layout, first) - 1 <= MAX_DEPTH,
    ensures
        swapped(swapped(layout, first, second), first, second) == layout,
{
    let once = swapped(layout, first, second);
    let twice = swapped(once, first, second);
    lemma_levels(layout, first);
    lemma_levels(layout, second);
    assert forall|idx: int| 0 <= idx < MAX_IDX implies twice[idx] == layout[idx] by {
        if in_subtree(first, idx) && in_subtree(second, idx) {
            lemma_subtrees_overlap(first, second, idx);
        }
        if in_subtree(second, idx) {
            lemma_swap_back(layout, second, first, idx);
            let there = counterpart(second, first, idx);
            if there < MAX_IDX {
                if in_subtree(second, there) {
                    lemma_counterpart_depth(second, first, idx);
                    lemma_subtrees_overlap(first, second, there);
                }
            }
        } else if in_subtree(first, idx) {
            lemma_swap_back(layout, first, second, idx);
            let there = counterpart(first, second, idx);
            if there < MAX_IDX {
                lemma_counterpart_depth(first, second, idx);
                assert(in_subtree(second, there));
            }
        }
    }
    assert(twice =~= layout);
}

/// A slot of the subtree at `base` is found again, after the subtree has
/// gone to `other`, at its counterpart there; it holds no node if the
/// counterpart lies beyond the last level.
proof fn lemma_swap_back<T>(layout: Layout<T>, base: int, other: int, idx: int)
    requires
        layout.len() == MAX_IDX,
        0 <= base < MAX_IDX,
        0 <= other < MAX_IDX,
        0 <= idx < MAX_IDX,
        in_subtree(base, idx),
        within_levels(layout, base, levels(layout, base)),
        depth_of(other) + levels(layout, base) - 1 <= MAX_DEPTH,
    ensures
        0 <= counterpart(base, other, idx),
        in_subtree(other, counterpart(base, other, idx)),
        counterpart(other, base, counterpart(base, other, idx)) == idx,
        counterpart(base, other, idx) >= MAX_IDX ==> layout[idx] is None,
{
    lemma_counterpart_depth(base, other, idx);
    lemma_counterpart_inverse(base, other, idx);
    lemma_depth_small(counterpart(base, other, idx));
}

/// A subtree that is set in another place, and is short enough for it,
/// keeps its values: what is a value of the donor's subtree at the
/// counterpart of a position is a value of the new subtree at the position,
/// and the other way round.
pub proof fn lemma_graft_value<T: Copy, N: Numerics<T>>(
    numerics: &N,
    host: Layout<T>,
    base: int,
    donor: Layout<T>,
    from: int,
    bound: int,
    idx: int,
    x: T,
    value: T,
)
    requires
        donor.len() == MAX_IDX,
        0 <= base < MAX_IDX,
        0 <= from < MAX_IDX,
        within_levels(donor, from, bound),
        depth_of(base) + bound - 1 <= MAX_DEPTH,
        0 <= idx < MAX_IDX,
        in_subtree(base, idx),
        counterpart(base, from, idx) < MAX_IDX,
    ensures
        evaluates(numerics, grafted(host, base, donor, from), idx, x, value) == evaluates(
            numerics,
            donor,
            counterpart(base, from, idx),
            x,
            value,
        ),
    decreases MAX_IDX - idx,
{
    let after = grafted(host, base, donor, from);
    let there = counterpart(base, from, idx);
    let left = 2 * idx + 1;
    let right = 2 * idx + 2;
    lemma_subtree_below(base, idx);
    lemma_counterpart_depth(base, from, idx);
    assert(in_subtree(base, left));
    assert(in_subtree(base, right));
    assert(counterpart(base, from, left) == 2 * there + 1);
    assert(counterpart(base, from, right) == 2 * there + 2);
    assert(after[idx] == donor[there]);
    // a child of the donor's node has its place in the new subtree
    assert forall|k: int| (k == 2 * there + 1 || k == 2 * there + 2) && k < MAX_IDX && donor[k] is Some implies k
        - 2 * there + 2 * idx < MAX_IDX by {
        assert(in_subtree(from, there));
        lemma_subtree_below(from, there);
        assert(in_subtree(from, k));
        lemma_depth_small(k - 2 * there + 2 * idx);
        lemma_depth_small(idx);
        assert(depth_of(k) == depth_of(there) + 1);
        assert(depth_of(k - 2 * there + 2 * idx) == depth_of(idx) + 1);
    }
    if left < MAX_IDX {
        assert(after[left] == at(donor, 2 * there + 1));
    }
    if right < MAX_IDX {
        assert(after[right] == at(donor, 2 * there + 2));
    }
    assert forall|l: T|
        #[trigger] operand(numerics, after, left, x, l) == operand(numerics, donor, 2 * there + 1, x, l) by {
        if left < MAX_IDX && after[left] is Some {
            lemma_graft_value(numerics, host, base, donor, from, bound, left, x, l);
        }
    }
    assert forall|r: T|
        #[trigger] operand(numerics, after, right, x, r) == operand(numerics, donor, 2 * there + 2, x, r) by {
        if right < MAX_IDX && after[right] is Some {
            lemma_graft_value(numerics, host, base, donor, from, bound, right, x, r);
        }
    }
    if evaluates(numerics, after, idx, x, value) {
        let (l, r) = choose|l: T, r: T|
            #[trigger] applied(numerics, after[idx], l, r, x, value) && operand(numerics, after, left, x, l)
                && operand(numerics, after, right, x, r);
        assert(operand(numerics, donor, 2 * there + 1, x, l));
        assert(operand(numerics, donor, 2 * there + 2, x, r));
        assert(applied(numerics, donor[there], l, r, x, value));
        assert(evaluates(numerics, donor, there, x, value));
    }
    if evaluates(numerics, donor, there, x, value) {
        let (l, r) = choose|l: T, r: T|
            #[trigger] applied(numerics, donor[there], l, r, x, value) && operand(
                numerics,
                donor,
                2 * there + 1,
                x,
                l,
            ) && operand(numerics, donor, 2 * there + 2, x, r);
        assert(operand(numerics, after, left, x, l));
        assert(operand(numerics, after, right, x, r));
        assert(applied(numerics, after[idx], l, r, x, value));
        assert(evaluates(numerics, after, idx, x, value));
    }
}

/// A subtree taken out as a tree of its own keeps its values.
pub proof fn lemma_extract_value<T: Copy, N: Numerics<T>>(
    numerics: &N,
    layout: Layout<T>,
    base: int,
    x: T,
    value: T,
)
    requires
        layout.len() == MAX_IDX,
        0 <= base < MAX_IDX,
    ensures
        evaluates(numerics, extract(layout, base), 0, x, value) == evaluates(numerics, layout, base, x, value),
{
    lemma_levels_fit(layout, base);
    assert(in_subtree(0, 0));
    lemma_graft_value(numerics, vacant::<T>(), 0, layout, base, MAX_DEPTH as int, 0, x, value);
}

impl<T: Copy> SymbolicBinaryHeap<T> {
    /// A new tree whose root is a copy of the subtree at `base_idx`.
    pub fn heap_at_idx(&self, base_idx: usize) -> (tree: Self)
        requires
            self.sized(),
            base_idx < MAX_IDX,
        ensures
            tree@ == extract(self@, base_idx as int),
            consistent(self@) && self@[base_idx as int] is Some ==> tree.wf(),
            levels(tree@, 0) == levels(self@, base_idx as int),
    {
        let mut tree = SymbolicBinaryHeap::<T>::new();
        tree.graft(0, self, base_idx);
        proof {
            lemma_extract_levels(self@, base_idx as int);
            if consistent(self@) && self@[base_idx as int] is Some {
                lemma_extract_valid(self@, base_idx as int);
            }
        }
        tree
    }

    /// Without a source, swaps the subtrees at `choice1` and `choice2`. With
    /// one, sets a copy of the source's subtree at `choice2` in place of the
    /// subtree at `choice1`.
    pub fn swap_from(&mut self, ext_src: Option<Self>, choice1: usize, choice2: usize)
        requires
            old(self).sized(),
            choice1 < MAX_IDX,
            choice2 < MAX_IDX,
            ext_src is Some ==> ext_src->0.sized(),
        ensures
            ext_src is None ==> final(self)@ == swapped(old(self)@, choice1 as int, choice2 as int),
            ext_src is Some ==> final(self)@ == grafted(old(self)@, choice1 as int, ext_src->0@, choice2 as int),
    {
        match ext_src {
            Some(source) => {
                self.graft(choice1, &source, choice2);
            },
            None => {
                let held = self.clone();
                self.graft(choice1, &held, choice2);
                self.graft(choice2, &held, choice1);
            },
        }
    }
}

} // verus!
