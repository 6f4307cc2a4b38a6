//! Arithmetic on the positions of a level-order tree.
//!
//! The root is position 0; the children of position `i` are `2i + 1` and
//! `2i + 2`, its parent is `(i - 1) / 2`.

use vstd::arithmetic::power2::{
    lemma2_to64, lemma_pow2_pos, lemma_pow2_strictly_increases, lemma_pow2_unfold, pow2,
};
use vstd::prelude::*;

verus! {

/// The greatest depth a tree may reach; the root is at depth 1.
pub const MAX_DEPTH: u32 = 6;

/// The number of slots of a tree: every position is below it.
pub const MAX_IDX: usize = 63;

/// The depth of position `idx`: one more than the number of steps to the root.
pub open spec fn depth_of(idx: int) -> int
    decreases idx,
{
    if idx <= 0 {
        1
    } else {
        1 + depth_of((idx - 1) / 2)
    }
}

/// Whether position `idx` lies in the subtree rooted at `base`, the root included.
pub open spec fn in_subtree(base: int, idx: int) -> bool
    decreases idx,
{
    idx == base || (idx > base && idx > 0 && in_subtree(base, (idx - 1) / 2))
}

/// Whether one of the two positions lies in the subtree of the other.
pub open spec fn related(a: int, b: int) -> bool {
    in_subtree(a, b) || in_subtree(b, a)
}

/// The position that stands to `from` as `idx` stands to `base`: reached from
/// `from` by the turns that lead from `base` to `idx`.
pub open spec fn counterpart(base: int, from: int, idx: int) -> int
    decreases idx,
{
    if idx <= base || idx <= 0 {
        from
    } else if idx % 2 == 1 {
        2 * counterpart(base, from, (idx - 1) / 2) + 1
    } else {
        2 * counterpart(base, from, (idx - 1) / 2) + 2
    }
}

/// Every depth is at least 1.
pub proof fn lemma_depth_positive(idx: int)
    ensures
        1 <= depth_of(idx),
    decreases idx,
{
    if idx > 0 {
        lemma_depth_positive((idx - 1) / 2);
    }
}

/// A full tree of depth `e` has `2^e - 1` positions, and the positions of depth
/// at most `e` are exactly those below that number.
pub proof fn lemma_depth_bound(idx: int, e: nat)
    requires
        0 <= idx,
        1 <= e,
    ensures
        depth_of(idx) <= e <==> idx < pow2(e) - 1,
    decreases e,
{
    lemma2_to64();
    lemma_pow2_unfold(e);
    lemma_pow2_pos((e - 1) as nat);
    if idx > 0 {
        lemma_depth_positive((idx - 1) / 2);
        if e > 1 {
            lemma_depth_bound((idx - 1) / 2, (e - 1) as nat);
        }
    }
}

/// Depth never decreases along the positions.
pub proof fn lemma_depth_monotone(i: int, j: int)
    requires
        0 <= i <= j,
    ensures
        depth_of(i) <= depth_of(j),
    decreases j,
{
    if i > 0 {
        lemma_depth_monotone((i - 1) / 2, (j - 1) / 2);
    } else {
        lemma_depth_positive(j);
    }
}

/// The depths of the positions of a tree of `MAX_IDX` slots.
pub proof fn lemma_depth_small(idx: int)
    requires
        0 <= idx,
    ensures
        1 <= depth_of(idx),
        idx < 1 <==> depth_of(idx) <= 1,
        idx < 3 <==> depth_of(idx) <= 2,
        idx < 7 <==> depth_of(idx) <= 3,
        idx < 15 <==> depth_of(idx) <= 4,
        idx < 31 <==> depth_of(idx) <= 5,
        idx < 63 <==> depth_of(idx) <= 6,
{
    lemma2_to64();
    lemma_depth_bound(idx, 1);
    lemma_depth_bound(idx, 2);
    lemma_depth_bound(idx, 3);
    lemma_depth_bound(idx, 4);
    lemma_depth_bound(idx, 5);
    lemma_depth_bound(idx, 6);
    lemma_depth_monotone(0, idx);
}

/// A position of a subtree is not above its root, and is as deep as the root
/// only if it is the root.
pub proof fn lemma_subtree_below(base: int, idx: int)
    requires
        0 <= base,
        in_subtree(base, idx),
    ensures
        base <= idx,
        depth_of(base) <= depth_of(idx),
        depth_of(base) == depth_of(idx) ==> idx == base,
    decreases idx,
{
    if idx != base {
        lemma_subtree_below(base, (idx - 1) / 2);
    }
}

/// Every position lies under the root.
pub proof fn lemma_under_root(idx: int)
    requires
        0 <= idx,
    ensures
        in_subtree(0, idx),
    decreases idx,
{
    if idx > 0 {
        lemma_under_root((idx - 1) / 2);
    }
}

/// Subtrees nest: a position under `mid`, itself under `base`, is under `base`.
pub proof fn lemma_subtree_transitive(base: int, mid: int, idx: int)
    requires
        0 <= base,
        in_subtree(base, mid),
        in_subtree(mid, idx),
    ensures
        in_subtree(base, idx),
    decreases idx,
{
    lemma_subtree_below(base, mid);
    if idx != mid {
        lemma_subtree_transitive(base, mid, (idx - 1) / 2);
    }
}

/// On the way from a position up to the root of a subtree there is a
/// position at each depth in between.
pub proof fn lemma_ancestor_at(base: int, idx: int, depth: int) -> (above: int)
    requires
        0 <= base,
        in_subtree(base, idx),
        depth_of(base) <= depth <= depth_of(idx),
    ensures
        in_subtree(base, above),
        in_subtree(above, idx),
        depth_of(above) == depth,
    decreases idx,
{
    if depth_of(idx) == depth {
        idx
    } else {
        let above = lemma_ancestor_at(base, (idx - 1) / 2, depth);
        lemma_subtree_below(base, above);
        lemma_subtree_below(above, (idx - 1) / 2);
        above
    }
}

/// Two subtrees that share a position are nested.
pub proof fn lemma_subtrees_overlap(a: int, b: int, idx: int)
    requires
        0 <= a,
        0 <= b,
        in_subtree(a, idx),
        in_subtree(b, idx),
    ensures
        related(a, b),
    decreases idx,
{
    if idx != a && idx != b {
        lemma_subtrees_overlap(a, b, (idx - 1) / 2);
    }
}

/// A counterpart is as far below `from` as the position is below `base`.
pub proof fn lemma_counterpart_depth(base: int, from: int, idx: int)
    requires
        0 <= base,
        0 <= from,
        in_subtree(base, idx),
    ensures
        0 <= counterpart(base, from, idx),
        in_subtree(from, counterpart(base, from, idx)),
        depth_of(counterpart(base, from, idx)) - depth_of(from) == depth_of(idx) - depth_of(base),
        counterpart(base, from, idx) == from <==> idx == base,
    decreases idx,
{
    lemma_subtree_below(base, idx);
    if idx != base {
        let up = (idx - 1) / 2;
        lemma_counterpart_depth(base, from, up);
        let c = counterpart(base, from, up);
        lemma_subtree_below(from, c);
        assert(in_subtree(from, 2 * c + 1));
        assert(in_subtree(from, 2 * c + 2));
    }
}

/// Within one subtree every position is its own counterpart.
pub proof fn lemma_counterpart_self(base: int, idx: int)
    requires
        0 <= base,
        in_subtree(base, idx),
    ensures
        counterpart(base, base, idx) == idx,
    decreases idx,
{
    lemma_subtree_below(base, idx);
    if idx != base {
        lemma_counterpart_self(base, (idx - 1) / 2);
    }
}

/// Counterparts go back: the counterpart of a counterpart is the position.
pub proof fn lemma_counterpart_inverse(base: int, from: int, idx: int)
    requires
        0 <= base,
        0 <= from,
        in_subtree(base, idx),
    ensures
        counterpart(from, base, counterpart(base, from, idx)) == idx,
    decreases idx,
{
    lemma_subtree_below(base, idx);
    if idx != base {
        let up = (idx - 1) / 2;
        let above = counterpart(base, from, up);
        let there = counterpart(base, from, idx);
        lemma_counterpart_inverse(base, from, up);
        lemma_counterpart_depth(base, from, up);
        lemma_counterpart_depth(base, from, idx);
        lemma_subtree_below(from, there);
        assert(there == if idx % 2 == 1 { 2 * above + 1 } else { 2 * above + 2 });
        assert((there - 1) / 2 == above);
        assert(there % 2 == idx % 2);
        assert(there > from);
        assert(counterpart(from, base, there) == if there % 2 == 1 {
            2 * counterpart(from, base, above) + 1
        } else {
            2 * counterpart(from, base, above) + 2
        });
    }
}

/// The number of positions in a full tree of the given depth.
pub fn length_from_depth(depth: u32) -> (len: usize)
    requires
        pow2(depth as nat) - 1 <= usize::MAX,
    ensures
        len == pow2(depth as nat) - 1,
{
    let mut len: usize = 0;
    let mut d: u32 = 0;
    proof {
        lemma2_to64();
    }
    while d < depth
        invariant
            d <= depth,
            len == pow2(d as nat) - 1,
            pow2(depth as nat) - 1 <= usize::MAX,
        decreases depth - d,
    {
        proof {
            lemma_pow2_unfold((d + 1) as nat);
            if d + 1 < depth {
                lemma_pow2_strictly_increases((d + 1) as nat, depth as nat);
            }
        }
        len = 2 * len + 1;
        d = d + 1;
    }
    len
}

/// The depth of a position: the root is at depth 1.
pub fn depth_from_idx(idx: usize) -> (depth: u32)
    ensures
        depth == depth_of(idx as int),
{
    let mut at: usize = idx;
    let mut depth: u32 = 1;
    proof {
        lemma2_to64();
        lemma_pow2_unfold(65);
        lemma_depth_bound(idx as int, 65);
    }
    while at > 0
        invariant
            depth + depth_of(at as int) == 1 + depth_of(idx as int),
            1 <= depth,
            depth_of(idx as int) <= 65,
        decreases at,
    {
        proof {
            lemma_depth_positive((at - 1) / 2);
        }
        depth = depth + 1;
        at = (at - 1) / 2;
    }
    depth
}

/// Whether `idx` lies in the subtree rooted at `base`.
pub fn is_within(base: usize, idx: usize) -> (within: bool)
    ensures
        within == in_subtree(base as int, idx as int),
{
    let mut at: usize = idx;
    while at > base
        invariant
            in_subtree(base as int, at as int) == in_subtree(base as int, idx as int),
        decreases at,
    {
        at = (at - 1) / 2;
    }
    at == base
}

/// Whether one of the two positions is an ancestor of the other, or they are
/// the same position.
pub fn check_related(idx1: usize, idx2: usize) -> (r: bool)
    ensures
        r == related(idx1 as int, idx2 as int),
{
    is_within(idx1, idx2) || is_within(idx2, idx1)
}

} // verus!
