//! Crossover of two expressions: each gives the other one of its subtrees.

use rand::rngs::StdRng;
use vstd::prelude::*;
use crate::census::{all_of_kind, is_kind, Kind, lemma_kind_kept, lemma_kind_of, levels};
use crate::exchange::lemma_levels_fit;
use crate::heap::{
    at, fitted, grafted, Layout, lemma_ancestors_operate, lemma_graft_valid, SymbolicBinaryHeap,
    valid, within_levels,
};
use crate::index::{
    counterpart, depth_from_idx, depth_of, in_subtree, is_within, lemma_ancestor_at,
    lemma_counterpart_depth, lemma_depth_small, lemma_subtree_below, lemma_subtree_transitive,
    MAX_DEPTH, MAX_IDX,
};
use crate::mutation::{lemma_has_terminal, lemma_one_level};
use crate::node::{arity_of, Node, slot_arity};
use crate::leaf::get_val;
use crate::numerics::Numerics;
use crate::prune::{lemma_plant_valid, lemma_planted, planted, stands_for};
use crate::random::{draw, get_binary_op, get_unary_op, pick_out};

verus! {

/// What slot `k` holds once the subtree at `base` is cut down to `bound`
/// levels. On the last of these levels an operator has given way to a
/// terminal, and below it every slot is empty; every other slot is as it
/// was.
pub open spec fn cropped_at<T: Copy, N: Numerics<T>>(
    before: Layout<T>,
    after: Layout<T>,
    base: int,
    bound: int,
    k: int,
    numerics: &N,
) -> bool {
    let level = depth_of(k) - depth_of(base) + 1;
    if !in_subtree(base, k) || level < bound {
        after[k] == before[k]
    } else if level > bound {
        after[k] is None
    } else if slot_arity(before[k]) == 0 {
        after[k] == before[k]
    } else {
        after[k] is Some && stands_for(after[k]->0, before, k as usize, numerics)
    }
}

/// `after` is `before` with the subtree at `base` cut down to `bound`
/// levels.
pub open spec fn cropped<T: Copy, N: Numerics<T>>(
    before: Layout<T>,
    after: Layout<T>,
    base: int,
    bound: int,
    numerics: &N,
) -> bool {
    &&& after.len() == MAX_IDX
    &&& forall|k: int| 0 <= k < MAX_IDX ==> #[trigger] cropped_at(before, after, base, bound, k, numerics)
}

/// What slot `k` holds once the subtree at `base` of `host` has given way
/// to the donor's subtree at `from`: outside the subtree what it held, and
/// inside it what the donor holds at the counterpart, except that an
/// operator that would come to stand on the last level has given way to a
/// terminal that stands for its subtree in the donor.
pub open spec fn crossed_at<T: Copy, N: Numerics<T>>(
    host: Layout<T>,
    after: Layout<T>,
    base: int,
    donor: Layout<T>,
    from: int,
    k: int,
    numerics: &N,
) -> bool {
    let there = counterpart(base, from, k);
    if !in_subtree(base, k) {
        after[k] == host[k]
    } else if depth_of(k) < MAX_DEPTH || slot_arity(at(donor, there)) == 0 {
        after[k] == at(donor, there)
    } else {
        after[k] is Some && stands_for(after[k]->0, donor, there as usize, numerics)
    }
}

/// `after` is `host` with the subtree at `base` replaced by the donor's
/// subtree at `from`, cut to fit.
pub open spec fn crossed<T: Copy, N: Numerics<T>>(
    host: Layout<T>,
    after: Layout<T>,
    base: int,
    donor: Layout<T>,
    from: int,
    numerics: &N,
) -> bool {
    &&& after.len() == MAX_IDX
    &&& forall|k: int| 0 <= k < MAX_IDX ==> #[trigger] crossed_at(host, after, base, donor, from, k, numerics)
}

/// A subtree that was cut down to `bound` levels has no node deeper.
pub proof fn lemma_cropped_levels<T: Copy, N: Numerics<T>>(
    before: Layout<T>,
    after: Layout<T>,
    base: int,
    bound: int,
    numerics: &N,
)
    requires
        cropped(before, after, base, bound, numerics),
    ensures
        within_levels(after, base, bound),
{
    assert forall|k: int| 0 <= k < after.len() && #[trigger] in_subtree(base, k) && after[k] is Some implies depth_of(
        k,
    ) - depth_of(base) < bound by {
        assert(cropped_at(before, after, base, bound, k, numerics));
    }
}

/// The other child position of the parent of `idx`.
pub open spec fn sibling_of(idx: int) -> int {
    if idx % 2 == 1 {
        idx + 1
    } else {
        idx - 1
    }
}

/// `after` is `before` with the parent of the node at `idx` made to agree
/// with it. Under a binary operator nothing changes. Under a unary operator
/// the subtree on the other side, if there is one, is gone. Under a
/// terminal or an empty slot the parent has become an operator: for a left
/// child a binary one if the other side holds a node, else a unary one; for
/// a right child a binary one, with a terminal on the other side if that
/// was empty.
pub open spec fn checked<T>(before: Layout<T>, after: Layout<T>, idx: int) -> bool {
    let up = (idx - 1) / 2;
    let sibling = sibling_of(idx);
    let demand = slot_arity(before[up]);
    if demand == 2 {
        after == before
    } else if demand == 1 {
        if before[sibling] is Some {
            after == planted(before, sibling, None)
        } else {
            after == before
        }
    } else if idx % 2 == 1 {
        &&& after == before.update(up, after[up])
        &&& after[up] is Some
        &&& slot_arity(after[up]) == if before[sibling] is Some { 2nat } else { 1nat }
    } else {
        &&& after == before.update(sibling, after[sibling]).update(up, after[up])
        &&& after[up] is Some
        &&& slot_arity(after[up]) == 2
        &&& if before[sibling] is Some {
            after[sibling] == before[sibling]
        } else {
            is_kind(after[sibling], Kind::Terminal)
        }
    }
}

/// In a valid tree the parent of every node agrees with it already.
pub proof fn lemma_checked_valid<T>(before: Layout<T>, after: Layout<T>, idx: int)
    requires
        valid(before),
        1 <= idx < MAX_IDX,
        before[idx] is Some,
        checked(before, after, idx),
    ensures
        after == before,
{
    assert(fitted(before, (idx - 1) / 2));
}

/// What slot `k` holds while the subtree at `base` is being cut at depth
/// `cut`, the slots before `upto` being done: above the cut and outside the
/// subtree what it held; on the cut a terminal where an operator was and
/// the cut has come by, else what it held; below the cut nothing under a
/// slot that is done.
pub open spec fn crop_done<T: Copy, N: Numerics<T>>(
    before: Layout<T>,
    now: Layout<T>,
    base: int,
    cut: int,
    upto: int,
    k: int,
    numerics: &N,
) -> bool {
    if !in_subtree(base, k) || depth_of(k) < cut {
        now[k] == before[k]
    } else if depth_of(k) > cut {
        now[k] is None || now[k] == before[k]
    } else if slot_arity(before[k]) == 0 || k >= upto {
        now[k] == before[k]
    } else {
        now[k] is Some && stands_for(now[k]->0, before, k as usize, numerics)
    }
}

impl<T: Copy> SymbolicBinaryHeap<T> {
    /// Makes the parent of the node at `idx` agree with it, so that a
    /// subtree set at `idx` hangs from an operator that takes it.
    pub fn check_swap_idx<N: Numerics<T>>(&mut self, idx: usize, rng: &mut StdRng, numerics: &N)
        requires
            old(self).sized(),
            1 <= idx < MAX_IDX,
            old(self)@[idx as int] is Some,
        ensures
            checked(old(self)@, final(self)@, idx as int),
            old(self).wf() ==> final(self)@ == old(self)@,
    {
        let up: usize = (idx - 1) / 2;
        let left_side: bool = idx % 2 == 1;
        let sibling: usize = if left_side { idx + 1 } else { idx - 1 };
        let demand: usize = arity_of(&self.heap[up]);
        if demand == 1 {
            if self.heap[sibling].is_some() {
                self.plant(sibling, None);
            }
        } else if demand == 0 {
            if left_side {
                let node: Option<Node<T>> = if self.heap[sibling].is_some() {
                    get_binary_op(rng)
                } else {
                    get_unary_op(rng)
                };
                self.heap[up] = node;
            } else {
                if self.heap[sibling].is_none() {
                    let leaf: Option<Node<T>> = get_val(rng, numerics);
                    self.heap[sibling] = leaf;
                }
                let node: Option<Node<T>> = get_binary_op(rng);
                self.heap[up] = node;
                let ghost filled = old(self)@.update(sibling as int, self@[sibling as int]);
                assert(self@ =~= filled.update(up as int, self@[up as int]));
            }
        }
        proof {
            if old(self).wf() {
                lemma_checked_valid(old(self)@, self@, idx as int);
            }
        }
    }

    /// Cuts the subtree at `base` down to `bound` levels: each operator on
    /// the last of them gives way to a terminal that stands for its
    /// subtree, and the slots below it are emptied.
    pub fn crop<N: Numerics<T>>(&mut self, base: usize, bound: u32, rng: &mut StdRng, numerics: &N)
        requires
            old(self).wf(),
            base < MAX_IDX,
            1 <= bound <= MAX_DEPTH,
        ensures
            final(self).wf(),
            cropped(old(self)@, final(self)@, base as int, bound as int, numerics),
    {
        let start: u32 = depth_from_idx(base);
        proof {
            lemma_depth_small(base as int);
        }
        let cut: u32 = start + bound - 1;
        let whole = self.clone();
        let mut idx: usize = 0;
        while idx < MAX_IDX
            invariant
                idx <= MAX_IDX,
                base < MAX_IDX,
                self.wf(),
                old(self).wf(),
                whole@ == old(self)@,
                start == depth_of(base as int),
                cut == start + bound - 1,
                forall|k: int|
                    0 <= k < MAX_IDX ==> #[trigger] crop_done(
                        old(self)@,
                        self@,
                        base as int,
                        cut as int,
                        idx as int,
                        k,
                        numerics,
                    ),
            decreases MAX_IDX - idx,
        {
            let ghost before = self@;
            if depth_from_idx(idx) == cut && is_within(base, idx) && arity_of(&self.heap[idx]) > 0 {
                let leaf: Node<T> = whole.op_to_terminal(idx, rng, numerics);
                proof {
                    assert(crop_done(old(self)@, before, base as int, cut as int, idx as int, idx as int, numerics));
                    lemma_planted(before, idx as int, Some(leaf));
                    lemma_plant_valid(before, idx as int, Some(leaf));
                }
                self.plant(idx, Some(leaf));
            }
            proof {
                assert forall|k: int| 0 <= k < MAX_IDX implies #[trigger] crop_done(
                    old(self)@,
                    self@,
                    base as int,
                    cut as int,
                    idx + 1,
                    k,
                    numerics,
                ) by {
                    assert(crop_done(old(self)@, before, base as int, cut as int, idx as int, k, numerics));
                    if in_subtree(idx as int, k) {
                        lemma_subtree_below(idx as int, k);
                        if in_subtree(base as int, idx as int) {
                            lemma_subtree_transitive(base as int, idx as int, k);
                        }
                    }
                }
            }
            idx = idx + 1;
        }
        proof {
            let after = self@;
            assert forall|k: int| 0 <= k < MAX_IDX implies #[trigger] cropped_at(
                old(self)@,
                after,
                base as int,
                bound as int,
                k,
                numerics,
            ) by {
                assert(crop_done(old(self)@, after, base as int, cut as int, MAX_IDX as int, k, numerics));
                if in_subtree(base as int, k) && depth_of(k) > cut && after[k] is Some {
                    lemma_subtree_below(base as int, k);
                    let above = lemma_ancestor_at(base as int, k, cut as int);
                    lemma_subtree_below(above, k);
                    lemma_depth_small(k);
                    lemma_depth_small(above);
                    lemma_ancestors_operate(after, above, k);
                    assert(crop_done(
                        old(self)@,
                        after,
                        base as int,
                        cut as int,
                        MAX_IDX as int,
                        above,
                        numerics,
                    ));
                }
            }
        }
    }

    /// Sets in place of the subtree at `base` the donor's subtree at
    /// `from`, cut down to the levels that there are below `base`.
    pub fn implant<N: Numerics<T>>(
        &mut self,
        base: usize,
        donor: &Self,
        from: usize,
        rng: &mut StdRng,
        numerics: &N,
    )
        requires
            old(self).wf(),
            donor.wf(),
            1 <= base < MAX_IDX,
            from < MAX_IDX,
            old(self)@[base as int] is Some,
            donor@[from as int] is Some,
        ensures
            final(self).wf(),
            crossed(old(self)@, final(self)@, base as int, donor@, from as int, numerics),
    {
        proof {
            lemma_depth_small(base as int);
        }
        let bound: u32 = MAX_DEPTH - depth_from_idx(base) + 1;
        let mut gift = donor.clone();
        gift.crop(from, bound, rng, numerics);
        proof {
            assert(in_subtree(from as int, from as int));
            assert(cropped_at(donor@, gift@, from as int, bound as int, from as int, numerics));
            lemma_cropped_levels(donor@, gift@, from as int, bound as int, numerics);
            lemma_graft_valid(self@, base as int, gift@, from as int, bound as int);
            let after = grafted(self@, base as int, gift@, from as int);
            assert forall|k: int| 0 <= k < MAX_IDX implies #[trigger] crossed_at(
                self@,
                after,
                base as int,
                donor@,
                from as int,
                k,
                numerics,
            ) by {
                if in_subtree(base as int, k) {
                    let there = counterpart(base as int, from as int, k);
                    lemma_counterpart_depth(base as int, from as int, k);
                    lemma_depth_small(k);
                    if there < MAX_IDX {
                        assert(cropped_at(donor@, gift@, from as int, bound as int, there, numerics));
                    }
                }
            }
        }
        self.graft(base, &gift, from);
    }

    /// The place at which the tree is to be cut for a crossover. A number
    /// of levels from 1 up to, but not including, the depth of the tree is
    /// drawn; the place is an operator whose subtree has that many levels,
    /// found by trying the operators in random order, or, for one level, a
    /// terminal, each as likely as the others.
    pub fn get_swap_idx(&self, rng: &mut StdRng) -> (idx: usize)
        requires
            self.wf(),
            levels(self@, 0) >= 2,
        ensures
            1 <= idx < MAX_IDX,
            is_kind(self@[idx as int], Kind::Terminal) || {
                &&& is_kind(self@[idx as int], Kind::Operator)
                &&& 2 <= levels(self@, idx as int) < levels(self@, 0)
            },
    {
        let depth: u32 = self.depth();
        proof {
            lemma_levels_fit(self@, 0);
        }
        let target: usize = draw(rng, 1, depth as usize);
        if target > 1 {
            let mut pool: Vec<usize> = self.get_op_idxs();
            let total: usize = pool.len();
            let mut tried: usize = 0;
            while tried < total
                invariant
                    tried <= total,
                    pool@.len() == total - tried,
                    self.wf(),
                    1 < target < levels(self@, 0),
                    levels(self@, 0) <= MAX_DEPTH,
                    all_of_kind(pool@, self@, Kind::Operator),
                decreases total - tried,
            {
                let ghost before = pool@;
                let choice: usize = pick_out(&mut pool, rng);
                proof {
                    lemma_kind_of(before, choice, self@, Kind::Operator);
                    lemma_kind_kept(before, pool@, self@, Kind::Operator);
                }
                if self.subtree_depth(choice) as usize == target {
                    return choice;
                }
                tried = tried + 1;
            }
        }
        let terminals: Vec<usize> = self.get_terminal_idxs();
        proof {
            let last = lemma_has_terminal(self@);
            assert(terminals@.contains(last as usize));
            if slot_arity(self@[0]) == 0 {
                lemma_one_level(self@);
            }
        }
        let place: usize = draw(rng, 0, terminals.len());
        assert(is_kind(self@[terminals@[place as int] as int], Kind::Terminal));
        terminals[place]
    }
}

} // verus!
