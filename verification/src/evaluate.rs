//! The value of an expression.

use vstd::prelude::*;
use crate::heap::{Layout, SymbolicBinaryHeap};
use crate::index::MAX_IDX;
use crate::node::Node;
use crate::numerics::{
    is_cosine, is_difference, is_least, is_product, is_quotient, is_ratio, is_sine, is_sum,
    Numerics, says_zero,
};

verus! {

/// `value` is `l / r`, or, where `r` is zero, `l` over the least number
/// above zero.
pub open spec fn divided<T: Copy, N: Numerics<T>>(numerics: &N, l: T, r: T, value: T) -> bool {
    ||| says_zero(numerics, r, false) && is_quotient(numerics, l, r, value)
    ||| says_zero(numerics, r, true) && exists|least: T|
        is_least(numerics, least) && #[trigger] is_quotient(numerics, l, least, value)
}

/// `value` is what the node makes of the values `l` and `r` of its
/// children where the variable is `x`: their sum, difference, product or
/// quotient, the sine or cosine of their sum, the node's own number, or
/// `x`. An empty slot is worth zero.
pub open spec fn applied<T: Copy, N: Numerics<T>>(
    numerics: &N,
    slot: Option<Node<T>>,
    l: T,
    r: T,
    x: T,
    value: T,
) -> bool {
    match slot {
        Some(Node::Add) => is_sum(numerics, l, r, value),
        Some(Node::Subtract) => is_difference(numerics, l, r, value),
        Some(Node::Multiply) => is_product(numerics, l, r, value),
        Some(Node::Divide) => divided(numerics, l, r, value),
        Some(Node::Sine) => exists|angle: T| is_sum(numerics, l, r, angle)
            && #[trigger] is_sine(numerics, angle, value),
        Some(Node::Cosine) => exists|angle: T|
            is_sum(numerics, l, r, angle) && #[trigger] is_cosine(numerics, angle, value),
        Some(Node::Number(number)) => value == number,
        Some(Node::Variable) => value == x,
        None => is_ratio(numerics, 0, 1, value),
    }
}

/// `value` is the value of the subtree at `idx` where the variable is `x`:
/// what the node at `idx` makes of what its two child slots bring. A child
/// slot brings the value of its subtree, or, where it holds no node, the
/// least number above zero.
pub open spec fn evaluates<T: Copy, N: Numerics<T>>(
    numerics: &N,
    layout: Layout<T>,
    idx: int,
    x: T,
    value: T,
) -> bool
    decreases MAX_IDX - idx,
{
    let left = 2 * idx + 1;
    let right = 2 * idx + 2;
    if 0 <= idx < MAX_IDX {
        exists|l: T, r: T|
            #[trigger] applied(numerics, layout[idx], l, r, x, value) && (if left < MAX_IDX && layout[left] is Some {
                evaluates(numerics, layout, left, x, l)
            } else {
                is_least(numerics, l)
            }) && (if right < MAX_IDX && layout[right] is Some {
                evaluates(numerics, layout, right, x, r)
            } else {
                is_least(numerics, r)
            })
    } else {
        false
    }
}

/// `value` is what the child slot `child` brings to its parent where the
/// variable is `x`.
pub open spec fn operand<T: Copy, N: Numerics<T>>(
    numerics: &N,
    layout: Layout<T>,
    child: int,
    x: T,
    value: T,
) -> bool {
    if 0 <= child < MAX_IDX && layout[child] is Some {
        evaluates(numerics, layout, child, x, value)
    } else {
        is_least(numerics, value)
    }
}

/// The value of an expression without the variable does not follow the
/// variable: what is a value of it for one number is a value of it for
/// every other.
pub proof fn lemma_constant_value<T: Copy, N: Numerics<T>>(
    numerics: &N,
    layout: Layout<T>,
    idx: int,
    x: T,
    other: T,
    value: T,
)
    requires
        layout.len() == MAX_IDX,
        forall|k: int| 0 <= k < MAX_IDX ==> #[trigger] layout[k] != Some(Node::<T>::Variable),
        evaluates(numerics, layout, idx, x, value),
    ensures
        evaluates(numerics, layout, idx, other, value),
    decreases MAX_IDX - idx,
{
    let left = 2 * idx + 1;
    let right = 2 * idx + 2;
    let (l, r) = choose|l: T, r: T|
        #[trigger] applied(numerics, layout[idx], l, r, x, value) && operand(numerics, layout, left, x, l) && operand(
            numerics,
            layout,
            right,
            x,
            r,
        );
    if left < MAX_IDX && layout[left] is Some {
        lemma_constant_value(numerics, layout, left, x, other, l);
    }
    if right < MAX_IDX && layout[right] is Some {
        lemma_constant_value(numerics, layout, right, x, other, r);
    }
    assert(layout[idx] != Some(Node::<T>::Variable));
    assert(applied(numerics, layout[idx], l, r, other, value));
}

/// `value` is the value of the subtree at `idx` where the variable is one.
pub open spec fn folded<T: Copy, N: Numerics<T>>(numerics: &N, layout: Layout<T>, idx: usize, value: T) -> bool {
    exists|one: T| is_ratio(numerics, 1, 1, one) && #[trigger] evaluates(numerics, layout, idx as int, one, value)
}

impl<T: Copy> SymbolicBinaryHeap<T> {
    /// What the child slot `child` brings to its parent where the variable
    /// is `variable`.
    fn operand_at<N: Numerics<T>>(&self, child: usize, variable: T, numerics: &N) -> (value: T)
        requires
            self.sized(),
        ensures
            operand(numerics, self@, child as int, variable, value),
        decreases
                (if child < MAX_IDX {
                    MAX_IDX - child
                } else {
                    0
                }),
                1int,
    {
        if child < MAX_IDX && self.heap[child].is_some() {
            self.collapse_at(child, variable, numerics)
        } else {
            numerics.least()
        }
    }

    /// The value of the subtree at `idx` where the variable is `variable`.
    pub fn collapse_at<N: Numerics<T>>(&self, idx: usize, variable: T, numerics: &N) -> (value: T)
        requires
            self.sized(),
            idx < MAX_IDX,
        ensures
            evaluates(numerics, self@, idx as int, variable, value),
        decreases MAX_IDX - idx, 0int,
    {
        let l: T = self.operand_at(2 * idx + 1, variable, numerics);
        let r: T = self.operand_at(2 * idx + 2, variable, numerics);
        let value: T = match self.heap[idx] {
            Some(Node::Add) => numerics.sum(l, r),
            Some(Node::Subtract) => numerics.difference(l, r),
            Some(Node::Multiply) => numerics.product(l, r),
            Some(Node::Divide) => {
                if numerics.is_zero(r) {
                    let least: T = numerics.least();
                    let value: T = numerics.quotient(l, least);
                    assert(is_quotient(numerics, l, least, value));
                    value
                } else {
                    numerics.quotient(l, r)
                }
            },
            Some(Node::Sine) => {
                let angle: T = numerics.sum(l, r);
                let value: T = numerics.sine(angle);
                assert(is_sine(numerics, angle, value));
                value
            },
            Some(Node::Cosine) => {
                let angle: T = numerics.sum(l, r);
                let value: T = numerics.cosine(angle);
                assert(is_cosine(numerics, angle, value));
                value
            },
            Some(Node::Number(number)) => number,
            Some(Node::Variable) => variable,
            None => numerics.ratio(0, 1),
        };
        assert(applied(numerics, self@[idx as int], l, r, variable, value));
        value
    }

    /// The value of the expression where the variable is `variable`.
    pub fn collapse<N: Numerics<T>>(&self, variable: T, numerics: &N) -> (value: T)
        requires
            self.sized(),
        ensures
            evaluates(numerics, self@, 0, variable, value),
    {
        self.collapse_at(0, variable, numerics)
    }

    /// The value of the subtree at `idx` where the variable is one.
    pub fn fold<N: Numerics<T>>(&self, idx: usize, numerics: &N) -> (value: T)
        requires
            self.sized(),
            idx < MAX_IDX,
        ensures
            folded(numerics, self@, idx, value),
    {
        let one: T = numerics.ratio(1, 1);
        let value: T = self.collapse_at(idx, one, numerics);
        assert(is_ratio(numerics, 1, 1, one));
        value
    }
}

} // verus!
