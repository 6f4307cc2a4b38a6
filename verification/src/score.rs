//! The fitness of an expression: how well it fits a set of points.

use vstd::prelude::*;
use crate::evaluate::evaluates;
use crate::heap::{Layout, SymbolicBinaryHeap};
use crate::node::Node;
use crate::numerics::{
    is_difference, is_least, is_product, is_quotient, is_rank, is_ratio, is_sum, Numerics, Point,
};

verus! {

/// Some slot of the layout holds the variable.
pub open spec fn holds_variable<T>(layout: Layout<T>) -> bool {
    exists|idx: int| 0 <= idx < layout.len() && #[trigger] layout[idx] == Some(Node::<T>::Variable)
}

/// `square` is the squared error of the expression at the point: the
/// square of what the value of the expression at `point.x` lacks of
/// `point.y`.
pub open spec fn missed<T: Copy, N: Numerics<T>>(
    numerics: &N,
    layout: Layout<T>,
    point: Point<T>,
    square: T,
) -> bool {
    exists|worth: T, off: T|
        evaluates(numerics, layout, 0, point.x, worth) && #[trigger] is_difference(numerics, point.y, worth, off)
            && is_product(numerics, off, off, square)
}

/// `total` is the least number above zero with the squared errors of the
/// expression at the first `upto` points added to it, one after the other.
pub open spec fn squared_errors<T: Copy, N: Numerics<T>>(
    numerics: &N,
    layout: Layout<T>,
    points: Seq<Point<T>>,
    upto: int,
    total: T,
) -> bool
    decreases upto,
{
    if upto <= 0 {
        is_least(numerics, total)
    } else {
        exists|before: T, square: T|
            squared_errors(numerics, layout, points, upto - 1, before) && missed(
                numerics,
                layout,
                points[upto - 1],
                square,
            ) && #[trigger] is_sum(numerics, before, square, total)
    }
}

/// `weighed` is the error as it counts: the error itself for an expression
/// that holds the variable, ten times the error for one that does not.
pub open spec fn penalised<T: Copy, N: Numerics<T>>(numerics: &N, layout: Layout<T>, error: T, weighed: T) -> bool {
    if holds_variable(layout) {
        weighed == error
    } else {
        exists|ten: T| is_ratio(numerics, 10, 1, ten) && #[trigger] is_product(numerics, error, ten, weighed)
    }
}

/// `fitness` is the rank of one over `weighed`.
pub open spec fn inverted<T: Copy, N: Numerics<T>>(numerics: &N, weighed: T, fitness: u64) -> bool {
    exists|one: T, inverse: T|
        is_ratio(numerics, 1, 1, one) && #[trigger] is_quotient(numerics, one, weighed, inverse) && is_rank(
            numerics,
            inverse,
            fitness,
        )
}

/// `fitness` is the fitness of an expression of this layout for these
/// points: the rank of one over its squared error, which counts ten times
/// for an expression without the variable.
pub open spec fn scored<T: Copy, N: Numerics<T>>(
    numerics: &N,
    layout: Layout<T>,
    points: Seq<Point<T>>,
    fitness: u64,
) -> bool {
    exists|error: T, weighed: T|
        squared_errors(numerics, layout, points, points.len() as int, error) && #[trigger] penalised(
            numerics,
            layout,
            error,
            weighed,
        ) && inverted(numerics, weighed, fitness)
}

/// The fitness of the expression for the points: the rank of one over the
/// sum of the squared errors, taken from the least number above zero, and
/// taken ten times for an expression without the variable.
pub fn fitness<T: Copy, N: Numerics<T>>(dna: &SymbolicBinaryHeap<T>, points: &[Point<T>], numerics: &N) -> (rank: u64)
    requires
        dna.sized(),
    ensures
        scored(numerics, dna@, points@, rank),
{
    let mut squared_error: T = numerics.least();
    let mut idx: usize = 0;
    while idx < points.len()
        invariant
            idx <= points@.len(),
            dna.sized(),
            squared_errors(numerics, dna@, points@, idx as int, squared_error),
        decreases points@.len() - idx,
    {
        let point: Point<T> = points[idx];
        let worth: T = dna.collapse(point.x, numerics);
        let difference: T = numerics.difference(point.y, worth);
        let square: T = numerics.product(difference, difference);
        let ghost before = squared_error;
        squared_error = numerics.sum(squared_error, square);
        proof {
            assert(is_difference(numerics, point.y, worth, difference));
            assert(missed(numerics, dna@, points@[idx as int], square));
            assert(is_sum(numerics, before, square, squared_error));
        }
        idx = idx + 1;
    }
    let error: T = squared_error;
    if !dna.has_variable() {
        let ten: T = numerics.ratio(10, 1);
        squared_error = numerics.product(squared_error, ten);
        assert(is_product(numerics, error, ten, squared_error));
    }
    assert(penalised(numerics, dna@, error, squared_error));
    let one: T = numerics.ratio(1, 1);
    let inverse: T = numerics.quotient(one, squared_error);
    let rank: u64 = numerics.rank(inverse);
    assert(is_quotient(numerics, one, squared_error, inverse));
    assert(inverted(numerics, squared_error, rank));
    rank
}

} // verus!
