//! The numbers of the number leaves: new ones, and ones near old ones.

use rand::rngs::StdRng;
use vstd::prelude::*;
use crate::node::Node;
use crate::numerics::{is_difference, is_product, is_ratio, is_sum, is_uniform, Numerics, says_less};
use crate::random::{draw, flip};

verus! {

/// The greatest number that a retuning leaves in a number leaf.
pub const MAX_NUMBER_NODE: i32 = 15;

/// The least number that a retuning leaves in a number leaf.
pub const MIN_NUMBER_NODE: i32 = -15;

/// Twice the least factor of a retuning.
pub const MIN_FACTOR_HALVES: i32 = -3;

/// Twice the bound that the factor of a retuning stays below.
pub const MAX_FACTOR_HALVES: i32 = 3;

/// `number` is a number for a new leaf: one that `numerics` draws from
/// half of `MIN_NUMBER_NODE` up to half of `MAX_NUMBER_NODE`.
pub open spec fn drawn<T: Copy, N: Numerics<T>>(numerics: &N, number: T) -> bool {
    exists|low: T, high: T|
        is_ratio(numerics, MIN_NUMBER_NODE, 2, low) && is_ratio(numerics, MAX_NUMBER_NODE, 2, high)
            && #[trigger] is_uniform(numerics, low, high, number)
}

/// `moved` is `number` with a factor, drawn from -1.5 up to 1.5, added to
/// it or multiplied with it.
pub open spec fn stirred<T: Copy, N: Numerics<T>>(numerics: &N, number: T, moved: T) -> bool {
    exists|low: T, high: T, factor: T|
        is_ratio(numerics, MIN_FACTOR_HALVES, 2, low) && is_ratio(numerics, MAX_FACTOR_HALVES, 2, high)
            && #[trigger] is_uniform(
            numerics,
            low,
            high,
            factor,
        ) && (is_sum(numerics, number, factor, moved) || is_product(numerics, number, factor, moved))
}

/// `back` is `number` thrown back from `bound` by 1.2 times what it has
/// gone beyond.
pub open spec fn reflected<T: Copy, N: Numerics<T>>(numerics: &N, number: T, bound: T, back: T) -> bool {
    exists|scale: T, over: T, excess: T|
        is_ratio(numerics, 12, 10, scale) && is_difference(numerics, number, bound, over) && #[trigger] is_product(
            numerics,
            scale,
            over,
            excess,
        ) && is_difference(numerics, number, excess, back)
}

/// `back` is `number` where that lies from `bottom` to `top`, else
/// `number` thrown back from the one of the two that it has gone beyond.
pub open spec fn rebounded<T: Copy, N: Numerics<T>>(numerics: &N, number: T, top: T, bottom: T, back: T) -> bool {
    ||| says_less(numerics, top, number, true) && reflected(numerics, number, top, back)
    ||| says_less(numerics, top, number, false) && says_less(numerics, number, bottom, true) && reflected(
        numerics,
        number,
        bottom,
        back,
    )
    ||| says_less(numerics, top, number, false) && says_less(numerics, number, bottom, false) && back == number
}

/// `held` is `number` where that lies from `bottom` to `top`, else the one
/// of the two that it lies beyond.
pub open spec fn clamped<T: Copy, N: Numerics<T>>(numerics: &N, number: T, top: T, bottom: T, held: T) -> bool {
    ||| says_less(numerics, number, bottom, true) && held == bottom
    ||| says_less(numerics, number, bottom, false) && says_less(numerics, top, number, true) && held == top
    ||| says_less(numerics, number, bottom, false) && says_less(numerics, top, number, false) && held == number
}

/// `near` is what a retuning makes of `number`, given the numbers `top`
/// and `bottom` for `MAX_NUMBER_NODE` and `MIN_NUMBER_NODE`: the number is
/// stirred, thrown back if it has gone beyond the two, and then held
/// between them.
pub open spec fn tuned<T: Copy, N: Numerics<T>>(numerics: &N, number: T, top: T, bottom: T, near: T) -> bool {
    exists|moved: T, back: T|
        stirred(numerics, number, moved) && #[trigger] rebounded(numerics, moved, top, bottom, back) && clamped(
            numerics,
            back,
            top,
            bottom,
            near,
        )
}

/// `near` is what a retuning makes of `number`.
pub open spec fn perturbed<T: Copy, N: Numerics<T>>(numerics: &N, number: T, near: T) -> bool {
    exists|top: T, bottom: T|
        is_ratio(numerics, MAX_NUMBER_NODE, 1, top) && is_ratio(numerics, MIN_NUMBER_NODE, 1, bottom)
            && #[trigger] tuned(numerics, number, top, bottom, near)
}

/// A number for a new number leaf.
pub fn constant<T: Copy, N: Numerics<T>>(rng: &mut StdRng, numerics: &N) -> (number: T)
    ensures
        drawn(numerics, number),
{
    let low: T = numerics.ratio(MIN_NUMBER_NODE, 2);
    let high: T = numerics.ratio(MAX_NUMBER_NODE, 2);
    let number: T = numerics.uniform(rng, low, high);
    assert(is_uniform(numerics, low, high, number));
    number
}

/// `number` thrown back from `bound` by 1.2 times what it has gone beyond.
fn reflect<T: Copy, N: Numerics<T>>(number: T, bound: T, numerics: &N) -> (back: T)
    ensures
        reflected(numerics, number, bound, back),
{
    let scale: T = numerics.ratio(12, 10);
    let over: T = numerics.difference(number, bound);
    let excess: T = numerics.product(scale, over);
    let back: T = numerics.difference(number, excess);
    assert(is_product(numerics, scale, over, excess));
    back
}

/// A number near `number`: a factor drawn from -1.5 up to 1.5 is added to
/// it or multiplied with it, each as likely as the other; what goes beyond
/// `MIN_NUMBER_NODE` or `MAX_NUMBER_NODE` is thrown back by 1.2 times what
/// it has gone beyond; and the outcome is held between the two.
pub fn perturb<T: Copy, N: Numerics<T>>(number: T, rng: &mut StdRng, numerics: &N) -> (near: T)
    ensures
        perturbed(numerics, number, near),
{
    let low: T = numerics.ratio(MIN_FACTOR_HALVES, 2);
    let high: T = numerics.ratio(MAX_FACTOR_HALVES, 2);
    let factor: T = numerics.uniform(rng, low, high);
    let do_add: bool = flip(rng);
    let moved: T = if do_add {
        numerics.sum(number, factor)
    } else {
        numerics.product(number, factor)
    };
    assert(stirred(numerics, number, moved)) by {
        assert(is_uniform(numerics, low, high, factor));
    }
    let top: T = numerics.ratio(MAX_NUMBER_NODE, 1);
    let bottom: T = numerics.ratio(MIN_NUMBER_NODE, 1);
    let back: T = if numerics.less(top, moved) {
        reflect(moved, top, numerics)
    } else if numerics.less(moved, bottom) {
        reflect(moved, bottom, numerics)
    } else {
        moved
    };
    assert(rebounded(numerics, moved, top, bottom, back));
    let near: T = if numerics.less(back, bottom) {
        bottom
    } else if numerics.less(top, back) {
        top
    } else {
        back
    };
    assert(clamped(numerics, back, top, bottom, near));
    assert(tuned(numerics, number, top, bottom, near));
    near
}

/// A terminal: the variable, or a number leaf with a new number, each as
/// likely as the other.
pub fn get_val<T: Copy, N: Numerics<T>>(rng: &mut StdRng, numerics: &N) -> (slot: Option<Node<T>>)
    ensures
        slot is Some,
        slot->0.is_terminal(),
        match slot {
            Some(Node::Number(number)) => drawn(numerics, number),
            _ => true,
        },
{
    let choice: usize = draw(rng, 0, 2);
    if choice == 0 {
        Some(Node::Variable)
    } else {
        Some(Node::Number(constant(rng, numerics)))
    }
}

} // verus!
