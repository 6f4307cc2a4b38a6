//! The roulette wheel of the selection.

use rand::rngs::StdRng;
use vstd::prelude::*;
use crate::numerics::{is_greatest, is_number, is_rank, is_ratio, is_uniform, Numerics, says_less};
use crate::random::draw;

pub use crate::parse::parse_specs;

verus! {

/// The position of the last of the first `upto` weights that lies below
/// `r`, or -1 if none of them does.
pub open spec fn last_below(weights: Seq<u64>, r: u64, upto: int) -> int
    decreases upto,
{
    if upto <= 0 {
        -1
    } else if weights[upto - 1] < r {
        upto - 1
    } else {
        last_below(weights, r, upto - 1)
    }
}

/// Where the wheel stops for the weight `r`: at the position of the last
/// weight below `r`, or at `fallback` where no weight lies below `r`.
pub open spec fn wheel_stop(weights: Seq<u64>, r: u64, fallback: int) -> int {
    if last_below(weights, r, weights.len() as int) >= 0 {
        last_below(weights, r, weights.len() as int)
    } else {
        fallback
    }
}

/// `capped` is `size`, or `most` where `size` is greater.
pub open spec fn capped<T: Copy, N: Numerics<T>>(numerics: &N, size: T, most: T, capped: T) -> bool {
    ||| says_less(numerics, most, size, true) && capped == most
    ||| says_less(numerics, most, size, false) && capped == size
}

/// `r` is the rank of a number drawn from zero up to `size`.
pub open spec fn cast<T: Copy, N: Numerics<T>>(numerics: &N, size: T, r: u64) -> bool {
    exists|zero: T, drawn: T|
        is_ratio(numerics, 0, 1, zero) && #[trigger] is_uniform(numerics, zero, size, drawn) && is_rank(
            numerics,
            drawn,
            r,
        )
}

/// `r` is a weight for a wheel of the size `total`: the rank of a number
/// drawn from zero up to the number of `total`, or up to the greatest
/// number if that is less.
pub open spec fn sampled<T: Copy, N: Numerics<T>>(numerics: &N, total: u64, r: u64) -> bool {
    exists|size: T, most: T, held: T|
        is_number(numerics, total, size) && is_greatest(numerics, most)
            && #[trigger] capped(numerics, size, most, held)
            && cast(numerics, held, r)
}

/// `place` is where a draw from the wheel ends: `r` is a weight that
/// `numerics` gave for a wheel of the size of the last weight, `fallback`
/// is a member, and `place` is where the wheel stops for `r`, or `fallback`
/// if `r` is beyond the wheel.
pub open spec fn spun<T: Copy, N: Numerics<T>>(
    weights: Seq<u64>,
    r: u64,
    fallback: int,
    place: int,
    numerics: &N,
) -> bool {
    &&& sampled(numerics, weights.last(), r)
    &&& 0 <= fallback < weights.len() - 1
    &&& place == if r <= weights.last() {
        wheel_stop(weights, r, fallback)
    } else {
        fallback
    }
}

/// `last_below` is what its name says.
pub proof fn lemma_last_below(weights: Seq<u64>, r: u64, upto: int)
    requires
        0 <= upto <= weights.len(),
    ensures
        -1 <= last_below(weights, r, upto) < upto,
        last_below(weights, r, upto) >= 0 ==> weights[last_below(weights, r, upto)] < r,
        forall|k: int| last_below(weights, r, upto) < k < upto ==> #[trigger] weights[k] >= r,
    decreases upto,
{
    if upto > 0 {
        lemma_last_below(weights, r, upto - 1);
    }
}

/// The position of the last weight below `r`, or `fallback` where no
/// weight lies below `r`.
pub fn select_index_at(cumulative_weights: &[u64], r: u64, fallback: usize) -> (place: usize)
    ensures
        place == wheel_stop(cumulative_weights@, r, fallback as int),
{
    let mut upto: usize = cumulative_weights.len();
    while upto > 0
        invariant
            upto <= cumulative_weights@.len(),
            last_below(cumulative_weights@, r, upto as int) == last_below(
                cumulative_weights@,
                r,
                cumulative_weights@.len() as int,
            ),
        decreases upto,
    {
        if cumulative_weights[upto - 1] < r {
            return upto - 1;
        }
        upto = upto - 1;
    }
    fallback
}

/// A weight for a wheel of the size `total`.
pub fn sample<T: Copy, N: Numerics<T>>(total: u64, rng: &mut StdRng, numerics: &N) -> (r: u64)
    ensures
        sampled(numerics, total, r),
{
    let size: T = numerics.number(total);
    let most: T = numerics.greatest();
    let held: T = if numerics.less(most, size) {
        most
    } else {
        size
    };
    assert(capped(numerics, size, most, held));
    let zero: T = numerics.ratio(0, 1);
    let drawn: T = numerics.uniform(rng, zero, held);
    let r: u64 = numerics.rank(drawn);
    assert(is_uniform(numerics, zero, held, drawn));
    assert(cast(numerics, held, r));
    r
}

/// A draw from the roulette wheel. The last of the weights is the size of
/// the wheel, and there is a member of the population for each weight but
/// that one. A weight `r` up to the size of the wheel and a member to fall
/// back on are drawn, and the member chosen is the one at which the wheel
/// stops for `r`; the one to fall back on if `r` is beyond the wheel.
pub fn select_index<T: Copy, N: Numerics<T>>(
    cumulative_weights: &[u64],
    rng: &mut StdRng,
    numerics: &N,
) -> (place: usize)
    requires
        cumulative_weights@.len() >= 2,
    ensures
        place < cumulative_weights@.len() - 1,
        exists|r: u64, fallback: int| #[trigger] spun(cumulative_weights@, r, fallback, place as int, numerics),
{
    let members: usize = cumulative_weights.len() - 1;
    let w_sum: u64 = cumulative_weights[members];
    let r: u64 = sample(w_sum, rng, numerics);
    let fallback: usize = draw(rng, 0, members);
    proof {
        lemma_last_below(cumulative_weights@, r, cumulative_weights@.len() as int);
    }
    let place: usize = if r <= w_sum {
        select_index_at(cumulative_weights, r, fallback)
    } else {
        fallback
    };
    assert(spun(cumulative_weights@, r, fallback as int, place as int, numerics));
    place
}

} // verus!
