//! The random choices of the search, drawn from a seedable generator.

use rand::rngs::StdRng;
use rand::Rng;
use vstd::prelude::*;
use crate::node::Node;

verus! {

/// The generator of rand that the search draws from.
#[verifier::external_type_specification]
#[verifier::external_body]
pub struct ExStdRng(StdRng);

/// `Rng::gen_range` of rand on `usize`: a number from `low` up to, but not
/// including, `high`. The call panics unless `low < high`.
#[verifier::external_body]
pub(crate) fn draw(rng: &mut StdRng, low: usize, high: usize) -> (n: usize)
    requires
        low < high,
    ensures
        low <= n < high,
{
    rng.gen_range(low, high)
}

/// `Rng::gen` of rand on `bool`: either value.
#[verifier::external_body]
pub(crate) fn flip(rng: &mut StdRng) -> bool {
    rng.gen()
}

/// `Rng::gen_ratio` of rand: `true` with `numerator` chances in
/// `denominator`; always when the two are equal, never when `numerator` is
/// zero. The call panics unless `numerator <= denominator` and
/// `denominator > 0`.
#[verifier::external_body]
pub(crate) fn chance(rng: &mut StdRng, numerator: u32, denominator: u32) -> (hit: bool)
    requires
        numerator <= denominator,
        denominator > 0,
    ensures
        numerator == denominator ==> hit,
        numerator == 0 ==> !hit,
{
    rng.gen_ratio(numerator, denominator)
}

/// Takes the member at `place` out of the pool; the last member moves into
/// its place.
pub fn take_at(pool: &mut Vec<usize>, place: usize) -> (picked: usize)
    requires
        place < old(pool)@.len(),
    ensures
        picked == old(pool)@[place as int],
        final(pool)@ == old(pool)@.update(place as int, old(pool)@.last()).drop_last(),
        final(pool)@.len() == old(pool)@.len() - 1,
        forall|member: usize| final(pool)@.contains(member) ==> old(pool)@.contains(member),
        forall|member: usize| old(pool)@.contains(member) && member != picked ==> final(pool)@.contains(member),
        old(pool)@.no_duplicates() ==> final(pool)@.no_duplicates() && !final(pool)@.contains(picked),
{
    let ghost before = pool@;
    let picked: usize = pool.swap_remove(place);
    proof {
        let last = before.len() - 1;
        assert forall|member: usize| pool@.contains(member) implies before.contains(member) by {
            let k = choose|k: int| 0 <= k < pool@.len() && pool@[k] == member;
            if k == place {
                assert(before[last] == member);
            } else {
                assert(before[k] == member);
            }
        }
        assert forall|member: usize| before.contains(member) && member != picked implies pool@.contains(member) by {
            let k = choose|k: int| 0 <= k < before.len() && before[k] == member;
            if k == last {
                assert(pool@[place as int] == member);
            } else {
                assert(pool@[k] == member);
            }
        }
        if before.no_duplicates() {
            assert forall|j: int, k: int| 0 <= j < pool@.len() && 0 <= k < pool@.len() && j != k
                implies pool@[j] != pool@[k] by {
                let from_j = if j == place { last } else { j };
                let from_k = if k == place { last } else { k };
                assert(pool@[j] == before[from_j]);
                assert(pool@[k] == before[from_k]);
            }
            if pool@.contains(picked) {
                let k = choose|k: int| 0 <= k < pool@.len() && pool@[k] == picked;
                let from_k = if k == place { last } else { k };
                assert(before[from_k] == picked);
            }
        }
    }
    picked
}

/// Takes one member out of the pool, each as likely as the others.
pub fn pick_out(pool: &mut Vec<usize>, rng: &mut StdRng) -> (picked: usize)
    requires
        old(pool)@.len() > 0,
    ensures
        old(pool)@.contains(picked),
        final(pool)@.len() == old(pool)@.len() - 1,
        forall|member: usize| final(pool)@.contains(member) ==> old(pool)@.contains(member),
        forall|member: usize| old(pool)@.contains(member) && member != picked ==> final(pool)@.contains(member),
        old(pool)@.no_duplicates() ==> final(pool)@.no_duplicates() && !final(pool)@.contains(picked),
{
    let place: usize = draw(rng, 0, pool.len());
    take_at(pool, place)
}

/// The operator with the given number among the six.
pub open spec fn operator_at<T>(choice: int) -> Node<T> {
    if choice == 0 {
        Node::Add
    } else if choice == 1 {
        Node::Subtract
    } else if choice == 2 {
        Node::Multiply
    } else if choice == 3 {
        Node::Divide
    } else if choice == 4 {
        Node::Sine
    } else {
        Node::Cosine
    }
}

/// The operator with the given number: the four binary ones first, then
/// sine, and cosine for every other number.
pub fn operator<T>(choice: usize) -> (node: Node<T>)
    ensures
        node == operator_at::<T>(choice as int),
        node.is_operator(),
        choice < 4 ==> node.arity() == 2,
        choice >= 4 ==> node.arity() == 1,
{
    if choice == 0 {
        Node::Add
    } else if choice == 1 {
        Node::Subtract
    } else if choice == 2 {
        Node::Multiply
    } else if choice == 3 {
        Node::Divide
    } else if choice == 4 {
        Node::Sine
    } else {
        Node::Cosine
    }
}

/// One of the six operators, each as likely as the others.
pub fn get_op<T>(rng: &mut StdRng) -> (slot: Option<Node<T>>)
    ensures
        slot is Some,
        slot->0.is_operator(),
{
    let choice: usize = draw(rng, 0, 6);
    Some(operator(choice))
}

/// One of the four binary operators, each as likely as the others.
pub fn get_binary_op<T>(rng: &mut StdRng) -> (slot: Option<Node<T>>)
    ensures
        slot is Some,
        slot->0.arity() == 2,
{
    let choice: usize = draw(rng, 0, 4);
    Some(operator(choice))
}

/// Sine or cosine, each as likely as the other.
pub fn get_unary_op<T>(rng: &mut StdRng) -> (slot: Option<Node<T>>)
    ensures
        slot is Some,
        slot->0.arity() == 1,
{
    let choice: usize = draw(rng, 4, 6);
    Some(operator(choice))
}

} // verus!
