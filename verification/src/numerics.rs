//! What the search asks of the number type of its expressions.
//!
//! The trees hold numbers of a type `T` that this library never looks into.
//! It computes with them through a `Numerics<T>`, which gives the sums,
//! products and the like, and states what it computes in terms of these:
//! which operations it applied to what. Whatever a `Numerics<T>` gives, the
//! trees the library makes are valid.

use rand::rngs::StdRng;
use vstd::prelude::*;

verus! {

/// One observation: at input `x` the sought expression gives `y`.
#[derive(Clone, Copy, Debug, PartialEq)]
pub struct Point<T> {
    pub x: T,
    pub y: T,
}

impl<T> Point<T> {
    /// The observation that at `x` the expression gives `y`.
    pub fn new(x: T, y: T) -> (point: Self)
        ensures
            point.x == x,
            point.y == y,
    {
        Point { x, y }
    }
}

/// The arithmetic of the numbers of an expression.
pub trait Numerics<T: Copy> {
    /// The number that the text writes, if it writes one.
    fn parse(&self, text: &[u8]) -> Option<T>;

    /// The number `numerator / denominator`.
    fn ratio(&self, numerator: i32, denominator: u32) -> T;

    /// The least number above zero.
    fn least(&self) -> T;

    /// The greatest number.
    fn greatest(&self) -> T;

    /// `a + b`.
    fn sum(&self, a: T, b: T) -> T;

    /// `a - b`.
    fn difference(&self, a: T, b: T) -> T;

    /// `a * b`.
    fn product(&self, a: T, b: T) -> T;

    /// `a / b`.
    fn quotient(&self, a: T, b: T) -> T;

    /// The sine of `a`.
    fn sine(&self, a: T) -> T;

    /// The cosine of `a`.
    fn cosine(&self, a: T) -> T;

    /// Whether `a` is zero.
    fn is_zero(&self, a: T) -> bool;

    /// Whether `a` is less than `b`.
    fn less(&self, a: T, b: T) -> bool;

    /// A number from `low` up to, but not including, `high`, each as likely
    /// as the others.
    fn uniform(&self, rng: &mut StdRng, low: T, high: T) -> T;

    /// The rank of a number: of two numbers that are not negative, the
    /// greater has the greater rank.
    fn rank(&self, a: T) -> u64;

    /// The number of a rank.
    fn number(&self, rank: u64) -> T;
}

/// `number` is what `numerics` reads from the text.
pub open spec fn read<T: Copy, N: Numerics<T>>(numerics: &N, text: Seq<u8>, number: Option<T>) -> bool {
    exists|given: &[u8]| given@ == text && #[trigger] call_ensures(N::parse, (numerics, given), number)
}

/// `value` is what `numerics` gives for `numerator / denominator`.
pub open spec fn is_ratio<T: Copy, N: Numerics<T>>(numerics: &N, numerator: i32, denominator: u32, value: T) -> bool {
    call_ensures(N::ratio, (numerics, numerator, denominator), value)
}

/// `value` is what `numerics` gives for the least number above zero.
pub open spec fn is_least<T: Copy, N: Numerics<T>>(numerics: &N, value: T) -> bool {
    call_ensures(N::least, (numerics, ), value)
}

/// `value` is what `numerics` gives for the greatest number.
pub open spec fn is_greatest<T: Copy, N: Numerics<T>>(numerics: &N, value: T) -> bool {
    call_ensures(N::greatest, (numerics, ), value)
}

/// `value` is what `numerics` gives for `a + b`.
pub open spec fn is_sum<T: Copy, N: Numerics<T>>(numerics: &N, a: T, b: T, value: T) -> bool {
    call_ensures(N::sum, (numerics, a, b), value)
}

/// `value` is what `numerics` gives for `a - b`.
pub open spec fn is_difference<T: Copy, N: Numerics<T>>(numerics: &N, a: T, b: T, value: T) -> bool {
    call_ensures(N::difference, (numerics, a, b), value)
}

/// `value` is what `numerics` gives for `a * b`.
pub open spec fn is_product<T: Copy, N: Numerics<T>>(numerics: &N, a: T, b: T, value: T) -> bool {
    call_ensures(N::product, (numerics, a, b), value)
}

/// `value` is what `numerics` gives for `a / b`.
pub open spec fn is_quotient<T: Copy, N: Numerics<T>>(numerics: &N, a: T, b: T, value: T) -> bool {
    call_ensures(N::quotient, (numerics, a, b), value)
}

/// `value` is what `numerics` gives for the sine of `a`.
pub open spec fn is_sine<T: Copy, N: Numerics<T>>(numerics: &N, a: T, value: T) -> bool {
    call_ensures(N::sine, (numerics, a), value)
}

/// `value` is what `numerics` gives for the cosine of `a`.
pub open spec fn is_cosine<T: Copy, N: Numerics<T>>(numerics: &N, a: T, value: T) -> bool {
    call_ensures(N::cosine, (numerics, a), value)
}

/// `answer` is what `numerics` says to whether `a` is zero.
pub open spec fn says_zero<T: Copy, N: Numerics<T>>(numerics: &N, a: T, answer: bool) -> bool {
    call_ensures(N::is_zero, (numerics, a), answer)
}

/// `answer` is what `numerics` says to whether `a` is less than `b`.
pub open spec fn says_less<T: Copy, N: Numerics<T>>(numerics: &N, a: T, b: T, answer: bool) -> bool {
    call_ensures(N::less, (numerics, a, b), answer)
}

/// `value` is a number that `numerics` draws from `low` up to `high`.
pub open spec fn is_uniform<T: Copy, N: Numerics<T>>(numerics: &N, low: T, high: T, value: T) -> bool {
    exists|rng: &mut StdRng| #[trigger] call_ensures(N::uniform, (numerics, rng, low, high), value)
}

/// `rank` is the rank that `numerics` gives the number `a`.
pub open spec fn is_rank<T: Copy, N: Numerics<T>>(numerics: &N, a: T, rank: u64) -> bool {
    call_ensures(N::rank, (numerics, a), rank)
}

/// `value` is the number that `numerics` gives for the rank.
pub open spec fn is_number<T: Copy, N: Numerics<T>>(numerics: &N, rank: u64, value: T) -> bool {
    call_ensures(N::number, (numerics, rank), value)
}

} // verus!
