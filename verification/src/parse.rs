//! Reading what a search is given: its specification, one line of six
//! fields with commas between them, and its points, two fields to a line.

use vstd::arithmetic::div_mod::lemma_fundamental_div_mod_converse;
use vstd::prelude::*;
use vstd::slice::slice_subrange;
use vstd::string::StringSliceAdditionalSpecFns;
use crate::numerics::{Numerics, Point, read};
use crate::simulation::Probability;

verus! {

/// Why a specification could not be read.
#[derive(Clone, Copy, Debug, PartialEq, Eq, Structural)]
pub enum SpecsError {
    /// The line does not have exactly six fields.
    FieldCount,
    /// The field at this place, counted from 0, is not a whole number that
    /// fits the machine.
    Integer(usize),
    /// The field at this place, counted from 0, is not a decimal number
    /// from 0 to 1.
    Probability(usize),
}

/// The byte that stands between the fields of a line.
pub const COMMA: u8 = 44;

/// The byte that ends a line.
pub const NEWLINE: u8 = 10;

/// The space.
pub const SPACE: u8 = 32;

/// The tab, the first of the control bytes that count as spaces.
pub const TAB: u8 = 9;

/// The carriage return, the last of the control bytes that count as spaces.
pub const RETURN: u8 = 13;

/// The plus sign.
pub const PLUS: u8 = 43;

/// The minus sign.
pub const MINUS: u8 = 45;

/// The decimal point.
pub const POINT: u8 = 46;

/// The small letter that stands before an exponent.
pub const SMALL_E: u8 = 101;

/// The capital letter that stands before an exponent.
pub const CAPITAL_E: u8 = 69;

/// The number of parts that a probability read from a text is held in: a
/// thousand million.
pub const PARTS: u32 = 1000000000;

/// The size from which on an exponent is taken for this size.
pub const FAR: i128 = 1000000000000000000000000000000;

/// The digit `0`.
pub const ZERO: u8 = 48;

/// The digit `9`.
pub const NINE: u8 = 57;

/// A space, or one of the control bytes from tab to carriage return: the
/// white space characters that take one byte.
pub open spec fn is_space(byte: u8) -> bool {
    byte == SPACE || TAB <= byte <= RETURN
}

/// The two bytes write a white space character: the next-line control or
/// the no-break space.
pub open spec fn is_wide_space(first: u8, second: u8) -> bool {
    first == 194 && (second == 133 || second == 160)
}

/// The three bytes write a white space character: the ogham space mark,
/// one of the spaces of fixed width, the line or the paragraph separator,
/// the narrow no-break space, the medium mathematical space or the
/// ideographic space.
pub open spec fn is_broad_space(first: u8, second: u8, third: u8) -> bool {
    ||| first == 225 && second == 154 && third == 128
    ||| first == 226 && second == 128 && (128 <= third <= 138 || third == 168 || third == 169 || third == 175)
    ||| first == 226 && second == 129 && third == 159
    ||| first == 227 && second == 128 && third == 128
}

/// The number of bytes that the white space character at the start of the
/// text takes, or 0 if the text starts with none.
pub open spec fn space_ahead(text: Seq<u8>) -> nat {
    if text.len() >= 1 && is_space(text[0]) {
        1
    } else if text.len() >= 2 && is_wide_space(text[0], text[1]) {
        2
    } else if text.len() >= 3 && is_broad_space(text[0], text[1], text[2]) {
        3
    } else {
        0
    }
}

/// The number of bytes that the white space character at the end of the
/// text takes, or 0 if the text ends with none.
pub open spec fn space_behind(text: Seq<u8>) -> nat {
    let len = text.len() as int;
    if len >= 1 && is_space(text[len - 1]) {
        1
    } else if len >= 2 && is_wide_space(text[len - 2], text[len - 1]) {
        2
    } else if len >= 3 && is_broad_space(text[len - 3], text[len - 2], text[len - 1]) {
        3
    } else {
        0
    }
}

/// One of the digits `0` to `9`.
pub open spec fn is_digit(byte: u8) -> bool {
    ZERO <= byte <= NINE
}

/// The stretches of the text between the bytes `mark`: one more than there
/// are such bytes.
pub open spec fn split(text: Seq<u8>, mark: u8) -> Seq<Seq<u8>>
    decreases text.len(),
{
    if text.len() == 0 {
        seq![Seq::empty()]
    } else {
        let head = split(text.drop_last(), mark);
        if text.last() == mark {
            head.push(Seq::empty())
        } else {
            head.drop_last().push(head.last().push(text.last()))
        }
    }
}

/// The number of bytes of white space at the start of a field.
pub open spec fn lead(field: Seq<u8>) -> nat
    decreases field.len(),
{
    let ahead = space_ahead(field);
    if ahead > 0 {
        ahead + lead(field.skip(ahead as int))
    } else {
        0
    }
}

/// The number of bytes of white space at the end of a field.
pub open spec fn trail(field: Seq<u8>) -> nat
    decreases field.len(),
{
    let behind = space_behind(field);
    if behind > 0 {
        behind + trail(field.take(field.len() - behind))
    } else {
        0
    }
}

/// The field without the white space at its start and at its end.
pub open spec fn trimmed(field: Seq<u8>) -> Seq<u8> {
    let rest = field.skip(lead(field) as int);
    rest.take(rest.len() - trail(rest))
}

/// Every byte is a digit.
pub open spec fn all_digits(text: Seq<u8>) -> bool {
    forall|k: int| 0 <= k < text.len() ==> is_digit(#[trigger] text[k])
}

/// The number that a run of digits writes.
pub open spec fn decimal(digits: Seq<u8>) -> nat
    decreases digits.len(),
{
    if digits.len() == 0 {
        0
    } else {
        10 * decimal(digits.drop_last()) + (digits.last() - ZERO) as nat
    }
}

/// Ten to the power `e`.
pub open spec fn pow10(e: nat) -> nat
    decreases e,
{
    if e == 0 {
        1
    } else {
        10 * pow10((e - 1) as nat)
    }
}

/// The field without a plus sign at its start.
pub open spec fn unsigned(field: Seq<u8>) -> Seq<u8> {
    if field.len() > 0 && field[0] == PLUS {
        field.drop_first()
    } else {
        field
    }
}

/// The place of the first point in the text, or the length of the text if
/// it has none.
pub open spec fn point_place(text: Seq<u8>) -> nat
    decreases text.len(),
{
    if text.len() == 0 || text[0] == POINT {
        0
    } else {
        1 + point_place(text.drop_first())
    }
}

/// The whole number that a field writes: digits, with or without a plus
/// sign before them, that make a number the machine can hold.
pub open spec fn integer_of(field: Seq<u8>) -> Option<usize> {
    let digits = unsigned(field);
    if digits.len() > 0 && all_digits(digits) && decimal(digits) <= usize::MAX {
        Some(decimal(digits) as usize)
    } else {
        None
    }
}

/// The field without a plus or minus sign at its start.
pub open spec fn signless(field: Seq<u8>) -> Seq<u8> {
    if field.len() > 0 && (field[0] == PLUS || field[0] == MINUS) {
        field.drop_first()
    } else {
        field
    }
}

/// The field starts with a minus sign.
pub open spec fn negative(field: Seq<u8>) -> bool {
    field.len() > 0 && field[0] == MINUS
}

/// The letter `e`, small or capital.
pub open spec fn is_mark(byte: u8) -> bool {
    byte == SMALL_E || byte == CAPITAL_E
}

/// The place of the first letter `e` in the text, or the length of the
/// text if it has none.
pub open spec fn mark_place(text: Seq<u8>) -> nat
    decreases text.len(),
{
    if text.len() == 0 || is_mark(text[0]) {
        0
    } else {
        1 + mark_place(text.drop_first())
    }
}

/// What stands before the point of a decimal.
pub open spec fn whole_part(number: Seq<u8>) -> Seq<u8> {
    number.take(point_place(number) as int)
}

/// What stands behind the point of a decimal.
pub open spec fn fraction_part(number: Seq<u8>) -> Seq<u8> {
    if point_place(number) < number.len() {
        number.skip(point_place(number) as int + 1)
    } else {
        Seq::empty()
    }
}

/// The digits of a decimal, those before the point and then those behind
/// it: at least one, and nothing but digits beside the point.
pub open spec fn digits_of(number: Seq<u8>) -> Option<Seq<u8>> {
    let digits = whole_part(number) + fraction_part(number);
    if digits.len() > 0 && all_digits(digits) {
        Some(digits)
    } else {
        None
    }
}

/// The exponent that a text writes: one digit or more, with or without a
/// sign before them.
pub open spec fn exponent_of(text: Seq<u8>) -> Option<int> {
    let digits = signless(text);
    if digits.len() > 0 && all_digits(digits) {
        Some(
            if negative(text) {
                -(decimal(digits) as int)
            } else {
                decimal(digits) as int
            },
        )
    } else {
        None
    }
}

/// The power of ten that a number is written with: the exponent behind its
/// letter `e`, or 0 where it has no such letter.
pub open spec fn power_of(body: Seq<u8>) -> Option<int> {
    if mark_place(body) < body.len() {
        exponent_of(body.skip(mark_place(body) as int + 1))
    } else {
        Some(0)
    }
}

/// The whole number of parts in a thousand million that the number written
/// by `digits`, times ten to the power `shift - 9`, comes to: what is left
/// below one part is dropped. `None` where the number is greater than 1.
pub open spec fn parts_of(digits: Seq<u8>, shift: int) -> Option<nat> {
    if shift >= 0 {
        let scaled = decimal(digits) * pow10(shift as nat);
        if scaled <= PARTS {
            Some(scaled)
        } else {
            None
        }
    } else {
        let unit = pow10((-shift) as nat);
        if decimal(digits) <= PARTS * unit {
            Some(decimal(digits) / unit)
        } else {
            None
        }
    }
}

/// The probability that a field writes. The field is a decimal number:
/// digits with or without a point among them, with or without a sign
/// before them, and with or without an exponent behind them, which is the
/// letter `e` and digits with or without a sign. The number is from 0 to
/// 1, and a minus sign stands only before a zero. The probability is held
/// as the whole number of parts in a thousand million that the number
/// comes to, what is left below one part being dropped.
pub open spec fn probability_of(field: Seq<u8>) -> Option<Probability> {
    let body = signless(field);
    let number = body.take(mark_place(body) as int);
    let digits = digits_of(number);
    let power = power_of(body);
    if digits is Some && power is Some && (negative(field) ==> decimal(digits->0) == 0) {
        match parts_of(digits->0, power->0 - fraction_part(number).len() + 9) {
            Some(parts) => Some(Probability { numerator: parts as u32, denominator: PARTS }),
            None => None,
        }
    } else {
        None
    }
}

/// What a specification line says: the level of reporting, the number of
/// generations between reports, the number of generations, the size of the
/// population, and the probabilities of a crossover and of a mutation; or
/// the first thing that is wrong with it.
pub open spec fn specs_of(
    text: Seq<u8>,
) -> Result<(usize, usize, usize, usize, Probability, Probability), SpecsError> {
    let fields = split(text, COMMA);
    if fields.len() != 6 {
        Err(SpecsError::FieldCount)
    } else if integer_of(trimmed(fields[0])) is None {
        Err(SpecsError::Integer(0))
    } else if integer_of(trimmed(fields[1])) is None {
        Err(SpecsError::Integer(1))
    } else if integer_of(trimmed(fields[2])) is None {
        Err(SpecsError::Integer(2))
    } else if integer_of(trimmed(fields[3])) is None {
        Err(SpecsError::Integer(3))
    } else if probability_of(trimmed(fields[4])) is None {
        Err(SpecsError::Probability(4))
    } else if probability_of(trimmed(fields[5])) is None {
        Err(SpecsError::Probability(5))
    } else {
        Ok(
            (
                integer_of(trimmed(fields[0]))->0,
                integer_of(trimmed(fields[1]))->0,
                integer_of(trimmed(fields[2]))->0,
                integer_of(trimmed(fields[3]))->0,
                probability_of(trimmed(fields[4]))->0,
                probability_of(trimmed(fields[5]))->0,
            ),
        )
    }
}

/// A run of `n` digits writes a number below ten to the `n`.
pub proof fn lemma_decimal_bound(digits: Seq<u8>)
    requires
        all_digits(digits),
    ensures
        decimal(digits) < pow10(digits.len()),
    decreases digits.len(),
{
    if digits.len() > 0 {
        assert(all_digits(digits.drop_last())) by {
            assert forall|k: int| 0 <= k < digits.drop_last().len()
                implies is_digit(#[trigger] digits.drop_last()[k]) by {
                assert(is_digit(digits[k]));
            }
        }
        lemma_decimal_bound(digits.drop_last());
        assert(is_digit(digits[digits.len() - 1]));
    }
}

/// A longer run of digits writes no smaller a number than its start.
pub proof fn lemma_decimal_grows(digits: Seq<u8>, upto: int)
    requires
        all_digits(digits),
        0 <= upto <= digits.len(),
    ensures
        decimal(digits.take(upto)) <= decimal(digits),
    decreases digits.len() - upto,
{
    if upto < digits.len() {
        lemma_decimal_grows(digits, upto + 1);
        assert(digits.take(upto + 1).drop_last() =~= digits.take(upto));
        assert(is_digit(digits[upto]));
    } else {
        assert(digits.take(upto) =~= digits);
    }
}

/// Ten to the ninth is a thousand million, and ten to the tenth is more.
pub proof fn lemma_pow10()
    ensures
        pow10(0) == 1,
        pow10(9) == PARTS,
        pow10(10) == 10 * PARTS,
{
    reveal_with_fuel(pow10, 11);
}

/// A greater power of ten is no smaller.
pub proof fn lemma_pow10_monotone(low: nat, high: nat)
    requires
        low <= high,
    ensures
        1 <= pow10(low) <= pow10(high),
    decreases high,
{
    if low < high {
        lemma_pow10_monotone(low, (high - 1) as nat);
    } else if low > 0 {
        lemma_pow10_monotone((low - 1) as nat, (low - 1) as nat);
    }
}

/// Two runs of digits one behind the other are a run of digits, and the
/// other way round.
pub proof fn lemma_digits_joined(head: Seq<u8>, tail: Seq<u8>)
    ensures
        all_digits(head + tail) <==> all_digits(head) && all_digits(tail),
{
    let both = head + tail;
    if all_digits(both) {
        assert forall|k: int| 0 <= k < head.len() implies is_digit(#[trigger] head[k]) by {
            assert(both[k] == head[k]);
        }
        assert forall|k: int| 0 <= k < tail.len() implies is_digit(#[trigger] tail[k]) by {
            assert(both[k + head.len()] == tail[k]);
        }
    }
    if all_digits(head) && all_digits(tail) {
        assert forall|k: int| 0 <= k < both.len() implies is_digit(#[trigger] both[k]) by {
            if k < head.len() {
                assert(both[k] == head[k]);
            } else {
                assert(both[k] == tail[k - head.len()]);
            }
        }
    }
}

/// The number that a run of digits writes is the number that its first
/// `upto` digits write, times ten to the number of the others, and the
/// number that the others write.
pub proof fn lemma_decimal_split(digits: Seq<u8>, upto: int)
    requires
        0 <= upto <= digits.len(),
    ensures
        decimal(digits) == decimal(digits.take(upto)) * pow10((digits.len() - upto) as nat) + decimal(
            digits.skip(upto),
        ),
    decreases digits.len(),
{
    if upto == digits.len() {
        assert(digits.take(upto) =~= digits);
        assert(digits.skip(upto) =~= Seq::<u8>::empty());
        assert(decimal(digits) * 1 == decimal(digits));
    } else {
        let front = digits.drop_last();
        lemma_decimal_split(front, upto);
        assert(front.take(upto) =~= digits.take(upto));
        assert(front.skip(upto) =~= digits.skip(upto).drop_last());
        assert(digits.skip(upto).last() == digits.last());
        let head = decimal(digits.take(upto)) as int;
        let unit = pow10((front.len() - upto) as nat) as int;
        assert(pow10((digits.len() - upto) as nat) == 10 * unit);
        assert(10 * (head * unit) == head * (10 * unit)) by (nonlinear_arith);
    }
}

/// Far enough to the left a number of at least one is greater than 1, and
/// far enough to the right every number is less than one part.
pub proof fn lemma_parts_far(digits: Seq<u8>, shift: int)
    requires
        all_digits(digits),
    ensures
        shift >= 10 ==> parts_of(digits, shift) == if decimal(digits) == 0 {
            Some(0nat)
        } else {
            None
        },
        shift <= -digits.len() ==> parts_of(digits, shift) == Some(0nat),
{
    let value = decimal(digits) as int;
    lemma_pow10();
    if shift >= 10 {
        lemma_pow10_monotone(10, shift as nat);
        let unit = pow10(shift as nat) as int;
        if value == 0 {
            assert(value * unit == 0);
        } else {
            assert(value * unit >= unit) by (nonlinear_arith)
                requires
                    value >= 1,
                    unit >= 0,
            ;
        }
    }
    if shift <= -digits.len() {
        lemma_decimal_bound(digits);
        if shift < 0 {
            lemma_pow10_monotone(digits.len(), (-shift) as nat);
            let unit = pow10((-shift) as nat) as int;
            assert(PARTS * unit >= unit) by (nonlinear_arith)
                requires
                    unit >= 0,
            ;
            lemma_fundamental_div_mod_converse(value, unit, 0, value);
        } else {
            assert(value == 0);
            assert(value * pow10(0) == 0);
        }
    }
}

/// The place of the first point, counted from any place before it.
proof fn lemma_point_skip(text: Seq<u8>, upto: int)
    requires
        0 <= upto <= text.len(),
        forall|k: int| 0 <= k < upto ==> #[trigger] text[k] != POINT,
    ensures
        point_place(text) == upto + point_place(text.skip(upto)),
    decreases upto,
{
    if upto > 0 {
        lemma_point_skip(text.drop_first(), upto - 1);
        assert(text.drop_first().skip(upto - 1) =~= text.skip(upto));
    } else {
        assert(text.skip(0) =~= text);
    }
}

/// Whether the byte counts as a space.
pub fn is_blank(byte: u8) -> (blank: bool)
    ensures
        blank == is_space(byte),
{
    byte == SPACE || (TAB <= byte && byte <= RETURN)
}

/// Whether the two bytes write a white space character.
pub fn is_wide_blank(first: u8, second: u8) -> (blank: bool)
    ensures
        blank == is_wide_space(first, second),
{
    first == 194 && (second == 133 || second == 160)
}

/// Whether the three bytes write a white space character.
pub fn is_broad_blank(first: u8, second: u8, third: u8) -> (blank: bool)
    ensures
        blank == is_broad_space(first, second, third),
{
    (first == 225 && second == 154 && third == 128) || (first == 226 && second == 128 && ((128 <= third && third
        <= 138) || third == 168 || third == 169 || third == 175)) || (first == 226 && second == 129 && third == 159)
        || (first == 227 && second == 128 && third == 128)
}

/// The number of bytes that the white space character at the place `from`
/// takes, or 0 if none stands there.
pub fn space_at(text: &[u8], from: usize) -> (ahead: usize)
    requires
        from <= text@.len(),
    ensures
        ahead == space_ahead(text@.skip(from as int)),
        from + ahead <= text@.len(),
{
    let len: usize = text.len();
    let ghost rest = text@.skip(from as int);
    if from < len && is_blank(text[from]) {
        assert(rest[0] == text@[from as int]);
        return 1;
    }
    if len - from >= 2 {
        assert(rest[0] == text@[from as int] && rest[1] == text@[from + 1]);
        if is_wide_blank(text[from], text[from + 1]) {
            return 2;
        }
        if len - from >= 3 {
            assert(rest[2] == text@[from + 2]);
            if is_broad_blank(text[from], text[from + 1], text[from + 2]) {
                return 3;
            }
        }
    }
    0
}

/// The number of bytes that the white space character before the place
/// `end` takes, or 0 if none stands there; the text counts from `start`
/// on.
pub fn space_before(text: &[u8], start: usize, end: usize) -> (behind: usize)
    requires
        start <= end <= text@.len(),
    ensures
        behind == space_behind(text@.subrange(start as int, end as int)),
        start + behind <= end,
{
    let ghost part = text@.subrange(start as int, end as int);
    if end > start && is_blank(text[end - 1]) {
        assert(part[part.len() - 1] == text@[end - 1]);
        return 1;
    }
    if end - start >= 2 {
        assert(part[part.len() - 1] == text@[end - 1] && part[part.len() - 2] == text@[end - 2]);
        if is_wide_blank(text[end - 2], text[end - 1]) {
            return 2;
        }
        if end - start >= 3 {
            assert(part[part.len() - 3] == text@[end - 3]);
            if is_broad_blank(text[end - 3], text[end - 2], text[end - 1]) {
                return 3;
            }
        }
    }
    0
}

/// The field without the white space around it.
pub fn trim(field: &[u8]) -> (inner: &[u8])
    ensures
        inner@ == trimmed(field@),
{
    let len: usize = field.len();
    let mut start: usize = 0;
    let mut ahead: usize = space_at(field, start);
    proof {
        assert(field@.skip(0) =~= field@);
    }
    while ahead > 0
        invariant
            start + ahead <= field@.len() == len,
            ahead == space_ahead(field@.skip(start as int)),
            lead(field@) == start + lead(field@.skip(start as int)),
        decreases field@.len() - start,
    {
        proof {
            assert(field@.skip(start as int).skip(ahead as int) =~= field@.skip(start + ahead));
        }
        start = start + ahead;
        ahead = space_at(field, start);
    }
    let ghost rest = field@.skip(start as int);
    assert(lead(field@) == start);
    let mut end: usize = len;
    let mut behind: usize = space_before(field, start, end);
    proof {
        assert(field@.subrange(start as int, end as int) =~= rest);
        assert(rest.take(rest.len() as int) =~= rest);
    }
    while behind > 0
        invariant
            start + behind <= end <= field@.len(),
            rest == field@.skip(start as int),
            behind == space_behind(rest.take(end - start)),
            trail(rest) == field@.len() - end + trail(rest.take(end - start)),
        decreases end,
    {
        proof {
            assert(rest.take(end - start).take(end - start - behind) =~= rest.take(end - behind - start));
            assert(rest.take(end - behind - start) =~= field@.subrange(start as int, end - behind));
        }
        end = end - behind;
        behind = space_before(field, start, end);
    }
    proof {
        assert(trail(rest.take(end - start)) == 0);
        assert(rest.take(end - start) =~= field@.subrange(start as int, end as int));
    }
    slice_subrange(field, start, end)
}

/// The field without a plus sign at its start.
fn strip_sign(field: &[u8]) -> (body: &[u8])
    ensures
        body@ == unsigned(field@),
{
    if field.len() > 0 && field[0] == PLUS {
        assert(field@.drop_first() =~= field@.subrange(1, field@.len() as int));
        slice_subrange(field, 1, field.len())
    } else {
        field
    }
}

/// The whole number that a field writes, if it writes one.
pub fn parse_integer(field: &[u8]) -> (number: Option<usize>)
    ensures
        number == integer_of(field@),
{
    let digits = strip_sign(field);
    if digits.len() == 0 {
        return None;
    }
    let mut value: usize = 0;
    let mut idx: usize = 0;
    while idx < digits.len()
        invariant
            idx <= digits@.len(),
            digits@ == unsigned(field@),
            digits@.len() > 0,
            all_digits(digits@.take(idx as int)),
            value == decimal(digits@.take(idx as int)),
        decreases digits@.len() - idx,
    {
        let byte: u8 = digits[idx];
        proof {
            assert(digits@.take(idx + 1).drop_last() =~= digits@.take(idx as int));
        }
        if byte < ZERO || byte > NINE {
            assert(!is_digit(digits@[idx as int]));
            return None;
        }
        let digit: usize = (byte - ZERO) as usize;
        if value > (usize::MAX - digit) / 10 {
            proof {
                if all_digits(digits@) {
                    lemma_decimal_grows(digits@, idx + 1);
                    assert(decimal(digits@.take(idx + 1)) == 10 * value + digit);
                }
            }
            return None;
        }
        value = 10 * value + digit;
        assert(all_digits(digits@.take(idx + 1))) by {
            assert forall|k: int| 0 <= k < idx + 1 implies is_digit(#[trigger] digits@.take(idx + 1)[k]) by {
                if k < idx {
                    assert(is_digit(digits@.take(idx as int)[k]));
                }
            }
        }
        idx = idx + 1;
    }
    assert(digits@.take(idx as int) =~= digits@);
    Some(value)
}

/// The field without a plus or minus sign at its start.
fn strip_any_sign(field: &[u8]) -> (body: &[u8])
    ensures
        body@ == signless(field@),
{
    if field.len() > 0 && (field[0] == PLUS || field[0] == MINUS) {
        assert(field@.drop_first() =~= field@.subrange(1, field@.len() as int));
        slice_subrange(field, 1, field.len())
    } else {
        field
    }
}

/// The place of the first letter `e`, counted from any place before it.
proof fn lemma_mark_skip(text: Seq<u8>, upto: int)
    requires
        0 <= upto <= text.len(),
        forall|k: int| 0 <= k < upto ==> !is_mark(#[trigger] text[k]),
    ensures
        mark_place(text) == upto + mark_place(text.skip(upto)),
    decreases upto,
{
    if upto > 0 {
        lemma_mark_skip(text.drop_first(), upto - 1);
        assert(text.drop_first().skip(upto - 1) =~= text.skip(upto));
    } else {
        assert(text.skip(0) =~= text);
    }
}

/// Adds the bytes of `text` to `digits` if all of them are digits, and
/// says whether they are.
fn gather(digits: &mut Vec<u8>, text: &[u8]) -> (done: bool)
    ensures
        done == all_digits(text@),
        done ==> final(digits)@ == old(digits)@ + text@,
{
    let mut idx: usize = 0;
    while idx < text.len()
        invariant
            idx <= text@.len(),
            all_digits(text@.take(idx as int)),
            digits@ == old(digits)@ + text@.take(idx as int),
        decreases text@.len() - idx,
    {
        let byte: u8 = text[idx];
        if byte < ZERO || byte > NINE {
            assert(!is_digit(text@[idx as int]));
            return false;
        }
        digits.push(byte);
        proof {
            let seen = text@.take(idx as int);
            let now = text@.take(idx + 1);
            assert(now =~= seen.push(byte));
            assert(digits@ =~= old(digits)@ + now);
            assert forall|k: int| 0 <= k < now.len() implies is_digit(#[trigger] now[k]) by {
                if k < idx {
                    assert(is_digit(seen[k]));
                }
            }
        }
        idx = idx + 1;
    }
    assert(text@.take(idx as int) =~= text@);
    true
}

/// The digits of a decimal, those before the point and then those behind
/// it, and the number of those behind it.
pub fn parse_digits(number: &[u8]) -> (parsed: Option<(Vec<u8>, usize)>)
    ensures
        match parsed {
            Some((digits, behind)) => digits_of(number@) == Some(digits@) && behind == fraction_part(
                number@,
            ).len(),
            None => digits_of(number@) is None,
        },
{
    let mut point: usize = 0;
    while point < number.len() && number[point] != POINT
        invariant
            point <= number@.len(),
            forall|k: int| 0 <= k < point ==> #[trigger] number@[k] != POINT,
        decreases number@.len() - point,
    {
        point = point + 1;
    }
    proof {
        lemma_point_skip(number@, point as int);
        let rest = number@.skip(point as int);
        assert(point_place(rest) == 0) by {
            if rest.len() > 0 {
                assert(rest[0] == number@[point as int]);
            }
        }
        assert(number@.take(point as int) =~= number@.subrange(0, point as int));
        if point < number@.len() {
            assert(number@.skip(point + 1) =~= number@.subrange(point + 1, number@.len() as int));
        }
    }
    let whole = slice_subrange(number, 0, point);
    let fraction = if point < number.len() {
        slice_subrange(number, point + 1, number.len())
    } else {
        slice_subrange(number, point, point)
    };
    assert(whole@ == whole_part(number@));
    assert(fraction@ =~= fraction_part(number@));
    proof {
        lemma_digits_joined(whole@, fraction@);
    }
    let mut digits: Vec<u8> = Vec::new();
    if !gather(&mut digits, whole) {
        return None;
    }
    if !gather(&mut digits, fraction) {
        return None;
    }
    assert(digits@ =~= whole@ + fraction@);
    if digits.len() == 0 {
        return None;
    }
    Some((digits, fraction.len()))
}

/// The exponent that a text writes, if it writes one. One that is `FAR`
/// from zero or farther is given as `FAR` from zero.
pub fn parse_exponent(text: &[u8]) -> (power: Option<i128>)
    ensures
        power is Some <==> exponent_of(text@) is Some,
        power is Some ==> -FAR <= power->0 <= FAR,
        power is Some && -FAR < exponent_of(text@)->0 < FAR ==> power->0 == exponent_of(text@)->0,
        power is Some && exponent_of(text@)->0 >= FAR ==> power->0 == FAR,
        power is Some && exponent_of(text@)->0 <= -FAR ==> power->0 == -FAR,
{
    let below: bool = text.len() > 0 && text[0] == MINUS;
    let digits = strip_any_sign(text);
    if digits.len() == 0 {
        return None;
    }
    let mut size: i128 = 0;
    let mut idx: usize = 0;
    while idx < digits.len()
        invariant
            idx <= digits@.len(),
            digits@ == signless(text@),
            digits@.len() > 0,
            all_digits(digits@.take(idx as int)),
            0 <= size <= FAR,
            size < FAR ==> size == decimal(digits@.take(idx as int)),
            size == FAR ==> decimal(digits@.take(idx as int)) >= FAR,
        decreases digits@.len() - idx,
    {
        let byte: u8 = digits[idx];
        proof {
            assert(digits@.take(idx + 1).drop_last() =~= digits@.take(idx as int));
        }
        if byte < ZERO || byte > NINE {
            assert(!is_digit(digits@[idx as int]));
            return None;
        }
        if size < FAR {
            let next: i128 = 10 * size + (byte - ZERO) as i128;
            size = if next < FAR {
                next
            } else {
                FAR
            };
        }
        assert(all_digits(digits@.take(idx + 1))) by {
            assert forall|k: int| 0 <= k < idx + 1 implies is_digit(#[trigger] digits@.take(idx + 1)[k]) by {
                if k < idx {
                    assert(is_digit(digits@.take(idx as int)[k]));
                }
            }
        }
        idx = idx + 1;
    }
    assert(digits@.take(idx as int) =~= digits@);
    if below {
        Some(-size)
    } else {
        Some(size)
    }
}

/// The number that the first `upto` digits write, where it is no more than
/// a thousand million.
fn leading(digits: &[u8], upto: usize) -> (value: Option<u32>)
    requires
        all_digits(digits@),
        upto <= digits@.len(),
    ensures
        value is Some <==> decimal(digits@.take(upto as int)) <= PARTS,
        value is Some ==> value->0 == decimal(digits@.take(upto as int)),
{
    let ghost head = digits@.take(upto as int);
    let mut value: u32 = 0;
    let mut idx: usize = 0;
    assert(all_digits(head)) by {
        assert forall|k: int| 0 <= k < head.len() implies is_digit(#[trigger] head[k]) by {
            assert(is_digit(digits@[k]));
        }
    }
    while idx < upto
        invariant
            idx <= upto <= digits@.len(),
            head == digits@.take(upto as int),
            all_digits(head),
            value == decimal(head.take(idx as int)),
            value <= PARTS,
        decreases upto - idx,
    {
        let byte: u8 = digits[idx];
        proof {
            assert(head.take(idx + 1).drop_last() =~= head.take(idx as int));
            assert(head.take(idx + 1).last() == digits@[idx as int]);
            assert(is_digit(head[idx as int]));
        }
        let next: u64 = 10 * (value as u64) + (byte - ZERO) as u64;
        if next > PARTS as u64 {
            proof {
                lemma_decimal_grows(head, idx + 1);
            }
            return None;
        }
        value = next as u32;
        idx = idx + 1;
    }
    assert(head.take(idx as int) =~= head);
    Some(value)
}

/// Whether one of the digits from the place `from` on is not `0`.
fn trails(digits: &[u8], from: usize) -> (some: bool)
    requires
        all_digits(digits@),
        from <= digits@.len(),
    ensures
        some == (decimal(digits@.skip(from as int)) > 0),
{
    let ghost tail = digits@.skip(from as int);
    let mut some: bool = false;
    let mut idx: usize = from;
    while idx < digits.len()
        invariant
            from <= idx <= digits@.len(),
            all_digits(digits@),
            tail == digits@.skip(from as int),
            some == (decimal(tail.take(idx - from)) > 0),
        decreases digits@.len() - idx,
    {
        proof {
            assert(tail.take(idx + 1 - from).drop_last() =~= tail.take(idx - from));
            assert(tail.take(idx + 1 - from).last() == digits@[idx as int]);
            assert(is_digit(digits@[idx as int]));
        }
        if digits[idx] != ZERO {
            some = true;
        }
        idx = idx + 1;
    }
    assert(tail.take(idx - from) =~= tail);
    some
}

/// The whole number of parts in a thousand million that the number written
/// by `digits`, times ten to the power `shift - 9`, comes to, where that
/// number is no greater than 1.
fn parts(digits: &[u8], shift: i128) -> (parts: Option<u32>)
    requires
        all_digits(digits@),
    ensures
        parts is Some <==> parts_of(digits@, shift as int) is Some,
        parts is Some ==> parts->0 == parts_of(digits@, shift as int)->0,
{
    let count: usize = digits.len();
    let ghost value = decimal(digits@) as int;
    proof {
        lemma_pow10();
        assert(digits@.take(count as int) =~= digits@);
    }
    if shift >= 0 {
        let whole: u32 = match leading(digits, count) {
            Some(whole) => whole,
            None => {
                proof {
                    let unit = pow10(shift as nat) as int;
                    lemma_pow10_monotone(0, shift as nat);
                    assert(value * unit >= value) by (nonlinear_arith)
                        requires
                            value >= 0,
                            unit >= 1,
                    ;
                }
                return None;
            },
        };
        if whole == 0 {
            assert(value * pow10(shift as nat) == 0) by (nonlinear_arith)
                requires
                    value == 0,
            ;
            return Some(0);
        }
        let mut scaled: u64 = whole as u64;
        let mut done: i128 = 0;
        assert(value * pow10(0) == value);
        while done < shift
            invariant
                0 <= done <= shift,
                value == decimal(digits@),
                value >= 1,
                scaled == value * pow10(done as nat),
                scaled <= PARTS,
            decreases shift - done,
        {
            let ghost unit = pow10(done as nat) as int;
            proof {
                assert(pow10((done + 1) as nat) == 10 * unit);
                assert(value * (10 * unit) == 10 * (value * unit)) by (nonlinear_arith);
            }
            scaled = 10 * scaled;
            if scaled > PARTS as u64 {
                proof {
                    let now = pow10((done + 1) as nat) as int;
                    let last = pow10(shift as nat) as int;
                    lemma_pow10_monotone((done + 1) as nat, shift as nat);
                    assert(value * now <= value * last) by (nonlinear_arith)
                        requires
                            value >= 0,
                            now <= last,
                    ;
                }
                return None;
            }
            done = done + 1;
        }
        Some(scaled as u32)
    } else if shift <= -(count as i128) {
        proof {
            lemma_parts_far(digits@, shift as int);
        }
        Some(0)
    } else {
        let dropped: usize = (-shift) as usize;
        let kept: usize = count - dropped;
        let ghost unit = pow10(dropped as nat) as int;
        let ghost head = decimal(digits@.take(kept as int)) as int;
        let ghost tail = decimal(digits@.skip(kept as int)) as int;
        proof {
            lemma_decimal_split(digits@, kept as int);
            let rest = digits@.skip(kept as int);
            assert(all_digits(rest)) by {
                assert forall|k: int| 0 <= k < rest.len() implies is_digit(#[trigger] rest[k]) by {
                    assert(is_digit(digits@[k + kept]));
                }
            }
            lemma_decimal_bound(rest);
            lemma_pow10_monotone(0, dropped as nat);
            assert(value == head * unit + tail);
            assert(0 <= tail < unit);
            lemma_fundamental_div_mod_converse(value, unit, head, tail);
            if head > PARTS {
                assert(head * unit >= (PARTS + 1) * unit) by (nonlinear_arith)
                    requires
                        head >= PARTS + 1,
                        unit >= 0,
                ;
                assert((PARTS + 1) * unit == PARTS * unit + unit) by (nonlinear_arith);
            }
            if head < PARTS {
                assert((head + 1) * unit <= PARTS * unit) by (nonlinear_arith)
                    requires
                        head + 1 <= PARTS,
                        unit >= 0,
                ;
                assert((head + 1) * unit == head * unit + unit) by (nonlinear_arith);
            }
        }
        match leading(digits, kept) {
            None => None,
            Some(whole) => {
                if whole == PARTS && trails(digits, kept) {
                    None
                } else {
                    Some(whole)
                }
            },
        }
    }
}

/// The probability that a field writes, if it writes one.
pub fn parse_probability(field: &[u8]) -> (probability: Option<Probability>)
    ensures
        probability == probability_of(field@),
{
    let below: bool = field.len() > 0 && field[0] == MINUS;
    let body = strip_any_sign(field);
    let mut cut: usize = 0;
    while cut < body.len() && body[cut] != SMALL_E && body[cut] != CAPITAL_E
        invariant
            cut <= body@.len(),
            forall|k: int| 0 <= k < cut ==> !is_mark(#[trigger] body@[k]),
        decreases body@.len() - cut,
    {
        cut = cut + 1;
    }
    proof {
        lemma_mark_skip(body@, cut as int);
        let rest = body@.skip(cut as int);
        assert(mark_place(rest) == 0) by {
            if rest.len() > 0 {
                assert(rest[0] == body@[cut as int]);
            }
        }
        assert(body@.take(cut as int) =~= body@.subrange(0, cut as int));
        if cut < body@.len() {
            assert(body@.skip(cut + 1) =~= body@.subrange(cut + 1, body@.len() as int));
        }
    }
    let number = slice_subrange(body, 0, cut);
    let (digits, behind) = match parse_digits(number) {
        Some(parsed) => parsed,
        None => {
            return None;
        },
    };
    let power: i128 = if cut < body.len() {
        match parse_exponent(slice_subrange(body, cut + 1, body.len())) {
            Some(power) => power,
            None => {
                return None;
            },
        }
    } else {
        0
    };
    let shift: i128 = power - behind as i128 + 9;
    let count: usize = digits.len();
    proof {
        let exact = power_of(body@)->0 - behind + 9;
        assert(number@ == body@.take(mark_place(body@) as int));
        assert(digits_of(number@) == Some(digits@));
        assert(behind == fraction_part(number@).len());
        if cut < body@.len() {
            let written = exponent_of(body@.skip(cut + 1))->0;
            assert(power_of(body@) == Some(written));
            assert(count == digits@.len() && count <= usize::MAX && behind <= usize::MAX);
            if written >= FAR {
                assert(power == FAR);
                assert(shift >= 10 && exact >= 10);
            } else if written <= -FAR {
                assert(power == -FAR);
                assert(shift <= -digits@.len() && exact <= -digits@.len());
            } else {
                assert(power == written);
                assert(shift == exact);
            }
        } else {
            assert(power_of(body@) == Some(0int));
            assert(shift == exact);
        }
        lemma_parts_far(digits@, exact);
        lemma_parts_far(digits@, shift as int);
        assert(parts_of(digits@, shift as int) == parts_of(digits@, exact));
        assert(digits@.skip(0) =~= digits@);
    }
    if below && trails(digits.as_slice(), 0) {
        return None;
    }
    match parts(digits.as_slice(), shift) {
        Some(parts) => Some(Probability { numerator: parts, denominator: PARTS }),
        None => None,
    }
}

/// The place at which stretch `k` ends: before the mark that the next one
/// starts behind, or at the end of the text for the last one.
pub open spec fn stretch_end(starts: Seq<usize>, k: int, len: int) -> int {
    if k + 1 < starts.len() {
        starts[k + 1] - 1
    } else {
        len
    }
}

/// `starts` holds the places at which the stretches of the first `upto`
/// bytes of `text` between the bytes `mark` start.
pub open spec fn cuts(text: Seq<u8>, mark: u8, starts: Seq<usize>, upto: int) -> bool {
    &&& starts.len() == split(text.take(upto), mark).len()
    &&& forall|k: int|
        0 <= k < starts.len() ==> 0 <= #[trigger] starts[k] <= stretch_end(starts, k, upto) <= upto
    &&& forall|k: int|
        0 <= k < starts.len() ==> #[trigger] split(text.take(upto), mark)[k] == text.subrange(
            starts[k] as int,
            stretch_end(starts, k, upto),
        )
}

/// A split has at least one stretch.
pub proof fn lemma_split_nonempty(text: Seq<u8>, mark: u8)
    ensures
        split(text, mark).len() >= 1,
    decreases text.len(),
{
    if text.len() > 0 {
        lemma_split_nonempty(text.drop_last(), mark);
    }
}

/// The cuts of a text that is one byte longer.
proof fn lemma_cuts_step(text: Seq<u8>, mark: u8, before: Seq<usize>, upto: int)
    requires
        0 <= upto < text.len(),
        cuts(text, mark, before, upto),
        upto + 1 <= usize::MAX,
    ensures
        text[upto] == mark ==> cuts(text, mark, before.push((upto + 1) as usize), upto + 1),
        text[upto] != mark ==> cuts(text, mark, before, upto + 1),
{
    let seen = split(text.take(upto), mark);
    let now = split(text.take(upto + 1), mark);
    lemma_split_nonempty(text.take(upto), mark);
    assert(text.take(upto + 1).drop_last() =~= text.take(upto));
    if text[upto] == mark {
        let after = before.push((upto + 1) as usize);
        assert(now == seen.push(Seq::empty()));
        assert forall|k: int| 0 <= k < after.len() implies #[trigger] now[k] == text.subrange(
            after[k] as int,
            stretch_end(after, k, upto + 1),
        ) by {
            if k < before.len() {
                assert(seen[k] == text.subrange(before[k] as int, stretch_end(before, k, upto)));
            } else {
                assert(text.subrange(upto + 1, upto + 1) =~= Seq::<u8>::empty());
            }
        }
        assert forall|k: int| 0 <= k < after.len() implies 0 <= #[trigger] after[k] <= stretch_end(
            after,
            k,
            upto + 1,
        ) <= upto + 1 by {
            if k < before.len() {
                assert(before[k] <= stretch_end(before, k, upto));
            }
        }
    } else {
        let last = before.len() - 1;
        assert(now == seen.drop_last().push(seen.last().push(text[upto])));
        assert forall|k: int| 0 <= k < before.len() implies #[trigger] now[k] == text.subrange(
            before[k] as int,
            stretch_end(before, k, upto + 1),
        ) by {
            assert(seen[k] == text.subrange(before[k] as int, stretch_end(before, k, upto)));
            assert(before[k] <= stretch_end(before, k, upto));
            if k == last {
                assert(text.subrange(before[k] as int, upto + 1) =~= text.subrange(before[k] as int, upto).push(
                    text[upto],
                ));
            }
        }
        assert forall|k: int| 0 <= k < before.len() implies 0 <= #[trigger] before[k] <= stretch_end(
            before,
            k,
            upto + 1,
        ) <= upto + 1 by {
            assert(before[k] <= stretch_end(before, k, upto));
        }
    }
}

/// The places at which the stretches between the bytes `mark` start: place
/// 0, and the place behind each such byte.
pub fn field_starts(text: &[u8], mark: u8) -> (starts: Vec<usize>)
    ensures
        cuts(text@, mark, starts@, text@.len() as int),
        starts@.len() == split(text@, mark).len(),
{
    let mut starts: Vec<usize> = Vec::new();
    starts.push(0);
    let mut idx: usize = 0;
    proof {
        assert(text@.take(0) =~= Seq::<u8>::empty());
        assert(text@.subrange(0, 0) =~= Seq::<u8>::empty());
    }
    while idx < text.len()
        invariant
            idx <= text@.len(),
            cuts(text@, mark, starts@, idx as int),
        decreases text@.len() - idx,
    {
        proof {
            lemma_cuts_step(text@, mark, starts@, idx as int);
        }
        if text[idx] == mark {
            starts.push(idx + 1);
        }
        idx = idx + 1;
    }
    assert(text@.take(idx as int) =~= text@);
    starts
}

/// The stretch with the number `k` of a text that was cut at `starts`.
fn stretch<'a>(text: &'a [u8], starts: &Vec<usize>, k: usize, mark: Ghost<u8>) -> (found: &'a [u8])
    requires
        cuts(text@, mark@, starts@, text@.len() as int),
        k < starts@.len(),
    ensures
        found@ == split(text@, mark@)[k as int],
{
    assert(text@.take(text@.len() as int) =~= text@);
    assert(starts@[k as int] <= stretch_end(starts@, k as int, text@.len() as int) <= text@.len());
    let count: usize = starts.len();
    let end: usize = if k + 1 < count {
        starts[k + 1] - 1
    } else {
        text.len()
    };
    slice_subrange(text, starts[k], end)
}

/// Reads a specification: six fields with commas between them and any
/// spaces around them, four whole numbers and then two probabilities.
pub fn parse_specs(
    contents: &str,
) -> (specs: Result<(usize, usize, usize, usize, Probability, Probability), SpecsError>)
    ensures
        specs == specs_of(contents.spec_bytes()),
{
    let text = contents.as_bytes();
    let starts = field_starts(text, COMMA);
    if starts.len() != 6 {
        return Err(SpecsError::FieldCount);
    }
    let debug_level: usize = match parse_integer(trim(stretch(text, &starts, 0, Ghost(COMMA)))) {
        Some(number) => number,
        None => {
            return Err(SpecsError::Integer(0));
        },
    };
    let skip: usize = match parse_integer(trim(stretch(text, &starts, 1, Ghost(COMMA)))) {
        Some(number) => number,
        None => {
            return Err(SpecsError::Integer(1));
        },
    };
    let iterations: usize = match parse_integer(trim(stretch(text, &starts, 2, Ghost(COMMA)))) {
        Some(number) => number,
        None => {
            return Err(SpecsError::Integer(2));
        },
    };
    let population_size: usize = match parse_integer(trim(stretch(text, &starts, 3, Ghost(COMMA)))) {
        Some(number) => number,
        None => {
            return Err(SpecsError::Integer(3));
        },
    };
    let crossover_probability = match parse_probability(trim(stretch(text, &starts, 4, Ghost(COMMA)))) {
        Some(probability) => probability,
        None => {
            return Err(SpecsError::Probability(4));
        },
    };
    let mutation_probability = match parse_probability(trim(stretch(text, &starts, 5, Ghost(COMMA)))) {
        Some(probability) => probability,
        None => {
            return Err(SpecsError::Probability(5));
        },
    };
    Ok((debug_level, skip, iterations, population_size, crossover_probability, mutation_probability))
}

/// Why a set of points could not be read.
#[derive(Clone, Copy, Debug, PartialEq, Eq, Structural)]
pub enum DataError {
    /// The line at this place, counted from 0, has fewer than two fields.
    Fields(usize),
    /// One of the first two fields of the line at this place, counted from
    /// 0, writes no number.
    Number(usize),
}

/// The lines of a text: the stretches between its newlines, without the
/// last one if that is empty.
pub open spec fn lines_of(text: Seq<u8>) -> Seq<Seq<u8>> {
    let pieces = split(text, NEWLINE);
    if pieces.last().len() == 0 {
        pieces.drop_last()
    } else {
        pieces
    }
}

/// The line has two fields or more.
pub open spec fn has_point(line: Seq<u8>) -> bool {
    split(line, COMMA).len() >= 2
}

/// The text of the `x` of a line: its first field, without the spaces
/// around it.
pub open spec fn x_text(line: Seq<u8>) -> Seq<u8> {
    trimmed(split(line, COMMA)[0])
}

/// The text of the `y` of a line: its second field, without the spaces
/// around it.
pub open spec fn y_text(line: Seq<u8>) -> Seq<u8> {
    trimmed(split(line, COMMA)[1])
}

/// `point` is what `numerics` reads from the first two fields of the line.
pub open spec fn point_of<T: Copy, N: Numerics<T>>(line: Seq<u8>, point: Point<T>, numerics: &N) -> bool {
    &&& has_point(line)
    &&& read(numerics, x_text(line), Some(point.x))
    &&& read(numerics, y_text(line), Some(point.y))
}

/// `points` are what `numerics` reads from the first `upto` lines of the
/// text.
pub open spec fn points_upto<T: Copy, N: Numerics<T>>(
    text: Seq<u8>,
    points: Seq<Point<T>>,
    numerics: &N,
    upto: int,
) -> bool {
    forall|k: int| 0 <= k < upto ==> point_of(#[trigger] lines_of(text)[k], points[k], numerics)
}

/// The first two fields of a line, without the spaces around them, where
/// the line has two fields.
pub fn point_fields(line: &[u8]) -> (fields: Option<(&[u8], &[u8])>)
    ensures
        fields is Some <==> has_point(line@),
        match fields {
            Some((x, y)) => x@ == x_text(line@) && y@ == y_text(line@),
            None => true,
        },
{
    let starts = field_starts(line, COMMA);
    if starts.len() < 2 {
        return None;
    }
    let x = trim(stretch(line, &starts, 0, Ghost(COMMA)));
    let y = trim(stretch(line, &starts, 1, Ghost(COMMA)));
    Some((x, y))
}

/// Reads a set of points, one to a line: the first two fields of each line
/// are its `x` and its `y`. The error names the first line that has fewer
/// than two fields or a field from which `numerics` reads no number.
pub fn string_to_points<T: Copy, N: Numerics<T>>(
    contents: &str,
    numerics: &N,
) -> (points: Result<Vec<Point<T>>, DataError>)
    ensures
        match points {
            Ok(points) => {
                &&& points@.len() == lines_of(contents.spec_bytes()).len()
                &&& points_upto(contents.spec_bytes(), points@, numerics, points@.len() as int)
            },
            Err(DataError::Fields(line)) => {
                &&& line < lines_of(contents.spec_bytes()).len()
                &&& !has_point(lines_of(contents.spec_bytes())[line as int])
                &&& exists|before: Seq<Point<T>>| #[trigger]
                    points_upto(contents.spec_bytes(), before, numerics, line as int)
            },
            Err(DataError::Number(line)) => {
                &&& line < lines_of(contents.spec_bytes()).len()
                &&& has_point(lines_of(contents.spec_bytes())[line as int])
                &&& read(numerics, x_text(lines_of(contents.spec_bytes())[line as int]), None::<T>) || read(
                    numerics,
                    y_text(lines_of(contents.spec_bytes())[line as int]),
                    None::<T>,
                )
                &&& exists|before: Seq<Point<T>>| #[trigger]
                    points_upto(contents.spec_bytes(), before, numerics, line as int)
            },
        },
{
    let text = contents.as_bytes();
    let starts = field_starts(text, NEWLINE);
    let last: usize = starts.len() - 1;
    let count: usize = if stretch(text, &starts, last, Ghost(NEWLINE)).len() == 0 {
        last
    } else {
        starts.len()
    };
    let mut points: Vec<Point<T>> = Vec::new();
    let mut idx: usize = 0;
    while idx < count
        invariant
            idx <= count <= starts@.len(),
            count == lines_of(text@).len(),
            text@ == contents.spec_bytes(),
            cuts(text@, NEWLINE, starts@, text@.len() as int),
            points@.len() == idx,
            points_upto(text@, points@, numerics, idx as int),
        decreases count - idx,
    {
        let ghost read_so_far = points@;
        let line = stretch(text, &starts, idx, Ghost(NEWLINE));
        assert(line@ == lines_of(text@)[idx as int]);
        match point_fields(line) {
            None => {
                return Err(DataError::Fields(idx));
            },
            Some((first, second)) => {
                let x = match numerics.parse(first) {
                    Some(number) => number,
                    None => {
                        assert(read(numerics, x_text(line@), None::<T>));
                        return Err(DataError::Number(idx));
                    },
                };
                let y = match numerics.parse(second) {
                    Some(number) => number,
                    None => {
                        assert(read(numerics, y_text(line@), None::<T>));
                        return Err(DataError::Number(idx));
                    },
                };
                assert(read(numerics, x_text(line@), Some(x)));
                assert(read(numerics, y_text(line@), Some(y)));
                points.push(Point::new(x, y));
                proof {
                    assert forall|k: int| 0 <= k < idx + 1 implies point_of(
                        #[trigger] lines_of(text@)[k],
                        points@[k],
                        numerics,
                    ) by {
                        if k < idx {
                            assert(point_of(lines_of(text@)[k], read_so_far[k], numerics));
                        }
                    }
                }
            },
        }
        idx = idx + 1;
    }
    Ok(points)
}

} // verus!
