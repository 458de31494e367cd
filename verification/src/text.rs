//! Decimal numbers as text.
//!
//! A number is written as an optional minus sign, its whole part, a point
//! and six fractional digits: `165000.000000`, `-0.000001`. It is read from
//! an optional minus sign, one or more digits and, optionally, a point
//! followed by one to six digits: `4.3`, `165000`, `-0.5`. Text is a
//! sequence of ASCII bytes.
use vstd::prelude::*;
use crate::decimal::{representable, Decimal};

verus! {

/// The byte of the minus sign.
pub const MINUS: u8 = 45;

/// The byte of the decimal point.
pub const POINT: u8 = 46;

/// The byte of the digit zero.
pub const ZERO: u8 = 48;

/// The largest whole part that a `Decimal` can have.
pub const WHOLE_MAX: u64 = 9_223_372_036_854;

/// Whether a byte is a decimal digit.
pub open spec fn is_digit(byte: u8) -> bool {
    48 <= byte <= 57
}

/// The byte of the digit `digit`, for a digit from zero to nine.
pub open spec fn digit_byte(digit: int) -> u8 {
    (48 + digit) as u8
}

/// The digits of `number`, the first of them not zero unless the number is.
pub open spec fn digits_of(number: nat) -> Seq<u8>
    decreases number,
{
    if number < 10 {
        seq![digit_byte(number as int)]
    } else {
        digits_of(number / 10).push(digit_byte((number % 10) as int))
    }
}

/// The last `width` digits of `number`, with zeros in front where it has
/// fewer.
pub open spec fn padded_digits(number: nat, width: nat) -> Seq<u8>
    decreases width,
{
    if width == 0 {
        Seq::empty()
    } else {
        padded_digits(number / 10, (width - 1) as nat).push(digit_byte((number % 10) as int))
    }
}

/// The size of a count of millionths.
pub open spec fn magnitude(micros: int) -> nat {
    if micros < 0 {
        (-micros) as nat
    } else {
        micros as nat
    }
}

/// The text of a count of millionths.
pub open spec fn decimal_text(micros: int) -> Seq<u8> {
    let sign = if micros < 0 {
        seq![45u8]
    } else {
        Seq::<u8>::empty()
    };
    sign + digits_of(magnitude(micros) / 1_000_000) + seq![46u8] + padded_digits(
        magnitude(micros) % 1_000_000,
        6,
    )
}

/// The number that a run of digits stands for.
pub open spec fn digits_value(digits: Seq<u8>) -> nat
    decreases digits.len(),
{
    if digits.len() == 0 {
        0
    } else {
        (digits_value(digits.drop_last()) * 10 + (digits.last() - 48)) as nat
    }
}

/// Where the run of digits that begins at `from` ends: the place of the
/// first byte at or after `from` that is no digit, or the length of the
/// text.
pub open spec fn digits_end(text: Seq<u8>, from: int) -> int
    decreases text.len() - from,
{
    if 0 <= from < text.len() && is_digit(text[from]) {
        digits_end(text, from + 1)
    } else {
        from
    }
}

/// Ten to the power of `exponent`.
pub open spec fn power_of_ten(exponent: nat) -> nat
    decreases exponent,
{
    if exponent == 0 {
        1
    } else {
        10 * power_of_ten((exponent - 1) as nat)
    }
}

/// A size with its sign.
pub open spec fn signed(negative: bool, size: nat) -> int {
    if negative {
        -(size as int)
    } else {
        size as int
    }
}

/// The count of millionths that a text stands for, or `None` where the text
/// is no number: where it has no digit before the point, a point without a
/// digit after it, more than six digits after the point, or any byte that is
/// not part of a number.
pub open spec fn text_value(text: Seq<u8>) -> Option<int> {
    let negative = text.len() > 0 && text[0] == 45;
    let start: int = if negative {
        1
    } else {
        0
    };
    let point = digits_end(text, start);
    let whole = digits_value(text.subrange(start, point));
    if point == start {
        None
    } else if point == text.len() {
        Some(signed(negative, whole * 1_000_000))
    } else {
        let end = digits_end(text, point + 1);
        let places = end - (point + 1);
        let fraction = digits_value(text.subrange(point + 1, end));
        if text[point] != 46 || end != text.len() || places < 1 || places > 6 {
            None
        } else {
            Some(signed(negative, whole * 1_000_000 + fraction * power_of_ten((6 - places) as nat)))
        }
    }
}

/// The decimal that a text stands for, or `None` where the text is no
/// number or its number cannot be held.
pub open spec fn text_decimal(text: Seq<u8>) -> Option<Decimal> {
    match text_value(text) {
        Some(micros) => if representable(micros) {
            Some(Decimal { micros: micros as i64 })
        } else {
            None
        },
        None => None,
    }
}

/// Appends the digits of `number`.
fn push_digits(text: &mut Vec<u8>, number: u64)
    ensures
        final(text)@ == old(text)@ + digits_of(number as nat),
    decreases number,
{
    if number >= 10 {
        push_digits(text, number / 10);
    }
    text.push(ZERO + (number % 10) as u8);
    assert(text@ =~= old(text)@ + digits_of(number as nat));
}

/// Appends the last `width` digits of `number`.
fn push_padded_digits(text: &mut Vec<u8>, number: u64, width: u8)
    ensures
        final(text)@ == old(text)@ + padded_digits(number as nat, width as nat),
    decreases width,
{
    if width > 0 {
        push_padded_digits(text, number / 10, width - 1);
        text.push(ZERO + (number % 10) as u8);
    }
    assert(text@ =~= old(text)@ + padded_digits(number as nat, width as nat));
}

impl Decimal {
    /// This number as text: a minus sign where it is below zero, the whole
    /// part, a point and six digits.
    pub fn to_text(&self) -> (text: Vec<u8>)
        ensures
            text@ == decimal_text(self@),
    {
        let mut text: Vec<u8> = Vec::new();
        let size: u64 = if self.micros < 0 {
            text.push(MINUS);
            (-(self.micros as i128)) as u64
        } else {
            self.micros as u64
        };
        push_digits(&mut text, size / 1_000_000);
        text.push(POINT);
        push_padded_digits(&mut text, size % 1_000_000, 6);
        assert(text@ =~= decimal_text(self@));
        text
    }

    /// The number that a text stands for, or `None` where the text is no
    /// number or its number cannot be held.
    pub fn from_text(text: &[u8]) -> (number: Option<Decimal>)
        ensures
            number == text_decimal(text@),
    {
        let length: usize = text.len();
        let negative: bool = length > 0 && text[0] == MINUS;
        let start: usize = if negative {
            1
        } else {
            0
        };
        let (point, whole) = read_digits(text, start);
        if point == start {
            return None;
        }
        if point == length {
            return match whole {
                Some(whole) => signed_decimal(negative, (whole as u128) * 1_000_000),
                None => None,
            };
        }
        if text[point] != POINT {
            return None;
        }
        let (end, fraction) = read_digits(text, point + 1);
        let places: usize = end - (point + 1);
        if end != length || places < 1 || places > 6 {
            return None;
        }
        proof {
            lemma_digits_value_bound(text@.subrange(point + 1, end as int));
            lemma_powers_of_ten();
        }
        let scale: u64 = ten_to((6 - places) as u8);
        match (whole, fraction) {
            (Some(whole), Some(fraction)) => {
                assert(fraction * scale <= 1_000_000_000_000_000_000_000) by (nonlinear_arith)
                    requires
                        fraction <= 1_000_000_000_000_000,
                        scale <= 1_000_000,
                ;
                signed_decimal(
                    negative,
                    (whole as u128) * 1_000_000 + (fraction as u128) * (scale as u128),
                )
            },
            _ => {
                assert(whole.is_none());
                None
            },
        }
    }
}

/// The digits of a number are digits, at least one, and stand for the
/// number.
pub proof fn lemma_digits_of(number: nat)
    ensures
        digits_of(number).len() >= 1,
        forall|k: int| 0 <= k < digits_of(number).len() ==> is_digit(#[trigger] digits_of(number)[k]),
        digits_value(digits_of(number)) == number,
    decreases number,
{
    let digits = digits_of(number);
    if number >= 10 {
        lemma_digits_of(number / 10);
        assert(digits.drop_last() =~= digits_of(number / 10));
        assert(digits.last() == digit_byte((number % 10) as int));
    } else {
        assert(digits.drop_last() =~= Seq::<u8>::empty());
        assert(digits.last() == digit_byte(number as int));
        assert(digits_value(digits.drop_last()) == 0);
    }
    assert(digits_value(digits) == digits_value(digits.drop_last()) * 10 + (digits.last() - 48));
}

/// The last `width` digits of a number that has no more than `width` are
/// digits, `width` of them, and stand for the number.
pub proof fn lemma_padded_digits(number: nat, width: nat)
    requires
        number < power_of_ten(width),
    ensures
        padded_digits(number, width).len() == width,
        forall|k: int|
            0 <= k < width ==> is_digit(#[trigger] padded_digits(number, width)[k]),
        digits_value(padded_digits(number, width)) == number,
    decreases width,
{
    let digits = padded_digits(number, width);
    if width > 0 {
        lemma_padded_digits(number / 10, (width - 1) as nat);
        assert(digits.drop_last() =~= padded_digits(number / 10, (width - 1) as nat));
        assert(digits.last() == digit_byte((number % 10) as int));
        assert(digits_value(digits) == digits_value(digits.drop_last()) * 10 + (digits.last()
            - 48));
    }
}

/// A run of digits that is followed by no digit ends where it is seen to
/// end.
pub proof fn lemma_digits_end(text: Seq<u8>, from: int, to: int)
    requires
        0 <= from <= to <= text.len(),
        forall|k: int| from <= k < to ==> is_digit(#[trigger] text[k]),
        to < text.len() ==> !is_digit(text[to]),
    ensures
        digits_end(text, from) == to,
    decreases to - from,
{
    if from < to {
        lemma_digits_end(text, from + 1, to);
    }
}

/// What is written is read back as it was: the text of a count of
/// millionths stands for that count, and the text of a decimal for that
/// decimal.
pub proof fn lemma_text_round_trip(micros: int)
    ensures
        text_value(decimal_text(micros)) == Some(micros),
        representable(micros) ==> text_decimal(decimal_text(micros)) == Some(
            Decimal { micros: micros as i64 },
        ),
{
    let size = magnitude(micros);
    let whole = digits_of(size / 1_000_000);
    let fraction = padded_digits(size % 1_000_000, 6);
    let text = decimal_text(micros);
    let start: int = if micros < 0 {
        1
    } else {
        0
    };
    let point = start + whole.len();
    lemma_powers_of_ten();
    lemma_digits_of(size / 1_000_000);
    lemma_padded_digits(size % 1_000_000, 6);
    assert(text[start] == whole[0]);
    assert(text[point] == 46);
    lemma_digits_end(text, start, point);
    lemma_digits_end(text, point + 1, text.len() as int);
    assert(text.subrange(start, point) =~= whole);
    assert(text.subrange(point + 1, text.len() as int) =~= fraction);
    assert(digits_end(text, point + 1) - (point + 1) == 6);
    assert(size == (size / 1_000_000) * 1_000_000 + (size % 1_000_000) * power_of_ten(0));
}

/// The first seven powers of ten.
pub proof fn lemma_powers_of_ten()
    ensures
        power_of_ten(0) == 1,
        power_of_ten(1) == 10,
        power_of_ten(2) == 100,
        power_of_ten(3) == 1_000,
        power_of_ten(4) == 10_000,
        power_of_ten(5) == 100_000,
        power_of_ten(6) == 1_000_000,
{
    reveal_with_fuel(power_of_ten, 7);
}

/// A run of digits stands for a number below ten to the power of its
/// length.
pub proof fn lemma_digits_value_bound(digits: Seq<u8>)
    requires
        forall|k: int| 0 <= k < digits.len() ==> is_digit(#[trigger] digits[k]),
    ensures
        digits_value(digits) < power_of_ten(digits.len()),
    decreases digits.len(),
{
    if digits.len() > 0 {
        lemma_digits_value_bound(digits.drop_last());
    }
}

/// Ten to the power of `exponent`, for an exponent up to six.
fn ten_to(exponent: u8) -> (power: u64)
    requires
        exponent <= 6,
    ensures
        power == power_of_ten(exponent as nat),
        1 <= power <= 1_000_000,
{
    proof {
        lemma_powers_of_ten();
    }
    let mut power: u64 = 1;
    let mut done: u8 = 0;
    while done < exponent
        invariant
            done <= exponent <= 6,
            power == power_of_ten(done as nat),
            power <= 1_000_000,
            done < 6 ==> power <= 100_000,
        decreases exponent - done,
    {
        proof {
            reveal_with_fuel(power_of_ten, 8);
        }
        power = power * 10;
        done = done + 1;
    }
    power
}

/// The decimal of the given sign and size, or `None` where it cannot be
/// held.
fn signed_decimal(negative: bool, size: u128) -> (number: Option<Decimal>)
    requires
        size <= 0xffff_ffff_ffff_ffff_ffff,
    ensures
        representable(signed(negative, size as nat)) ==> number == Some(
            Decimal { micros: signed(negative, size as nat) as i64 },
        ),
        !representable(signed(negative, size as nat)) ==> number.is_none(),
{
    if negative {
        Decimal::from_wide(-(size as i128))
    } else {
        Decimal::from_wide(size as i128)
    }
}

/// Reads the run of digits that begins at `from`: where it ends, and the
/// number it stands for, or `None` for a number above `WHOLE_MAX`.
fn read_digits(text: &[u8], from: usize) -> (run: (usize, Option<u64>))
    requires
        from <= text@.len(),
    ensures
        run.0 == digits_end(text@, from as int),
        from <= run.0 <= text@.len(),
        forall|k: int| from <= k < run.0 ==> is_digit(#[trigger] text@[k]),
        match run.1 {
            Some(number) => number == digits_value(text@.subrange(from as int, run.0 as int))
                && number <= WHOLE_MAX,
            None => digits_value(text@.subrange(from as int, run.0 as int)) > WHOLE_MAX,
        },
{
    let length: usize = text.len();
    let mut at: usize = from;
    let mut number: u64 = 0;
    let mut held: bool = true;
    while at < length && ZERO <= text[at] && text[at] <= ZERO + 9
        invariant
            from <= at <= length == text@.len(),
            digits_end(text@, from as int) == digits_end(text@, at as int),
            forall|k: int| from <= k < at ==> is_digit(#[trigger] text@[k]),
            held ==> number == digits_value(text@.subrange(from as int, at as int)) && number
                <= WHOLE_MAX,
            !held ==> digits_value(text@.subrange(from as int, at as int)) > WHOLE_MAX,
        decreases length - at,
    {
        let digit: u64 = (text[at] - ZERO) as u64;
        proof {
            let longer = text@.subrange(from as int, at + 1);
            assert(longer.drop_last() =~= text@.subrange(from as int, at as int));
            assert(longer.last() == text@[at as int]);
        }
        if held {
            let next: u64 = number * 10 + digit;
            if next > WHOLE_MAX {
                held = false;
            } else {
                number = next;
            }
        }
        at = at + 1;
    }
    if held {
        (at, Some(number))
    } else {
        (at, None)
    }
}

} // verus!
