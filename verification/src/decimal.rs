//! Decimal numerals in ASCII: the digits of integers and of string lengths.

use crate::symbols::{MINUS, NINE, ZERO};
use vstd::prelude::*;

verus! {

/// `byte` is one of the ASCII digits `0` to `9`.
pub open spec fn is_digit(byte: u8) -> bool {
    ZERO <= byte <= NINE
}

/// Every byte of `bytes` is a digit.
pub open spec fn all_digits(bytes: Seq<u8>) -> bool {
    forall|i: int| 0 <= i < bytes.len() ==> is_digit(#[trigger] bytes[i])
}

/// The number of digits that `bytes` begins with.
pub open spec fn digit_count(bytes: Seq<u8>) -> nat
    decreases bytes.len(),
{
    if bytes.len() > 0 && is_digit(bytes[0]) {
        1 + digit_count(bytes.skip(1))
    } else {
        0
    }
}

/// The number that the decimal numeral `digits` denotes; leading zeros do
/// not count, and the empty numeral denotes zero.
pub open spec fn decimal_value(digits: Seq<u8>) -> nat
    decreases digits.len(),
{
    if digits.len() == 0 {
        0
    } else {
        (decimal_value(digits.drop_last()) * 10 + (digits.last() - ZERO)) as nat
    }
}

/// The decimal numeral of `number`: no leading zeros, and `0` for zero.
pub open spec fn decimal_digits(number: nat) -> Seq<u8>
    decreases number,
{
    if number < 10 {
        seq![(ZERO + number) as u8]
    } else {
        decimal_digits(number / 10).push((ZERO + number % 10) as u8)
    }
}

/// The decimal numeral of an integer: that of its magnitude, behind a `-` if
/// the integer is negative.
pub open spec fn integer_text(number: int) -> Seq<u8> {
    if number < 0 {
        seq![MINUS] + decimal_digits((-number) as nat)
    } else {
        decimal_digits(number as nat)
    }
}

/// The digits that begin `bytes` are exactly the first `count` bytes.
pub proof fn lemma_digit_count(bytes: Seq<u8>, count: int)
    requires
        0 <= count <= bytes.len(),
        all_digits(bytes.take(count)),
        count < bytes.len() ==> !is_digit(bytes[count]),
    ensures
        digit_count(bytes) == count,
    decreases count,
{
    if count > 0 {
        assert(bytes[0] == bytes.take(count)[0]);
        let rest = bytes.skip(1);
        assert forall|i: int| 0 <= i < count - 1 implies is_digit(
            #[trigger] rest.take(count - 1)[i],
        ) by {
            assert(rest.take(count - 1)[i] == bytes.take(count)[i + 1]);
        }
        lemma_digit_count(rest, count - 1);
    }
}

/// The first `digit_count` bytes are digits, and the byte behind them, if
/// there is one, is not.
pub proof fn lemma_digit_count_splits(bytes: Seq<u8>)
    ensures
        digit_count(bytes) <= bytes.len(),
        all_digits(bytes.take(digit_count(bytes) as int)),
        digit_count(bytes) < bytes.len() ==> !is_digit(bytes[digit_count(bytes) as int]),
    decreases bytes.len(),
{
    if bytes.len() > 0 && is_digit(bytes[0]) {
        let rest = bytes.skip(1);
        lemma_digit_count_splits(rest);
        let count = digit_count(bytes) as int;
        assert forall|i: int| 0 <= i < count implies is_digit(#[trigger] bytes.take(count)[i]) by {
            if i > 0 {
                assert(bytes.take(count)[i] == rest.take(count - 1)[i - 1]);
            }
        }
    }
}

/// A numeral denotes at least what any of its prefixes denotes.
pub proof fn lemma_decimal_value_grows(digits: Seq<u8>, shorter: int)
    requires
        all_digits(digits),
        0 <= shorter <= digits.len(),
    ensures
        decimal_value(digits.take(shorter)) <= decimal_value(digits),
    decreases digits.len(),
{
    if shorter == digits.len() {
        assert(digits.take(shorter) =~= digits);
    } else {
        let front = digits.drop_last();
        assert(front.take(shorter) =~= digits.take(shorter));
        lemma_decimal_value_grows(front, shorter);
    }
}

/// The numeral of a number consists of digits, has at least one, begins with
/// `0` only for zero, and denotes that number.
pub proof fn lemma_decimal_digits(number: nat)
    ensures
        decimal_digits(number).len() >= 1,
        all_digits(decimal_digits(number)),
        decimal_digits(number)[0] == ZERO <==> number == 0,
        decimal_value(decimal_digits(number)) == number,
    decreases number,
{
    let digits = decimal_digits(number);
    if number < 10 {
        assert(digits.drop_last() =~= Seq::<u8>::empty());
        assert(digits.last() == ZERO + number);
        assert(decimal_value(digits) == decimal_value(digits.drop_last()) * 10 + (digits.last()
            - ZERO));
    } else {
        let front = decimal_digits(number / 10);
        lemma_decimal_digits(number / 10);
        assert(digits.drop_last() =~= front);
        assert(digits[0] == front[0]);
        assert(digits.last() == ZERO + number % 10);
        assert(decimal_value(digits) == decimal_value(front) * 10 + (digits.last() - ZERO));
    }
}

} // verus!
