//! Decimal numbers in text.

use vstd::prelude::*;

verus! {

/// The decimal digits of a number, most significant first; zero is one digit.
pub open spec fn decimal(n: nat) -> Seq<u8>
    decreases n,
{
    if n < 10 {
        seq![(48 + n) as u8]
    } else {
        decimal(n / 10).push((48 + n % 10) as u8)
    }
}

/// A decimal number has at least one digit and consists of digits.
pub(crate) proof fn lemma_decimal_digits(n: nat)
    ensures
        decimal(n).len() > 0,
        forall|i: int| 0 <= i < decimal(n).len() ==> is_digit(#[trigger] decimal(n)[i]),
    decreases n,
{
    if n >= 10 {
        lemma_decimal_digits(n / 10);
    }
}

/// The decimal form of a signed number: a minus sign where it is negative,
/// then the digits of its absolute value.
pub open spec fn signed_decimal(n: int) -> Seq<u8> {
    if n < 0 {
        seq![45u8] + decimal((-n) as nat)
    } else {
        decimal(n as nat)
    }
}

/// Whether a byte is a decimal digit.
pub open spec fn is_digit(b: u8) -> bool {
    48 <= b <= 57
}

/// Tests whether a byte is a decimal digit.
pub(crate) fn is_digit_byte(b: u8) -> (yes: bool)
    ensures
        yes == is_digit(b),
{
    48 <= b && b <= 57
}

/// The number that a string of digits spells; the empty string is zero.
pub open spec fn digits_value(digits: Seq<u8>) -> nat
    decreases digits.len(),
{
    if digits.len() == 0 {
        0
    } else {
        digits_value(digits.drop_last()) * 10 + (digits.last() - 48) as nat
    }
}

/// The end of the run of digits that starts at `from`, looking no further
/// than `end`.
pub open spec fn digit_run(buf: Seq<u8>, from: int, end: int) -> int
    decreases end - from,
{
    if from >= end || !is_digit(buf[from]) {
        from
    } else {
        digit_run(buf, from + 1, end)
    }
}

/// Whether a text consists of digits.
pub open spec fn are_digits(text: Seq<u8>) -> bool {
    forall|i: int| 0 <= i < text.len() ==> is_digit(#[trigger] text[i])
}

/// The number that a text holds: an optional plus sign and then at least one
/// digit, and nothing else, for a number that is not too large.
pub open spec fn usize_of(text: Seq<u8>) -> Option<usize> {
    let digits = if text.len() > 0 && text[0] == '+' as u8 {
        text.drop_first()
    } else {
        text
    };
    if digits.len() > 0 && are_digits(digits) && digits_value(digits) <= usize::MAX {
        Some(digits_value(digits) as usize)
    } else {
        None
    }
}

/// Parses a number.
pub fn parse_usize(text: &[u8]) -> (n: Option<usize>)
    ensures
        n == usize_of(text@),
{
    let start: usize = if text.len() > 0 && text[0] == '+' as u8 {
        1
    } else {
        0
    };
    let ghost digits = text@.skip(start as int);
    proof {
        if start == 1 {
            assert(digits =~= text@.drop_first());
        } else {
            assert(digits =~= text@);
        }
    }
    if text.len() == start {
        return None;
    }
    let mut val: usize = 0;
    let mut i: usize = start;
    assert(digits.take(0) =~= Seq::<u8>::empty());
    while i < text.len()
        invariant
            start <= i <= text@.len(),
            digits == text@.skip(start as int),
            usize_of(text@) == (if are_digits(digits) && digits_value(digits) <= usize::MAX {
                Some(digits_value(digits) as usize)
            } else {
                None
            }),
            are_digits(digits.take(i - start)),
            val == digits_value(digits.take(i - start)),
        decreases text@.len() - i,
    {
        let ghost seen = digits.take(i - start);
        let ghost next_seen = digits.take(i + 1 - start);
        assert(digits[i - start] == text@[i as int]);
        if !is_digit_byte(text[i]) {
            return None;
        }
        proof {
            assert(next_seen.drop_last() =~= seen);
            if are_digits(digits) {
                lemma_digits_value_prefix(digits, i + 1 - start);
            }
        }
        let next = match val.checked_mul(10) {
            Some(tens) => tens.checked_add((text[i] - 48) as usize),
            None => None,
        };
        match next {
            Some(v) => {
                val = v;
            },
            None => {
                return None;
            },
        }
        i += 1;
    }
    assert(digits.take(i - start) =~= digits);
    Some(val)
}

/// The value of a string of digits is at least that of each of its prefixes.
proof fn lemma_digits_value_prefix(digits: Seq<u8>, n: int)
    requires
        are_digits(digits),
        0 <= n <= digits.len(),
    ensures
        digits_value(digits.take(n)) <= digits_value(digits),
    decreases digits.len(),
{
    if n == digits.len() {
        assert(digits.take(n) =~= digits);
    } else {
        lemma_digits_value_prefix(digits.drop_last(), n);
        assert(digits.drop_last().take(n) =~= digits.take(n));
    }
}

/// The scratch space that `itoa` formats into.
#[verifier::external_type_specification]
#[verifier::external_body]
pub struct ExBuffer(itoa::Buffer);

/// `itoa::Buffer::new` makes scratch space; nothing is claimed of its contents.
pub assume_specification[ itoa::Buffer::new ]() -> itoa::Buffer
;

/// `itoa::Buffer::format` on a `usize`: the text it returns is the decimal
/// form of the number, here handed on as bytes.
#[verifier::external_body]
pub(crate) fn format_usize<'a>(buffer: &'a mut itoa::Buffer, n: usize) -> (text: &'a [u8])
    ensures
        text@ == decimal(n as nat),
{
    buffer.format(n).as_bytes()
}

/// `itoa::Buffer::format` on an `i32`: the text it returns is the decimal
/// form of the number, here handed on as bytes.
#[verifier::external_body]
pub(crate) fn format_i32<'a>(buffer: &'a mut itoa::Buffer, n: i32) -> (text: &'a [u8])
    ensures
        text@ == signed_decimal(n as int),
{
    buffer.format(n).as_bytes()
}

/// Reading the decimal form of a number gives the number back.
pub proof fn law_decimal_reads_back(n: nat)
    ensures
        digits_value(decimal(n)) == n,
        are_digits(decimal(n)),
        n <= usize::MAX ==> usize_of(decimal(n)) == Some(n as usize),
    decreases n,
{
    lemma_decimal_digits(n);
    if n < 10 {
        assert(decimal(n).drop_last() =~= Seq::<u8>::empty());
        assert(digits_value(decimal(n).drop_last()) == 0);
    } else {
        law_decimal_reads_back(n / 10);
        assert(decimal(n).drop_last() =~= decimal(n / 10));
    }
    assert(is_digit(decimal(n)[0]));
}

/// The decimal form is the usual one: a number below ten is the digit with its
/// value, and appending a digit multiplies by ten and adds the digit.
pub proof fn law_decimal_appends_digits(n: nat, digit: nat)
    requires
        digit < 10,
    ensures
        decimal(digit).len() == 1,
        decimal(digit)[0] as int == 48 + digit,
        n > 0 ==> decimal(n * 10 + digit) == decimal(n).push((48 + digit) as u8),
{
    assert((n * 10 + digit) / 10 == n);
    assert((n * 10 + digit) % 10 == digit);
}

/// The decimal form of a number has no leading zero, and no two numbers share
/// one.
pub proof fn law_decimal_is_canonical(m: nat, n: nat)
    ensures
        n > 0 ==> decimal(n)[0] as int != 48,
        decimal(m) == decimal(n) ==> m == n,
    decreases n,
{
    law_decimal_reads_back(m);
    law_decimal_reads_back(n);
    if n >= 10 {
        lemma_decimal_digits(n / 10);
        law_decimal_is_canonical(0, n / 10);
    }
}

/// A negative number is a minus sign and its absolute value, any other number
/// stands without a sign.
pub proof fn law_signed_decimal_has_a_sign(n: int)
    ensures
        n >= 0 ==> signed_decimal(n) == decimal(n as nat),
        n < 0 ==> signed_decimal(n).len() == 1 + decimal((-n) as nat).len()
            && signed_decimal(n)[0] as int == 45 && signed_decimal(n).skip(1) == decimal(
            (-n) as nat,
        ),
{
    if n < 0 {
        assert(signed_decimal(n).skip(1) =~= decimal((-n) as nat));
    }
}

/// A string of digits has its place value: the empty one is zero, and a further
/// digit counts once while those before it count ten times.
pub proof fn law_digits_have_place_value(digits: Seq<u8>, digit: u8)
    requires
        48 <= digit <= 57,
    ensures
        digits_value(Seq::<u8>::empty()) == 0,
        digits_value(digits.push(digit)) == 10 * digits_value(digits) + (digit as int - 48),
{
    assert(digits.push(digit).drop_last() =~= digits);
}

/// The digits are the bytes from 48 to 57. A run of them ends at the first
/// other byte, or at the end of what is looked at.
pub proof fn law_digit_run_ends_at_the_first_other_byte(buf: Seq<u8>, from: int, end: int)
    requires
        0 <= from <= end <= buf.len(),
    ensures
        from <= digit_run(buf, from, end) <= end,
        forall|i: int| from <= i < digit_run(buf, from, end) ==> 48 <= #[trigger] buf[i] <= 57,
        digit_run(buf, from, end) < end ==> !(48 <= buf[digit_run(buf, from, end)] <= 57),
    decreases end - from,
{
    if from < end && is_digit(buf[from]) {
        law_digit_run_ends_at_the_first_other_byte(buf, from + 1, end);
    }
}

/// A number is read from digits alone, with or without a plus sign before
/// them. No text without digits is a number, nor one with any other byte, nor
/// one whose value is too large.
pub proof fn law_numbers_are_digits(digits: Seq<u8>)
    ensures
        (digits.len() > 0 && (forall|i: int|
            0 <= i < digits.len() ==> 48 <= #[trigger] digits[i] <= 57) && digits_value(digits)
            <= usize::MAX) ==> usize_of(digits) == Some(digits_value(digits) as usize)
            && usize_of(seq![43u8] + digits) == Some(digits_value(digits) as usize),
        digits_value(digits) > usize::MAX && (digits.len() > 0 ==> digits[0] != 43) ==> usize_of(
            digits,
        ) is None && usize_of(seq![43u8] + digits) is None,
        digits.len() == 0 ==> usize_of(digits) is None && usize_of(seq![43u8] + digits) is None,
        (exists|i: int| 0 <= i < digits.len() && !(48 <= #[trigger] digits[i] <= 57)) ==> usize_of(
            seq![43u8] + digits,
        ) is None && (digits[0] != 43 ==> usize_of(digits) is None),
{
    let signed = seq![43u8] + digits;
    assert(signed.drop_first() =~= digits);
    if exists|i: int| 0 <= i < digits.len() && !(48 <= #[trigger] digits[i] <= 57) {
        let i = choose|i: int| 0 <= i < digits.len() && !(48 <= #[trigger] digits[i] <= 57);
        assert(!is_digit(digits[i]));
    }
}

} // verus!
