//! What holds of numbers and of the ways in which they are written.

use crate::numbers::{
    all_digits, decimal, digit_char, digit_value, hex, hex_pair, is_digit, number, u16_in, unsigned,
};
use vstd::prelude::*;

verus! {

/// The value of a digit, in decimal and in hexadecimal.
pub proof fn law_digits_have_values(c: char)
    ensures
        is_digit(c, 10) <==> '0' <= c <= '9',
        is_digit(c, 16) <==> '0' <= c <= '9' || 'a' <= c <= 'f' || 'A' <= c <= 'F',
        '0' <= c <= '9' ==> digit_value(c) == c as int - '0' as int,
        'a' <= c <= 'f' ==> digit_value(c) == 10 + (c as int - 'a' as int),
        'A' <= c <= 'F' ==> digit_value(c) == 10 + (c as int - 'A' as int),
{
}

/// The digit for a value has that value.
pub proof fn law_values_have_digits(d: nat)
    requires
        d < 16,
    ensures
        digit_value(digit_char(d)) == d,
        is_digit(digit_char(d), 16),
        d < 10 ==> '0' <= digit_char(d) <= '9',
        d >= 10 ==> 'a' <= digit_char(d) <= 'f',
{
}

/// One more digit is one more place.
pub proof fn law_digits_have_places(s: Seq<char>, c: char, radix: int)
    ensures
        number(seq![], radix) == 0,
        number(s.push(c), radix) == number(s, radix) * radix + digit_value(c),
{
    assert(s.push(c).drop_last() =~= s);
}

/// A number in decimal is read back as that number, has only digits, and does
/// not start with a zero unless it is zero.
pub proof fn law_decimals_are_read(n: nat)
    ensures
        decimal(n).len() > 0,
        all_digits(decimal(n), 10),
        number(decimal(n), 10) == n,
        n > 0 ==> decimal(n)[0] != '0',
        n == 0 ==> decimal(n) == seq!['0'],
    decreases n,
{
    if n < 10 {
        assert(decimal(n).drop_last() =~= seq![]);
        assert(number(seq![], 10) == 0);
    } else {
        law_decimals_are_read(n / 10);
        let front = decimal(n / 10);
        let c = digit_char(n % 10);
        assert(decimal(n) == front.push(c));
        assert(front.push(c).drop_last() =~= front);
        assert(digit_value(c) == n % 10);
        assert forall|i: int| 0 <= i < decimal(n).len() implies is_digit(
            #[trigger] decimal(n)[i],
            10,
        ) by {
            if i < front.len() {
                assert(decimal(n)[i] == front[i]);
            }
        }
    }
}

/// A text of digits, with or without a plus sign in front, is the number that
/// its digits make, if that is not too large.
pub proof fn law_unsigned_numbers(digits: Seq<char>, radix: int, max: int)
    requires
        digits.len() > 0,
        2 <= radix <= 16,
        all_digits(digits, radix),
    ensures
        number(digits, radix) <= max ==> unsigned(digits, radix, max) == Some(
            number(digits, radix),
        ) && unsigned(seq!['+'] + digits, radix, max) == Some(number(digits, radix)),
        number(digits, radix) > max ==> unsigned(digits, radix, max) is None && unsigned(
            seq!['+'] + digits,
            radix,
            max,
        ) is None,
{
    assert(is_digit(digits[0], radix));
    assert((seq!['+'] + digits).skip(1) =~= digits);
}

/// What is empty, or a plus sign alone, or has anything but digits behind a
/// plus sign in front, is no number.
pub proof fn law_other_texts_are_no_numbers(s: Seq<char>, i: int, radix: int, max: int)
    requires
        2 <= radix <= 16,
    ensures
        unsigned(seq![], radix, max) is None,
        unsigned(seq!['+'], radix, max) is None,
        0 <= i < s.len() && !is_digit(s[i], radix) && !(i == 0 && s[0] == '+') ==> unsigned(
            s,
            radix,
            max,
        ) is None,
{
    assert(seq!['+'].skip(1) =~= seq![]);
    if 0 <= i < s.len() && !is_digit(s[i], radix) && s[0] == '+' && i > 0 {
        assert(s.skip(1)[i - 1] == s[i]);
    }
}

/// A number of two bytes is read from its decimal digits.
pub proof fn lemma_u16_in(n: u16)
    ensures
        u16_in(decimal(n as nat)) == Some(n),
{
    law_decimals_are_read(n as nat);
    law_unsigned_numbers(decimal(n as nat), 10, u16::MAX as int);
}

/// A number is taken for a port or a code exactly up to 65535.
pub proof fn law_small_numbers(n: nat)
    ensures
        n <= 65535 ==> u16_in(decimal(n)) == Some(n as u16),
        n > 65535 ==> u16_in(decimal(n)) is None,
{
    law_decimals_are_read(n);
    law_unsigned_numbers(decimal(n), 10, u16::MAX as int);
}

/// Bytes are written as two hexadecimal digits each, in order.
pub proof fn law_hexadecimal_is_read(bytes: Seq<u8>, i: int)
    requires
        0 <= i < bytes.len(),
    ensures
        hex(bytes).len() == 2 * bytes.len(),
        number(hex(bytes).subrange(2 * i, 2 * i + 2), 16) == bytes[i],
    decreases bytes.len(),
{
    let front = bytes.drop_last();
    if i < front.len() {
        law_hexadecimal_is_read(front, i);
        assert(hex(bytes).subrange(2 * i, 2 * i + 2) =~= hex(front).subrange(2 * i, 2 * i + 2));
    } else {
        if front.len() > 0 {
            law_hexadecimal_is_read(front, 0);
        }
        let b = bytes.last();
        let pair = hex_pair(b);
        assert(hex(bytes).subrange(2 * i, 2 * i + 2) =~= pair);
        assert(pair.drop_last() =~= seq![pair[0]]);
        assert(seq![pair[0]].drop_last() =~= seq![]);
        assert(number(seq![], 16) == 0);
        assert(number(seq![pair[0]], 16) == digit_value(pair[0]));
        assert(digit_value(pair[0]) == b / 16);
        assert(digit_value(pair[1]) == b % 16);
    }
}

} // verus!
