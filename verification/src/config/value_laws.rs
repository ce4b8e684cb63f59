//! What holds of sizes and addresses.

use super::value::{address_in, octet_in, size_in, suffix_factor};
use crate::number_laws::{law_decimals_are_read, law_unsigned_numbers};
use crate::numbers::{all_digits, decimal, digit_value, is_digit, number, unsigned};
use crate::text::{joined, lemma_trimmed_is, lower_char, split, trimmed};
use crate::text_laws::{
    is_blank, law_cutting_is_undone_by_joining, law_joining_is_undone_by_cutting,
    law_padding_is_trimmed,
};
use vstd::prelude::*;

verus! {

/// The factors that the suffixes of sizes stand for, in either case.
pub proof fn law_size_suffixes(c: char)
    ensures
        c == 'k' || c == 'K' ==> suffix_factor(c) == Some(1024int),
        c == 'm' || c == 'M' ==> suffix_factor(c) == Some(1048576int),
        c == 'g' || c == 'G' ==> suffix_factor(c) == Some(1073741824int),
        c != 'k' && c != 'K' && c != 'm' && c != 'M' && c != 'g' && c != 'G' ==> suffix_factor(
            c,
        ) is None,
{
}

/// A size is a number of bytes, or of as many as its suffix says, with white
/// space around it or not. What does not fit is told.
pub proof fn law_sizes(a: Seq<char>, digits: Seq<char>, suffix: char, b: Seq<char>)
    requires
        digits.len() > 0,
        all_digits(digits, 10),
        is_blank(a),
        is_blank(b),
        suffix == 'k' || suffix == 'K' || suffix == 'm' || suffix == 'M' || suffix == 'g' || suffix
            == 'G',
    ensures
        ({
            let n = number(digits, 10);
            let factor: int = if suffix == 'k' || suffix == 'K' {
                1024
            } else if suffix == 'm' || suffix == 'M' {
                1048576
            } else {
                1073741824
            };
            &&& n <= usize::MAX ==> size_in(a + digits + b) == Ok::<int, Seq<char>>(n)
            &&& n * factor <= usize::MAX ==> size_in(a + (digits + seq![suffix]) + b) == Ok::<
                int,
                Seq<char>,
            >(n * factor)
            &&& n <= usize::MAX && n * factor > usize::MAX ==> size_in(
                a + (digits + seq![suffix]) + b,
            ) == Err::<int, Seq<char>>("size '"@ + (digits + seq![suffix]) + "' overflows"@)
            &&& n > usize::MAX ==> size_in(a + digits + b) == Err::<int, Seq<char>>(
                "invalid size '"@ + digits + "'"@,
            )
        }),
{
    assert(is_digit(digits[0], 10) && is_digit(digits[digits.len() - 1], 10));
    law_padding_is_trimmed(a, digits, b);
    let s = digits + seq![suffix];
    assert(s[0] == digits[0]);
    assert(s.last() == suffix);
    law_padding_is_trimmed(a, s, b);
    assert(s.drop_last() =~= digits);
    lemma_trimmed_is(digits);
    law_unsigned_numbers(digits, 10, usize::MAX as int);
    crate::numbers::lemma_number_grows(digits, 10, 0);
    let n = number(digits, 10);
    assert(digits.take(0) =~= seq![]);
    assert(n * 1024 >= n && n * 1048576 >= n && n * 1073741824 >= n)
        by (nonlinear_arith)
        requires
            n >= 0,
    ;
}

/// What is no size is told by what is wrong with it: nothing is there, the last
/// character is neither a digit nor a suffix, or the rest is no number.
pub proof fn law_bad_sizes(s: Seq<char>)
    requires
        trimmed(s).len() > 0 ==> unsigned(
            trimmed(trimmed(s).drop_last()),
            10,
            usize::MAX as int,
        ) is None && unsigned(trimmed(trimmed(s)), 10, usize::MAX as int) is None,
    ensures
        ({
            let t = trimmed(s);
            let c = t.last();
            &&& t.len() == 0 ==> size_in(s) == Err::<int, Seq<char>>("empty size value"@)
            &&& t.len() > 0 && ('0' <= c <= '9' || lower_char(c) == 'k' || lower_char(c) == 'm'
                || lower_char(c) == 'g') ==> size_in(s) == Err::<int, Seq<char>>(
                "invalid size '"@ + t + "'"@,
            )
            &&& t.len() > 0 && !('0' <= c <= '9' || lower_char(c) == 'k' || lower_char(c) == 'm'
                || lower_char(c) == 'g') ==> size_in(s) == Err::<int, Seq<char>>(
                "invalid size suffix '"@ + seq![lower_char(c)] + "'"@,
            )
        }),
{
}

/// An octet is the shortest decimal form of a byte, and nothing else.
proof fn lemma_octet(s: Seq<char>, n: u8)
    ensures
        octet_in(decimal(n as nat)) == Some(n),
        octet_in(s) == Some(n) ==> s == decimal(n as nat),
{
    let d = decimal(n as nat);
    law_decimals_are_read(n as nat);
    lemma_short(n as nat);
    if octet_in(s) == Some(n) {
        crate::numbers::lemma_number_grows(s, 10, 0);
        lemma_shortest(s, n as nat);
    }
}

proof fn lemma_short(n: nat)
    requires
        n <= 255,
    ensures
        1 <= decimal(n).len() <= 3,
{
    if n >= 10 {
        assert(decimal(n) == decimal(n / 10).push(crate::numbers::digit_char(n % 10)));
        if n >= 100 {
            let m = n / 10;
            assert(decimal(m) == decimal(m / 10).push(crate::numbers::digit_char(m % 10)));
            assert(m / 10 < 10);
        }
    }
}

/// Digits without a zero in front are the decimal form of their number.
proof fn lemma_shortest(s: Seq<char>, n: nat)
    requires
        s.len() > 0,
        all_digits(s, 10),
        s[0] == '0' ==> s.len() == 1,
        number(s, 10) == n,
    ensures
        s == decimal(n),
    decreases s.len(),
{
    let front = s.drop_last();
    let c = s.last();
    assert(is_digit(s[s.len() - 1], 10));
    let v = digit_value(c);
    assert(number(s, 10) == number(front, 10) * 10 + v);
    if front.len() == 0 {
        assert(front =~= seq![]);
        assert(number(front, 10) == 0);
        assert(crate::numbers::digit_char(n) == c);
        assert(s =~= decimal(n));
    } else {
        assert forall|i: int| 0 <= i < front.len() implies is_digit(#[trigger] front[i], 10) by {
            assert(front[i] == s[i]);
        }
        assert(front[0] == s[0]);
        crate::numbers::lemma_number_grows(front, 10, 1);
        assert(front.take(1).drop_last() =~= seq![]);
        assert(number(seq![], 10) == 0);
        assert(number(front.take(1), 10) == digit_value(front[0]));
        assert(is_digit(front[0], 10) && front[0] != '0');
        assert(number(front, 10) >= 1);
        let m = number(front, 10) as nat;
        lemma_shortest(front, m);
        assert(n >= 10);
        assert(n / 10 == m && n % 10 == v);
        assert(crate::numbers::digit_char(n % 10) == c);
        assert(s =~= front.push(c));
    }
}

/// An address in dotted form.
pub open spec fn dotted(a: u8, b: u8, c: u8, d: u8) -> Seq<char> {
    joined(
        seq![decimal(a as nat), decimal(b as nat), decimal(c as nat), decimal(d as nat)],
        seq!['.'],
    )
}

/// An address is its four bytes in decimal with dots between them, and nothing
/// else is one.
pub proof fn law_addresses(s: Seq<char>, a: u8, b: u8, c: u8, d: u8)
    ensures
        address_in(s) == Some(seq![a, b, c, d]) <==> s == dotted(a, b, c, d),
        address_in(s) matches Some(host) ==> host.len() == 4,
{
    let parts = seq![decimal(a as nat), decimal(b as nat), decimal(c as nat), decimal(d as nat)];
    lemma_octet(parts[0], a);
    lemma_octet(parts[1], b);
    lemma_octet(parts[2], c);
    lemma_octet(parts[3], d);
    assert forall|i: int| 0 <= i < parts.len() implies !(#[trigger] parts[i]).contains('.') by {
        let n = if i == 0 {
            a
        } else if i == 1 {
            b
        } else if i == 2 {
            c
        } else {
            d
        };
        law_decimals_are_read(n as nat);
        assert forall|k: int| 0 <= k < parts[i].len() implies #[trigger] parts[i][k] != '.' by {
            assert(is_digit(parts[i][k], 10));
        }
    }
    law_joining_is_undone_by_cutting(parts, '.');
    if address_in(s) == Some(seq![a, b, c, d]) {
        let p = split(s, '.');
        let host = address_in(s)->0;
        assert(host[0] == a && host[1] == b && host[2] == c && host[3] == d);
        assert(octet_in(p[0]) == Some(a) && octet_in(p[1]) == Some(b));
        assert(octet_in(p[2]) == Some(c) && octet_in(p[3]) == Some(d));
        lemma_octet(p[0], a);
        lemma_octet(p[1], b);
        lemma_octet(p[2], c);
        lemma_octet(p[3], d);
        law_cutting_is_undone_by_joining(s, '.');
        assert(p =~= parts);
    }
}

/// A size goes by the number before its suffix, or by the number that it is; a
/// plus sign in front of the number does not matter, nor does white space
/// between the number and the suffix.
pub proof fn law_sizes_go_by_their_number(s: Seq<char>, n: int)
    requires
        trimmed(s).len() > 0,
    ensures
        ({
            let t = trimmed(s);
            let c = t.last();
            let number_is = |text: Seq<char>|
                unsigned(trimmed(text), 10, usize::MAX as int) == Some(n);
            &&& '0' <= c <= '9' && number_is(t) && n <= usize::MAX ==> size_in(s) == Ok::<
                int,
                Seq<char>,
            >(n)
            &&& (c == 'k' || c == 'K') && number_is(t.drop_last()) && n * 1024 <= usize::MAX
                ==> size_in(s) == Ok::<int, Seq<char>>(n * 1024)
            &&& (c == 'm' || c == 'M') && number_is(t.drop_last()) && n * 1048576 <= usize::MAX
                ==> size_in(s) == Ok::<int, Seq<char>>(n * 1048576)
            &&& (c == 'g' || c == 'G') && number_is(t.drop_last()) && n * 1073741824 <= usize::MAX
                ==> size_in(s) == Ok::<int, Seq<char>>(n * 1073741824)
        }),
{
}

} // verus!
