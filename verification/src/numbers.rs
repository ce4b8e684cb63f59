//! Numbers in text: decimal and hexadecimal notation, read and written.

use vstd::prelude::*;

verus! {

/// The character for a digit below sixteen.
pub open spec fn digit_char(d: nat) -> char {
    if d < 10 {
        (48 + d) as char
    } else {
        (87 + d) as char
    }
}

/// The decimal notation of `n`, without leading zeros.
pub open spec fn decimal(n: nat) -> Seq<char>
    decreases n,
{
    if n < 10 {
        seq![digit_char(n)]
    } else {
        decimal(n / 10).push(digit_char(n % 10))
    }
}

/// Gives the character for a digit below sixteen.
pub fn to_digit_char(d: u8) -> (c: char)
    requires
        d < 16,
    ensures
        c == digit_char(d as nat),
{
    if d < 10 {
        (48 + d) as char
    } else {
        (87 + d) as char
    }
}

/// Appends the decimal notation of `n`.
pub fn push_decimal(out: &mut String, n: u64)
    ensures
        final(out)@ == old(out)@ + decimal(n as nat),
    decreases n,
{
    if n < 10 {
        out.push(to_digit_char(n as u8));
        assert(out@ =~= old(out)@ + decimal(n as nat));
    } else {
        push_decimal(out, n / 10);
        out.push(to_digit_char((n % 10) as u8));
        assert(out@ =~= old(out)@ + decimal(n as nat));
    }
}

/// The decimal notation of `n`.
pub fn decimal_of(n: u64) -> (r: String)
    ensures
        r@ == decimal(n as nat),
{
    let mut out = String::new();
    push_decimal(&mut out, n);
    assert(Seq::<char>::empty() + decimal(n as nat) =~= decimal(n as nat));
    out
}

/// The two hexadecimal digits of a byte.
pub open spec fn hex_pair(b: u8) -> Seq<char> {
    seq![digit_char((b / 16) as nat), digit_char((b % 16) as nat)]
}

/// The hexadecimal notation of bytes, two digits each.
pub open spec fn hex(s: Seq<u8>) -> Seq<char>
    decreases s.len(),
{
    if s.len() == 0 {
        seq![]
    } else {
        hex(s.drop_last()) + hex_pair(s.last())
    }
}

/// Writes bytes in hexadecimal, two digits each.
pub fn hex_of(s: &[u8]) -> (r: String)
    ensures
        r@ == hex(s@),
{
    let mut out = String::new();
    let mut i: usize = 0;
    while i < s.len()
        invariant
            i <= s@.len(),
            out@ == hex(s@.take(i as int)),
        decreases s@.len() - i,
    {
        let b: u8 = s[i];
        proof {
            assert(s@.take(i + 1).drop_last() =~= s@.take(i as int));
            assert(hex(s@.take(i + 1)) =~= out@.push(digit_char((b / 16) as nat)).push(
                digit_char((b % 16) as nat),
            ));
        }
        out.push(to_digit_char(b / 16));
        out.push(to_digit_char(b % 16));
        i += 1;
    }
    assert(s@.take(s@.len() as int) =~= s@);
    out
}

/// What a digit counts for; -1 for a character that is no digit.
pub open spec fn digit_value(c: char) -> int {
    if '0' <= c <= '9' {
        c as int - 48
    } else if 'a' <= c <= 'z' {
        c as int - 87
    } else if 'A' <= c <= 'Z' {
        c as int - 55
    } else {
        -1
    }
}

/// Whether `c` is a digit of the notation with base `radix`.
pub open spec fn is_digit(c: char, radix: int) -> bool {
    0 <= digit_value(c) < radix
}

/// Whether `s` is made of digits of base `radix`.
pub open spec fn all_digits(s: Seq<char>, radix: int) -> bool {
    forall|i: int| 0 <= i < s.len() ==> is_digit(#[trigger] s[i], radix)
}

/// The number that a run of digits stands for.
pub open spec fn number(s: Seq<char>, radix: int) -> int
    decreases s.len(),
{
    if s.len() == 0 {
        0
    } else {
        number(s.drop_last(), radix) * radix + digit_value(s.last())
    }
}

/// The number that `s` stands for: an optional plus sign and then at least one
/// digit, with a value of at most `max`.
pub open spec fn unsigned(s: Seq<char>, radix: int, max: int) -> Option<int> {
    let t = if s.len() > 0 && s[0] == '+' {
        s.skip(1)
    } else {
        s
    };
    if t.len() > 0 && all_digits(t, radix) && number(t, radix) <= max {
        Some(number(t, radix))
    } else {
        None
    }
}

/// A run of digits stands for at least what a shorter one at its front does.
pub proof fn lemma_number_grows(s: Seq<char>, radix: int, n: int)
    requires
        0 <= n <= s.len(),
        radix >= 1,
        all_digits(s, radix),
    ensures
        0 <= number(s.take(n), radix) <= number(s, radix),
    decreases s.len(),
{
    if s.len() == 0 {
        assert(s.take(n) =~= s);
    } else if n == s.len() {
        assert(s.take(n) =~= s);
        lemma_number_grows(s.drop_last(), radix, s.len() - 1);
        assert(s.drop_last().take(s.len() - 1) =~= s.drop_last());
        let m = number(s.drop_last(), radix);
        assert(m * radix >= 0) by (nonlinear_arith)
            requires
                m >= 0,
                radix >= 1,
        ;
    } else {
        lemma_number_grows(s.drop_last(), radix, n);
        assert(s.drop_last().take(n) =~= s.take(n));
        let m = number(s.drop_last(), radix);
        assert(m * radix >= m) by (nonlinear_arith)
            requires
                m >= 0,
                radix >= 1,
        ;
    }
}

/// A number that was read is between zero and the maximum.
pub proof fn lemma_unsigned_range(s: Seq<char>, radix: int, max: int)
    requires
        radix >= 1,
    ensures
        unsigned(s, radix, max) matches Some(n) ==> 0 <= n <= max,
{
    let t = if s.len() > 0 && s[0] == '+' {
        s.skip(1)
    } else {
        s
    };
    if all_digits(t, radix) {
        lemma_number_grows(t, radix, 0);
        assert(t.take(0) =~= Seq::empty());
    }
}

/// Gives what a digit of base `radix` counts for.
fn value_of_digit(c: char, radix: usize) -> (r: Option<usize>)
    requires
        radix <= 36,
    ensures
        match r {
            Some(d) => is_digit(c, radix as int) && d == digit_value(c),
            None => !is_digit(c, radix as int),
        },
{
    let c: u32 = c as u32;
    let d: usize = if 48 <= c && c <= 57 {
        (c - 48) as usize
    } else if 97 <= c && c <= 122 {
        (c - 87) as usize
    } else if 65 <= c && c <= 90 {
        (c - 55) as usize
    } else {
        36
    };
    if d < radix {
        Some(d)
    } else {
        None
    }
}

/// Reads a number in base `radix`: an optional plus sign, then digits only.
/// A value over `max` is refused.
pub fn read_unsigned(s: &[char], radix: usize, max: usize) -> (r: Option<usize>)
    requires
        2 <= radix <= 36,
    ensures
        match r {
            Some(n) => unsigned(s@, radix as int, max as int) == Some(n as int),
            None => unsigned(s@, radix as int, max as int) is None,
        },
{
    let t: &[char] = if s.len() > 0 && s[0] == '+' {
        vstd::slice::slice_subrange(s, 1, s.len())
    } else {
        s
    };
    if t.len() == 0 {
        return None;
    }
    let mut acc: usize = 0;
    let mut i: usize = 0;
    while i < t.len()
        invariant
            i <= t@.len(),
            2 <= radix <= 36,
            t@ == (if s@.len() > 0 && s@[0] == '+' {
                s@.skip(1)
            } else {
                s@
            }),
            all_digits(t@.take(i as int), radix as int),
            acc == number(t@.take(i as int), radix as int),
            acc <= max,
        decreases t@.len() - i,
    {
        let d: usize = match value_of_digit(t[i], radix) {
            Some(d) => d,
            None => {
                assert(!is_digit(t@[i as int], radix as int));
                return None;
            },
        };
        proof {
            assert(t@.take(i + 1).drop_last() =~= t@.take(i as int));
            assert forall|j: int| 0 <= j < i + 1 implies is_digit(
                #[trigger] t@.take(i + 1)[j],
                radix as int,
            ) by {
                if j < i {
                    assert(is_digit(t@.take(i as int)[j], radix as int));
                }
            }
            if all_digits(t@, radix as int) {
                lemma_number_grows(t@, radix as int, i + 1);
            }
        }
        let scaled: usize = match acc.checked_mul(radix) {
            Some(n) => n,
            None => return None,
        };
        acc = match scaled.checked_add(d) {
            Some(n) => n,
            None => return None,
        };
        if acc > max {
            return None;
        }
        i += 1;
    }
    assert(t@.take(t@.len() as int) =~= t@);
    Some(acc)
}

/// The port number or status code that `s` stands for.
pub open spec fn u16_in(s: Seq<char>) -> Option<u16> {
    match unsigned(s, 10, u16::MAX as int) {
        Some(n) => Some(n as u16),
        None => None,
    }
}

/// Reads a port number or a status code.
pub fn read_u16(s: &[char]) -> (r: Option<u16>)
    ensures
        r == u16_in(s@),
{
    match read_unsigned(s, 10, 65535) {
        Some(n) => Some(n as u16),
        None => None,
    }
}

} // verus!
