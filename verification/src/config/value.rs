//! The values that directives take: sizes and addresses.

use crate::numbers::{all_digits, is_digit, number, read_unsigned, unsigned};
use crate::text::{
    chars_of, lower_char, pieces, split, split_at_each, string_of, to_lower_char, trim, trimmed,
};
use vstd::prelude::*;
use vstd::slice::slice_subrange;

verus! {

/// The multiplier that a size suffix stands for.
pub open spec fn suffix_factor(c: char) -> Option<int> {
    if lower_char(c) == 'k' {
        Some(1024)
    } else if lower_char(c) == 'm' {
        Some(1048576)
    } else if lower_char(c) == 'g' {
        Some(1073741824)
    } else {
        None
    }
}

/// The number of bytes that a size stands for, or what is wrong with it.
pub open spec fn size_in(s: Seq<char>) -> Result<int, Seq<char>> {
    let t = trimmed(s);
    if t.len() == 0 {
        Err("empty size value"@)
    } else {
        let c = t.last();
        match suffix_factor(c) {
            Some(factor) => scaled_size(t, t.drop_last(), factor),
            None => if '0' <= c <= '9' {
                scaled_size(t, t, 1)
            } else {
                Err("invalid size suffix '"@ + seq![lower_char(c)] + "'"@)
            },
        }
    }
}

/// The size `shown`, which is `factor` times the number `num`.
pub open spec fn scaled_size(shown: Seq<char>, num: Seq<char>, factor: int) -> Result<
    int,
    Seq<char>,
> {
    match unsigned(trimmed(num), 10, usize::MAX as int) {
        Some(n) => if n * factor <= usize::MAX {
            Ok(n * factor)
        } else {
            Err("size '"@ + shown + "' overflows"@)
        },
        None => Err("invalid size '"@ + shown + "'"@),
    }
}

/// Parses a size with an optional `k`/`m`/`g` suffix (case-insensitive) into
/// bytes.
pub fn parse_size(s: &str) -> (r: Result<usize, String>)
    ensures
        match r {
            Ok(n) => size_in(s@) == Ok::<int, Seq<char>>(n as int),
            Err(e) => size_in(s@) == Err::<int, Seq<char>>(e@),
        },
{
    let chars = chars_of(s);
    let t = trim(chars.as_slice());
    if t.len() == 0 {
        return Err("empty size value".to_owned());
    }
    let last: char = t[t.len() - 1];
    let c: char = to_lower_char(last);
    let (num, factor): (&[char], usize) = if c == 'k' {
        (slice_subrange(t, 0, t.len() - 1), 1024)
    } else if c == 'm' {
        (slice_subrange(t, 0, t.len() - 1), 1048576)
    } else if c == 'g' {
        (slice_subrange(t, 0, t.len() - 1), 1073741824)
    } else if '0' <= c && c <= '9' {
        (t, 1)
    } else {
        let mut e = "invalid size suffix '".to_owned();
        e.push(c);
        e.append("'");
        assert(e@ =~= "invalid size suffix '"@ + seq![c] + "'"@);
        return Err(e);
    };
    let shown = string_of(t);
    match read_unsigned(trim(num), 10, usize::MAX) {
        Some(n) => match n.checked_mul(factor) {
            Some(total) => Ok(total),
            None => {
                let mut e = "size '".to_owned();
                e.append(shown.as_str());
                e.append("' overflows");
                Err(e)
            },
        },
        None => {
            let mut e = "invalid size '".to_owned();
            e.append(shown.as_str());
            e.append("'");
            Err(e)
        },
    }
}

/// The octet that a run of one to three digits stands for; a leading zero is
/// allowed only alone.
pub open spec fn octet_in(s: Seq<char>) -> Option<u8> {
    if 1 <= s.len() <= 3 && all_digits(s, 10) && (s[0] == '0' ==> s.len() == 1) && number(s, 10)
        <= 255 {
        Some(number(s, 10) as u8)
    } else {
        None
    }
}

/// The four octets of an address in dotted decimal notation.
pub open spec fn address_in(s: Seq<char>) -> Option<Seq<u8>> {
    let p = split(s, '.');
    if p.len() == 4 && octet_in(p[0]) is Some && octet_in(p[1]) is Some && octet_in(p[2]) is Some
        && octet_in(p[3]) is Some {
        Some(
            seq![
                octet_in(p[0])->0,
                octet_in(p[1])->0,
                octet_in(p[2])->0,
                octet_in(p[3])->0,
            ],
        )
    } else {
        None
    }
}

/// Reads one octet.
fn read_octet(s: &[char]) -> (r: Option<u8>)
    ensures
        r == octet_in(s@),
{
    if s.len() == 0 || s.len() > 3 || s[0] == '+' || (s[0] == '0' && s.len() != 1) {
        proof {
            if s@.len() > 0 && s@[0] == '+' {
                assert(!is_digit(s@[0], 10));
            }
        }
        return None;
    }
    match read_unsigned(s, 10, 255) {
        Some(n) => {
            proof {
                crate::numbers::lemma_unsigned_range(s@, 10, 255);
            }
            Some(n as u8)
        },
        None => None,
    }
}

/// Reads an IPv4 address in dotted decimal notation.
pub fn parse_address(s: &str) -> (r: Option<[u8; 4]>)
    ensures
        match r {
            Some(a) => address_in(s@) == Some(a@),
            None => address_in(s@) is None,
        },
{
    let chars = chars_of(s);
    let parts = split_at_each(chars.as_slice(), '.');
    let ghost p = split(s@, '.');
    assert(pieces(parts@) == p);
    if parts.len() != 4 {
        return None;
    }
    assert(p[0] == parts@[0]@ && p[1] == parts@[1]@ && p[2] == parts@[2]@ && p[3] == parts@[3]@);
    match (read_octet(parts[0]), read_octet(parts[1]), read_octet(parts[2]), read_octet(parts[3])) {
        (Some(a), Some(b), Some(c), Some(d)) => {
            let r: [u8; 4] = [a, b, c, d];
            assert(r@ =~= seq![a, b, c, d]);
            Some(r)
        },
        _ => None,
    }
}

} // verus!
