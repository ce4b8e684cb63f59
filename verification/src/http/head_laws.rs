//! A request line and headers are read as a client writes them.

use super::request::{
    blank_line, decoded_path, field_of, fields_of, head_in, HeadOutcome, HeadView, MAX_HEAD_BYTES,
};
use crate::bytes::{lemma_first_at_is, occurs_at};
use crate::text::{
    before, begins, lemma_lead_is, lemma_line_len, line_len, lines, lower, split, split_first,
    trimmed, Class,
};
use crate::utf8::{lemma_encode_concat, text_in};
use vstd::prelude::*;
use vstd::utf8::{
    encode_scalar, encode_utf8, encode_utf8_decode_utf8, encode_utf8_valid_utf8,
    has_width_1_encoding, last_continuation_byte, leading_byte_width_1, leading_byte_width_2,
    leading_byte_width_3, leading_byte_width_4, second_last_continuation_byte,
    third_last_continuation_byte,
};

verus! {

/// A header field as a client writes it.
pub type WrittenField = (Seq<char>, Seq<char>);

/// The line of a header field.
pub open spec fn field_line(f: WrittenField) -> Seq<char> {
    f.0 + seq![':'] + f.1
}

/// The lines of a request: the request line, and one for each header field.
pub open spec fn head_lines(
    method: Seq<char>,
    target: Seq<char>,
    version: Seq<char>,
    fields: Seq<WrittenField>,
) -> Seq<Seq<char>> {
    seq![method + seq![' '] + target + seq![' '] + version] + fields.map_values(
        |f: WrittenField| field_line(f),
    )
}

/// Lines with line breaks between them.
pub open spec fn broken(ls: Seq<Seq<char>>) -> Seq<char>
    decreases ls.len(),
{
    if ls.len() == 0 {
        seq![]
    } else if ls.len() == 1 {
        ls[0]
    } else {
        ls[0] + seq!['\r', '\n'] + broken(ls.skip(1))
    }
}

/// The values of header fields, by name: the last field of a name counts.
pub open spec fn values_of(fields: Seq<WrittenField>) -> Map<Seq<char>, Seq<char>>
    decreases fields.len(),
{
    if fields.len() == 0 {
        Map::empty()
    } else {
        values_of(fields.drop_last()).insert(lower(fields.last().0), trimmed(fields.last().1))
    }
}

/// Whether a client may write a header field: a name that is not empty, with no
/// blank, tab or colon, and no carriage return in either.
pub open spec fn is_writable_field(f: WrittenField) -> bool {
    &&& f.0.len() > 0
    &&& !f.0.contains(' ')
    &&& !f.0.contains('\t')
    &&& !f.0.contains(':')
    &&& !f.0.contains('\r')
    &&& !f.1.contains('\r')
}

/// Whether a word may stand in a request line.
pub open spec fn is_word(s: Seq<char>) -> bool {
    s.len() > 0 && !s.contains(' ') && !s.contains('\r')
}

/// Whether lines have no carriage return in them, and none but the first is
/// empty.
pub open spec fn are_plain(ls: Seq<Seq<char>>) -> bool {
    &&& forall|i: int| 0 <= i < ls.len() ==> !(#[trigger] ls[i]).contains('\r')
    &&& forall|i: int| 1 <= i < ls.len() ==> (#[trigger] ls[i]).len() > 0
}

/// Plain lines after the first are plain.
proof fn lemma_plain_rest(ls: Seq<Seq<char>>)
    requires
        are_plain(ls),
        ls.len() > 0,
    ensures
        are_plain(ls.skip(1)),
{
    let rest = ls.skip(1);
    assert forall|i: int| 0 <= i < rest.len() implies !(#[trigger] rest[i]).contains('\r') by {
        assert(rest[i] == ls[i + 1]);
    }
    assert forall|i: int| 1 <= i < rest.len() implies (#[trigger] rest[i]).len() > 0 by {
        assert(rest[i] == ls[i + 1]);
    }
}

/// Lines that were put together come apart again.
proof fn lemma_lines_of_broken(ls: Seq<Seq<char>>)
    requires
        are_plain(ls),
        ls.len() > 0,
    ensures
        lines(broken(ls)) == ls,
    decreases ls.len(),
{
    let s = broken(ls);
    let first = ls[0];
    let n = first.len() as int;
    lemma_line_len(s);
    let m = line_len(s);
    assert(!first.contains('\r'));
    if ls.len() == 1 {
        if m < s.len() {
            assert(first.contains(s[m]));
        }
        assert(lines(s) =~= ls);
    } else {
        let rest = ls.skip(1);
        assert(s[n] == '\r' && s[n + 1] == '\n');
        if m < n {
            assert(s[m] == first[m]);
            assert(first.contains(first[m]));
        }
        assert(m == n);
        assert(s.take(n) =~= first);
        assert(s.skip(n + 2) =~= broken(rest));
        lemma_plain_rest(ls);
        lemma_lines_of_broken(rest);
        assert(lines(s) =~= seq![first] + rest);
        assert(seq![first] + rest =~= ls);
    }
}

/// Whether every carriage return in a text is part of a line break, and
/// something follows that is no carriage return.
pub open spec fn is_spaced(t: Seq<char>) -> bool {
    forall|i: int|
        0 <= i < t.len() && #[trigger] t[i] == '\r' ==> i + 2 < t.len() && t[i + 1] == '\n' && t[i
            + 2] != '\r'
}

/// Lines that were put together are spaced.
proof fn lemma_broken_is_spaced(ls: Seq<Seq<char>>)
    requires
        are_plain(ls),
        ls.len() > 0,
    ensures
        is_spaced(broken(ls)),
    decreases ls.len(),
{
    let s = broken(ls);
    let first = ls[0];
    let n = first.len() as int;
    assert(!first.contains('\r'));
    if ls.len() > 1 {
        let rest = ls.skip(1);
        let more = broken(rest);
        lemma_plain_rest(ls);
        lemma_broken_is_spaced(rest);
        assert(rest[0] == ls[1]);
        assert(rest[0].len() > 0 && !rest[0].contains('\r'));
        assert(more[0] == rest[0][0]);
        assert(rest[0].contains(rest[0][0]));
        assert forall|i: int| 0 <= i < s.len() && #[trigger] s[i] == '\r' implies i + 2 < s.len()
            && s[i + 1] == '\n' && s[i + 2] != '\r' by {
            if i < n {
                assert(first.contains(first[i]));
            } else if i > n + 1 {
                assert(s[i] == more[i - n - 2]);
                assert(s[i + 1] == more[i + 1 - n - 2]);
                assert(s[i + 2] == more[i + 2 - n - 2]);
            } else if i == n {
                assert(s[i + 2] == more[0]);
            }
        }
    } else {
        assert forall|i: int| 0 <= i < s.len() && #[trigger] s[i] == '\r' implies false by {
            assert(first.contains(first[i]));
        }
    }
}

/// The bytes of a character: itself, if it is ASCII; else none of them is.
proof fn lemma_bytes_of_char(c: char)
    ensures
        c <= '\u{7f}' ==> encode_scalar(c as u32).len() == 1 && encode_scalar(c as u32)[0]
            == c as int,
        encode_scalar(c as u32).len() > 0,
        c > '\u{7f}' ==> forall|i: int|
            0 <= i < encode_scalar(c as u32).len() ==> #[trigger] encode_scalar(c as u32)[i]
                >= 128,
{
    let u = c as u32;
    if has_width_1_encoding(u) {
        assert(leading_byte_width_1(u) == u as u8) by (bit_vector)
            requires
                has_width_1_encoding(u),
        ;
        assert(encode_scalar(u) =~= seq![u as u8]);
    } else {
        assert(leading_byte_width_2(u) >= 128) by (bit_vector);
        assert(leading_byte_width_3(u) >= 128) by (bit_vector);
        assert(leading_byte_width_4(u) >= 128) by (bit_vector);
        assert(last_continuation_byte(u) >= 128) by (bit_vector);
        assert(second_last_continuation_byte(u) >= 128) by (bit_vector);
        assert(third_last_continuation_byte(u) >= 128) by (bit_vector);
    }
}

/// An ASCII byte in the encoding of a text is one of its characters.
pub proof fn lemma_ascii_byte(t: Seq<char>, j: int) -> (i: int)
    requires
        0 <= j < encode_utf8(t).len(),
        encode_utf8(t)[j] < 128,
    ensures
        0 <= i < t.len(),
        t[i] as int == encode_utf8(t)[j],
        encode_utf8(t.take(i)).len() == j,
    decreases t.len(),
{
    let head = encode_scalar(t[0] as u32);
    let rest = t.drop_first();
    lemma_bytes_of_char(t[0]);
    if j < head.len() {
        assert(encode_utf8(t)[j] == head[j]);
        assert(t.take(0) =~= seq![]);
        assert(encode_utf8(t.take(0)) =~= seq![]);
        0
    } else {
        assert(encode_utf8(t)[j] == encode_utf8(rest)[j - head.len()]);
        let i = lemma_ascii_byte(rest, j - head.len());
        assert(t.take(i + 1).drop_first() =~= rest.take(i));
        assert(t.take(i + 1)[0] == t[0]);
        i + 1
    }
}

/// The byte at which a character begins.
proof fn lemma_byte_at(t: Seq<char>, i: int)
    requires
        0 <= i < t.len(),
    ensures
        encode_utf8(t.take(i)).len() < encode_utf8(t).len(),
        encode_utf8(t)[encode_utf8(t.take(i)).len() as int] == encode_scalar(t[i] as u32)[0],
        encode_utf8(t.take(i + 1)).len() == encode_utf8(t.take(i)).len() + encode_scalar(
            t[i] as u32,
        ).len(),
{
    assert(t =~= t.take(i) + t.skip(i));
    lemma_encode_concat(t.take(i), t.skip(i));
    lemma_bytes_of_char(t[i]);
    assert(t.skip(i)[0] == t[i]);
    assert(t.take(i + 1) =~= t.take(i) + seq![t[i]]);
    lemma_encode_concat(t.take(i), seq![t[i]]);
    assert(seq![t[i]].drop_first() =~= seq![]);
    assert(encode_utf8(Seq::<char>::empty()) =~= seq![]);
    assert(encode_utf8(seq![t[i]]) =~= encode_scalar(t[i] as u32));
}

/// In a spaced text no blank line begins before its end, even where one
/// follows.
proof fn lemma_no_blank_line(t: Seq<char>, rest: Seq<u8>, j: int)
    requires
        is_spaced(t),
        0 <= j < encode_utf8(t).len(),
    ensures
        !occurs_at(encode_utf8(t) + blank_line() + rest, blank_line(), j),
{
    let e = encode_utf8(t);
    let all = e + blank_line() + rest;
    if occurs_at(all, blank_line(), j) {
        let found = all.subrange(j, j + 4);
        assert(found[0] == 13 && found[2] == 13);
        assert(all[j] == 13 && all[j + 2] == 13);
        assert(e[j] == 13);
        let i = lemma_ascii_byte(t, j);
        assert(t[i] == '\r');
        lemma_byte_at(t, i);
        lemma_bytes_of_char(t[i]);
        lemma_byte_at(t, i + 1);
        lemma_bytes_of_char(t[i + 1]);
        lemma_byte_at(t, i + 2);
        lemma_bytes_of_char(t[i + 2]);
        assert(e[j + 2] == encode_scalar(t[i + 2] as u32)[0]);
        assert(e[j + 2] == 13);
        assert(t[i + 2] as int == 13);
    }
}

/// A line of three words is cut into them.
proof fn lemma_three_words(a: Seq<char>, b: Seq<char>, c: Seq<char>)
    requires
        !a.contains(' '),
        !b.contains(' '),
        !c.contains(' '),
    ensures
        split(a + seq![' '] + b + seq![' '] + c, ' ') == seq![a, b, c],
{
    let s = a + seq![' '] + b + seq![' '] + c;
    let s2 = b + seq![' '] + c;
    lemma_word_ends(a, s2);
    lemma_word_ends(b, c);
    assert(s =~= a + seq![' '] + s2);
    assert forall|i: int| 0 <= i < c.len() implies Class::Not(' ').holds(#[trigger] c[i]) by {
        assert(c.contains(c[i]));
    }
    lemma_lead_is(c, Class::Not(' '), c.len() as int);
    assert(split(c, ' ') =~= seq![c]);
    assert(split(s2, ' ') =~= seq![b, c]);
    assert(split(s, ' ') =~= seq![a, b, c]);
}

/// The first word of a line is cut off at the blank behind it.
proof fn lemma_word_ends(a: Seq<char>, rest: Seq<char>)
    requires
        !a.contains(' '),
    ensures
        split(a + seq![' '] + rest, ' ') == seq![a] + split(rest, ' '),
{
    let s = a + seq![' '] + rest;
    let n = a.len() as int;
    assert forall|i: int| 0 <= i < n implies Class::Not(' ').holds(#[trigger] s[i]) by {
        assert(s[i] == a[i]);
        assert(a.contains(a[i]));
    }
    assert(s[n] == ' ');
    lemma_lead_is(s, Class::Not(' '), n);
    assert(s.take(n) =~= a);
    assert(s.skip(n + 1) =~= rest);
}

/// A header field is read as it was written.
proof fn lemma_field_line(f: WrittenField)
    requires
        is_writable_field(f),
    ensures
        field_of(field_line(f)) == Some((lower(f.0), trimmed(f.1))),
{
    let s = field_line(f);
    let n = f.0.len() as int;
    assert forall|i: int| 0 <= i < n implies Class::Not(':').holds(#[trigger] s[i]) by {
        assert(s[i] == f.0[i]);
        assert(f.0.contains(f.0[i]));
    }
    assert(s[n] == ':');
    lemma_lead_is(s, Class::Not(':'), n);
    assert(s.take(n) =~= f.0);
    assert(s.skip(n + 1) =~= f.1);
}

/// The header fields are read as they were written.
proof fn lemma_field_lines(fields: Seq<WrittenField>)
    requires
        forall|i: int| 0 <= i < fields.len() ==> is_writable_field(#[trigger] fields[i]),
    ensures
        fields_of(fields.map_values(|f: WrittenField| field_line(f))) == Some(values_of(fields)),
    decreases fields.len(),
{
    let ls = fields.map_values(|f: WrittenField| field_line(f));
    if fields.len() > 0 {
        let front = fields.drop_last();
        assert forall|i: int| 0 <= i < front.len() implies is_writable_field(
            #[trigger] front[i],
        ) by {
            assert(front[i] == fields[i]);
        }
        lemma_field_lines(front);
        assert(ls.drop_last() =~= front.map_values(|f: WrittenField| field_line(f)));
        lemma_field_line(fields.last());
    }
}

/// A request line and headers that a client writes are read as they were
/// written, whatever follows the blank line behind them; if they have more
/// bytes than the bound, they are refused.
pub proof fn law_requests_are_read_as_written(
    method: Seq<char>,
    target: Seq<char>,
    version: Seq<char>,
    fields: Seq<WrittenField>,
    rest: Seq<u8>,
)
    requires
        is_word(method),
        is_word(target),
        is_word(version),
        begins(version, "HTTP/"@),
        forall|i: int| 0 <= i < fields.len() ==> is_writable_field(#[trigger] fields[i]),
    ensures
        ({
            let written = encode_utf8(broken(head_lines(method, target, version, fields)));
            head_in(written + blank_line() + rest) == if written.len() > MAX_HEAD_BYTES {
                HeadOutcome::Bad(400)
            } else {
                HeadOutcome::Complete(
                    HeadView {
                        method,
                        path: decoded_path(before(target, '?')),
                        query: match split_first(target, '?') {
                            Some((_, query)) => query,
                            None => seq![],
                        },
                        version,
                        headers: values_of(fields),
                        head_len: written.len() as int + 4,
                    },
                )
            }
        }),
{
    let ls = head_lines(method, target, version, fields);
    let first = method + seq![' '] + target + seq![' '] + version;
    let t = broken(ls);
    let e = encode_utf8(t);
    let n = e.len() as int;
    let all = e + blank_line() + rest;
    assert(are_plain(ls)) by {
        assert forall|i: int| 0 <= i < ls.len() implies !(#[trigger] ls[i]).contains('\r') by {
            if i == 0 {
                assert forall|k: int| 0 <= k < first.len() implies #[trigger] first[k] != '\r' by {
                    let a = method.len() as int;
                    let b = target.len() as int;
                    if k < a {
                        assert(method.contains(method[k]));
                    } else if a < k < a + 1 + b {
                        assert(first[k] == target[k - a - 1]);
                        assert(target.contains(target[k - a - 1]));
                    } else if k > a + 1 + b {
                        assert(first[k] == version[k - a - b - 2]);
                        assert(version.contains(version[k - a - b - 2]));
                    }
                }
                assert(ls[0] == first);
            } else {
                let f = fields[i - 1];
                assert(is_writable_field(f));
                assert(ls[i] == field_line(f));
                assert forall|k: int| 0 <= k < field_line(f).len() implies #[trigger] field_line(
                    f,
                )[k] != '\r' by {
                    if k < f.0.len() {
                        assert(f.0.contains(f.0[k]));
                    } else if k > f.0.len() {
                        assert(field_line(f)[k] == f.1[k - f.0.len() - 1]);
                        assert(f.1.contains(f.1[k - f.0.len() - 1]));
                    }
                }
            }
        }
        assert forall|i: int| 1 <= i < ls.len() implies (#[trigger] ls[i]).len() > 0 by {
            assert(ls[i] == field_line(fields[i - 1]));
        }
    }
    lemma_broken_is_spaced(ls);
    lemma_lines_of_broken(ls);
    assert forall|j: int| 0 <= j < n implies !occurs_at(all, blank_line(), j) by {
        lemma_no_blank_line(t, rest, j);
    }
    assert(all.subrange(n, n + 4) =~= blank_line());
    lemma_first_at_is(all, blank_line(), 0, n);
    assert(all.take(n) =~= e);
    encode_utf8_valid_utf8(t);
    encode_utf8_decode_utf8(t);
    assert(text_in(e) == Some(t));
    lemma_three_words(method, target, version);
    assert(ls[0] == first);
    assert(ls.skip(1) =~= fields.map_values(|f: WrittenField| field_line(f)));
    lemma_field_lines(fields);
}

} // verus!
