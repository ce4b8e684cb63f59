//! Where requests end, and which of them cannot be read.

use super::multipart::{
    base_name, delimiter, delimiter_in, filename_in, is_boundary, part_in, unbroken,
};
use super::request::{
    blank_line, body_in, chunk_size, crlf, field_of, fields_of, framing, head_in, head_in_text,
    hex_digit, trailer_end, unescaped, BodyMode, BodyOutcome, HeadOutcome,
};
use super::request_laws::{data_of, in_chunks, lemma_chunks_pass, lemma_line_ends, size_line, Chunk};
use crate::bytes::{all_at, first_at, lemma_first_at, lemma_first_at_is, occurs_at};
use crate::number_laws::{law_decimals_are_read, law_unsigned_numbers};
use crate::numbers::{all_digits, decimal, is_digit, number, unsigned};
use crate::text::{
    begins, first_in, is_space, joined, lemma_tail_is, lines, lower, split, trim_both, trimmed,
    Class,
};
use crate::text_laws::{
    is_blank, law_first_cut, law_joining_is_undone_by_cutting, law_padding_is_trimmed,
};
use crate::utf8::{lossy_text, readable, text_in};
use vstd::prelude::*;
use vstd::utf8::{encode_utf8, encode_utf8_decode_utf8, encode_utf8_valid_utf8, valid_utf8};

verus! {

/// A request without a body has none: nothing in its headers says that one
/// follows, or the length that they give is zero.
pub proof fn law_lengths_frame_bodies(
    headers: Map<Seq<char>, Seq<char>>,
    n: usize,
    a: Seq<char>,
    b: Seq<char>,
)
    requires
        !headers.contains_key("transfer-encoding"@),
        is_blank(a),
        is_blank(b),
    ensures
        !headers.contains_key("content-length"@) ==> framing(headers) == Ok::<BodyMode, u16>(
            BodyMode::Empty,
        ),
        n == 0 ==> framing(headers.insert("content-length"@, a + decimal(n as nat) + b)) == Ok::<
            BodyMode,
            u16,
        >(BodyMode::Empty),
        n > 0 ==> framing(headers.insert("content-length"@, a + decimal(n as nat) + b)) == Ok::<
            BodyMode,
            u16,
        >(BodyMode::Length(n)),
{
    lemma_field_names();
    let d = decimal(n as nat);
    law_decimals_are_read(n as nat);
    assert(is_digit(d[0], 10) && is_digit(d[d.len() - 1], 10));
    law_padding_is_trimmed(a, d, b);
    law_unsigned_numbers(d, 10, usize::MAX as int);
}

/// A length that is no number, or is too large for one, is a bad request.
pub proof fn law_bad_lengths_are_refused(headers: Map<Seq<char>, Seq<char>>)
    requires
        !headers.contains_key("transfer-encoding"@),
        headers.contains_key("content-length"@),
        unsigned(trimmed(headers["content-length"@]), 10, usize::MAX as int) is None,
    ensures
        framing(headers) == Err::<BodyMode, u16>(400),
{
}

proof fn lemma_field_names()
    ensures
        "transfer-encoding"@ != "content-length"@,
{
    reveal_strlit("transfer-encoding");
    reveal_strlit("content-length");
    assert("transfer-encoding"@.len() == 17);
    assert("content-length"@.len() == 14);
}

/// A body comes in chunks if `chunked` is among the codings that it is sent in;
/// any other coding is a bad request.
pub proof fn law_codings_frame_bodies(
    headers: Map<Seq<char>, Seq<char>>,
    codings: Seq<Seq<char>>,
)
    requires
        codings.len() > 0,
        forall|i: int| 0 <= i < codings.len() ==> !(#[trigger] codings[i]).contains(','),
        headers.contains_key("transfer-encoding"@),
        lower(headers["transfer-encoding"@]) == joined(codings, seq![',']),
    ensures
        (exists|i: int| 0 <= i < codings.len() && trimmed(#[trigger] codings[i]) == "chunked"@)
            ==> framing(headers) == Ok::<BodyMode, u16>(BodyMode::Chunked),
        !(exists|i: int| 0 <= i < codings.len() && trimmed(#[trigger] codings[i]) == "chunked"@)
            ==> framing(headers) == Err::<BodyMode, u16>(400),
{
    law_joining_is_undone_by_cutting(codings, ',');
    let te = headers["transfer-encoding"@];
    assert(split(lower(te), ',') == codings);
    if exists|i: int| 0 <= i < codings.len() && trimmed(#[trigger] codings[i]) == "chunked"@ {
        let i = choose|i: int| 0 <= i < codings.len() && trimmed(#[trigger] codings[i])
            == "chunked"@;
        assert(trimmed(split(lower(te), ',')[i]) == "chunked"@);
    }
}

/// A body of a given length is the bytes that follow, as many as that; until
/// they are there more is waited for, and what comes behind them is left.
pub proof fn law_bodies_of_a_length(body: Seq<u8>, rest: Seq<u8>, n: usize, max: int)
    requires
        n <= max,
    ensures
        body.len() == n ==> body_in(body + rest, BodyMode::Length(n), max) == (
        BodyOutcome::Complete { body, consumed: n as int }),
        body.len() < n ==> body_in(body, BodyMode::Length(n), max) == BodyOutcome::NeedMore,
        body_in(rest, BodyMode::Empty, max) == (BodyOutcome::Complete {
            body: Seq::<u8>::empty(),
            consumed: 0,
        }),
{
    if body.len() == n {
        assert((body + rest).take(n as int) =~= body);
    }
}

/// The size of a chunk stands in hexadecimal digits at the front of its line;
/// what follows a semicolon does not count.
pub proof fn law_chunk_sizes(
    a: Seq<char>,
    digits: Seq<char>,
    b: Seq<char>,
    more: Seq<char>,
    line: Seq<u8>,
)
    requires
        digits.len() > 0,
        all_digits(digits, 16),
        is_blank(a),
        is_blank(b),
    ensures
        number(digits, 16) <= usize::MAX ==> chunk_size(encode_utf8(a + digits + b)) == Some(
            number(digits, 16),
        ) && chunk_size(encode_utf8(a + digits + b + seq![';'] + more)) == Some(
            number(digits, 16),
        ),
        number(digits, 16) > usize::MAX ==> chunk_size(encode_utf8(a + digits + b)) is None,
        !valid_utf8(line) ==> chunk_size(line) is None,
{
    let s = a + digits + b;
    let t = s + seq![';'] + more;
    encode_utf8_valid_utf8(s);
    encode_utf8_decode_utf8(s);
    encode_utf8_valid_utf8(t);
    encode_utf8_decode_utf8(t);
    assert(is_digit(digits[0], 16) && is_digit(digits[digits.len() - 1], 16));
    assert(!s.contains(';')) by {
        assert forall|i: int| 0 <= i < s.len() implies #[trigger] s[i] != ';' by {
            if i < a.len() {
                assert(is_space(a[i]));
            } else if i < a.len() + digits.len() {
                assert(s[i] == digits[i - a.len()]);
                assert(is_digit(digits[i - a.len()], 16));
            } else {
                assert(s[i] == b[i - a.len() - digits.len()]);
                assert(is_space(b[i - a.len() - digits.len()]));
            }
        }
    }
    law_first_cut(s, more, s, ';');
    law_padding_is_trimmed(a, digits, b);
    law_unsigned_numbers(digits, 16, usize::MAX as int);
}

/// A chunk with a size line that cannot be read, or without a line break behind
/// its data, makes a bad request; one that is not all there is waited for.
pub proof fn law_broken_chunks(
    chunks: Seq<Chunk>,
    line: Seq<u8>,
    bad: Seq<u8>,
    data: Seq<u8>,
    part: Seq<u8>,
    rest: Seq<u8>,
    max: int,
)
    requires
        forall|i: int| 0 <= i < chunks.len() ==> (#[trigger] chunks[i]).wf(),
        data_of(chunks).len() <= max,
        !bad.contains(13),
        chunk_size(bad) is None,
        data.len() > 0,
        size_line(line, data.len() as int),
        data_of(chunks).len() + data.len() <= max,
        part.len() < data.len() + 2,
        rest.len() >= 2,
        rest.take(2) != crlf(),
    ensures
        body_in(in_chunks(chunks) + bad + crlf() + rest, BodyMode::Chunked, max)
            == BodyOutcome::Bad(400),
        body_in(in_chunks(chunks) + line + crlf() + data + rest, BodyMode::Chunked, max)
            == BodyOutcome::Bad(400),
        body_in(in_chunks(chunks) + line + crlf() + part, BodyMode::Chunked, max)
            == BodyOutcome::NeedMore,
        body_in(in_chunks(chunks) + bad, BodyMode::Chunked, max) == BodyOutcome::NeedMore,
{
    let pos = in_chunks(chunks).len() as int;
    let n = bad.len() as int;
    let m = line.len() as int;
    assert(seq![] + data_of(chunks) =~= data_of(chunks));
    let a = in_chunks(chunks) + bad + crlf() + rest;
    assert(a.skip(0) =~= in_chunks(chunks) + (bad + crlf() + rest));
    lemma_chunks_pass(a, 0, seq![], chunks, bad + crlf() + rest, max);
    assert(a.subrange(pos, pos + n) =~= bad);
    assert(a.subrange(pos + n, pos + n + 2) =~= crlf());
    lemma_line_ends(a, pos, bad);
    let b = in_chunks(chunks) + line + crlf() + data + rest;
    assert(b.skip(0) =~= in_chunks(chunks) + (line + crlf() + data + rest));
    lemma_chunks_pass(b, 0, seq![], chunks, line + crlf() + data + rest, max);
    assert(b.subrange(pos, pos + m) =~= line);
    assert(b.subrange(pos + m, pos + m + 2) =~= crlf());
    lemma_line_ends(b, pos, line);
    assert(b.subrange(pos + m + 2 + data.len(), pos + m + 2 + data.len() + 2) =~= rest.take(2));
    let c = in_chunks(chunks) + line + crlf() + part;
    assert(c.skip(0) =~= in_chunks(chunks) + (line + crlf() + part));
    lemma_chunks_pass(c, 0, seq![], chunks, line + crlf() + part, max);
    assert(c.subrange(pos, pos + m) =~= line);
    assert(c.subrange(pos + m, pos + m + 2) =~= crlf());
    lemma_line_ends(c, pos, line);
    let d = in_chunks(chunks) + bad;
    assert(d.skip(0) =~= in_chunks(chunks) + bad);
    lemma_chunks_pass(d, 0, seq![], chunks, bad, max);
    assert forall|j: int| pos <= j implies !occurs_at(d, crlf(), j) by {
        if occurs_at(d, crlf(), j) {
            assert(d.subrange(j, j + 2)[0] == 13);
            assert(bad[j - pos] == 13);
        }
    }
    crate::bytes::lemma_first_at_none(d, crlf(), pos);
}

/// Lines of a trailer, each with a line break behind it.
pub open spec fn trailer(list: Seq<Seq<u8>>) -> Seq<u8>
    decreases list.len(),
{
    if list.len() == 0 {
        seq![]
    } else {
        list[0] + crlf() + trailer(list.skip(1))
    }
}

/// The lines behind the last chunk are passed over, up to the empty one that
/// ends the body.
pub proof fn law_trailers_are_passed_over(buf: Seq<u8>, pos: int, list: Seq<Seq<u8>>)
    requires
        0 <= pos,
        pos + trailer(list).len() + 2 <= buf.len(),
        buf.subrange(pos, pos + trailer(list).len()) == trailer(list),
        buf.subrange(pos + trailer(list).len(), pos + trailer(list).len() + 2) == crlf(),
        forall|i: int|
            0 <= i < list.len() ==> (#[trigger] list[i]).len() > 0 && !list[i].contains(13),
    ensures
        trailer_end(buf, pos) == Some(pos + trailer(list).len() + 2),
    decreases list.len(),
{
    if list.len() == 0 {
        lemma_first_at_is(buf, crlf(), pos, pos);
    } else {
        let line = list[0];
        let rest = list.skip(1);
        let n = line.len() as int;
        let all = trailer(list);
        let t = trailer(rest);
        assert(all == line + crlf() + t);
        assert(buf.subrange(pos, pos + n) =~= all.take(n));
        assert(all.take(n) =~= line);
        assert(buf.subrange(pos + n, pos + n + 2) =~= all.subrange(n, n + 2));
        assert(all.subrange(n, n + 2) =~= crlf());
        lemma_line_ends(buf, pos, line);
        assert(buf.subrange(pos + n + 2, pos + n + 2 + t.len()) =~= all.skip(n + 2));
        assert(all.skip(n + 2) =~= t);
        assert forall|i: int| 0 <= i < rest.len() implies (#[trigger] rest[i]).len() > 0
            && !rest[i].contains(13) by {
            assert(rest[i] == list[i + 1]);
        }
        law_trailers_are_passed_over(buf, pos + n + 2, rest);
        lemma_first_at(buf, crlf(), pos);
    }
}

/// Headers are waited for as long as no blank line has come and 65536 bytes
/// have not been passed; beyond that they are refused.
pub proof fn law_headers_are_waited_for(buf: Seq<u8>)
    requires
        forall|j: int| 0 <= j ==> !occurs_at(buf, seq![13u8, 10, 13, 10], j),
    ensures
        buf.len() <= 65536 ==> head_in(buf) == HeadOutcome::NeedMore,
        buf.len() > 65536 ==> head_in(buf) == HeadOutcome::Bad(400),
{
    crate::bytes::lemma_first_at_none(buf, blank_line(), 0);
}

/// Headers that are no text are refused.
pub proof fn law_headers_are_text(head: Seq<u8>, rest: Seq<u8>)
    requires
        first_at(head + blank_line() + rest, blank_line(), 0) == Some(head.len() as int),
        !valid_utf8(head),
    ensures
        head_in(head + blank_line() + rest) == HeadOutcome::Bad(400),
{
    assert((head + blank_line() + rest).take(head.len() as int) =~= head);
}

/// A request line has three words, none of the first two empty, and the third
/// is a version of HTTP; any other is refused, whatever the fields are.
pub proof fn law_request_lines_have_three_words(text: Seq<char>, n: int)
    ensures
        ({
            let words = split(lines(text)[0], ' ');
            words.len() != 3 || words[0].len() == 0 || words[1].len() == 0 || !begins(
                words[2],
                "HTTP/"@,
            ) ==> head_in_text(text, n) == HeadOutcome::Bad(400)
        }),
{
}

/// A field is a name, a colon and a value. The name counts in small letters,
/// the value without the white space around it. A line without a colon, with an
/// empty name, or with a blank or a tab in its name, is no field.
pub proof fn law_fields_have_names(name: Seq<char>, value: Seq<char>, line: Seq<char>)
    requires
        !name.contains(':'),
        !line.contains(':'),
    ensures
        name.len() > 0 && !name.contains(' ') && !name.contains('\t') ==> field_of(
            name + seq![':'] + value,
        ) == Some((lower(name), trimmed(value))),
        name.len() == 0 || name.contains(' ') || name.contains('\t') ==> field_of(
            name + seq![':'] + value,
        ) is None,
        field_of(line) is None,
{
    law_first_cut(name, value, line, ':');
}

/// A request with a line that is no field is refused; of fields with one name
/// the last counts.
pub proof fn law_every_line_is_a_field(ls: Seq<Seq<char>>, line: Seq<char>, i: int)
    ensures
        0 <= i < ls.len() && field_of(ls[i]) is None ==> fields_of(ls) is None,
        fields_of(seq![]) == Some(Map::<Seq<char>, Seq<char>>::empty()),
        fields_of(ls) is Some && field_of(line) is Some ==> fields_of(ls.push(line)) == Some(
            (fields_of(ls)->0).insert((field_of(line)->0).0, (field_of(line)->0).1),
        ),
    decreases ls.len(),
{
    assert(ls.push(line).drop_last() =~= ls);
    if 0 <= i < ls.len() - 1 && field_of(ls[i]) is None {
        law_every_line_is_a_field(ls.drop_last(), line, i);
    }
}

/// A percent sign and two hexadecimal digits stand for a byte, in either case;
/// anything else stands for itself.
pub proof fn law_escapes_stand_for_bytes(hi: u8, lo: u8, c: u8, rest: Seq<u8>)
    ensures
        hex_digit(hi) is Some && hex_digit(lo) is Some ==> unescaped(seq![37u8, hi, lo] + rest)
            == seq![(hex_digit(hi)->0 * 16 + hex_digit(lo)->0) as u8] + unescaped(rest),
        hex_digit(hi) is None || hex_digit(lo) is None ==> unescaped(seq![37u8, hi, lo] + rest)
            == seq![37u8] + unescaped(seq![hi, lo] + rest),
        c != 37 ==> unescaped(seq![c] + rest) == seq![c] + unescaped(rest),
        '0' as int <= c <= '9' as int ==> hex_digit(c) == Some((c - 48) as u8),
        'a' as int <= c <= 'f' as int ==> hex_digit(c) == Some((c - 97 + 10) as u8),
        'A' as int <= c <= 'F' as int ==> hex_digit(c) == Some((c - 65 + 10) as u8),
        !('0' as int <= c <= '9' as int) && !('a' as int <= c <= 'f' as int) && !('A' as int <= c
            <= 'F' as int) ==> hex_digit(c) is None,
{
    let e = seq![37u8, hi, lo] + rest;
    assert(e.skip(3) =~= rest);
    assert(e.skip(1) =~= seq![hi, lo] + rest);
    assert((seq![c] + rest).skip(1) =~= rest);
}

/// Forms are known by their content type, in any case, and their parts by the
/// first boundary among its parameters, with quotes around it or without.
pub proof fn law_forms_have_a_boundary(
    params: Seq<Seq<char>>,
    i: int,
    key: Seq<char>,
    boundary: Seq<char>,
    other: Seq<char>,
)
    requires
        0 < i < params.len(),
        forall|j: int| 0 <= j < params.len() ==> !(#[trigger] params[j]).contains(';'),
        begins(lower(joined(params, seq![';'])), "multipart/form-data"@),
        forall|j: int| 0 <= j < i ==> !begins(lower(trimmed(#[trigger] params[j])), "boundary="@),
        lower(key) == "boundary="@,
        boundary.len() > 0,
        !boundary.contains('"'),
        trimmed(params[i]) == key + boundary || trimmed(params[i]) == key + seq!['"'] + boundary
            + seq!['"'],
        !begins(lower(other), "multipart/form-data"@),
    ensures
        delimiter(joined(params, seq![';'])) == Some("--"@ + boundary),
        delimiter(other) is None,
{
    law_joining_is_undone_by_cutting(params, ';');
    reveal_strlit("boundary=");
    assert("boundary="@.len() == 9);
    assert(key.len() == 9) by {
        assert(lower(key).len() == key.len());
    }
    let p = trimmed(params[i]);
    assert(lower(p).take(9) =~= lower(key));
    let v = p.skip(9);
    if p == key + boundary {
        assert(v =~= boundary);
        lemma_unquoted_ends(boundary);
    } else {
        assert(v =~= seq!['"'] + boundary + seq!['"']);
        lemma_unquoted_ends(boundary);
    }
    lemma_first_boundary(params, i);
}

proof fn lemma_unquoted_ends(s: Seq<char>)
    requires
        s.len() > 0,
        !s.contains('"'),
    ensures
        trim_both(s, Class::Only('"')) == s,
        trim_both(seq!['"'] + s + seq!['"'], Class::Only('"')) == s,
{
    assert(s.contains(s[0]) && s.contains(s.last()));
    crate::text::lemma_lead_is(s, Class::Only('"'), 0);
    assert(s.skip(0) =~= s);
    lemma_tail_is(s, Class::Only('"'), 0);
    assert(s.take(s.len() as int) =~= s);
    let q = seq!['"'] + s + seq!['"'];
    assert(q[1] == s[0]);
    crate::text::lemma_lead_is(q, Class::Only('"'), 1);
    let t = q.skip(1);
    assert(t =~= s + seq!['"']);
    assert(t[t.len() - 2] == s.last());
    lemma_tail_is(t, Class::Only('"'), 1);
    assert(t.take(t.len() - 1) =~= s);
}

proof fn lemma_first_boundary(params: Seq<Seq<char>>, i: int)
    requires
        0 <= i < params.len(),
        forall|j: int| 0 <= j < i ==> !is_boundary(#[trigger] params[j]),
        is_boundary(params[i]),
    ensures
        delimiter_in(params) == Some(
            "--"@ + trim_both(trimmed(params[i]).skip(9), Class::Only('"')),
        ),
    decreases i,
{
    if i > 0 {
        let rest = params.skip(1);
        assert(rest[i - 1] == params[i]);
        assert forall|j: int| 0 <= j < i - 1 implies !is_boundary(#[trigger] rest[j]) by {
            assert(rest[j] == params[j + 1]);
        }
        assert(!is_boundary(params[0]));
        lemma_first_boundary(rest, i - 1);
    }
}

/// A file of a form is saved under what stands behind the last separator of
/// its name, without white space around it; a name for a directory itself is no
/// name.
pub proof fn law_base_names(dir: Seq<char>, sep: char, name: Seq<char>)
    requires
        sep == '/' || sep == '\\',
        !name.contains('/'),
        !name.contains('\\'),
    ensures
        trimmed(name) != "."@ && trimmed(name) != ".."@ ==> base_name(dir + seq![sep] + name)
            == trimmed(name) && base_name(name) == trimmed(name),
        trimmed(name) == "."@ || trimmed(name) == ".."@ ==> base_name(dir + seq![sep] + name).len()
            == 0 && base_name(name).len() == 0,
{
    let all = dir + seq![sep] + name;
    let n = name.len() as int;
    assert forall|i: int| all.len() - n <= i < all.len() implies Class::Segment.holds(
        #[trigger] all[i],
    ) by {
        assert(all[i] == name[i - dir.len() - 1]);
        assert(name.contains(name[i - dir.len() - 1]));
    }
    assert(all[all.len() - n - 1] == sep);
    lemma_tail_is(all, Class::Segment, n);
    assert(all.skip(all.len() - n) =~= name);
    assert forall|i: int| 0 <= i < n implies Class::Segment.holds(#[trigger] name[i]) by {
        assert(name.contains(name[i]));
    }
    lemma_tail_is(name, Class::Segment, n);
    assert(name.skip(0) =~= name);
}

/// Every occurrence of a delimiter in a body is found, or runs into one that
/// is.
pub proof fn law_all_occurrences_are_found(hay: Seq<u8>, needle: Seq<u8>, start: int, j: int)
    requires
        0 <= start <= j,
        needle.len() > 0,
        occurs_at(hay, needle, j),
    ensures
        exists|i: int|
            0 <= i < all_at(hay, needle, start).len() && #[trigger] all_at(hay, needle, start)[i]
                <= j < all_at(hay, needle, start)[i] + needle.len(),
    decreases hay.len() - start,
{
    lemma_first_at(hay, needle, start);
    let i = first_at(hay, needle, start)->0;
    let all = all_at(hay, needle, start);
    assert(i <= j);
    if j < i + needle.len() {
        assert(all[0] == i);
    } else {
        let next = i + needle.len();
        law_all_occurrences_are_found(hay, needle, next, j);
        let rest = all_at(hay, needle, next);
        assert(all == seq![i] + rest);
        let k = choose|k: int| 0 <= k < rest.len() && #[trigger] rest[k] <= j < rest[k]
            + needle.len();
        assert(all[k + 1] == rest[k]);
    }
}

/// A part of a form that has no file name, or none to save it under, or no
/// blank line, is passed over.
pub proof fn law_parts_without_a_file(seg: Seq<u8>)
    ensures
        occurs_at(seg, seq![45u8, 45u8], 0) ==> part_in(seg) is None,
        first_at(unbroken(seg), blank_line(), 0) is None ==> part_in(seg) is None,
        part_in(seg) matches Some(p) ==> p.name.len() > 0,
{
}

/// A file name without quotes goes up to the next quote; header fields without
/// the parameter name no file.
pub proof fn law_bare_names_are_found(front: Seq<char>, name: Seq<char>, rest: Seq<char>)
    requires
        name.len() > 0,
        !name.contains('"'),
        rest.len() > 0 ==> rest[0] == '"',
        first_in(lower(front + "filename="@ + name + rest), "filename="@) == Some(
            front.len() as int,
        ),
    ensures
        filename_in(front + "filename="@ + name + rest) == Some(name),
{
    let text = front + "filename="@ + name + rest;
    reveal_strlit("filename=");
    assert("filename="@.len() == 9);
    let tail = name + rest;
    assert(text.skip(front.len() as int + 9) =~= tail);
    assert(tail[0] == name[0]);
    assert(name.contains(name[0]));
    assert forall|i: int| 0 <= i < name.len() implies Class::Not('"').holds(
        #[trigger] tail[i],
    ) by {
        assert(tail[i] == name[i]);
        assert(name.contains(name[i]));
    }
    if rest.len() > 0 {
        assert(tail[name.len() as int] == '"');
    }
    crate::text::lemma_lead_is(tail, Class::Not('"'), name.len() as int);
    assert(tail.take(name.len() as int) =~= name);
}

/// Header fields without the parameter name no file.
pub proof fn law_no_name_is_found(text: Seq<char>)
    requires
        first_in(lower(text), "filename="@) is None,
    ensures
        filename_in(text) is None,
{
}

/// A content type that is no form, or a form without a boundary, has no
/// delimiter.
pub proof fn law_no_boundary_no_delimiter(params: Seq<Seq<char>>)
    requires
        params.len() > 0,
        forall|j: int| 0 <= j < params.len() ==> !(#[trigger] params[j]).contains(';'),
        forall|j: int|
            0 <= j < params.len() ==> !begins(lower(trimmed(#[trigger] params[j])), "boundary="@),
    ensures
        delimiter(joined(params, seq![';'])) is None,
{
    law_joining_is_undone_by_cutting(params, ';');
    lemma_no_boundary(params);
}

proof fn lemma_no_boundary(params: Seq<Seq<char>>)
    requires
        forall|j: int| 0 <= j < params.len() ==> !is_boundary(#[trigger] params[j]),
    ensures
        delimiter_in(params) is None,
    decreases params.len(),
{
    if params.len() > 0 {
        let rest = params.skip(1);
        assert forall|j: int| 0 <= j < rest.len() implies !is_boundary(#[trigger] rest[j]) by {
            assert(rest[j] == params[j + 1]);
        }
        assert(!is_boundary(params[0]));
        lemma_no_boundary(rest);
    }
}

/// A part is what stands between two delimiters without the line breaks next to
/// them, one at either end, where they are there.
pub proof fn law_parts_lose_their_line_breaks(s: Seq<u8>)
    requires
        s.len() >= 2,
        s.take(2) != seq![13u8, 10],
        s.skip(s.len() - 2) != seq![13u8, 10],
    ensures
        unbroken(seq![13u8, 10] + s + seq![13u8, 10]) == s,
        unbroken(seq![13u8, 10] + s) == s,
        unbroken(s + seq![13u8, 10]) == s,
        unbroken(s) == s,
{
    let b = seq![13u8, 10];
    let both = b + s + b;
    assert(both.subrange(0, 2) =~= b);
    assert(both.skip(2) =~= s + b);
    let back = s + b;
    assert(back.subrange(back.len() - 2, back.len() as int) =~= b);
    assert(back.take(back.len() - 2) =~= s);
    assert(back.subrange(0, 2) =~= s.take(2));
    let front = b + s;
    assert(front.subrange(0, 2) =~= b);
    assert(front.skip(2) =~= s);
    assert(s.subrange(s.len() - 2, s.len() as int) =~= s.skip(s.len() - 2));
    assert(s.subrange(0, 2) =~= s.take(2));
}

/// Lines are broken by a carriage return and a line feed, and headers end with
/// two such breaks in a row.
pub proof fn law_line_breaks()
    ensures
        crlf() == seq![13u8, 10],
        blank_line() == crlf() + crlf(),
{
    assert(crlf() + crlf() =~= blank_line());
}

/// Bytes that are text are read as that text, and others as the lossy text that
/// stands for them.
pub proof fn law_bytes_are_read_as_text(text: Seq<char>, bytes: Seq<u8>)
    ensures
        readable(encode_utf8(text)) == text,
        text_in(encode_utf8(text)) == Some(text),
        !valid_utf8(bytes) ==> readable(bytes) == lossy_text(bytes) && text_in(bytes) is None,
{
    encode_utf8_valid_utf8(text);
    encode_utf8_decode_utf8(text);
}

} // verus!
