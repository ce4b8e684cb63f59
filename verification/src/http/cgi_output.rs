//! What a CGI script prints, as a response.

use super::request::blank_line;
use super::response::{bare, field_views, is_framing, Field, Response, ResponseView};
use crate::bytes::{find, first_at};
use crate::numbers::{read_u16, u16_in};
use crate::text::{
    chars_of, eq_ignore_case, first_word, pieces, same_ignoring_case, split, split_at_each,
    split_first, split_once, string_of, trim, trim_back, trim_end, trimmed, word_of, Class,
};
use crate::utf8::{decode_lossy, readable};
use vstd::prelude::*;
use vstd::slice::{slice_subrange, slice_to_vec};

verus! {

/// The header block and the body in the output of a script. Output without a
/// blank line is all body.
pub open spec fn output_parts(raw: Seq<u8>) -> (Seq<u8>, Seq<u8>) {
    match first_at(raw, blank_line(), 0) {
        Some(i) => (raw.take(i), raw.skip(i + 4)),
        None => match first_at(raw, seq![10u8, 10u8], 0) {
            Some(i) => (raw.take(i), raw.skip(i + 2)),
            None => (seq![], raw),
        },
    }
}

/// What the header block of a script says: the status, the fields that are
/// handed on, and whether a content type is among them.
#[verifier::ext_equal]
pub ghost struct OutputHead {
    pub status: u16,
    pub fields: Seq<Field>,
    pub typed: bool,
}

/// The status that a `Status` field gives.
pub open spec fn status_in(value: Seq<char>) -> u16 {
    match first_word(value) {
        Some(w) => match u16_in(w) {
            Some(code) => code,
            None => 200,
        },
        None => 200,
    }
}

/// What a header block says once one more line of it has been read. `Status`
/// sets the code; fields about framing are dropped, since the responder sets
/// them itself.
pub open spec fn with_line(h: OutputHead, line: Seq<char>) -> OutputHead {
    match split_first(trim_back(line, Class::Only('\r')), ':') {
        Some((k, v)) => {
            let name = trimmed(k);
            let value = trimmed(v);
            if same_ignoring_case(name, "status"@) {
                OutputHead { status: status_in(value), ..h }
            } else if is_framing(name) {
                h
            } else {
                OutputHead {
                    fields: h.fields.push((name, value)),
                    typed: h.typed || same_ignoring_case(name, "content-type"@),
                    ..h
                }
            }
        },
        None => h,
    }
}

/// What the lines of a header block say.
pub open spec fn with_lines(lines: Seq<Seq<char>>) -> OutputHead
    decreases lines.len(),
{
    if lines.len() == 0 {
        OutputHead { status: 200, fields: seq![], typed: false }
    } else {
        with_line(with_lines(lines.drop_last()), lines.last())
    }
}

/// The response that a header block and a body make.
pub open spec fn output_response(text: Seq<char>, body: Seq<u8>) -> ResponseView {
    let h = with_lines(split(text, '\n'));
    ResponseView {
        headers: (if h.typed {
            seq![]
        } else {
            seq![("Content-Type"@, "text/plain; charset=utf-8"@)]
        }) + h.fields,
        body,
        ..bare(h.status)
    }
}

/// The response that the output of a script makes.
pub open spec fn response_to_output(raw: Seq<u8>) -> ResponseView {
    output_response(readable(output_parts(raw).0), output_parts(raw).1)
}

/// Reads the value of a `Status` field.
fn read_status(value: &[char]) -> (r: u16)
    ensures
        r == status_in(value@),
{
    match word_of(value) {
        Some(w) => match read_u16(w) {
            Some(code) => code,
            None => 200,
        },
        None => 200,
    }
}

/// Tests whether a field is about framing.
fn names_framing(name: &[char]) -> (r: bool)
    ensures
        r == is_framing(name@),
{
    let length = chars_of("content-length");
    let connection = chars_of("connection");
    let encoding = chars_of("transfer-encoding");
    eq_ignore_case(name, length.as_slice()) || eq_ignore_case(name, connection.as_slice())
        || eq_ignore_case(name, encoding.as_slice())
}

/// Makes a response of the text of a header block and a body.
pub fn parse_output(text: &str, body: Vec<u8>) -> (r: Response)
    ensures
        r@ == output_response(text@, body@),
{
    let chars = chars_of(text);
    let lines = split_at_each(chars.as_slice(), '\n');
    let ghost all = split(text@, '\n');
    let status_name = chars_of("status");
    let type_field = chars_of("content-type");
    let mut status: u16 = 200;
    let mut fields: Vec<(String, String)> = Vec::new();
    let mut typed: bool = false;
    assert(field_views(fields@) =~= seq![]);
    let mut i: usize = 0;
    while i < lines.len()
        invariant
            i <= lines@.len(),
            pieces(lines@) == all,
            status_name@ == "status"@,
            type_field@ == "content-type"@,
            with_lines(all.take(i as int)) == (OutputHead {
                status,
                fields: field_views(fields@),
                typed,
            }),
        decreases lines@.len() - i,
    {
        proof {
            assert(all.take(i + 1).drop_last() =~= all.take(i as int));
            assert(all.take(i + 1).last() == lines@[i as int]@);
        }
        let line = trim_end(lines[i], Class::Only('\r'));
        match split_once(line, ':') {
            Some((k, v)) => {
                let name = trim(k);
                let value = trim(v);
                if eq_ignore_case(name, status_name.as_slice()) {
                    status = read_status(value);
                } else if !names_framing(name) {
                    if eq_ignore_case(name, type_field.as_slice()) {
                        typed = true;
                    }
                    let ghost had = fields@;
                    fields.push((string_of(name), string_of(value)));
                    assert(field_views(fields@) =~= field_views(had).push((name@, value@)));
                }
            },
            None => {},
        }
        i += 1;
    }
    assert(all.take(all.len() as int) =~= all);
    let mut resp = Response::new(status);
    if !typed {
        resp.set_header("Content-Type", "text/plain; charset=utf-8");
    }
    let ghost first = resp@.headers;
    let ghost sent = field_views(fields@);
    assert(first + sent.take(0) =~= first);
    let mut j: usize = 0;
    while j < fields.len()
        invariant
            j <= fields@.len(),
            sent == field_views(fields@),
            resp@.status == status,
            resp@.keep_alive,
            resp@.headers == first + sent.take(j as int),
        decreases fields@.len() - j,
    {
        resp.set_header(fields[j].0.as_str(), fields[j].1.as_str());
        assert(resp@.headers =~= first + sent.take(j + 1));
        j += 1;
    }
    resp.body = body;
    assert(sent.take(sent.len() as int) =~= sent);
    assert(resp@ =~= output_response(text@, body@));
    resp
}

/// Parses a CGI script's raw stdout (header block and body) into a
/// [`Response`].
pub fn parse_cgi_output(raw: &[u8]) -> (r: Response)
    ensures
        r@ == response_to_output(raw@),
{
    let blank: [u8; 4] = [13, 10, 13, 10];
    assert(blank@ =~= blank_line());
    let short: [u8; 2] = [10, 10];
    assert(short@ =~= seq![10u8, 10u8]);
    assert(raw@.len() == raw.len());
    let (head, body): (usize, usize) = match find(raw, &blank) {
        Some(i) => (i, i + 4),
        None => match find(raw, &short) {
            Some(i) => (i, i + 2),
            None => (0, 0),
        },
    };
    let header_bytes = slice_subrange(raw, 0, head);
    let rest = slice_subrange(raw, body, raw.len());
    assert(header_bytes@ =~= output_parts(raw@).0);
    assert(rest@ =~= output_parts(raw@).1);
    let text = decode_lossy(header_bytes);
    parse_output(text.as_str(), slice_to_vec(rest))
}

/// The responses that are made of the output of scripts leave the framing to
/// the responder.
pub proof fn law_output_leaves_framing(text: Seq<char>, body: Seq<u8>)
    ensures
        super::response::leaves_framing(output_response(text, body).headers),
{
    lemma_lines_leave_framing(split(text, '\n'));
    lemma_type_is_no_framing();
    let h = with_lines(split(text, '\n'));
    let headers = output_response(text, body).headers;
    assert forall|i: int| 0 <= i < headers.len() implies !is_framing((#[trigger] headers[i]).0) by {
        if h.typed {
            assert(headers[i] == h.fields[i]);
        } else if i > 0 {
            assert(headers[i] == h.fields[i - 1]);
        }
    }
}

/// `Content-Type` is not about framing.
pub proof fn lemma_type_is_no_framing()
    ensures
        !is_framing("Content-Type"@),
{
    lemma_lower_len("Content-Type"@, "content-length"@);
    lemma_lower_len("Content-Type"@, "connection"@);
    lemma_lower_len("Content-Type"@, "transfer-encoding"@);
    reveal_strlit("Content-Type");
    reveal_strlit("content-length");
    reveal_strlit("connection");
    reveal_strlit("transfer-encoding");
}

/// Texts of different lengths differ in more than case.
pub proof fn lemma_lower_len(a: Seq<char>, b: Seq<char>)
    ensures
        same_ignoring_case(a, b) ==> a.len() == b.len(),
{
    assert(crate::text::lower(a).len() == a.len());
    assert(crate::text::lower(b).len() == b.len());
}

proof fn lemma_lines_leave_framing(lines: Seq<Seq<char>>)
    ensures
        super::response::leaves_framing(with_lines(lines).fields),
    decreases lines.len(),
{
    if lines.len() > 0 {
        lemma_lines_leave_framing(lines.drop_last());
    }
}

} // verus!
