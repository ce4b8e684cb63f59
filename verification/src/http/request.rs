//! HTTP/1.1 request parsing.
//!
//! Parsing is split in two so that a decision can be made in between: first
//! [`parse_head`] reads the request line and headers (which reveal the `Host`
//! and thus which `server` block and body-size limit apply), then
//! [`decode_body`] consumes the body according to `Content-Length` or
//! `Transfer-Encoding: chunked`.
//!
//! Both operate on the whole accumulated buffer and report that more bytes are
//! needed where they are, so the caller can feed one read at a time and retry.

use crate::bytes::{find_from, first_at, lemma_first_at, push_bytes, same_bytes};
use crate::numbers::{read_unsigned, unsigned};
use crate::text::{
    before, begins, begins_with, chars_of, is_str, lead_len, lines, lower, part_before, pieces,
    split, split_at_each, split_first, split_lines, split_once, string_of, to_lower, trim, trimmed,
    Class,
};
use crate::utf8::{decode_lossy, read_text, readable, text_in};
use vstd::hash_map::StringHashMap;
use vstd::prelude::*;
use vstd::slice::slice_subrange;
use vstd::utf8::encode_utf8;

verus! {

/// Upper bound on the request line and headers section. Beyond this the
/// request is refused with `400` rather than buffered without bound.
pub const MAX_HEAD_BYTES: usize = 65536;

/// A line break.
pub open spec fn crlf() -> Seq<u8> {
    seq![13u8, 10u8]
}

/// The blank line that ends the headers section.
pub open spec fn blank_line() -> Seq<u8> {
    seq![13u8, 10u8, 13u8, 10u8]
}

/// The values of header fields, by name.
pub open spec fn values(m: Map<Seq<char>, String>) -> Map<Seq<char>, Seq<char>> {
    m.map_values(|s: String| s@)
}

/// A fully parsed request, handed to the router.
pub struct Request {
    pub method: String,
    pub path: String,
    pub query: String,
    pub headers: StringHashMap<String>,
    pub body: Vec<u8>,
}

/// What a [`Request`] says.
#[verifier::ext_equal]
pub ghost struct RequestView {
    pub method: Seq<char>,
    pub path: Seq<char>,
    pub query: Seq<char>,
    pub headers: Map<Seq<char>, Seq<char>>,
    pub body: Seq<u8>,
}

impl View for Request {
    type V = RequestView;

    open spec fn view(&self) -> RequestView {
        RequestView {
            method: self.method@,
            path: self.path@,
            query: self.query@,
            headers: values(self.headers@),
            body: self.body@,
        }
    }
}

/// The request line and headers, before the body is known or consumed.
pub struct RequestHead {
    pub method: String,
    pub path: String,
    pub query: String,
    pub version: String,
    pub headers: StringHashMap<String>,
    /// Offset in the source buffer where the body begins.
    pub head_len: usize,
}

/// What a [`RequestHead`] says.
#[verifier::ext_equal]
pub ghost struct HeadView {
    pub method: Seq<char>,
    pub path: Seq<char>,
    pub query: Seq<char>,
    pub version: Seq<char>,
    pub headers: Map<Seq<char>, Seq<char>>,
    pub head_len: int,
}

impl View for RequestHead {
    type V = HeadView;

    open spec fn view(&self) -> HeadView {
        HeadView {
            method: self.method@,
            path: self.path@,
            query: self.query@,
            version: self.version@,
            headers: values(self.headers@),
            head_len: self.head_len as int,
        }
    }
}

/// What became of reading a request line and headers.
pub enum HeadStatus {
    NeedMore,
    Complete(RequestHead),
    Bad(u16),
}

/// What a [`HeadStatus`] says.
#[verifier::ext_equal]
pub ghost enum HeadOutcome {
    NeedMore,
    Complete(HeadView),
    Bad(u16),
}

impl View for HeadStatus {
    type V = HeadOutcome;

    open spec fn view(&self) -> HeadOutcome {
        match self {
            HeadStatus::NeedMore => HeadOutcome::NeedMore,
            HeadStatus::Complete(h) => HeadOutcome::Complete(h@),
            HeadStatus::Bad(code) => HeadOutcome::Bad(*code),
        }
    }
}

/// How the length of a body is known.
#[derive(Clone, Copy)]
pub enum BodyMode {
    Empty,
    Length(usize),
    Chunked,
}

/// What became of reading a body.
pub enum BodyStatus {
    NeedMore,
    /// Body fully decoded. `consumed` is how many bytes of the body region were
    /// used, so the caller can drain the finished request for keep-alive.
    Complete { body: Vec<u8>, consumed: usize },
    TooLarge,
    Bad(u16),
}

/// What a [`BodyStatus`] says.
#[verifier::ext_equal]
pub ghost enum BodyOutcome {
    NeedMore,
    Complete { body: Seq<u8>, consumed: int },
    TooLarge,
    Bad(u16),
}

impl View for BodyStatus {
    type V = BodyOutcome;

    open spec fn view(&self) -> BodyOutcome {
        match self {
            BodyStatus::NeedMore => BodyOutcome::NeedMore,
            BodyStatus::Complete { body, consumed } => BodyOutcome::Complete {
                body: body@,
                consumed: *consumed as int,
            },
            BodyStatus::TooLarge => BodyOutcome::TooLarge,
            BodyStatus::Bad(code) => BodyOutcome::Bad(*code),
        }
    }
}

/// How a body is framed under given headers: `chunked` where a
/// `Transfer-Encoding` lists it, else by `Content-Length`. `Err` is the status
/// for a framing that is not accepted.
pub open spec fn framing(headers: Map<Seq<char>, Seq<char>>) -> Result<BodyMode, u16> {
    match (headers.get("transfer-encoding"@), headers.get("content-length"@)) {
        (Some(te), _) => if lists_chunked(te) {
            Ok(BodyMode::Chunked)
        } else {
            Err(400)
        },
        (None, Some(cl)) => match unsigned(trimmed(cl), 10, usize::MAX as int) {
            Some(n) => if n == 0 {
                Ok(BodyMode::Empty)
            } else {
                Ok(BodyMode::Length(n as usize))
            },
            None => Err(400),
        },
        (None, None) => Ok(BodyMode::Empty),
    }
}

/// Whether `chunked` is among the comma-separated names in `te`.
pub open spec fn lists_chunked(te: Seq<char>) -> bool {
    exists|i: int|
        0 <= i < split(lower(te), ',').len() && trimmed(#[trigger] split(lower(te), ',')[i])
            == "chunked"@
}

impl RequestHead {
    /// The value of the `Host` field.
    pub fn host(&self) -> (r: Option<&str>)
        ensures
            match r {
                Some(h) => self@.headers.get("host"@) == Some(h@),
                None => self@.headers.get("host"@) is None,
            },
    {
        match self.headers.get("host") {
            Some(h) => Some(h.as_str()),
            None => None,
        }
    }

    /// Determines how to read the body, or `Err(status)` for an unacceptable
    /// framing (unsupported transfer-encoding, bad content-length).
    pub fn body_mode(&self) -> (r: Result<BodyMode, u16>)
        ensures
            r == framing(self@.headers),
    {
        match self.headers.get("transfer-encoding") {
            Some(te) => {
                // Only `chunked` is implemented. A transfer-encoding takes
                // precedence over any content-length.
                if has_chunked(te.as_str()) {
                    Ok(BodyMode::Chunked)
                } else {
                    Err(400)
                }
            },
            None => match self.headers.get("content-length") {
                Some(cl) => {
                    let cl = chars_of(cl.as_str());
                    match read_unsigned(trim(cl.as_slice()), 10, usize::MAX) {
                        Some(0) => Ok(BodyMode::Empty),
                        Some(n) => Ok(BodyMode::Length(n)),
                        None => Err(400),
                    }
                },
                None => Ok(BodyMode::Empty),
            },
        }
    }
}

/// Tests whether a transfer-encoding lists `chunked`.
fn has_chunked(te: &str) -> (r: bool)
    ensures
        r == lists_chunked(te@),
{
    let chars = chars_of(te);
    let small = to_lower(chars.as_slice());
    let names = split_at_each(small.as_slice(), ',');
    let mut i: usize = 0;
    while i < names.len()
        invariant
            i <= names@.len(),
            pieces(names@) == split(lower(te@), ','),
            forall|j: int|
                0 <= j < i ==> trimmed(#[trigger] split(lower(te@), ',')[j]) != "chunked"@,
        decreases names@.len() - i,
    {
        assert(split(lower(te@), ',')[i as int] == names@[i as int]@);
        if is_str(trim(names[i]), "chunked") {
            return true;
        }
        i += 1;
    }
    false
}

/// The value of a hexadecimal digit.
pub open spec fn hex_digit(c: u8) -> Option<u8> {
    if 48 <= c <= 57 {
        Some((c - 48) as u8)
    } else if 97 <= c <= 102 {
        Some((c - 87) as u8)
    } else if 65 <= c <= 70 {
        Some((c - 55) as u8)
    } else {
        None
    }
}

/// Gives the value of a hexadecimal digit.
pub fn hex_val(c: u8) -> (r: Option<u8>)
    ensures
        r == hex_digit(c),
        r matches Some(v) ==> v < 16,
{
    if 48 <= c && c <= 57 {
        Some(c - 48)
    } else if 97 <= c && c <= 102 {
        Some(c - 87)
    } else if 65 <= c && c <= 70 {
        Some(c - 55)
    } else {
        None
    }
}

/// Whether `b` begins with a percent sign and two hexadecimal digits.
pub open spec fn escape_at_front(b: Seq<u8>) -> bool {
    b.len() > 2 && b[0] == 37 && hex_digit(b[1]) is Some && hex_digit(b[2]) is Some
}

/// `b` with each `%XX` escape, read from left to right, replaced by the byte
/// that it stands for.
pub open spec fn unescaped(b: Seq<u8>) -> Seq<u8>
    decreases b.len(),
{
    if b.len() == 0 {
        seq![]
    } else if escape_at_front(b) {
        seq![(hex_digit(b[1])->0 * 16 + hex_digit(b[2])->0) as u8] + unescaped(b.skip(3))
    } else {
        seq![b[0]] + unescaped(b.skip(1))
    }
}

/// Decodes `%XX` escapes. Invalid escapes are passed through verbatim.
pub fn percent_bytes(b: &[u8]) -> (r: Vec<u8>)
    ensures
        r@ == unescaped(b@),
{
    let mut out: Vec<u8> = Vec::new();
    let mut i: usize = 0;
    assert(b@.skip(0) =~= b@);
    assert(out@ + unescaped(b@) =~= unescaped(b@));
    while i < b.len()
        invariant
            i <= b@.len(),
            out@ + unescaped(b@.skip(i as int)) == unescaped(b@),
        decreases b@.len() - i,
    {
        let ghost rest = b@.skip(i as int);
        let ghost had = out@;
        if b[i] == 37 && b.len() - i > 2 {
            if let (Some(h), Some(l)) = (hex_val(b[i + 1]), hex_val(b[i + 2])) {
                out.push(h * 16 + l);
                i += 3;
                proof {
                    assert(rest.skip(3) =~= b@.skip(i as int));
                    assert(out@ + unescaped(rest.skip(3)) =~= had + unescaped(rest));
                }
                continue;
            }
        }
        out.push(b[i]);
        i += 1;
        proof {
            assert(rest.skip(1) =~= b@.skip(i as int));
            assert(out@ + unescaped(rest.skip(1)) =~= had + unescaped(rest));
        }
    }
    assert(out@ + unescaped(b@.skip(i as int)) =~= out@);
    out
}

/// The path that a request target names once its escapes are decoded.
pub open spec fn decoded_path(raw: Seq<char>) -> Seq<char> {
    readable(unescaped(encode_utf8(raw)))
}

/// Decodes `%XX` escapes in a path and reads the bytes as text.
pub fn percent_decode(s: &str) -> (r: String)
    ensures
        r@ == decoded_path(s@),
{
    let bytes = percent_bytes(s.as_bytes());
    decode_lossy(bytes.as_slice())
}

/// A header field, its name in small letters: a name that is not empty and has
/// no blank or tab, a colon, and the value with the white space around it
/// dropped.
pub open spec fn field_of(line: Seq<char>) -> Option<(Seq<char>, Seq<char>)> {
    match split_first(line, ':') {
        Some((name, value)) => if name.len() > 0 && !name.contains(' ') && !name.contains('\t') {
            Some((lower(name), trimmed(value)))
        } else {
            None
        },
        None => None,
    }
}

/// The header fields that the lines hold, if each of them holds one. Of fields
/// with one name the last one counts.
pub open spec fn fields_of(lines: Seq<Seq<char>>) -> Option<Map<Seq<char>, Seq<char>>>
    decreases lines.len(),
{
    if lines.len() == 0 {
        Some(Map::empty())
    } else {
        match (fields_of(lines.drop_last()), field_of(lines.last())) {
            (Some(m), Some((name, value))) => Some(m.insert(name, value)),
            _ => None,
        }
    }
}

/// What the text of a headers section says: a request line of a method, a
/// target and a version, with one blank between them, and header fields.
pub open spec fn head_in_text(text: Seq<char>, head_len: int) -> HeadOutcome {
    let all = lines(text);
    let parts = split(all[0], ' ');
    if parts.len() == 3 && parts[0].len() > 0 && parts[1].len() > 0 && begins(
        parts[2],
        "HTTP/"@,
    ) {
        match fields_of(all.skip(1)) {
            Some(headers) => HeadOutcome::Complete(
                HeadView {
                    method: parts[0],
                    path: decoded_path(before(parts[1], '?')),
                    query: match split_first(parts[1], '?') {
                        Some((_, query)) => query,
                        None => seq![],
                    },
                    version: parts[2],
                    headers,
                    head_len,
                },
            ),
            None => HeadOutcome::Bad(400),
        }
    } else {
        HeadOutcome::Bad(400)
    }
}

/// What a buffer says of the request at its front: the headers section goes up
/// to the first blank line, and has a bounded length whether that line has come
/// or not.
pub open spec fn head_in(buf: Seq<u8>) -> HeadOutcome {
    match first_at(buf, blank_line(), 0) {
        Some(end) => if end > MAX_HEAD_BYTES {
            HeadOutcome::Bad(400)
        } else {
            match text_in(buf.take(end)) {
                Some(text) => head_in_text(text, end + 4),
                None => HeadOutcome::Bad(400),
            }
        },
        None => if buf.len() > MAX_HEAD_BYTES {
            HeadOutcome::Bad(400)
        } else {
            HeadOutcome::NeedMore
        },
    }
}

/// Tests whether a run of characters has `c`.
fn has_char(s: &[char], c: char) -> (r: bool)
    ensures
        r == s@.contains(c),
{
    let n: usize = lead_len(s, Class::Not(c));
    proof {
        crate::text::lemma_lead(s@, Class::Not(c));
    }
    if n < s.len() {
        assert(s@[n as int] == c);
        true
    } else {
        false
    }
}

/// Reads the header fields in the lines from the second one on.
fn read_fields(all: &Vec<&[char]>) -> (r: Option<StringHashMap<String>>)
    requires
        all@.len() >= 1,
    ensures
        match r {
            Some(m) => fields_of(pieces(all@).skip(1)) == Some(values(m@)),
            None => fields_of(pieces(all@).skip(1)) is None,
        },
{
    let mut headers: StringHashMap<String> = StringHashMap::new();
    let mut i: usize = 1;
    let ghost given = pieces(all@).skip(1);
    assert(given.take(0) =~= Seq::empty());
    assert(values(headers@) =~= Map::empty());
    while i < all.len()
        invariant
            1 <= i <= all@.len(),
            given == pieces(all@).skip(1),
            fields_of(given.take(i - 1)) == Some(values(headers@)),
        decreases all@.len() - i,
    {
        let line = all[i];
        proof {
            assert(given.take(i as int).drop_last() =~= given.take(i - 1));
            assert(given.take(i as int).last() == line@);
        }
        let (name, value) = match split_once(line, ':') {
            Some(pair) => pair,
            None => {
                proof {
                    lemma_fields_fail(given, i as int);
                }
                return None;
            },
        };
        // A valid field name is a non-empty token with no blanks.
        if name.len() == 0 || has_char(name, ' ') || has_char(name, '\t') {
            proof {
                lemma_fields_fail(given, i as int);
            }
            return None;
        }
        let name = to_lower(name);
        let key = string_of(name.as_slice());
        let value = string_of(trim(value));
        let ghost had = values(headers@);
        headers.insert(key, value);
        assert(values(headers@) =~= had.insert(key@, value@));
        i += 1;
    }
    assert(given.take(i - 1) =~= given);
    Some(headers)
}

/// Lines of which some at the front do not all hold fields do not either.
proof fn lemma_fields_fail(lines: Seq<Seq<char>>, n: int)
    requires
        0 <= n <= lines.len(),
        fields_of(lines.take(n)) is None,
    ensures
        fields_of(lines) is None,
    decreases lines.len(),
{
    if n == lines.len() {
        assert(lines.take(n) =~= lines);
    } else {
        assert(lines.drop_last().take(n) =~= lines.take(n));
        lemma_fields_fail(lines.drop_last(), n);
    }
}

/// Reads the text of a headers section.
fn parse_head_text(text: &[char], head_len: usize) -> (r: HeadStatus)
    ensures
        r@ == head_in_text(text@, head_len as int),
{
    let all = split_lines(text);
    assert(lines(text@)[0] == all@[0]@);
    let parts = split_at_each(all[0], ' ');
    let ghost p = split(lines(text@)[0], ' ');
    assert(pieces(parts@) == p);
    // Request line: METHOD SP request-target SP HTTP-version
    if parts.len() != 3 {
        return HeadStatus::Bad(400);
    }
    let method = parts[0];
    let target = parts[1];
    let version = parts[2];
    assert(p[0] == method@ && p[1] == target@ && p[2] == version@);
    let protocol = chars_of("HTTP/");
    if method.len() == 0 || target.len() == 0 || !begins_with(version, protocol.as_slice()) {
        return HeadStatus::Bad(400);
    }
    let headers = match read_fields(&all) {
        Some(m) => m,
        None => return HeadStatus::Bad(400),
    };
    let query = match split_once(target, '?') {
        Some((_, query)) => string_of(query),
        None => String::new(),
    };
    let path = string_of(part_before(target, '?'));
    let path = percent_decode(path.as_str());
    HeadStatus::Complete(
        RequestHead {
            method: string_of(method),
            path,
            query,
            version: string_of(version),
            headers,
            head_len,
        },
    )
}

/// Parses the request line and headers from the front of `buf`.
pub fn parse_head(buf: &[u8]) -> (r: HeadStatus)
    ensures
        r@ == head_in(buf@),
{
    let blank: [u8; 4] = [13, 10, 13, 10];
    assert(blank@ =~= blank_line());
    match find_from(buf, 0, &blank) {
        Some(end) => {
            if end > MAX_HEAD_BYTES {
                return HeadStatus::Bad(400);
            }
            match read_text(slice_subrange(buf, 0, end)) {
                Some(text) => {
                    assert(end + 4 <= buf.len());
                    parse_head_text(text.as_slice(), end + 4)
                },
                None => HeadStatus::Bad(400),
            }
        },
        None => if buf.len() > MAX_HEAD_BYTES {
            HeadStatus::Bad(400)
        } else {
            HeadStatus::NeedMore
        },
    }
}

/// The size that a chunk-size line gives, in hexadecimal; what stands behind a
/// semicolon is ignored.
pub open spec fn chunk_size(line: Seq<u8>) -> Option<int> {
    match text_in(line) {
        Some(text) => unsigned(trimmed(before(text, ';')), 16, usize::MAX as int),
        None => None,
    }
}

/// A chunk size is at most the largest machine word.
pub proof fn lemma_chunk_size(line: Seq<u8>)
    ensures
        chunk_size(line) matches Some(n) ==> 0 <= n <= usize::MAX,
{
    if text_in(line) is Some {
        crate::numbers::lemma_unsigned_range(
            trimmed(before(text_in(line)->0, ';')),
            16,
            usize::MAX as int,
        );
    }
}

/// Where the trailer lines that start at `pos` end, behind a blank line.
pub open spec fn trailer_end(buf: Seq<u8>, pos: int) -> Option<int>
    decreases buf.len() - pos,
{
    match first_at(buf, crlf(), pos) {
        Some(end) => {
            proof {
                lemma_first_at(buf, crlf(), pos);
            }
            if end == pos {
                Some(end + 2)
            } else {
                trailer_end(buf, end + 2)
            }
        },
        None => None,
    }
}

/// What the chunks from `pos` on say, where `got` is the data of those before
/// and `max` the number of bytes that a body may have.
pub open spec fn chunks_in(buf: Seq<u8>, pos: int, got: Seq<u8>, max: int) -> BodyOutcome
    decreases buf.len() - pos,
{
    match first_at(buf, crlf(), pos) {
        Some(end) => {
            proof {
                lemma_first_at(buf, crlf(), pos);
                lemma_chunk_size(buf.subrange(pos, end));
            }
            let data = end + 2;
            match chunk_size(buf.subrange(pos, end)) {
                Some(size) => if size == 0 {
                    match trailer_end(buf, data) {
                        Some(stop) => BodyOutcome::Complete { body: got, consumed: stop },
                        None => BodyOutcome::NeedMore,
                    }
                } else if got.len() + size > max {
                    BodyOutcome::TooLarge
                } else if buf.len() < data + size + 2 {
                    BodyOutcome::NeedMore
                } else if buf.subrange(data + size, data + size + 2) != crlf() {
                    BodyOutcome::Bad(400)
                } else {
                    chunks_in(buf, data + size + 2, got + buf.subrange(data, data + size), max)
                },
                None => BodyOutcome::Bad(400),
            }
        },
        None => BodyOutcome::NeedMore,
    }
}

/// What a buffer says of the body at its front, which is framed as `mode`
/// says and may have `max` bytes.
pub open spec fn body_in(buf: Seq<u8>, mode: BodyMode, max: int) -> BodyOutcome {
    match mode {
        BodyMode::Empty => BodyOutcome::Complete { body: seq![], consumed: 0 },
        BodyMode::Length(n) => if n > max {
            BodyOutcome::TooLarge
        } else if buf.len() < n {
            BodyOutcome::NeedMore
        } else {
            BodyOutcome::Complete { body: buf.take(n as int), consumed: n as int }
        },
        BodyMode::Chunked => chunks_in(buf, 0, seq![], max),
    }
}

/// Reads a chunk-size line.
fn read_chunk_size(line: &[u8]) -> (r: Option<usize>)
    ensures
        match r {
            Some(n) => chunk_size(line@) == Some(n as int),
            None => chunk_size(line@) is None,
        },
{
    match read_text(line) {
        Some(text) => read_unsigned(trim(part_before(text.as_slice(), ';')), 16, usize::MAX),
        None => None,
    }
}

/// Finds the end of the trailer lines that start at `start`.
fn find_trailer_end(buf: &[u8], start: usize) -> (r: Option<usize>)
    ensures
        match r {
            Some(i) => trailer_end(buf@, start as int) == Some(i as int),
            None => trailer_end(buf@, start as int) is None,
        },
{
    let line_break: [u8; 2] = [13, 10];
    assert(line_break@ =~= crlf());
    let mut pos: usize = start;
    loop
        invariant
            line_break@ == crlf(),
            trailer_end(buf@, start as int) == trailer_end(buf@, pos as int),
        decreases buf@.len() - pos,
    {
        match find_from(buf, pos, &line_break) {
            Some(end) => {
                proof {
                    lemma_first_at(buf@, crlf(), pos as int);
                    assert(end + 2 <= buf.len());
                }
                if end == pos {
                    return Some(end + 2);
                }
                pos = end + 2;
            },
            None => return None,
        }
    }
}

/// Decodes `Transfer-Encoding: chunked` from the accumulated buffer.
pub fn decode_chunked(buf: &[u8], max_body: usize) -> (r: BodyStatus)
    ensures
        r@ == chunks_in(buf@, 0, seq![], max_body as int),
{
    let line_break: [u8; 2] = [13, 10];
    assert(line_break@ =~= crlf());
    let mut out: Vec<u8> = Vec::new();
    let mut pos: usize = 0;
    assert(out@ =~= seq![]);
    loop
        invariant
            line_break@ == crlf(),
            pos <= buf@.len(),
            out@.len() <= pos,
            chunks_in(buf@, 0, seq![], max_body as int) == chunks_in(
                buf@,
                pos as int,
                out@,
                max_body as int,
            ),
        decreases buf@.len() - pos,
    {
        // chunk-size line (with optional ;extension, which is ignored)
        let line_end: usize = match find_from(buf, pos, &line_break) {
            Some(i) => i,
            None => return BodyStatus::NeedMore,
        };
        proof {
            lemma_first_at(buf@, crlf(), pos as int);
            assert(line_end + 2 <= buf.len());
        }
        let size: usize = match read_chunk_size(slice_subrange(buf, pos, line_end)) {
            Some(n) => n,
            None => return BodyStatus::Bad(400),
        };
        let data: usize = line_end + 2;
        if size == 0 {
            // Last chunk: consume optional trailer headers up to a blank line.
            return match find_trailer_end(buf, data) {
                Some(consumed) => BodyStatus::Complete { body: out, consumed },
                None => BodyStatus::NeedMore,
            };
        }
        // Rejected before the chunk itself is buffered.
        if max_body < out.len() || size > max_body - out.len() {
            return BodyStatus::TooLarge;
        }
        // `size` data bytes plus the trailing line break are needed.

        let left: usize = buf.len() - data;
        if left < 2 || left - 2 < size {
            return BodyStatus::NeedMore;
        }
        let stop: usize = data + size;
        if !same_bytes(slice_subrange(buf, stop, stop + 2), &line_break) {
            return BodyStatus::Bad(400);
        }
        push_bytes(&mut out, slice_subrange(buf, data, stop));
        pos = stop + 2;
    }
}

/// Decodes the body sitting at the front of `body_buf` (the bytes after the
/// headers section) according to `mode`, enforcing `max_body`.
pub fn decode_body(body_buf: &[u8], mode: &BodyMode, max_body: usize) -> (r: BodyStatus)
    ensures
        r@ == body_in(body_buf@, *mode, max_body as int),
{
    match mode {
        BodyMode::Empty => {
            let body: Vec<u8> = Vec::new();
            assert(body@ =~= seq![]);
            BodyStatus::Complete { body, consumed: 0 }
        },
        BodyMode::Length(n) => {
            let n: usize = *n;
            // Rejected before the whole body is buffered.
            if n > max_body {
                return BodyStatus::TooLarge;
            }
            if body_buf.len() < n {
                BodyStatus::NeedMore
            } else {
                BodyStatus::Complete {
                    body: vstd::slice::slice_to_vec(slice_subrange(body_buf, 0, n)),
                    consumed: n,
                }
            }
        },
        BodyMode::Chunked => decode_chunked(body_buf, max_body),
    }
}

} // verus!
