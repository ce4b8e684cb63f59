//! What holds of reading requests as a whole.

use super::head_laws::lemma_ascii_byte;
use super::request::{
    blank_line, body_in, chunk_size, chunks_in, crlf, decoded_path, escape_at_front, framing,
    head_in, hex_digit, lemma_chunk_size, trailer_end, unescaped, BodyMode, BodyOutcome,
    HeadOutcome, MAX_HEAD_BYTES,
};
use crate::bytes::{first_at, lemma_first_at, lemma_first_at_extends, lemma_first_at_is, occurs_at};
use vstd::prelude::*;
use vstd::utf8::{encode_utf8, encode_utf8_decode_utf8, encode_utf8_valid_utf8};

verus! {

/// Whether a buffer ends inside a blank line that starts within the bound on
/// the length of a headers section.
pub open spec fn ends_inside_blank_line(buf: Seq<u8>) -> bool {
    exists|n: int|
        1 <= n <= 3 && n <= buf.len() && buf.len() - n <= MAX_HEAD_BYTES && #[trigger] buf.skip(
            buf.len() - n,
        ) == blank_line().take(n)
}

/// Unless more bytes were asked for, the verdict on the headers no longer
/// depends on the bytes that follow, but where those may still complete a
/// blank line within the bound.
pub proof fn law_head_is_final(buf: Seq<u8>, more: Seq<u8>)
    requires
        head_in(buf) !is NeedMore,
        first_at(buf, blank_line(), 0) is None ==> !ends_inside_blank_line(buf),
    ensures
        head_in(buf + more) == head_in(buf),
{
    let all = buf + more;
    lemma_first_at(buf, blank_line(), 0);
    lemma_first_at(all, blank_line(), 0);
    match first_at(buf, blank_line(), 0) {
        Some(end) => {
            lemma_first_at_extends(buf, more, blank_line(), 0);
            assert(all.take(end) =~= buf.take(end));
        },
        None => match first_at(all, blank_line(), 0) {
            Some(end) => {
                if end <= MAX_HEAD_BYTES {
                    if end + 4 <= buf.len() {
                        assert(buf.subrange(end, end + 4) =~= all.subrange(end, end + 4));
                        assert(occurs_at(buf, blank_line(), end));
                    } else {
                        let n = buf.len() - end;
                        assert(buf.skip(buf.len() - n) =~= all.subrange(end, end + 4).take(n));
                    }
                }
            },
            None => {},
        },
    }
}

/// A headers section of more bytes than the bound is refused, whether its end
/// has come or not.
pub proof fn law_long_heads_are_refused(buf: Seq<u8>)
    requires
        match first_at(buf, blank_line(), 0) {
            Some(end) => end > MAX_HEAD_BYTES,
            None => buf.len() > MAX_HEAD_BYTES,
        },
    ensures
        head_in(buf) == HeadOutcome::Bad(400),
{
}

/// A request line and headers that were read end with the blank line, inside
/// the buffer.
pub proof fn law_head_is_inside(buf: Seq<u8>)
    ensures
        head_in(buf) matches HeadOutcome::Complete(h) ==> {
            &&& 4 <= h.head_len <= buf.len()
            &&& buf.subrange(h.head_len - 4, h.head_len) == blank_line()
        },
{
    lemma_first_at(buf, blank_line(), 0);
}

/// Unless more bytes were asked for, the verdict on a body no longer depends on
/// the bytes that follow: what is behind a finished request is left to the
/// next one.
pub proof fn law_body_is_final(buf: Seq<u8>, more: Seq<u8>, mode: BodyMode, max: int)
    requires
        body_in(buf, mode, max) !is NeedMore,
    ensures
        body_in(buf + more, mode, max) == body_in(buf, mode, max),
{
    match mode {
        BodyMode::Empty => {},
        BodyMode::Length(n) => {
            if n <= max {
                assert((buf + more).take(n as int) =~= buf.take(n as int));
            }
        },
        BodyMode::Chunked => {
            lemma_chunks_final(buf, more, 0, seq![], max);
        },
    }
}

proof fn lemma_trailer_final(buf: Seq<u8>, more: Seq<u8>, pos: int)
    requires
        trailer_end(buf, pos) is Some,
    ensures
        trailer_end(buf + more, pos) == trailer_end(buf, pos),
    decreases buf.len() - pos,
{
    lemma_first_at(buf, crlf(), pos);
    lemma_first_at_extends(buf, more, crlf(), pos);
    let end = first_at(buf, crlf(), pos)->0;
    if end != pos {
        lemma_trailer_final(buf, more, end + 2);
    }
}

proof fn lemma_chunks_final(buf: Seq<u8>, more: Seq<u8>, pos: int, got: Seq<u8>, max: int)
    requires
        chunks_in(buf, pos, got, max) !is NeedMore,
    ensures
        chunks_in(buf + more, pos, got, max) == chunks_in(buf, pos, got, max),
    decreases buf.len() - pos,
{
    lemma_first_at(buf, crlf(), pos);
    lemma_first_at_extends(buf, more, crlf(), pos);
    let all = buf + more;
    let end = first_at(buf, crlf(), pos)->0;
    assert(all.subrange(pos, end) =~= buf.subrange(pos, end));
    lemma_chunk_size(buf.subrange(pos, end));
    match chunk_size(buf.subrange(pos, end)) {
        Some(size) => {
            let data = end + 2;
            if size == 0 {
                lemma_trailer_final(buf, more, data);
            } else if got.len() + size <= max {
                assert(all.subrange(data, data + size) =~= buf.subrange(data, data + size));
                assert(all.subrange(data + size, data + size + 2) =~= buf.subrange(
                    data + size,
                    data + size + 2,
                ));
                if buf.subrange(data + size, data + size + 2) == crlf() {
                    lemma_chunks_final(
                        buf,
                        more,
                        data + size + 2,
                        got + buf.subrange(data, data + size),
                        max,
                    );
                }
            }
        },
        None => {},
    }
}

/// A decoded body is no larger than the limit, nor than the bytes it took up,
/// and those all lie in the buffer.
pub proof fn law_body_is_bounded(buf: Seq<u8>, mode: BodyMode, max: int)
    requires
        max >= 0,
    ensures
        body_in(buf, mode, max) matches BodyOutcome::Complete { body, consumed } ==> {
            &&& body.len() <= max
            &&& body.len() <= consumed <= buf.len()
        },
{
    if mode is Chunked {
        lemma_chunks_bounded(buf, 0, seq![], max);
    }
}

proof fn lemma_trailer_bounded(buf: Seq<u8>, pos: int)
    ensures
        trailer_end(buf, pos) matches Some(end) ==> pos < end <= buf.len(),
    decreases buf.len() - pos,
{
    lemma_first_at(buf, crlf(), pos);
    match first_at(buf, crlf(), pos) {
        Some(end) => {
            if end != pos {
                lemma_trailer_bounded(buf, end + 2);
            }
        },
        None => {},
    }
}

proof fn lemma_chunks_bounded(buf: Seq<u8>, pos: int, got: Seq<u8>, max: int)
    requires
        got.len() <= max,
        got.len() <= pos,
    ensures
        chunks_in(buf, pos, got, max) matches BodyOutcome::Complete { body, consumed } ==> {
            &&& body.len() <= max
            &&& body.len() <= consumed <= buf.len()
        },
    decreases buf.len() - pos,
{
    lemma_first_at(buf, crlf(), pos);
    match first_at(buf, crlf(), pos) {
        Some(end) => {
            lemma_chunk_size(buf.subrange(pos, end));
            lemma_trailer_bounded(buf, end + 2);
            match chunk_size(buf.subrange(pos, end)) {
                Some(size) => {
                    let data = end + 2;
                    if size > 0 && data + size + 2 <= buf.len() && got.len() + size <= max {
                        lemma_chunks_bounded(
                            buf,
                            data + size + 2,
                            got + buf.subrange(data, data + size),
                            max,
                        );
                    }
                },
                None => {},
            }
        },
        None => {},
    }
}

/// A declared length over the limit is refused whatever has arrived so far.
pub proof fn law_declared_length_is_checked_first(buf: Seq<u8>, n: usize, max: int)
    requires
        n > max,
    ensures
        body_in(buf, BodyMode::Length(n), max) == BodyOutcome::TooLarge,
{
}

/// One chunk on the wire: its size line and its data.
pub ghost struct Chunk {
    pub line: Seq<u8>,
    pub data: Seq<u8>,
}

impl Chunk {
    /// A chunk with data, whose size line gives the number of its bytes.
    pub open spec fn wf(self) -> bool {
        &&& self.data.len() > 0
        &&& size_line(self.line, self.data.len() as int)
    }
}

/// Whether `line` is a line that gives the chunk size `n`.
pub open spec fn size_line(line: Seq<u8>, n: int) -> bool {
    chunk_size(line) == Some(n) && !line.contains(13)
}

/// Chunks as they are sent, one after the other.
pub open spec fn in_chunks(chunks: Seq<Chunk>) -> Seq<u8>
    decreases chunks.len(),
{
    if chunks.len() == 0 {
        seq![]
    } else {
        chunks[0].line + crlf() + chunks[0].data + crlf() + in_chunks(chunks.skip(1))
    }
}

/// A body as it is sent in chunks, with `last` as the size line of the last
/// chunk and no trailer.
pub open spec fn sent(chunks: Seq<Chunk>, last: Seq<u8>) -> Seq<u8> {
    in_chunks(chunks) + last + crlf() + crlf()
}

/// The data of chunks, one after the other.
pub open spec fn data_of(chunks: Seq<Chunk>) -> Seq<u8>
    decreases chunks.len(),
{
    if chunks.len() == 0 {
        seq![]
    } else {
        chunks[0].data + data_of(chunks.skip(1))
    }
}

/// A body that was sent in chunks is decoded to its data, whatever follows it.
pub proof fn law_chunks_round_trip(chunks: Seq<Chunk>, last: Seq<u8>, rest: Seq<u8>, max: int)
    requires
        forall|i: int| 0 <= i < chunks.len() ==> (#[trigger] chunks[i]).wf(),
        size_line(last, 0),
        data_of(chunks).len() <= max,
    ensures
        body_in(sent(chunks, last) + rest, BodyMode::Chunked, max) == (BodyOutcome::Complete {
            body: data_of(chunks),
            consumed: sent(chunks, last).len() as int,
        }),
{
    let buf = sent(chunks, last) + rest;
    let tail = last + crlf() + crlf() + rest;
    let pos = in_chunks(chunks).len() as int;
    let n = last.len() as int;
    assert(buf.skip(0) =~= in_chunks(chunks) + tail);
    lemma_chunks_pass(buf, 0, seq![], chunks, tail, max);
    assert(seq![] + data_of(chunks) =~= data_of(chunks));
    assert(buf.subrange(pos, pos + n) =~= last);
    assert(buf.subrange(pos + n, pos + n + 2) =~= crlf());
    lemma_line_ends(buf, pos, last);
    assert(buf.subrange(pos + n + 2, pos + n + 4) =~= crlf());
    lemma_first_at_is(buf, crlf(), pos + n + 2, pos + n + 2);
}

/// A chunk whose size line takes a body over the limit is refused as soon as
/// that line is there, whatever has arrived behind it.
pub proof fn law_chunk_sizes_are_checked_first(
    chunks: Seq<Chunk>,
    line: Seq<u8>,
    size: int,
    rest: Seq<u8>,
    max: int,
)
    requires
        forall|i: int| 0 <= i < chunks.len() ==> (#[trigger] chunks[i]).wf(),
        data_of(chunks).len() <= max,
        size_line(line, size),
        size > 0,
        data_of(chunks).len() + size > max,
    ensures
        body_in(in_chunks(chunks) + line + crlf() + rest, BodyMode::Chunked, max)
            == BodyOutcome::TooLarge,
{
    let buf = in_chunks(chunks) + line + crlf() + rest;
    let tail = line + crlf() + rest;
    let pos = in_chunks(chunks).len() as int;
    let n = line.len() as int;
    assert(buf.skip(0) =~= in_chunks(chunks) + tail);
    lemma_chunks_pass(buf, 0, seq![], chunks, tail, max);
    assert(seq![] + data_of(chunks) =~= data_of(chunks));
    assert(buf.subrange(pos, pos + n) =~= line);
    assert(buf.subrange(pos + n, pos + n + 2) =~= crlf());
    lemma_line_ends(buf, pos, line);
}

/// A line without a carriage return, followed by a line break, ends there.
pub proof fn lemma_line_ends(buf: Seq<u8>, pos: int, line: Seq<u8>)
    requires
        0 <= pos,
        pos + line.len() + 2 <= buf.len(),
        buf.subrange(pos, pos + line.len()) == line,
        buf.subrange(pos + line.len(), pos + line.len() + 2) == crlf(),
        !line.contains(13),
    ensures
        first_at(buf, crlf(), pos) == Some(pos + line.len()),
{
    let end = pos + line.len();
    assert forall|j: int| pos <= j < end implies !occurs_at(buf, crlf(), j) by {
        assert(line[j - pos] == buf[j]);
        if occurs_at(buf, crlf(), j) {
            assert(buf.subrange(j, j + 2)[0] == 13);
        }
    }
    lemma_first_at_is(buf, crlf(), pos, end);
}

/// Chunks within the limit are passed, and their data is kept.
pub proof fn lemma_chunks_pass(
    buf: Seq<u8>,
    pos: int,
    got: Seq<u8>,
    chunks: Seq<Chunk>,
    rest: Seq<u8>,
    max: int,
)
    requires
        0 <= pos <= buf.len(),
        buf.skip(pos) == in_chunks(chunks) + rest,
        forall|i: int| 0 <= i < chunks.len() ==> (#[trigger] chunks[i]).wf(),
        got.len() + data_of(chunks).len() <= max,
    ensures
        chunks_in(buf, pos, got, max) == chunks_in(
            buf,
            pos + in_chunks(chunks).len(),
            got + data_of(chunks),
            max,
        ),
    decreases chunks.len(),
{
    let tail = buf.skip(pos);
    assert(tail.len() == buf.len() - pos);
    if chunks.len() == 0 {
        assert(got + data_of(chunks) =~= got);
    } else {
        let c = chunks[0];
        let n = c.line.len() as int;
        let m = c.data.len() as int;
        let others = chunks.skip(1);
        assert(c.wf());
        assert(tail.len() >= n + m + 4);
        assert(buf.subrange(pos, pos + n) =~= tail.take(n));
        assert(tail.take(n) =~= c.line);
        assert(buf.subrange(pos + n, pos + n + 2) =~= tail.subrange(n, n + 2));
        assert(tail.subrange(n, n + 2) =~= crlf());
        lemma_line_ends(buf, pos, c.line);
        let data = pos + n + 2;
        assert(buf.subrange(data, data + m) =~= tail.subrange(n + 2, n + 2 + m));
        assert(tail.subrange(n + 2, n + 2 + m) =~= c.data);
        assert(buf.subrange(data + m, data + m + 2) =~= tail.subrange(n + 2 + m, n + 4 + m));
        assert(tail.subrange(n + 2 + m, n + 4 + m) =~= crlf());
        assert(buf.skip(data + m + 2) =~= in_chunks(others) + rest) by {
            assert(buf.skip(data + m + 2) =~= tail.skip(n + 4 + m));
        }
        assert forall|i: int| 0 <= i < others.len() implies (#[trigger] others[i]).wf() by {
            assert(chunks[i + 1].wf());
        }
        lemma_chunks_pass(buf, data + m + 2, got + c.data, others, rest, max);
        assert((got + c.data) + data_of(others) =~= got + data_of(chunks));
    }
}

/// A `Transfer-Encoding` takes precedence over any `Content-Length`.
pub proof fn law_transfer_encoding_wins(
    headers: Map<Seq<char>, Seq<char>>,
    length: Seq<char>,
)
    requires
        headers.contains_key("transfer-encoding"@),
    ensures
        framing(headers.insert("content-length"@, length)) == framing(headers),
{
    reveal_strlit("transfer-encoding");
    reveal_strlit("content-length");
    assert("transfer-encoding"@.len() == 17 && "content-length"@.len() == 14);
}

/// A path without percent signs is decoded to itself.
pub proof fn law_plain_path_is_kept(b: Seq<u8>)
    requires
        !b.contains(37),
    ensures
        unescaped(b) == b,
    decreases b.len(),
{
    if b.len() > 0 {
        assert(b.contains(b[0]));
        assert forall|x: u8| b.skip(1).contains(x) implies b.contains(x) by {
            let i = choose|i: int| 0 <= i < b.skip(1).len() && b.skip(1)[i] == x;
            assert(b[i + 1] == x);
        }
        law_plain_path_is_kept(b.skip(1));
        assert(seq![b[0]] + b.skip(1) =~= b);
    }
}

/// Bytes that are each written as a percent sign and two hexadecimal digits.
pub open spec fn escaped(b: Seq<u8>) -> Seq<u8>
    decreases b.len(),
{
    if b.len() == 0 {
        seq![]
    } else {
        seq![37u8, hex_byte(b[0] / 16), hex_byte(b[0] % 16)] + escaped(b.skip(1))
    }
}

/// The hexadecimal digit, in capitals, for a value below sixteen.
pub open spec fn hex_byte(v: u8) -> u8 {
    if v < 10 {
        (48 + v) as u8
    } else {
        (55 + v) as u8
    }
}

/// Decoding undoes escaping, for every byte there is.
pub proof fn law_escapes_round_trip(b: Seq<u8>)
    ensures
        unescaped(escaped(b)) == b,
    decreases b.len(),
{
    if b.len() > 0 {
        law_escapes_round_trip(b.skip(1));
        let e = escaped(b);
        assert(hex_digit(hex_byte(b[0] / 16)) == Some((b[0] / 16) as u8));
        assert(hex_digit(hex_byte(b[0] % 16)) == Some((b[0] % 16) as u8));
        assert(escape_at_front(e));
        assert(e.skip(3) =~= escaped(b.skip(1)));
        assert(seq![b[0]] + b.skip(1) =~= b);
    } else {
        assert(unescaped(escaped(b)) =~= b);
    }
}

/// A path is read from the bytes that its escapes stand for: where those are
/// UTF-8, it is the text that they encode. So an escaped path is read back.
pub proof fn law_paths_are_decoded(raw: Seq<char>, path: Seq<char>)
    requires
        unescaped(encode_utf8(raw)) == encode_utf8(path),
    ensures
        decoded_path(raw) == path,
{
    encode_utf8_valid_utf8(path);
    encode_utf8_decode_utf8(path);
}

/// A path without percent signs is read as it stands.
pub proof fn law_plain_paths_are_read_as_they_stand(raw: Seq<char>)
    requires
        !raw.contains('%'),
    ensures
        decoded_path(raw) == raw,
{
    let b = encode_utf8(raw);
    if b.contains(37) {
        let j = choose|j: int| 0 <= j < b.len() && b[j] == 37;
        let i = lemma_ascii_byte(raw, j);
        assert(raw[i] == '%');
    }
    law_plain_path_is_kept(b);
    law_paths_are_decoded(raw, raw);
}

} // verus!
