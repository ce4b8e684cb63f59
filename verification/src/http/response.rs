//! HTTP response model and serialization.

use super::{phrase, reason_phrase};
use crate::bytes::push_bytes;
use crate::numbers::{decimal, push_decimal};
use crate::text::same_ignoring_case;
use vstd::prelude::*;
use vstd::utf8::encode_utf8;

verus! {

/// A response under construction. `Content-Length` and `Connection` are added
/// automatically at serialization time, so callers never set them by hand.
pub struct Response {
    pub status: u16,
    pub headers: Vec<(String, String)>,
    pub body: Vec<u8>,
    pub keep_alive: bool,
}

/// A header field: its name and its value.
pub type Field = (Seq<char>, Seq<char>);

/// What a [`Response`] says.
#[verifier::ext_equal]
pub ghost struct ResponseView {
    pub status: u16,
    pub headers: Seq<Field>,
    pub body: Seq<u8>,
    pub keep_alive: bool,
}

/// What a list of header fields says.
pub open spec fn field_views(v: Seq<(String, String)>) -> Seq<Field> {
    v.map_values(|f: (String, String)| (f.0@, f.1@))
}

impl View for Response {
    type V = ResponseView;

    open spec fn view(&self) -> ResponseView {
        ResponseView {
            status: self.status,
            headers: field_views(self.headers@),
            body: self.body@,
            keep_alive: self.keep_alive,
        }
    }
}

/// A response with a status and nothing else.
pub open spec fn bare(status: u16) -> ResponseView {
    ResponseView { status, headers: seq![], body: seq![], keep_alive: true }
}

/// A response with a body of a given type.
pub open spec fn bodied(status: u16, content_type: Seq<char>, body: Seq<u8>) -> ResponseView {
    ResponseView {
        status,
        headers: seq![("Content-Type"@, content_type)],
        body,
        keep_alive: true,
    }
}

impl ResponseView {
    /// The response with one more header field.
    pub open spec fn with(self, name: Seq<char>, value: Seq<char>) -> ResponseView {
        ResponseView { headers: self.headers.push((name, value)), ..self }
    }

    /// The fields that are sent: those of the response, then the length of the
    /// body and what becomes of the connection.
    pub open spec fn sent_fields(self) -> Seq<Field> {
        self.headers.push(("Content-Length"@, decimal(self.body.len()))).push(
            (
                "Connection"@,
                if self.keep_alive {
                    "keep-alive"@
                } else {
                    "close"@
                },
            ),
        )
    }

    /// The status line and the fields, up to the blank line.
    pub open spec fn head(self) -> Seq<char> {
        "HTTP/1.1 "@ + decimal(self.status as nat) + " "@ + phrase(self.status) + "\r\n"@
            + field_lines(self.sent_fields()) + "\r\n"@
    }

    /// The bytes that are sent.
    pub open spec fn wire(self) -> Seq<u8> {
        encode_utf8(self.head()) + self.body
    }
}

/// The lines of header fields.
pub open spec fn field_lines(fields: Seq<Field>) -> Seq<char>
    decreases fields.len(),
{
    if fields.len() == 0 {
        seq![]
    } else {
        field_lines(fields.drop_last()) + fields.last().0 + ": "@ + fields.last().1 + "\r\n"@
    }
}

/// Appends the line of a header field.
fn push_field(out: &mut String, name: &str, value: &str, Ghost(fields): Ghost<Seq<Field>>)
    ensures
        final(out)@ == old(out)@ + name@ + ": "@ + value@ + "\r\n"@,
        forall|before: Seq<char>|
            old(out)@ == before + field_lines(fields) ==> final(out)@ == #[trigger] (before
                + field_lines(fields.push((name@, value@)))),
{
    out.append(name);
    out.append(": ");
    out.append(value);
    out.append("\r\n");
    proof {
        let more = fields.push((name@, value@));
        assert(more.drop_last() =~= fields);
        assert forall|before: Seq<char>| old(out)@ == before + field_lines(fields) implies out@
            == #[trigger] (before + field_lines(more)) by {
            assert(out@ =~= before + field_lines(more));
        }
    }
}

impl Response {
    /// A response with a status and nothing else.
    pub fn new(status: u16) -> (r: Self)
        ensures
            r@ == bare(status),
    {
        let r = Response { status, headers: Vec::new(), body: Vec::new(), keep_alive: true };
        assert(r@ =~= bare(status));
        r
    }

    /// A response with a body of a given type.
    pub fn with_body(status: u16, content_type: &str, body: Vec<u8>) -> (r: Self)
        ensures
            r@ == bodied(status, content_type@, body@),
    {
        let mut r = Response::new(status);
        r.set_header("Content-Type", content_type);
        r.body = body;
        assert(r@ =~= bodied(status, content_type@, body@));
        r
    }

    /// Adds a header field.
    pub fn set_header(&mut self, name: &str, value: &str)
        ensures
            final(self)@ == old(self)@.with(name@, value@),
    {
        let ghost had = self.headers@;
        self.headers.push((name.to_owned(), value.to_owned()));
        assert(field_views(self.headers@) =~= field_views(had).push((name@, value@)));
    }

    /// Serializes to the wire format. Always emits exactly one `Content-Length`
    /// (computed from the body) and one `Connection` header.
    pub fn into_bytes(self) -> (r: Vec<u8>)
        ensures
            r@ == self@.wire(),
    {
        let ghost fields = field_views(self.headers@);
        let mut head = "HTTP/1.1 ".to_owned();
        push_decimal(&mut head, self.status as u64);
        head.append(" ");
        head.append(reason_phrase(self.status));
        head.append("\r\n");
        let ghost first = head@;
        assert(first + field_lines(fields.take(0)) =~= first);
        let mut i: usize = 0;
        while i < self.headers.len()
            invariant
                i <= self.headers@.len(),
                fields == field_views(self.headers@),
                head@ == first + field_lines(fields.take(i as int)),
            decreases self.headers@.len() - i,
        {
            push_field(
                &mut head,
                self.headers[i].0.as_str(),
                self.headers[i].1.as_str(),
                Ghost(fields.take(i as int)),
            );
            proof {
                let f = (self.headers@[i as int].0@, self.headers@[i as int].1@);
                assert(fields.take(i + 1) =~= fields.take(i as int).push(f));
                assert(head@ == first + field_lines(fields.take(i as int).push(f)));
            }
            i += 1;
        }
        assert(fields.take(fields.len() as int) =~= fields);
        let length = crate::numbers::decimal_of(self.body.len() as u64);
        push_field(&mut head, "Content-Length", length.as_str(), Ghost(fields));
        let ghost with_length = fields.push(("Content-Length"@, length@));
        assert(head@ == first + field_lines(with_length));
        let conn = if self.keep_alive {
            "keep-alive"
        } else {
            "close"
        };
        push_field(&mut head, "Connection", conn, Ghost(with_length));
        assert(head@ == first + field_lines(with_length.push(("Connection"@, conn@))));
        head.append("\r\n");
        assert(head@ =~= self@.head());
        let mut out: Vec<u8> = Vec::new();
        push_bytes(&mut out, head.as_str().as_bytes());
        push_bytes(&mut out, self.body.as_slice());
        assert(out@ =~= self@.wire());
        out
    }
}

/// Whether a field says how the response is framed or what becomes of the
/// connection.
pub open spec fn is_framing(name: Seq<char>) -> bool {
    ||| same_ignoring_case(name, "content-length"@)
    ||| same_ignoring_case(name, "connection"@)
    ||| same_ignoring_case(name, "transfer-encoding"@)
}

/// Whether none of the fields that were set by hand is about framing.
pub open spec fn leaves_framing(fields: Seq<Field>) -> bool {
    forall|i: int| 0 <= i < fields.len() ==> !is_framing((#[trigger] fields[i]).0)
}

/// Where no field about framing was set by hand, exactly one `Content-Length`
/// is sent, which is the length of the body, and exactly one `Connection`.
pub proof fn law_framing_is_sent_once(r: ResponseView)
    requires
        leaves_framing(r.headers),
    ensures
        ({
            let sent = r.sent_fields();
            let n = r.headers.len() as int;
            &&& sent[n] == ("Content-Length"@, decimal(r.body.len()))
            &&& sent[n + 1] == ("Connection"@, if r.keep_alive {
                "keep-alive"@
            } else {
                "close"@
            })
            &&& forall|i: int|
                0 <= i < sent.len() && i != n && i != n + 1 ==> !is_framing((#[trigger] sent[i]).0)
        }),
{
    let sent = r.sent_fields();
    assert forall|i: int| 0 <= i < r.headers.len() implies !is_framing((#[trigger] sent[i]).0) by {
        assert(sent[i] == r.headers[i]);
    }
}

} // verus!
