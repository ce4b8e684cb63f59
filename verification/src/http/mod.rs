//! HTTP: requests, responses, and the way from one to the other.

use crate::text::{chars_of, is_str, lower, str_eq, to_lower};
use vstd::prelude::*;

pub mod answer_laws;
pub mod cgi_output;
pub mod disk_laws;
pub mod framing_laws;
pub mod head_laws;
pub mod listing;
pub mod message_laws;
pub mod mime;
pub mod multipart;
pub mod multipart_laws;
pub mod path_laws;
pub mod paths;
pub mod request;
pub mod request_laws;
pub mod response;
pub mod router;
pub mod router_laws;

pub use request::{decode_body, parse_head, BodyStatus, HeadStatus, Request};
pub use router::{error_response, handle};

verus! {

/// The reason phrase for a status code.
pub open spec fn phrase(code: u16) -> Seq<char> {
    if code == 200 {
        "OK"@
    } else if code == 201 {
        "Created"@
    } else if code == 204 {
        "No Content"@
    } else if code == 301 {
        "Moved Permanently"@
    } else if code == 302 {
        "Found"@
    } else if code == 400 {
        "Bad Request"@
    } else if code == 403 {
        "Forbidden"@
    } else if code == 404 {
        "Not Found"@
    } else if code == 405 {
        "Method Not Allowed"@
    } else if code == 408 {
        "Request Timeout"@
    } else if code == 413 {
        "Payload Too Large"@
    } else if code == 500 {
        "Internal Server Error"@
    } else if code == 501 {
        "Not Implemented"@
    } else {
        "Error"@
    }
}

/// Reason phrase for a status code. Covers the codes this server emits.
pub fn reason_phrase(code: u16) -> (r: &'static str)
    ensures
        r@ == phrase(code),
{
    match code {
        200 => "OK",
        201 => "Created",
        204 => "No Content",
        301 => "Moved Permanently",
        302 => "Found",
        400 => "Bad Request",
        403 => "Forbidden",
        404 => "Not Found",
        405 => "Method Not Allowed",
        408 => "Request Timeout",
        413 => "Payload Too Large",
        500 => "Internal Server Error",
        501 => "Not Implemented",
        _ => "Error",
    }
}

/// Whether a connection stays open after a request of the given version, under
/// the given `Connection` field.
pub open spec fn stays_open(version: Seq<char>, connection: Option<Seq<char>>) -> bool {
    if version == "HTTP/1.1"@ {
        !(connection is Some && lower(connection->0) == "close"@)
    } else {
        connection is Some && lower(connection->0) == "keep-alive"@
    }
}

/// Decides whether to keep the connection alive after this request.
/// HTTP/1.1 defaults to keep-alive unless `Connection: close`; older versions
/// require an explicit `Connection: keep-alive`.
pub fn wants_keep_alive(version: &str, connection: Option<&str>) -> (r: bool)
    ensures
        r == stays_open(
            version@,
            match connection {
                Some(c) => Some(c@),
                None => None,
            },
        ),
{
    let newest: bool = str_eq(version, "HTTP/1.1");
    match connection {
        Some(c) => {
            let c = chars_of(c);
            let c = to_lower(c.as_slice());
            if newest {
                !is_str(c.as_slice(), "close")
            } else {
                is_str(c.as_slice(), "keep-alive")
            }
        },
        None => newest,
    }
}

} // verus!
