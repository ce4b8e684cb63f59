//! Content types by file extension.

use super::paths::{extension, extension_of};
use crate::text::{chars_of, is_str, lower, to_lower};
use vstd::prelude::*;

verus! {

/// The content type that goes with an extension in small letters.
pub open spec fn type_for(ext: Seq<char>) -> Seq<char> {
    if ext == "html"@ || ext == "htm"@ {
        "text/html; charset=utf-8"@
    } else if ext == "css"@ {
        "text/css; charset=utf-8"@
    } else if ext == "js"@ || ext == "mjs"@ {
        "text/javascript; charset=utf-8"@
    } else if ext == "json"@ {
        "application/json"@
    } else if ext == "txt"@ || ext == "md"@ {
        "text/plain; charset=utf-8"@
    } else if ext == "xml"@ {
        "application/xml"@
    } else if ext == "png"@ {
        "image/png"@
    } else if ext == "jpg"@ || ext == "jpeg"@ {
        "image/jpeg"@
    } else if ext == "gif"@ {
        "image/gif"@
    } else if ext == "svg"@ {
        "image/svg+xml"@
    } else if ext == "ico"@ {
        "image/x-icon"@
    } else if ext == "webp"@ {
        "image/webp"@
    } else if ext == "pdf"@ {
        "application/pdf"@
    } else if ext == "zip"@ {
        "application/zip"@
    } else if ext == "mp3"@ {
        "audio/mpeg"@
    } else if ext == "mp4"@ {
        "video/mp4"@
    } else {
        "application/octet-stream"@
    }
}

/// The content type of a file with the given extension, whatever its case, or
/// with none.
pub open spec fn mime_type(ext: Option<Seq<char>>) -> Seq<char> {
    match ext {
        Some(e) => type_for(lower(e)),
        None => "application/octet-stream"@,
    }
}

/// Gives the content type for a path, going by its extension.
pub fn mime_for(path: &str) -> (r: &'static str)
    ensures
        r@ == mime_type(extension(path@)),
{
    let ext = match extension_of(path) {
        Some(e) => e,
        None => return "application/octet-stream",
    };
    let chars = chars_of(ext.as_str());
    let small = to_lower(chars.as_slice());
    let e = small.as_slice();
    if is_str(e, "html") || is_str(e, "htm") {
        "text/html; charset=utf-8"
    } else if is_str(e, "css") {
        "text/css; charset=utf-8"
    } else if is_str(e, "js") || is_str(e, "mjs") {
        "text/javascript; charset=utf-8"
    } else if is_str(e, "json") {
        "application/json"
    } else if is_str(e, "txt") || is_str(e, "md") {
        "text/plain; charset=utf-8"
    } else if is_str(e, "xml") {
        "application/xml"
    } else if is_str(e, "png") {
        "image/png"
    } else if is_str(e, "jpg") || is_str(e, "jpeg") {
        "image/jpeg"
    } else if is_str(e, "gif") {
        "image/gif"
    } else if is_str(e, "svg") {
        "image/svg+xml"
    } else if is_str(e, "ico") {
        "image/x-icon"
    } else if is_str(e, "webp") {
        "image/webp"
    } else if is_str(e, "pdf") {
        "application/pdf"
    } else if is_str(e, "zip") {
        "application/zip"
    } else if is_str(e, "mp3") {
        "audio/mpeg"
    } else if is_str(e, "mp4") {
        "video/mp4"
    } else {
        "application/octet-stream"
    }
}

} // verus!
