//! Files in `multipart/form-data` bodies.

use super::request::{blank_line, crlf};
use crate::bytes::{
    all_at, ends_with, find, find_all, first_at, lemma_all_at, occurs_at, positions, starts_with,
};
use crate::text::{
    before, begins, begins_with, chars_of, find_in, first_in, is_str, lower, part_before, pieces,
    split, split_at_each, string_of, tail, tail_len, to_lower, trim, trim_both, trim_end,
    trim_start, trimmed, Class,
};
use crate::utf8::{decode_lossy, readable};
use vstd::prelude::*;
use vstd::slice::{slice_subrange, slice_to_vec};

verus! {

/// Whether a parameter of a content type gives the boundary.
pub open spec fn is_boundary(param: Seq<char>) -> bool {
    begins(lower(trimmed(param)), "boundary="@)
}

/// The delimiter that the first boundary among the parameters makes: two
/// hyphens and the boundary, without quotes around it.
pub open spec fn delimiter_in(params: Seq<Seq<char>>) -> Option<Seq<char>>
    decreases params.len(),
{
    if params.len() == 0 {
        None
    } else if is_boundary(params[0]) {
        Some("--"@ + trim_both(trimmed(params[0]).skip(9), Class::Only('"')))
    } else {
        delimiter_in(params.skip(1))
    }
}

/// The delimiter of the parts of a body, if its content type is
/// `multipart/form-data` with a boundary.
pub open spec fn delimiter(content_type: Seq<char>) -> Option<Seq<char>> {
    if begins(lower(content_type), "multipart/form-data"@) {
        delimiter_in(split(content_type, ';'))
    } else {
        None
    }
}

/// Extracts the `--boundary` delimiter from a `multipart/form-data` content
/// type.
pub fn multipart_boundary(content_type: &str) -> (r: Option<String>)
    ensures
        match r {
            Some(d) => delimiter(content_type@) == Some(d@),
            None => delimiter(content_type@) is None,
        },
{
    let chars = chars_of(content_type);
    let small = to_lower(chars.as_slice());
    let kind = chars_of("multipart/form-data");
    if !begins_with(small.as_slice(), kind.as_slice()) {
        return None;
    }
    let params = split_at_each(chars.as_slice(), ';');
    let key = chars_of("boundary=");
    let ghost all = split(content_type@, ';');
    let mut i: usize = 0;
    assert(all.skip(0) =~= all);
    while i < params.len()
        invariant
            i <= params@.len(),
            pieces(params@) == all,
            key@ == "boundary="@,
            delimiter_in(all) == delimiter_in(all.skip(i as int)),
            delimiter(content_type@) == delimiter_in(all),
        decreases params@.len() - i,
    {
        let p = trim(params[i]);
        let small = to_lower(p);
        proof {
            assert(all.skip(i as int)[0] == params@[i as int]@);
            assert(all.skip(i as int).skip(1) =~= all.skip(i + 1));
        }
        if begins_with(small.as_slice(), key.as_slice()) {
            proof {
                reveal_strlit("boundary=");
                assert(key@.len() == 9);
                assert(p@.len() == small@.len());
            }
            let value = slice_subrange(p, 9, p.len());
            let value = trim_end(trim_start(value, Class::Only('"')), Class::Only('"'));
            let mut d = "--".to_owned();
            d.append(string_of(value).as_str());
            return Some(d);
        }
        i += 1;
    }
    None
}

/// A name that may stand in quotes: what is between the quote in front and the
/// next one, which may be nothing, or all up to the first quote.
pub open spec fn unquoted(text: Seq<char>) -> Seq<char> {
    if text.len() > 0 && text[0] == '"' {
        before(text.skip(1), '"')
    } else {
        before(text, '"')
    }
}

/// The file name in the header fields of a part: the one that stands behind the
/// first `filename=`.
pub open spec fn filename_in(text: Seq<char>) -> Option<Seq<char>> {
    match first_in(lower(text), "filename="@) {
        Some(i) => Some(unquoted(text.skip(i + 9))),
        None => None,
    }
}

/// Finds `filename="..."` in the text of a part's header fields.
pub fn text_filename(text: &str) -> (r: Option<String>)
    ensures
        match r {
            Some(name) => filename_in(text@) == Some(name@),
            None => filename_in(text@) is None,
        },
{
    let chars = chars_of(text);
    let small = to_lower(chars.as_slice());
    let key = chars_of("filename=");
    match find_in(small.as_slice(), key.as_slice()) {
        Some(i) => {
            proof {
                reveal_strlit("filename=");
                assert(small@.len() == chars@.len());
                assert(i + 9 <= small@.len());
                assert(i + 9 <= chars.len());
            }
            let rest = slice_subrange(chars.as_slice(), i + 9, chars.len());
            let rest = if rest.len() > 0 && rest[0] == '"' {
                slice_subrange(rest, 1, rest.len())
            } else {
                rest
            };
            Some(string_of(part_before(rest, '"')))
        },
        None => None,
    }
}

/// Finds `filename="..."` in a part's header fields (Content-Disposition).
pub fn part_filename(headers: &[u8]) -> (r: Option<String>)
    ensures
        match r {
            Some(name) => filename_in(readable(headers@)) == Some(name@),
            None => filename_in(readable(headers@)) is None,
        },
{
    let text = decode_lossy(headers);
    text_filename(text.as_str())
}

/// What stands behind the last separator of either kind, trimmed; nothing if
/// that is a name for a directory itself.
pub open spec fn base_name(name: Seq<char>) -> Seq<char> {
    let base = trimmed(name.skip(name.len() - tail(name, Class::Segment)));
    if base == "."@ || base == ".."@ {
        seq![]
    } else {
        base
    }
}

/// Reduces an uploaded filename to a safe basename (no directory components).
pub fn sanitize_filename(name: &str) -> (r: String)
    ensures
        r@ == base_name(name@),
{
    let chars = chars_of(name);
    let n: usize = tail_len(chars.as_slice(), Class::Segment);
    let base = trim(slice_subrange(chars.as_slice(), chars.len() - n, chars.len()));
    if is_str(base, ".") || is_str(base, "..") {
        let none = String::new();
        assert(none@ =~= seq![]);
        none
    } else {
        string_of(base)
    }
}

/// A file in a body.
pub struct Part {
    /// The name to save it under.
    pub name: String,
    pub content: Vec<u8>,
}

/// What a [`Part`] says.
#[verifier::ext_equal]
pub ghost struct PartView {
    pub name: Seq<char>,
    pub content: Seq<u8>,
}

impl View for Part {
    type V = PartView;

    open spec fn view(&self) -> PartView {
        PartView { name: self.name@, content: self.content@ }
    }
}

/// What a list of parts says.
pub open spec fn part_views(v: Seq<Part>) -> Seq<PartView> {
    v.map_values(|p: Part| p@)
}

/// `seg` without a line break at its front and one at its back.
pub open spec fn unbroken(seg: Seq<u8>) -> Seq<u8> {
    let s = if occurs_at(seg, crlf(), 0) {
        seg.skip(2)
    } else {
        seg
    };
    if occurs_at(s, crlf(), s.len() - 2) {
        s.take(s.len() - 2)
    } else {
        s
    }
}

/// The file in what stands between two delimiters, if that is one: it has a
/// head, a blank line and a content, and the head gives a usable file name.
pub open spec fn part_in(seg: Seq<u8>) -> Option<PartView> {
    if occurs_at(seg, seq![45u8, 45u8], 0) {
        None
    } else {
        let s = unbroken(seg);
        match first_at(s, blank_line(), 0) {
            Some(h) => match filename_in(readable(s.take(h))) {
                Some(name) => if base_name(name).len() == 0 {
                    None
                } else {
                    Some(PartView { name: base_name(name), content: s.skip(h + 4) })
                },
                None => None,
            },
            None => None,
        }
    }
}

/// The files between delimiters of length `n` that stand at the positions
/// `at`.
pub open spec fn parts_between(body: Seq<u8>, at: Seq<int>, n: int) -> Seq<PartView>
    decreases at.len(),
{
    if at.len() < 2 {
        seq![]
    } else {
        let rest = parts_between(body, at.drop_last(), n);
        match part_in(body.subrange(at[at.len() - 2] + n, at.last())) {
            Some(part) => rest.push(part),
            None => rest,
        }
    }
}

/// The files in a body whose parts are delimited by `delim`.
pub open spec fn parts_in(body: Seq<u8>, delim: Seq<u8>) -> Seq<PartView> {
    parts_between(body, all_at(body, delim, 0), delim.len() as int)
}

/// Reads the file between two delimiters.
pub fn read_part(seg: &[u8]) -> (r: Option<Part>)
    ensures
        match r {
            Some(p) => part_in(seg@) == Some(p@),
            None => part_in(seg@) is None,
        },
{
    let closing: [u8; 2] = [45, 45];
    assert(closing@ =~= seq![45u8, 45u8]);
    if starts_with(seg, &closing) {
        return None;
    }
    let line_break: [u8; 2] = [13, 10];
    assert(line_break@ =~= crlf());
    let s = if starts_with(seg, &line_break) {
        slice_subrange(seg, 2, seg.len())
    } else {
        seg
    };
    let s = if ends_with(s, &line_break) {
        slice_subrange(s, 0, s.len() - 2)
    } else {
        s
    };
    assert(s@ == unbroken(seg@));
    let blank: [u8; 4] = [13, 10, 13, 10];
    assert(blank@ =~= blank_line());
    match find(s, &blank) {
        Some(h) => match part_filename(slice_subrange(s, 0, h)) {
            Some(name) => {
                let safe = sanitize_filename(name.as_str());
                if safe.as_str().is_empty() {
                    None
                } else {
                    let content = slice_to_vec(slice_subrange(s, h + 4, s.len()));
                    Some(Part { name: safe, content })
                }
            },
            None => None,
        },
        None => None,
    }
}

/// Reads every file in a body.
pub fn read_parts(body: &[u8], delim: &[u8]) -> (r: Vec<Part>)
    ensures
        part_views(r@) == parts_in(body@, delim@),
{
    let found = find_all(body, delim);
    let ghost at = all_at(body@, delim@, 0);
    let ghost n = delim@.len() as int;
    proof {
        lemma_all_at(body@, delim@, 0);
    }
    let mut out: Vec<Part> = Vec::new();
    if found.len() == 0 {
        assert(part_views(out@) =~= parts_in(body@, delim@));
        return out;
    }
    let mut i: usize = 1;
    assert(part_views(out@) =~= parts_between(body@, at.take(1), n));
    while i < found.len()
        invariant
            1 <= i <= found@.len(),
            positions(found@) == at,
            n == delim@.len(),
            at == all_at(body@, delim@, 0),
            forall|k: int| 0 <= k < at.len() ==> 0 <= #[trigger] at[k] && occurs_at(body@, delim@, at[k]),
            forall|j: int, k: int|
                0 <= j < k < at.len() ==> #[trigger] at[j] + n <= #[trigger] at[k],
            part_views(out@) == parts_between(body@, at.take(i as int), n),
        decreases found@.len() - i,
    {
        proof {
            assert(at[i - 1] == found@[i - 1]);
            assert(at[i as int] == found@[i as int]);
            assert(at[i - 1] + n <= at[i as int]);
            assert(at.take(i + 1).drop_last() =~= at.take(i as int));
            assert(found@[i - 1] + delim@.len() <= body.len());
        }
        let seg = slice_subrange(body, found[i - 1] + delim.len(), found[i]);
        let ghost had = out@;
        match read_part(seg) {
            Some(part) => {
                out.push(part);
                assert(part_views(out@) =~= part_views(had).push(part@));
            },
            None => {},
        }
        i += 1;
    }
    assert(at.take(at.len() as int) =~= at);
    out
}

} // verus!
