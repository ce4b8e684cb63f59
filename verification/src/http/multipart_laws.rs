//! What holds of the files in forms.

use super::multipart::{
    base_name, filename_in, part_in, parts_between, parts_in, unbroken, PartView,
};
use super::request::{blank_line, crlf};
use crate::bytes::{
    all_at, first_at, lemma_first_at, lemma_first_at_is, lemma_first_at_none, occurs_at,
};
use crate::text::{
    first_in, lead, lemma_lead, lemma_lead_is, lemma_tail, lower, tail, trim_front, trimmed, Class,
};
use crate::utf8::readable;
use vstd::prelude::*;

verus! {

/// A file name in quotes is found as it was written, whatever follows it. An
/// empty one is found too, and nothing is saved under it.
pub proof fn law_quoted_names_are_found(front: Seq<char>, name: Seq<char>, rest: Seq<char>)
    requires
        !name.contains('"'),
        first_in(lower(front + "filename="@ + seq!['"'] + name + seq!['"'] + rest), "filename="@)
            == Some(front.len() as int),
    ensures
        filename_in(front + "filename="@ + seq!['"'] + name + seq!['"'] + rest) == Some(name),
        name.len() == 0 ==> base_name(name).len() == 0,
{
    let text = front + "filename="@ + seq!['"'] + name + seq!['"'] + rest;
    let quoted = seq!['"'] + name + seq!['"'] + rest;
    let opened = name + seq!['"'] + rest;
    reveal_strlit("filename=");
    assert("filename="@.len() == 9);
    assert(text.skip(front.len() as int + 9) =~= quoted);
    assert(quoted.skip(1) =~= opened);
    assert forall|i: int| 0 <= i < name.len() implies Class::Not('"').holds(
        #[trigger] opened[i],
    ) by {
        assert(opened[i] == name[i]);
    }
    lemma_lead_is(opened, Class::Not('"'), name.len() as int);
    assert(opened.take(name.len() as int) =~= name);
}

/// A name that an upload is saved under has no separator of either kind in it
/// and is no name for a directory itself.
pub proof fn law_saved_names_are_plain(name: Seq<char>)
    ensures
        !base_name(name).contains('/'),
        !base_name(name).contains('\\'),
        base_name(name) != "."@,
        base_name(name) != ".."@,
{
    let n = tail(name, Class::Segment);
    let end = name.skip(name.len() - n);
    let base = trimmed(end);
    lemma_tail(name, Class::Segment);
    lemma_lead(end, Class::Space);
    lemma_tail(trim_front(end, Class::Space), Class::Space);
    let a = lead(end, Class::Space);
    assert forall|i: int| 0 <= i < base.len() implies Class::Segment.holds(
        #[trigger] base[i],
    ) by {
        assert(base[i] == name[name.len() - n + a + i]);
    }
    reveal_strlit(".");
    reveal_strlit("..");
    assert("."@.len() == 1);
    assert(".."@.len() == 2);
}

/// One file of a form: its header fields and its content.
pub ghost struct FormFile {
    pub head: Seq<u8>,
    pub content: Seq<u8>,
}

/// What a client writes between two delimiters for a file.
pub open spec fn written(f: FormFile) -> Seq<u8> {
    crlf() + f.head + blank_line() + f.content + crlf()
}

/// What a client writes behind the last delimiter.
pub open spec fn closing() -> Seq<u8> {
    seq![45u8, 45u8, 13u8, 10u8]
}

/// Whether a delimiter is not found once more in what is written behind the
/// last one, as the one of an empty boundary is.
pub open spec fn closes_forms(delim: Seq<u8>) -> bool {
    delim.len() > 0 && first_at(closing(), delim, 0) is None
}

/// A form with the given files.
pub open spec fn form(files: Seq<FormFile>, delim: Seq<u8>) -> Seq<u8>
    decreases files.len(),
{
    if files.len() == 0 {
        delim + closing()
    } else {
        delim + written(files[0]) + form(files.skip(1), delim)
    }
}

/// Whether a file can be told from the delimiters and from its own header
/// fields: the delimiter that comes after it is the first one there, and the
/// blank line behind the header fields is the first one there.
pub open spec fn can_be_told(f: FormFile, delim: Seq<u8>) -> bool {
    &&& first_at(written(f) + delim, delim, 0) == Some(written(f).len() as int)
    &&& first_at(f.head + blank_line() + f.content, blank_line(), 0) == Some(f.head.len() as int)
}

/// What is saved of a file of a form: its content, under its base name, if the
/// header fields give one.
pub open spec fn saved_of(f: FormFile) -> Seq<PartView> {
    match filename_in(readable(f.head)) {
        Some(name) => if base_name(name).len() == 0 {
            seq![]
        } else {
            seq![PartView { name: base_name(name), content: f.content }]
        },
        None => seq![],
    }
}

/// What is saved of the files of a form.
pub open spec fn all_saved(files: Seq<FormFile>) -> Seq<PartView>
    decreases files.len(),
{
    if files.len() == 0 {
        seq![]
    } else {
        saved_of(files[0]) + all_saved(files.skip(1))
    }
}

/// What the parser makes of what was written for a file.
proof fn lemma_part_in_written(f: FormFile, delim: Seq<u8>)
    requires
        can_be_told(f, delim),
    ensures
        saved_of(f) == (match part_in(written(f)) {
            Some(part) => seq![part],
            None => seq![],
        }),
{
    let seg = written(f);
    let inner = f.head + blank_line() + f.content;
    assert(seg[0] == 13u8);
    assert(!occurs_at(seg, seq![45u8, 45u8], 0)) by {
        if occurs_at(seg, seq![45u8, 45u8], 0) {
            assert(seg.subrange(0, 2)[0] == 45u8);
        }
    }
    assert(seg.subrange(0, 2) =~= crlf());
    assert(seg.skip(2) =~= inner + crlf());
    let s = seg.skip(2);
    assert(s.subrange(s.len() - 2, s.len() as int) =~= crlf());
    assert(s.take(s.len() - 2) =~= inner);
    assert(unbroken(seg) == inner);
    assert(inner.take(f.head.len() as int) =~= f.head);
    assert(inner.skip(f.head.len() as int + 4) =~= f.content);
}

/// What is found in a buffer is found at the shifted place where the buffer
/// stands between other bytes.
proof fn lemma_first_in_context(pre: Seq<u8>, hay: Seq<u8>, post: Seq<u8>, needle: Seq<u8>)
    requires
        first_at(hay, needle, 0) is Some,
    ensures
        first_at(pre + hay + post, needle, pre.len() as int) == Some(
            pre.len() + first_at(hay, needle, 0)->0,
        ),
{
    lemma_first_at(hay, needle, 0);
    let all = pre + hay + post;
    let p = pre.len() as int;
    let n = needle.len() as int;
    let i = first_at(hay, needle, 0)->0;
    assert(all.subrange(p + i, p + i + n) =~= hay.subrange(i, i + n));
    assert forall|j: int| p <= j < p + i implies !occurs_at(all, needle, j) by {
        assert(!occurs_at(hay, needle, j - p));
        assert(all.subrange(j, j + n) =~= hay.subrange(j - p, j - p + n));
    }
    lemma_first_at_is(all, needle, p, p + i);
}

/// Where the delimiters of a form stand that begins at `start`.
pub open spec fn marks(start: int, files: Seq<FormFile>, delim: Seq<u8>) -> Seq<int>
    decreases files.len(),
{
    if files.len() == 0 {
        seq![start]
    } else {
        seq![start] + marks(start + delim.len() + written(files[0]).len(), files.skip(1), delim)
    }
}

/// The delimiters of a form are found where they stand.
proof fn lemma_marks(pre: Seq<u8>, files: Seq<FormFile>, delim: Seq<u8>)
    requires
        closes_forms(delim),
        forall|i: int| 0 <= i < files.len() ==> can_be_told(#[trigger] files[i], delim),
    ensures
        all_at(pre + form(files, delim), delim, pre.len() as int) == marks(
            pre.len() as int,
            files,
            delim,
        ),
    decreases files.len(),
{
    let all = pre + form(files, delim);
    let p = pre.len() as int;
    let n = delim.len() as int;
    assert(all.subrange(p, p + n) =~= delim);
    assert(first_at(all, delim, p) == Some(p));
    if files.len() == 0 {
        assert(first_at(all, delim, p + n) is None) by {
            lemma_first_at(closing(), delim, 0);
            assert forall|j: int| p + n <= j implies !occurs_at(all, delim, j) by {
                assert(!occurs_at(closing(), delim, j - p - n));
                if occurs_at(all, delim, j) {
                    assert(all.subrange(j, j + n) =~= closing().subrange(
                        j - p - n,
                        j - p - n + n,
                    ));
                }
            }
            lemma_first_at_none(all, delim, p + n);
        }
        assert(all_at(all, delim, p + n) =~= seq![]);
        assert(all_at(all, delim, p) =~= seq![p]);
    } else {
        let f = files[0];
        let w = written(f);
        let rest = files.skip(1);
        assert(can_be_told(f, delim));
        assert forall|i: int| 0 <= i < rest.len() implies can_be_told(
            #[trigger] rest[i],
            delim,
        ) by {
            assert(rest[i] == files[i + 1]);
        }
        let before = pre + delim + w;
        assert(all =~= before + form(rest, delim));
        lemma_marks(before, rest, delim);
        let m = before.len() as int;
        // The form goes on with a delimiter, so the next one is found there.
        let tail_bytes = form(rest, delim).skip(n);
        assert(form(rest, delim) =~= delim + tail_bytes);
        assert(all =~= (pre + delim) + (w + delim) + tail_bytes);
        lemma_first_in_context(pre + delim, w + delim, tail_bytes, delim);
        assert(first_at(all, delim, p + n) == Some(m));
        assert(all.subrange(m, m + n) =~= delim);
        assert(first_at(all, delim, m) == Some(m));
        assert(all_at(all, delim, p + n) == all_at(all, delim, m));
    }
}

/// The files between the first two delimiters, and those between the others.
proof fn lemma_parts_from_the_front(body: Seq<u8>, at: Seq<int>, n: int)
    requires
        at.len() >= 2,
    ensures
        parts_between(body, at, n) == (match part_in(body.subrange(at[0] + n, at[1])) {
            Some(part) => seq![part],
            None => seq![],
        }) + parts_between(body, at.skip(1), n),
    decreases at.len(),
{
    if at.len() == 2 {
        assert(parts_between(body, at.drop_last(), n) =~= seq![]);
        assert(parts_between(body, at.skip(1), n) =~= seq![]);
        assert(parts_between(body, at, n) =~= (match part_in(body.subrange(at[0] + n, at[1])) {
            Some(part) => seq![part],
            None => seq![],
        }) + parts_between(body, at.skip(1), n));
    } else {
        lemma_parts_from_the_front(body, at.drop_last(), n);
        assert(at.drop_last().skip(1) =~= at.skip(1).drop_last());
        assert(at.skip(1)[at.len() - 3] == at[at.len() - 2]);
        assert(at.skip(1).last() == at.last());
        let front = match part_in(body.subrange(at[0] + n, at[1])) {
            Some(part) => seq![part],
            None => seq![],
        };
        assert(parts_between(body, at, n) =~= front + parts_between(body, at.skip(1), n));
    }
}

proof fn lemma_form_in_context(pre: Seq<u8>, files: Seq<FormFile>, delim: Seq<u8>)
    requires
        closes_forms(delim),
        forall|i: int| 0 <= i < files.len() ==> can_be_told(#[trigger] files[i], delim),
    ensures
        parts_between(
            pre + form(files, delim),
            marks(pre.len() as int, files, delim),
            delim.len() as int,
        ) == all_saved(files),
    decreases files.len(),
{
    let all = pre + form(files, delim);
    let p = pre.len() as int;
    let n = delim.len() as int;
    let at = marks(p, files, delim);
    if files.len() == 0 {
        assert(parts_between(all, at, n) =~= seq![]);
    } else {
        let f = files[0];
        let w = written(f);
        let rest = files.skip(1);
        assert(can_be_told(f, delim));
        assert forall|i: int| 0 <= i < rest.len() implies can_be_told(
            #[trigger] rest[i],
            delim,
        ) by {
            assert(rest[i] == files[i + 1]);
        }
        let before = pre + delim + w;
        assert(all =~= before + form(rest, delim));
        lemma_form_in_context(before, rest, delim);
        let more = marks(p + n + w.len(), rest, delim);
        assert(before.len() == p + n + w.len());
        assert(more.len() >= 1 && more[0] == p + n + w.len());
        assert(at.skip(1) =~= more);
        assert(at[1] == p + n + w.len());
        lemma_parts_from_the_front(all, at, n);
        assert(all.subrange(p + n, p + n + w.len()) =~= w);
        lemma_part_in_written(f, delim);
    }
}

/// What a client uploads is what is saved: the files of a form come out with
/// the bytes that went in, in the order in which they were written.
pub proof fn law_forms_round_trip(files: Seq<FormFile>, delim: Seq<u8>)
    requires
        closes_forms(delim),
        forall|i: int| 0 <= i < files.len() ==> can_be_told(#[trigger] files[i], delim),
    ensures
        parts_in(form(files, delim), delim) == all_saved(files),
{
    lemma_marks(seq![], files, delim);
    lemma_form_in_context(seq![], files, delim);
    assert(seq![] + form(files, delim) =~= form(files, delim));
}

} // verus!
