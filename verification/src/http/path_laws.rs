//! What holds of paths: which route they belong to, which file they name, and
//! what kind of file that is.

use super::mime::{mime_type, type_for};
use super::paths::{
    answers_for, below_route, extension, joined_path, last_part, lemma_below_route, may_escape,
    suffix_of,
};
use crate::text::{begins, joined, lemma_lead_is, lemma_tail_is, lower, trim_front, upper, Class};
use crate::text_laws::{law_case_is_ignored, law_joining_is_undone_by_cutting};
use vstd::prelude::*;

verus! {

/// A route answers for its own path and for all that is below it, but not for
/// paths that merely start with the same letters; the root answers for all.
pub proof fn law_routes_answer_for_what_is_below(
    route: Seq<char>,
    rel: Seq<char>,
    path: Seq<char>,
)
    ensures
        answers_for("/"@, path),
        answers_for(route, route),
        answers_for(route, route + "/"@ + rel),
        answers_for(route, path) && route != "/"@ && path != route ==> path.len() > route.len()
            && path.take(route.len() as int) == route && path[route.len() as int] == '/',
{
    reveal_strlit("/");
    assert((route + "/"@ + rel).take((route + "/"@).len() as int) =~= route + "/"@);
    if answers_for(route, path) && route != "/"@ && path != route {
        let p = route + "/"@;
        assert(begins(path, p));
        assert(path.take(p.len() as int) == p);
        assert(path.take(route.len() as int) =~= p.take(route.len() as int));
        assert(p.take(route.len() as int) =~= route);
        assert(path.take(p.len() as int)[route.len() as int] == '/');
    }
}

/// Whether a text is nothing but slashes.
pub open spec fn is_slashes(s: Seq<char>) -> bool {
    forall|i: int| 0 <= i < s.len() ==> #[trigger] s[i] == '/'
}

/// What a path names below its route is what is left when the path of the route
/// and the slashes behind it are taken off.
pub proof fn law_rest_below_route(route: Seq<char>, slashes: Seq<char>, rel: Seq<char>)
    requires
        is_slashes(slashes),
        rel.len() > 0 ==> rel[0] != '/' && slashes.len() > 0,
    ensures
        route != "/"@ ==> below_route(route, route + slashes + rel) == rel,
        below_route("/"@, slashes + rel) == rel,
{
    reveal_strlit("/");
    let tail = slashes + rel;
    assert forall|i: int| 0 <= i < slashes.len() implies Class::Only('/').holds(
        #[trigger] tail[i],
    ) by {
        assert(tail[i] == slashes[i]);
    }
    if rel.len() > 0 {
        assert(tail[slashes.len() as int] == rel[0]);
    }
    lemma_lead_is(tail, Class::Only('/'), slashes.len() as int);
    assert(trim_front(tail, Class::Only('/')) =~= rel);
    lemma_below_route("/"@, tail);
    let path = route + slashes + rel;
    if route != "/"@ {
        assert(path.skip(route.len() as int) =~= tail);
        if slashes.len() > 0 {
            assert(path.take((route + "/"@).len() as int) =~= route + "/"@);
        } else {
            assert(path =~= route);
        }
        lemma_below_route(route, path);
    }
}

/// A relative path leads out of its root exactly if it starts at the root of
/// the system or has a step up among its parts.
pub proof fn law_escapes_have_a_step_up(parts: Seq<Seq<char>>)
    requires
        parts.len() > 0,
        forall|i: int| 0 <= i < parts.len() ==> !(#[trigger] parts[i]).contains('/'),
    ensures
        may_escape(joined(parts, seq!['/'])) <==> (parts.len() > 1 && parts[0].len() == 0)
            || parts.contains(".."@),
{
    law_joining_is_undone_by_cutting(parts, '/');
    let s = joined(parts, seq!['/']);
    if parts.len() > 1 {
        let more = parts.skip(1);
        assert(parts =~= seq![parts[0]] + more);
        crate::text_laws::lemma_joined_front(parts[0], more, seq!['/']);
        if parts[0].len() == 0 {
            assert(s[0] == '/');
        } else {
            assert(s[0] == parts[0][0]);
            assert(parts[0].contains(parts[0][0]));
        }
    } else {
        assert(parts =~= seq![parts[0]]);
        assert(s == parts[0]);
        if s.len() > 0 {
            assert(parts[0].contains(s[0]));
        }
    }
}

/// A relative path stands behind its base, with one slash between them; an
/// absolute one stands for itself.
pub proof fn law_paths_are_joined(base: Seq<char>, rel: Seq<char>)
    ensures
        rel.len() > 0 && rel[0] == '/' ==> joined_path(base, rel) == rel,
        rel.len() == 0 || rel[0] != '/' ==> ({
            let path = joined_path(base, rel);
            &&& base.len() == 0 ==> path == rel
            &&& base.len() > 0 && base.last() == '/' ==> path == base + rel
            &&& base.len() > 0 && base.last() != '/' ==> path == base + seq!['/'] + rel
        }),
{
    reveal_strlit("/");
    assert("/"@ =~= seq!['/']);
    assert(base.len() == 0 ==> base + rel =~= rel);
}

/// The extension of a file name is what stands behind its last dot, unless
/// nothing stands before that dot.
pub proof fn law_suffixes(stem: Seq<char>, ext: Seq<char>)
    requires
        !ext.contains('.'),
    ensures
        stem.len() > 0 ==> suffix_of(stem + seq!['.'] + ext) == Some(ext),
        suffix_of(seq!['.'] + ext) is None,
        suffix_of(ext) is None,
{
    let name = stem + seq!['.'] + ext;
    let n = ext.len() as int;
    assert forall|i: int| name.len() - n <= i < name.len() implies Class::Not('.').holds(
        #[trigger] name[i],
    ) by {
        assert(name[i] == ext[i - stem.len() - 1]);
    }
    assert(name[name.len() - n - 1] == '.');
    lemma_tail_is(name, Class::Not('.'), n);
    assert(name.skip(name.len() - n) =~= ext);
    let hidden = seq!['.'] + ext;
    assert forall|i: int| hidden.len() - n <= i < hidden.len() implies Class::Not('.').holds(
        #[trigger] hidden[i],
    ) by {
        assert(hidden[i] == ext[i - 1]);
    }
    assert(hidden[hidden.len() - n - 1] == '.');
    lemma_tail_is(hidden, Class::Not('.'), n);
    assert forall|i: int| 0 <= i < ext.len() implies Class::Not('.').holds(#[trigger] ext[i]) by {
        assert(ext.contains(ext[i]));
    }
    lemma_tail_is(ext, Class::Not('.'), n);
}

/// The extension of a path is that of its last part; parts that are empty or a
/// dot do not count, and a step up has none.
pub proof fn law_extensions_of_paths(parts: Seq<Seq<char>>)
    requires
        parts.len() > 0,
        forall|i: int| 0 <= i < parts.len() ==> !(#[trigger] parts[i]).contains('/'),
    ensures
        parts.last().len() > 0 && parts.last() != "."@ && parts.last() != ".."@ ==> extension(
            joined(parts, seq!['/']),
        ) == suffix_of(parts.last()),
        parts.last() == ".."@ ==> extension(joined(parts, seq!['/'])) is None,
        (parts.last().len() == 0 || parts.last() == "."@) && parts.len() > 1 ==> extension(
            joined(parts, seq!['/']),
        ) == extension(joined(parts.drop_last(), seq!['/'])),
        (parts.last().len() == 0 || parts.last() == "."@) && parts.len() == 1 ==> extension(
            joined(parts, seq!['/']),
        ) is None,
{
    law_joining_is_undone_by_cutting(parts, '/');
    reveal_strlit("");
    reveal_strlit(".");
    reveal_strlit("..");
    assert(".."@.len() == 2 && "."@.len() == 1);
    if parts.last().len() == 0 {
        assert(parts.last() =~= ""@);
    }
    let front = parts.drop_last();
    if front.len() > 0 {
        assert forall|i: int| 0 <= i < front.len() implies !(#[trigger] front[i]).contains('/') by {
            assert(front[i] == parts[i]);
        }
        law_joining_is_undone_by_cutting(front, '/');
    } else {
        assert(front =~= seq![]);
        assert(last_part(front) is None);
    }
}

/// The content types of the common kinds of files, by extension.
pub proof fn law_content_types(ext: Seq<char>)
    ensures
        ext == "html"@ || ext == "htm"@ ==> type_for(ext) == "text/html; charset=utf-8"@,
        ext == "css"@ ==> type_for(ext) == "text/css; charset=utf-8"@,
        ext == "js"@ || ext == "mjs"@ ==> type_for(ext) == "text/javascript; charset=utf-8"@,
        ext == "json"@ ==> type_for(ext) == "application/json"@,
        ext == "txt"@ || ext == "md"@ ==> type_for(ext) == "text/plain; charset=utf-8"@,
        ext == "xml"@ ==> type_for(ext) == "application/xml"@,
        ext == "png"@ ==> type_for(ext) == "image/png"@,
        ext == "jpg"@ || ext == "jpeg"@ ==> type_for(ext) == "image/jpeg"@,
        ext == "gif"@ ==> type_for(ext) == "image/gif"@,
        ext == "svg"@ ==> type_for(ext) == "image/svg+xml"@,
        ext == "ico"@ ==> type_for(ext) == "image/x-icon"@,
        ext == "webp"@ ==> type_for(ext) == "image/webp"@,
        ext == "pdf"@ ==> type_for(ext) == "application/pdf"@,
        ext == "zip"@ ==> type_for(ext) == "application/zip"@,
        ext == "mp3"@ ==> type_for(ext) == "audio/mpeg"@,
        ext == "mp4"@ ==> type_for(ext) == "video/mp4"@,
{
    lemma_extensions_differ();
}

/// The extensions that have a content type of their own.
pub open spec fn is_known(ext: Seq<char>) -> bool {
    ||| ext == "html"@ || ext == "htm"@ || ext == "css"@ || ext == "js"@ || ext == "mjs"@
    ||| ext == "json"@ || ext == "txt"@ || ext == "md"@ || ext == "xml"@ || ext == "png"@
    ||| ext == "jpg"@ || ext == "jpeg"@ || ext == "gif"@ || ext == "svg"@ || ext == "ico"@
    ||| ext == "webp"@ || ext == "pdf"@ || ext == "zip"@ || ext == "mp3"@ || ext == "mp4"@
}

/// Case does not count in an extension, and a file of no known kind is plain
/// bytes.
pub proof fn law_unknown_files_are_bytes(ext: Seq<char>)
    ensures
        mime_type(Some(upper(ext))) == mime_type(Some(lower(ext))),
        mime_type(Some(ext)) == mime_type(Some(lower(ext))),
        lower(ext) == ext ==> mime_type(Some(ext)) == type_for(ext),
        !is_known(ext) ==> type_for(ext) == "application/octet-stream"@,
        mime_type(None) == "application/octet-stream"@,
{
    law_case_is_ignored(ext, ext);
}

/// The letters of the known extensions.
proof fn lemma_extensions_differ()
    ensures
        "html"@.len() == 4 && "html"@[0] == 'h' && "html"@[1] == 't' && "html"@[2] == 'm' && "html"@[3] == 'l',
        "htm"@.len() == 3 && "htm"@[0] == 'h' && "htm"@[1] == 't' && "htm"@[2] == 'm',
        "css"@.len() == 3 && "css"@[0] == 'c' && "css"@[1] == 's' && "css"@[2] == 's',
        "js"@.len() == 2 && "js"@[0] == 'j' && "js"@[1] == 's',
        "mjs"@.len() == 3 && "mjs"@[0] == 'm' && "mjs"@[1] == 'j' && "mjs"@[2] == 's',
        "json"@.len() == 4 && "json"@[0] == 'j' && "json"@[1] == 's' && "json"@[2] == 'o' && "json"@[3] == 'n',
        "txt"@.len() == 3 && "txt"@[0] == 't' && "txt"@[1] == 'x' && "txt"@[2] == 't',
        "md"@.len() == 2 && "md"@[0] == 'm' && "md"@[1] == 'd',
        "xml"@.len() == 3 && "xml"@[0] == 'x' && "xml"@[1] == 'm' && "xml"@[2] == 'l',
        "png"@.len() == 3 && "png"@[0] == 'p' && "png"@[1] == 'n' && "png"@[2] == 'g',
        "jpg"@.len() == 3 && "jpg"@[0] == 'j' && "jpg"@[1] == 'p' && "jpg"@[2] == 'g',
        "jpeg"@.len() == 4 && "jpeg"@[0] == 'j' && "jpeg"@[1] == 'p' && "jpeg"@[2] == 'e' && "jpeg"@[3] == 'g',
        "gif"@.len() == 3 && "gif"@[0] == 'g' && "gif"@[1] == 'i' && "gif"@[2] == 'f',
        "svg"@.len() == 3 && "svg"@[0] == 's' && "svg"@[1] == 'v' && "svg"@[2] == 'g',
        "ico"@.len() == 3 && "ico"@[0] == 'i' && "ico"@[1] == 'c' && "ico"@[2] == 'o',
        "webp"@.len() == 4 && "webp"@[0] == 'w' && "webp"@[1] == 'e' && "webp"@[2] == 'b' && "webp"@[3] == 'p',
        "pdf"@.len() == 3 && "pdf"@[0] == 'p' && "pdf"@[1] == 'd' && "pdf"@[2] == 'f',
        "zip"@.len() == 3 && "zip"@[0] == 'z' && "zip"@[1] == 'i' && "zip"@[2] == 'p',
        "mp3"@.len() == 3 && "mp3"@[0] == 'm' && "mp3"@[1] == 'p' && "mp3"@[2] == '3',
        "mp4"@.len() == 3 && "mp4"@[0] == 'm' && "mp4"@[1] == 'p' && "mp4"@[2] == '4',
{
    reveal_strlit("html");
    reveal_strlit("htm");
    reveal_strlit("css");
    reveal_strlit("js");
    reveal_strlit("mjs");
    reveal_strlit("json");
    reveal_strlit("txt");
    reveal_strlit("md");
    reveal_strlit("xml");
    reveal_strlit("png");
    reveal_strlit("jpg");
    reveal_strlit("jpeg");
    reveal_strlit("gif");
    reveal_strlit("svg");
    reveal_strlit("ico");
    reveal_strlit("webp");
    reveal_strlit("pdf");
    reveal_strlit("zip");
    reveal_strlit("mp3");
    reveal_strlit("mp4");
}

} // verus!
