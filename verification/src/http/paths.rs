//! Request paths, routes, and the files that they name.

use crate::text::{
    begins, begins_with, chars_of, is_str, lemma_tail, lemma_tail_is, pieces, split, split_at_each,
    str_eq, string_of, tail, tail_len, trim_front, trim_start, Class,
};
use crate::utf8::lemma_encode_concat;
use vstd::prelude::*;
use vstd::slice::slice_subrange;
use vstd::utf8::{
    decode_utf8, encode_utf8, encode_utf8_decode_utf8, encode_utf8_valid_utf8, valid_utf8,
};

verus! {

/// Whether a route answers for a request path: the root answers for all, any
/// other for its own path and for what is below it.
pub open spec fn answers_for(route_path: Seq<char>, req_path: Seq<char>) -> bool {
    ||| route_path == "/"@
    ||| req_path == route_path
    ||| begins(req_path, route_path + "/"@)
}

/// Tests whether a route answers for a request path.
pub fn route_matches(route_path: &str, req_path: &str) -> (r: bool)
    ensures
        r == answers_for(route_path@, req_path@),
{
    if str_eq(route_path, "/") || str_eq(req_path, route_path) {
        return true;
    }
    let req = chars_of(req_path);
    let mut below = chars_of(route_path);
    below.push('/');
    proof {
        reveal_strlit("/");
        assert(below@ =~= route_path@ + "/"@);
    }
    begins_with(req.as_slice(), below.as_slice())
}

/// How many bytes of a request path the path of a route takes up.
pub open spec fn prefix_bytes(route_path: Seq<char>, req_path: Seq<char>) -> int {
    let a = encode_utf8(route_path).len() as int;
    let b = encode_utf8(req_path).len() as int;
    if a <= b {
        a
    } else {
        b
    }
}

/// Whether the path of a route takes up whole characters of a request path.
pub open spec fn cuts_cleanly(route_path: Seq<char>, req_path: Seq<char>) -> bool {
    route_path == "/"@ || valid_utf8(
        encode_utf8(req_path).skip(prefix_bytes(route_path, req_path)),
    )
}

/// A request path without as many bytes at its front as the path of a route
/// has, and without the slashes at its front then. The root takes up nothing.
pub open spec fn below_route(route_path: Seq<char>, req_path: Seq<char>) -> Seq<char> {
    trim_front(
        if route_path == "/"@ {
            req_path
        } else {
            decode_utf8(encode_utf8(req_path).skip(prefix_bytes(route_path, req_path)))
        },
        Class::Only('/'),
    )
}

/// Strips the route prefix off the request path to get a path relative to root.
pub fn relative_path(route_path: &str, req_path: &str) -> (r: String)
    requires
        cuts_cleanly(route_path@, req_path@),
    ensures
        r@ == below_route(route_path@, req_path@),
{
    if str_eq(route_path, "/") {
        let chars = chars_of(req_path);
        return string_of(trim_start(chars.as_slice(), Class::Only('/')));
    }
    let bytes = req_path.as_bytes();
    let n: usize = route_path.as_bytes().len();
    let n: usize = if n <= bytes.len() {
        n
    } else {
        bytes.len()
    };
    match core::str::from_utf8(slice_subrange(bytes, n, bytes.len())) {
        Ok(rest) => {
            proof {
                encode_utf8_decode_utf8(rest@);
            }
            let chars = chars_of(rest);
            string_of(trim_start(chars.as_slice(), Class::Only('/')))
        },
        Err(_) => String::new(),
    }
}

/// Of a path that a route answers for, the route takes up the characters of its
/// own path.
pub proof fn lemma_below_route(route_path: Seq<char>, req_path: Seq<char>)
    requires
        answers_for(route_path, req_path),
    ensures
        cuts_cleanly(route_path, req_path),
        route_path != "/"@ ==> begins(req_path, route_path),
        below_route(route_path, req_path) == trim_front(
            if route_path == "/"@ {
                req_path
            } else {
                req_path.skip(route_path.len() as int)
            },
            Class::Only('/'),
        ),
{
    if route_path != "/"@ {
        let n = route_path.len() as int;
        assert(begins(req_path, route_path)) by {
            if req_path == route_path {
                assert(req_path.take(n) =~= route_path);
            } else {
                let deep = route_path + "/"@;
                assert(deep.take(n) =~= route_path);
                assert(req_path.take(n) =~= req_path.take(deep.len() as int).take(n));
            }
        }
        let rest = req_path.skip(n);
        assert(req_path =~= route_path + rest);
        lemma_encode_concat(route_path, rest);
        let bytes = encode_utf8(req_path);
        assert(bytes.skip(encode_utf8(route_path).len() as int) =~= encode_utf8(rest));
        encode_utf8_valid_utf8(rest);
        encode_utf8_decode_utf8(rest);
    }
}

/// Whether a relative path is absolute after all or goes up somewhere.
pub open spec fn may_escape(rel: Seq<char>) -> bool {
    ||| rel.len() > 0 && rel[0] == '/'
    ||| split(rel, '/').contains(".."@)
}

/// Finds anything that could escape the configured root.
pub fn has_traversal(rel: &str) -> (r: bool)
    ensures
        r == may_escape(rel@),
{
    let chars = chars_of(rel);
    if chars.len() > 0 && chars[0] == '/' {
        return true;
    }
    let parts = split_at_each(chars.as_slice(), '/');
    let ghost all = split(rel@, '/');
    let mut i: usize = 0;
    while i < parts.len()
        invariant
            i <= parts@.len(),
            pieces(parts@) == all,
            all == split(rel@, '/'),
            forall|j: int| 0 <= j < i ==> #[trigger] all[j] != ".."@,
        decreases parts@.len() - i,
    {
        assert(all[i as int] == parts@[i as int]@);
        if is_str(parts[i], "..") {
            assert(all.contains(".."@));
            return true;
        }
        i += 1;
    }
    false
}

/// The path of `rel` seen from `base`. An absolute `rel` stands for itself.
pub open spec fn joined_path(base: Seq<char>, rel: Seq<char>) -> Seq<char> {
    if rel.len() > 0 && rel[0] == '/' {
        rel
    } else if base.len() == 0 || base.last() == '/' {
        base + rel
    } else {
        base + "/"@ + rel
    }
}

/// Joins two paths.
pub fn join_path(base: &str, rel: &str) -> (r: String)
    ensures
        r@ == joined_path(base@, rel@),
{
    let b = chars_of(base);
    let t = chars_of(rel);
    if t.len() > 0 && t[0] == '/' {
        return rel.to_owned();
    }
    let mut out = base.to_owned();
    if !(b.len() == 0 || b[b.len() - 1] == '/') {
        out.append("/");
    }
    out.append(rel);
    out
}

/// The last of the parts of a path that is neither empty nor a dot.
pub open spec fn last_part(parts: Seq<Seq<char>>) -> Option<Seq<char>>
    decreases parts.len(),
{
    if parts.len() == 0 {
        None
    } else if parts.last() == ""@ || parts.last() == "."@ {
        last_part(parts.drop_last())
    } else {
        Some(parts.last())
    }
}

/// What stands behind the last dot of a file name, unless the only dot is its
/// first character.
pub open spec fn suffix_of(name: Seq<char>) -> Option<Seq<char>> {
    let n = tail(name, Class::Not('.'));
    if n + 1 < name.len() {
        Some(name.skip(name.len() - n))
    } else {
        None
    }
}

/// The extension of the file that a path names, if it names one.
pub open spec fn extension(path: Seq<char>) -> Option<Seq<char>> {
    match last_part(split(path, '/')) {
        Some(name) => if name == ".."@ {
            None
        } else {
            suffix_of(name)
        },
        None => None,
    }
}

/// Gives the extension of the file that a path names.
pub fn extension_of(path: &str) -> (r: Option<String>)
    ensures
        match r {
            Some(e) => extension(path@) == Some(e@),
            None => extension(path@) is None,
        },
{
    let chars = chars_of(path);
    let parts = split_at_each(chars.as_slice(), '/');
    let ghost all = split(path@, '/');
    let mut i: usize = parts.len();
    assert(all.take(all.len() as int) =~= all);
    while i > 0
        invariant
            i <= parts@.len(),
            pieces(parts@) == all,
            last_part(all) == last_part(all.take(i as int)),
            all == split(path@, '/'),
        decreases i,
    {
        let name = parts[i - 1];
        proof {
            assert(all[i - 1] == name@);
            assert(all.take(i as int).last() == name@);
            assert(all.take(i as int).drop_last() =~= all.take(i - 1));
        }
        if is_str(name, "") || is_str(name, ".") {
            i -= 1;
        } else if is_str(name, "..") {
            return None;
        } else {
            let n: usize = tail_len(name, Class::Not('.'));
            if n < name.len() && name.len() - n > 1 {
                return Some(string_of(slice_subrange(name, name.len() - n, name.len())));
            }
            return None;
        }
    }
    None
}

/// How much of a path says where it starts: a slash for the root, or a dot for
/// the current directory.
pub open spec fn anchor(path: Seq<char>) -> int {
    if path.len() > 0 && (path[0] == '/' || path[0] == '.' && (path.len() == 1 || path[1] == '/')) {
        1
    } else {
        0
    }
}

/// The length of the last part of a path behind its first `start` characters,
/// without the slash before it.
pub open spec fn end_len(path: Seq<char>, start: int) -> int {
    tail(path.skip(start), Class::Not('/'))
}

/// A path without its last part behind its first `start` characters, and
/// without the slash before that part.
pub open spec fn without_end(path: Seq<char>, start: int) -> Seq<char> {
    let n = end_len(path, start);
    path.take(
        if start + n < path.len() {
            path.len() - n - 1
        } else {
            start
        },
    )
}

/// A path without the parts at its end that name nothing, which are empty or a
/// dot. Its first `start` characters stay.
pub open spec fn tidied(path: Seq<char>, start: int) -> Seq<char>
    decreases path.len(),
{
    if 0 <= start < path.len() {
        proof {
            lemma_tail(path.skip(start), Class::Not('/'));
        }
        let end = path.skip(path.len() - end_len(path, start));
        if end == ""@ || end == "."@ {
            tidied(without_end(path, start), start)
        } else {
            path
        }
    } else {
        path
    }
}

/// The path of the directory that a path lies in: the path without its last
/// part. The root and the empty path lie in none.
pub open spec fn parent_of(path: Seq<char>) -> Option<Seq<char>> {
    let start = anchor(path);
    let named = tidied(path, start);
    if named.len() > start {
        Some(tidied(without_end(named, start), start))
    } else if start == 1 && path[0] == '.' {
        Some(""@)
    } else {
        None
    }
}

/// Takes the last part off a path, behind its first `start` characters.
fn drop_end(path: &[char], start: usize) -> (r: &[char])
    requires
        start < path@.len(),
    ensures
        r@ == without_end(path@, start as int),
        start <= r@.len() < path@.len(),
{
    let n: usize = tail_len(slice_subrange(path, start, path.len()), Class::Not('/'));
    if n < path.len() - start {
        slice_subrange(path, 0, path.len() - n - 1)
    } else {
        slice_subrange(path, 0, start)
    }
}

/// Takes the parts that name nothing off the end of a path.
fn tidy(path: &[char], start: usize) -> (r: &[char])
    requires
        start <= path@.len(),
    ensures
        r@ == tidied(path@, start as int),
        start <= r@.len(),
{
    let mut left = path;
    while left.len() > start
        invariant
            start <= left@.len(),
            tidied(path@, start as int) == tidied(left@, start as int),
        ensures
            start <= left@.len(),
            left@ == tidied(path@, start as int),
        decreases left@.len(),
    {
        let n: usize = tail_len(slice_subrange(left, start, left.len()), Class::Not('/'));
        let end = slice_subrange(left, left.len() - n, left.len());
        assert(end@ =~= left@.skip(left@.len() - end_len(left@, start as int)));
        if !is_str(end, "") && !is_str(end, ".") {
            break;
        }
        left = drop_end(left, start);
    }
    left
}

/// Gives the path of the directory that a path lies in.
pub fn parent_path(path: &str) -> (r: Option<String>)
    ensures
        match r {
            Some(p) => parent_of(path@) == Some(p@),
            None => parent_of(path@) is None,
        },
{
    let chars = chars_of(path);
    let all = chars.as_slice();
    let dotted: bool = all.len() > 0 && all[0] == '.' && (all.len() == 1 || all[1] == '/');
    let start: usize = if dotted || all.len() > 0 && all[0] == '/' {
        1
    } else {
        0
    };
    let named = tidy(all, start);
    if named.len() > start {
        Some(string_of(tidy(drop_end(named, start), start)))
    } else if dotted {
        Some("".to_owned())
    } else {
        None
    }
}

/// A path lies below the directory that it lies in.
pub proof fn law_parents_are_shorter(path: Seq<char>)
    ensures
        parent_of(path) matches Some(p) ==> begins(path, p) && p.len() < path.len(),
{
    let start = anchor(path);
    lemma_tidied(path, start);
    let named = tidied(path, start);
    if named.len() > start {
        lemma_tail(named.skip(start), Class::Not('/'));
        let cut = without_end(named, start);
        lemma_tidied(cut, start);
        let p = tidied(cut, start);
        assert(path.take(p.len() as int) =~= p) by {
            assert(named.take(p.len() as int) =~= p);
        }
    } else {
        reveal_strlit("");
        assert(path.take(0) =~= ""@);
    }
}

/// What is left of a path is its front.
proof fn lemma_tidied(path: Seq<char>, start: int)
    requires
        0 <= start <= path.len(),
    ensures
        start <= tidied(path, start).len() <= path.len(),
        path.take(tidied(path, start).len() as int) == tidied(path, start),
    decreases path.len(),
{
    if start < path.len() {
        lemma_tail(path.skip(start), Class::Not('/'));
        let cut = without_end(path, start);
        lemma_tidied(cut, start);
        let n = tidied(cut, start).len() as int;
        assert(cut.take(n) =~= path.take(n));
    }
    assert(path.take(path.len() as int) =~= path);
}

/// A slash at the end of a path, or a slash and a dot, changes nothing about
/// the directory that it lies in.
pub proof fn law_parents_ignore_the_end(path: Seq<char>)
    requires
        path.len() > 0,
    ensures
        parent_of(path + seq!['/']) == parent_of(path),
        parent_of(path + seq!['/', '.']) == parent_of(path),
{
    let start = anchor(path);
    reveal_strlit("");
    reveal_strlit(".");
    let a = path + seq!['/'];
    lemma_tail_is(a.skip(start), Class::Not('/'), 0);
    assert(a.skip(a.len() as int) =~= ""@);
    assert(a.take(a.len() - 1) =~= path);
    let b = path + seq!['/', '.'];
    lemma_tail_is(b.skip(start), Class::Not('/'), 1);
    assert(b.skip(b.len() - 1) =~= "."@);
    assert(b.take(b.len() - 2) =~= path);
    assert(anchor(a) == start && anchor(b) == start);
}

/// A file in a directory lies in that directory.
pub proof fn law_files_lie_in_their_directory(dir: Seq<char>, name: Seq<char>)
    requires
        dir.len() > 0,
        tidied(dir, anchor(dir)) == dir,
        name.len() > 0,
        !name.contains('/'),
        name != "."@,
    ensures
        parent_of(joined_path(dir, name)) == Some(dir),
{
    let start = anchor(dir);
    let path = joined_path(dir, name);
    let n = name.len() as int;
    assert(name[0] != '/');
    reveal_strlit("/");
    reveal_strlit("");
    reveal_strlit(".");
    if dir.len() > start && dir.last() == '/' {
        lemma_tail_is(dir.skip(start), Class::Not('/'), 0);
        assert(dir.skip(dir.len() as int) =~= ""@);
        lemma_tidied(dir, start);
        assert(without_end(dir, start).len() < dir.len());
        lemma_tidied(without_end(dir, start), start);
    }
    let body = path.skip(start);
    assert(anchor(path) == start);
    assert(path.skip(path.len() - n) =~= name);
    assert forall|i: int| body.len() - n <= i < body.len() implies Class::Not('/').holds(
        #[trigger] body[i],
    ) by {
        assert(body[i] == name[i - (body.len() - n)]);
    }
    lemma_tail_is(body, Class::Not('/'), n);
    assert(without_end(path, start) =~= dir);
}

} // verus!
