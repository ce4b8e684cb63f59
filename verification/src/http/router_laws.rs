//! What holds of the way from a request to a response.

use super::cgi_output::{law_output_leaves_framing, lemma_lower_len, output_parts};
use super::multipart::{delimiter, parts_between, parts_in};
use super::multipart_laws::law_saved_names_are_plain;
use super::paths::{answers_for, joined_path, may_escape};
use super::request::RequestView;
use super::response::{is_framing, leaves_framing, ResponseView};
use super::router::{
    best_of, byte_len, content_type_of, error_step, first_step, methods_of, next_step, rest_of,
    script_step, stamped, target_of, ActionView, ReplyView, StageView, StepView,
};
use crate::bytes::all_at;
use crate::config::{RouteView, ServerView};
use crate::text::{begins, joined, lemma_lead_is, split, Class};
use crate::utf8::readable;
use vstd::prelude::*;
use vstd::utf8::encode_utf8;

verus! {

/// The route that is chosen answers for the path; no route with a longer path
/// does, and none before it with one as long. Where none is chosen, none
/// answers.
pub proof fn law_longest_prefix_wins(routes: Seq<RouteView>, path: Seq<char>)
    ensures
        match best_of(routes, path) {
            Some(i) => {
                &&& 0 <= i < routes.len()
                &&& answers_for(routes[i].path, path)
                &&& forall|j: int|
                    0 <= j < routes.len() && answers_for(#[trigger] routes[j].path, path)
                        ==> byte_len(routes[j].path) <= byte_len(routes[i].path) && (j < i
                        ==> byte_len(routes[j].path) < byte_len(routes[i].path))
            },
            None => forall|j: int|
                0 <= j < routes.len() ==> !answers_for(#[trigger] routes[j].path, path),
        },
    decreases routes.len(),
{
    if routes.len() > 0 {
        let front = routes.drop_last();
        law_longest_prefix_wins(front, path);
        assert forall|j: int| 0 <= j < front.len() implies front[j] == #[trigger] routes[j] by {}
        match best_of(routes, path) {
            Some(i) => {
                assert forall|j: int|
                    0 <= j < routes.len() && answers_for(
                        #[trigger] routes[j].path,
                        path,
                    ) implies byte_len(routes[j].path) <= byte_len(routes[i].path) && (j < i
                    ==> byte_len(routes[j].path) < byte_len(routes[i].path)) by {
                    if j < front.len() {
                        assert(answers_for(front[j].path, path));
                    }
                }
            },
            None => {
                assert forall|j: int| 0 <= j < routes.len() implies !answers_for(
                    #[trigger] routes[j].path,
                    path,
                ) by {
                    if j < front.len() {
                        assert(!answers_for(front[j].path, path));
                    }
                }
            },
        }
    }
}

/// An error closes the connection, whatever the client asked for; any other
/// response leaves it to the client.
pub proof fn law_errors_close(step: StepView, keep_alive: bool)
    ensures
        stamped(step, keep_alive) matches StepView::Done(r) ==> r.keep_alive == (keep_alive
            && r.status < 400),
{
}

/// Whether a response refuses a method and says which ones are allowed.
pub open spec fn refuses_method(r: ResponseView, route: RouteView) -> bool {
    &&& r.status == 405
    &&& !r.keep_alive
    &&& r.headers.contains(("Allow"@, joined(methods_of(route), ", "@)))
}

/// A method that the route does not accept is refused, with the ones that it
/// does accept, whether the server has a page for that or not.
pub proof fn law_refused_method_is_told(
    req: RequestView,
    server: ServerView,
    reply: ReplyView,
    keep_alive: bool,
)
    requires
        best_of(server.routes, req.path) matches Some(i) && server.routes[i].redirect is None
            && !methods_of(server.routes[i]).contains(req.method),
    ensures
        ({
            let route = server.routes[best_of(server.routes, req.path)->0];
            match stamped(first_step(req, server), keep_alive) {
                StepView::Done(r) => refuses_method(r, route),
                StepView::Ask(_, stage) => stamped(
                    next_step(req, server, stage, reply),
                    keep_alive,
                ) matches StepView::Done(r) && refuses_method(r, route),
            }
        }),
{
    let route = server.routes[best_of(server.routes, req.path)->0];
    let field = ("Allow"@, joined(methods_of(route), ", "@));
    match first_step(req, server) {
        StepView::Done(r) => {
            assert(r.headers[1] == field);
        },
        StepView::Ask(_, stage) => {
            let r = next_step(req, server, stage, reply)->Done_0;
            assert(r.headers[1] == field);
        },
    }
}

/// A path that could escape the root of its route is refused before any file
/// is looked at.
pub proof fn law_traversal_is_refused(req: RequestView, server: ServerView)
    requires
        best_of(server.routes, req.path) matches Some(i) && server.routes[i].redirect is None
            && methods_of(server.routes[i]).contains(req.method) && server.routes[i].root is Some
            && may_escape(rest_of(req, server.routes[i])),
        req.method == "GET"@ || req.method == "POST"@ || req.method == "DELETE"@,
    ensures
        first_step(req, server) == error_step(Some(server), 403, None),
{
    reveal_strlit("GET");
    reveal_strlit("POST");
    reveal_strlit("DELETE");
    assert("GET"@.len() != "POST"@.len());
    assert("GET"@.len() != "DELETE"@.len());
    assert("POST"@.len() != "DELETE"@.len());
}

/// Whether `path` is `root` and something below it, with no step up.
pub open spec fn is_below(root: Seq<char>, path: Seq<char>) -> bool {
    begins(path, root) && !split(path.skip(root.len() as int), '/').contains(".."@)
}

/// A relative path that cannot escape leads below the root.
proof fn lemma_is_below(root: Seq<char>, rel: Seq<char>)
    requires
        !may_escape(rel),
    ensures
        is_below(root, joined_path(root, rel)),
{
    let path = joined_path(root, rel);
    let n = root.len() as int;
    reveal_strlit("/");
    assert(path.take(n) =~= root);
    let rest = path.skip(n);
    if root.len() == 0 || root.last() == '/' {
        assert(rest =~= rel);
    } else {
        assert(rest =~= "/"@ + rel);
        lemma_lead_is(rest, Class::Not('/'), 0);
        assert(rest.take(0) =~= seq![]);
        assert(rest.skip(1) =~= rel);
        let tail_parts = split(rel, '/');
        assert(split(rest, '/') =~= seq![Seq::<char>::empty()] + tail_parts);
        reveal_strlit("..");
        if split(rest, '/').contains(".."@) {
            let i = choose|i: int|
                0 <= i < split(rest, '/').len() && split(rest, '/')[i] == ".."@;
            if i > 0 {
                assert(tail_parts[i - 1] == ".."@);
            }
        }
    }
}

/// A name without separators that is no name for a directory itself cannot
/// escape.
pub proof fn lemma_plain_name_stays(name: Seq<char>)
    requires
        is_plain(name),
    ensures
        !may_escape(name),
{
    if name.len() > 0 {
        assert(name[0] != '/');
    }
    assert forall|i: int| 0 <= i < name.len() implies Class::Not('/').holds(#[trigger] name[i]) by {}
    lemma_lead_is(name, Class::Not('/'), name.len() as int);
    assert(split(name, '/') =~= seq![name]);
}

/// The root of the route for a request.
pub open spec fn root_for(req: RequestView, server: ServerView) -> Option<Seq<char>> {
    match best_of(server.routes, req.path) {
        Some(i) => server.routes[i].root,
        None => None,
    }
}

/// The default file of the route for a request.
pub open spec fn index_for(req: RequestView, server: ServerView) -> Option<Seq<char>> {
    match best_of(server.routes, req.path) {
        Some(i) => server.routes[i].index,
        None => None,
    }
}

/// Whether a request may touch a path: one below the root of its route.
pub open spec fn may_touch(req: RequestView, server: ServerView, path: Seq<char>) -> bool {
    root_for(req, server) matches Some(root) && is_below(root, path)
}

/// Whether a path is the default file of a directory that a request may touch.
pub open spec fn is_default_file(req: RequestView, server: ServerView, path: Seq<char>) -> bool {
    index_for(req, server) is Some && exists|dir: Seq<char>| #[trigger]
        may_touch(req, server, dir) && path == joined_path(dir, index_for(req, server)->0)
}

/// Whether a path is the page of an error.
pub open spec fn is_error_page(server: ServerView, path: Seq<char>) -> bool {
    exists|code: u16| #[trigger]
        server.error_pages.dom().contains(code) && server.error_pages[code] == path
}

/// Whether an action keeps to what a request may touch. Only default files and
/// error pages, which the configuration names, may lie elsewhere, and these
/// are only looked at.
pub open spec fn keeps_inside(req: RequestView, server: ServerView, action: ActionView) -> bool {
    match action {
        ActionView::Stat { path } => may_touch(req, server, path) || is_default_file(
            req,
            server,
            path,
        ),
        ActionView::Read { path } => may_touch(req, server, path) || is_default_file(
            req,
            server,
            path,
        ) || is_error_page(server, path),
        ActionView::List { path } => may_touch(req, server, path),
        ActionView::Save { path, .. } => may_touch(req, server, path),
        ActionView::Remove { path } => may_touch(req, server, path),
        ActionView::RunScript { path, .. } => may_touch(req, server, path),
    }
}

/// Whether a stage is one that a request can get to.
pub open spec fn fits(req: RequestView, server: ServerView, stage: StageView) -> bool {
    match stage {
        StageView::Target { path, index, .. } => may_touch(req, server, path) && index
            == index_for(req, server),
        StageView::Index { path, file, .. } => may_touch(req, server, path) && is_default_file(
            req,
            server,
            file,
        ),
        StageView::Parts { root, parts, saved } => root_for(req, server) == Some(root) && 0
            <= saved && (forall|i: int| 0 <= i < parts.len() ==> is_plain((#[trigger] parts[i]).name)),
        StageView::Doomed { path } => may_touch(req, server, path),
        _ => true,
    }
}

/// Whether a name has no separator and is no name for a directory itself.
pub open spec fn is_plain(name: Seq<char>) -> bool {
    !name.contains('/') && name != ".."@
}

/// Whether a step keeps to what a request may touch.
pub open spec fn step_keeps_inside(req: RequestView, server: ServerView, step: StepView) -> bool {
    step matches StepView::Ask(action, stage) ==> keeps_inside(req, server, action) && fits(
        req,
        server,
        stage,
    )
}

/// The files of a form have plain names.
pub proof fn lemma_parts_are_plain(body: Seq<u8>, at: Seq<int>, n: int, i: int)
    requires
        0 <= i < parts_between(body, at, n).len(),
    ensures
        is_plain(parts_between(body, at, n)[i].name),
    decreases at.len(),
{
    if at.len() >= 2 {
        let rest = parts_between(body, at.drop_last(), n);
        if i < rest.len() {
            lemma_parts_are_plain(body, at.drop_last(), n, i);
        } else {
            let seg = body.subrange(at[at.len() - 2] + n, at.last());
            let s = super::multipart::unbroken(seg);
            let h = crate::bytes::first_at(s, super::request::blank_line(), 0)->0;
            let name = super::multipart::filename_in(readable(s.take(h)))->0;
            law_saved_names_are_plain(name);
        }
    }
}

/// No request reaches a file outside the root of its route: whatever is
/// looked at, listed, written, deleted or run at first lies below it, except
/// for default files and error pages.
pub proof fn law_first_step_keeps_inside(req: RequestView, server: ServerView)
    ensures
        step_keeps_inside(req, server, first_step(req, server)),
{
    match best_of(server.routes, req.path) {
        Some(i) => {
            let route = server.routes[i];
            if route.root is Some {
                let root = route.root->0;
                if !may_escape(rest_of(req, route)) {
                    lemma_is_below(root, rest_of(req, route));
                    assert(may_touch(req, server, target_of(req, route, root)));
                }
                match delimiter(content_type_of(req)) {
                    Some(delim) => {
                        let d = encode_utf8(delim);
                        let parts = parts_in(req.body, d);
                        assert forall|k: int| 0 <= k < parts.len() implies is_plain(
                            (#[trigger] parts[k]).name,
                        ) by {
                            lemma_parts_are_plain(
                                req.body,
                                all_at(req.body, d, 0),
                                d.len() as int,
                                k,
                            );
                        }
                        if parts.len() > 0 {
                            assert(is_plain(parts[0].name));
                            lemma_plain_name_stays(parts[0].name);
                            lemma_is_below(root, parts[0].name);
                        }
                    },
                    None => {},
                }
            }
            lemma_error_keeps_inside(req, server);
        },
        None => {
            lemma_error_keeps_inside(req, server);
        },
    }
}

/// Answering with an error keeps to what a request may touch.
proof fn lemma_error_keeps_inside(req: RequestView, server: ServerView)
    ensures
        forall|code: u16, allow: Option<Seq<char>>|
            step_keeps_inside(req, server, #[trigger] error_step(Some(server), code, allow)),
{
    assert forall|code: u16, allow: Option<Seq<char>>| step_keeps_inside(
        req,
        server,
        #[trigger] error_step(Some(server), code, allow),
    ) by {
        if server.error_pages.get(code) is Some {
            assert(server.error_pages.dom().contains(code));
        }
    }
}

/// What a request does after its first step lies inside as well, whatever the
/// replies are.
pub proof fn law_next_step_keeps_inside(
    req: RequestView,
    server: ServerView,
    stage: StageView,
    reply: ReplyView,
)
    requires
        fits(req, server, stage),
    ensures
        step_keeps_inside(req, server, next_step(req, server, stage, reply)),
{
    lemma_error_keeps_inside(req, server);
    match stage {
        StageView::Target { path, index, autoindex } => {
            if index is Some {
                assert(is_default_file(req, server, joined_path(path, index->0)));
            }
        },
        StageView::Parts { root, parts, saved } => {
            if 0 <= saved + 1 < parts.len() {
                assert(is_plain(parts[saved + 1].name));
                lemma_plain_name_stays(parts[saved + 1].name);
                lemma_is_below(root, parts[saved + 1].name);
            }
        },
        _ => {},
    }
}

/// How many more replies a stage can take up at most.
pub open spec fn replies_left(stage: StageView) -> nat {
    match stage {
        StageView::ErrorPage { .. } => 1,
        StageView::Target { .. } => 4,
        StageView::Index { .. } => 3,
        StageView::Doomed { .. } => 3,
        StageView::Parts { parts, saved, .. } => if saved < parts.len() {
            (1 + parts.len() - saved) as nat
        } else {
            2
        },
        _ => 2,
    }
}

/// How many more replies it takes to a response at most.
pub open spec fn steps_left(step: StepView) -> nat {
    match step {
        StepView::Ask(_, stage) => replies_left(stage),
        StepView::Done(_) => 0,
    }
}

/// Every request comes to a response: each reply brings it nearer, whatever
/// the reply is.
pub proof fn law_requests_come_to_an_end(
    req: RequestView,
    server: ServerView,
    stage: StageView,
    reply: ReplyView,
)
    ensures
        steps_left(next_step(req, server, stage, reply)) < replies_left(stage),
{
}

/// A request for one file takes at most four replies, and an upload one more
/// than it has files at the most.
pub proof fn law_requests_end_soon(req: RequestView, server: ServerView)
    ensures
        match first_step(req, server) {
            StepView::Ask(_, StageView::Parts { parts, .. }) => steps_left(
                first_step(req, server),
            ) <= 1 + parts.len(),
            step => steps_left(step) <= 4,
        },
{
}

/// The fields that are set here are not about framing.
proof fn lemma_own_fields()
    ensures
        !is_framing("Content-Type"@),
        !is_framing("Location"@),
        !is_framing("Allow"@),
{
    reveal_strlit("Content-Type");
    reveal_strlit("Location");
    reveal_strlit("Allow");
    reveal_strlit("content-length");
    reveal_strlit("connection");
    reveal_strlit("transfer-encoding");
    lemma_lower_len("Content-Type"@, "content-length"@);
    lemma_lower_len("Content-Type"@, "connection"@);
    lemma_lower_len("Content-Type"@, "transfer-encoding"@);
    lemma_lower_len("Location"@, "content-length"@);
    lemma_lower_len("Location"@, "connection"@);
    lemma_lower_len("Location"@, "transfer-encoding"@);
    lemma_lower_len("Allow"@, "content-length"@);
    lemma_lower_len("Allow"@, "connection"@);
    lemma_lower_len("Allow"@, "transfer-encoding"@);
}

/// No response sets the fields that say how it is framed: neither one that is
/// given at once nor one that is given after a reply.
pub proof fn law_responses_leave_framing(
    req: RequestView,
    server: ServerView,
    stage: StageView,
    reply: ReplyView,
)
    ensures
        first_step(req, server) matches StepView::Done(r) ==> leaves_framing(r.headers),
        next_step(req, server, stage, reply) matches StepView::Done(r) ==> leaves_framing(
            r.headers,
        ),
{
    lemma_own_fields();
    match reply {
        ReplyView::Output(raw) => {
            law_output_leaves_framing(readable(output_parts(raw).0), output_parts(raw).1);
        },
        _ => {},
    }
}

/// What is uploaded under a path is what is served from it and deleted at it:
/// the three requests are about the same file.
pub proof fn law_upload_and_download_meet(
    post: RequestView,
    get: RequestView,
    delete: RequestView,
    server: ServerView,
)
    requires
        post.method == "POST"@ && get.method == "GET"@ && delete.method == "DELETE"@,
        post.path == get.path && post.path == delete.path,
        best_of(server.routes, post.path) matches Some(i) && {
            let route = server.routes[i];
            &&& route.redirect is None
            &&& methods_of(route).contains("POST"@)
            &&& methods_of(route).contains("GET"@)
            &&& methods_of(route).contains("DELETE"@)
            &&& script_step(post, route, server) is None
        },
        first_step(post, server) matches StepView::Ask(ActionView::Save { .. }, StageView::Upload),
    ensures
        first_step(post, server) matches StepView::Ask(ActionView::Save { path, data, .. }, _) && {
            &&& data == post.body
            &&& first_step(get, server) matches StepView::Ask(
                ActionView::Stat { path: served },
                StageView::Target { path: read, .. },
            ) && served == path && read == path
            &&& first_step(delete, server) == StepView::Ask(
                ActionView::Stat { path },
                StageView::Doomed { path },
            )
        },
{
    reveal_strlit("GET");
    reveal_strlit("POST");
    reveal_strlit("DELETE");
    assert("GET"@.len() != "POST"@.len());
    assert("GET"@.len() != "DELETE"@.len());
    assert("POST"@.len() != "DELETE"@.len());
    let route = server.routes[best_of(server.routes, post.path)->0];
    assert(script_step(get, route, server) is None);
    assert(script_step(delete, route, server) is None);
}

} // verus!
