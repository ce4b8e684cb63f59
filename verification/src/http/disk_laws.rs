//! What holds of requests that follow one another on the same files.

use super::answer_laws::lemma_methods_differ;
use super::listing::listing_html;
use super::multipart::{delimiter, parts_in, PartView};
use super::paths::{joined_path, may_escape};
use super::request::RequestView;
use super::response::ResponseView;
use super::router::{
    best_of, content_type_of, delete_step, error_step, first_step, get_step, methods_of, next_step,
    part_step, post_step, rest_of, script_step, target_of, ActionView, Kind, ReplyView, StepView,
};
use super::router_laws::{is_plain, lemma_parts_are_plain, lemma_plain_name_stays};
use crate::bytes::all_at;
use crate::config::{RouteView, ServerView};
use crate::text::joined;
use vstd::prelude::*;
use vstd::utf8::encode_utf8;

verus! {

/// What a path names.
pub ghost enum Node {
    Directory,
    File(Seq<u8>),
    Other,
}

/// What the paths on a disk name.
pub type Disk = Map<Seq<char>, Node>;

/// What a path is found to be.
pub open spec fn found(disk: Disk, path: Seq<char>) -> ReplyView {
    match disk.get(path) {
        Some(Node::Directory) => ReplyView::Found(Kind::Directory),
        Some(Node::File(_)) => ReplyView::Found(Kind::File),
        Some(Node::Other) => ReplyView::Found(Kind::Other),
        None => ReplyView::Failed,
    }
}

/// Whether a path names a file that holds `data`.
pub open spec fn holds(disk: Disk, path: Seq<char>, data: Seq<u8>) -> bool {
    disk.get(path) == Some(Node::File(data))
}

/// Whether `reply` is a true reply to `action` on `before`, which leaves
/// `after`. Looking and reading succeed where there is something to see, and
/// change nothing. Writing and deleting may fail; where they succeed, they do
/// what was asked, and a file that is written in a directory that is there
/// leaves the others as they are. Of what else is done nothing is said.
pub open spec fn carried_out(
    before: Disk,
    action: ActionView,
    reply: ReplyView,
    after: Disk,
) -> bool {
    match action {
        ActionView::Stat { path } => after == before && reply == found(before, path),
        ActionView::Read { path } => {
            &&& after == before
            &&& match before.get(path) {
                Some(Node::File(held)) => reply matches ReplyView::Contents { data, .. } && data
                    == held,
                _ => true,
            }
        },
        ActionView::List { path } => {
            &&& after == before
            &&& before.get(path) == Some(Node::Directory) ==> reply is Entries
        },
        ActionView::Save { path, data, parents } => reply is Finished ==> {
            &&& holds(after, path, data)
            &&& !parents ==> forall|other: Seq<char>|
                other != path ==> #[trigger] after.get(other) == before.get(other)
        },
        ActionView::Remove { path } => reply is Finished ==> after.get(path) is None,
        ActionView::RunScript { .. } => true,
    }
}

/// A reply, and the disk that it leaves.
pub ghost struct Turn {
    pub reply: ReplyView,
    pub disk: Disk,
}

/// Whether a request that has come to `step` comes to `response` by the replies
/// in `turns`, each of them true of the disk as it then is, from `before` to
/// `after`.
pub open spec fn leads_to(
    req: RequestView,
    server: ServerView,
    step: StepView,
    before: Disk,
    turns: Seq<Turn>,
    response: ResponseView,
    after: Disk,
) -> bool
    decreases turns.len(),
{
    match step {
        StepView::Done(r) => turns.len() == 0 && r == response && after == before,
        StepView::Ask(action, stage) => {
            &&& turns.len() > 0
            &&& carried_out(before, action, turns[0].reply, turns[0].disk)
            &&& leads_to(
                req,
                server,
                next_step(req, server, stage, turns[0].reply),
                turns[0].disk,
                turns.skip(1),
                response,
                after,
            )
        },
    }
}

/// An error is answered with its status, with or without a page of its own, and
/// changes nothing.
pub proof fn law_errors_are_answered(
    req: RequestView,
    server: ServerView,
    code: u16,
    allow: Option<Seq<char>>,
    before: Disk,
    turns: Seq<Turn>,
    response: ResponseView,
    after: Disk,
)
    requires
        leads_to(
            req,
            server,
            error_step(Some(server), code, allow),
            before,
            turns,
            response,
            after,
        ),
    ensures
        response.status == code,
        after == before,
{
    reveal_with_fuel(leads_to, 2);
}

/// A file is served byte for byte, and what is not there is answered with 404;
/// neither changes anything.
pub proof fn law_files_are_served(
    get: RequestView,
    route: RouteView,
    server: ServerView,
    before: Disk,
    turns: Seq<Turn>,
    response: ResponseView,
    after: Disk,
)
    requires
        route.root is Some,
        !may_escape(rest_of(get, route)),
        leads_to(get, server, get_step(get, route, server), before, turns, response, after),
    ensures
        before.get(target_of(get, route, route.root->0)) matches Some(Node::File(data))
            ==> response.status == 200 && response.body == data && after == before,
        before.get(target_of(get, route, route.root->0)) is None ==> response.status == 404 && after
            == before,
{
    let path = target_of(get, route, route.root->0);
    reveal_with_fuel(leads_to, 3);
    if before.get(path) is None {
        law_errors_are_answered(
            get,
            server,
            404,
            None,
            before,
            turns.skip(1),
            response,
            after,
        );
    }
}

/// A directory is answered with its default file where it has one; without one
/// it is listed where its route has listings on, and forbidden where it has
/// not. Nothing changes.
pub proof fn law_directories_are_served(
    get: RequestView,
    route: RouteView,
    server: ServerView,
    before: Disk,
    turns: Seq<Turn>,
    response: ResponseView,
    after: Disk,
)
    requires
        route.root is Some,
        !may_escape(rest_of(get, route)),
        leads_to(get, server, get_step(get, route, server), before, turns, response, after),
        before.get(target_of(get, route, route.root->0)) == Some(Node::Directory),
    ensures
        ({
            let dir = target_of(get, route, route.root->0);
            let default_file = match route.index {
                Some(name) => before.get(joined_path(dir, name)),
                None => None,
            };
            &&& default_file matches Some(Node::File(data)) ==> response.status == 200
                && response.body == data
            &&& !(default_file matches Some(Node::File(_))) && route.autoindex ==> {
                &&& response.status == 200
                &&& turns.last().reply is Entries
                &&& response.body == encode_utf8(
                    listing_html(get.path, turns.last().reply->Entries_0),
                )
            }
            &&& !(default_file matches Some(Node::File(_))) && !route.autoindex ==> response.status
                == 403
            &&& after == before
        }),
{
    let dir = target_of(get, route, route.root->0);
    reveal_with_fuel(leads_to, 5);
    let others = turns.skip(1);
    match route.index {
        Some(name) => {
            let file = joined_path(dir, name);
            let last = others.skip(1);
            if !(before.get(file) matches Some(Node::File(_))) {
                if route.autoindex {
                    assert(turns.last() == last[0]);
                } else {
                    law_errors_are_answered(
                        get,
                        server,
                        403,
                        None,
                        before,
                        last,
                        response,
                        after,
                    );
                }
            }
        },
        None => {
            if route.autoindex {
                assert(turns.last() == others[0]);
            } else {
                law_errors_are_answered(
                    get,
                    server,
                    403,
                    None,
                    before,
                    others,
                    response,
                    after,
                );
            }
        },
    }
}

/// An upload that is not a form and is answered with 201 leaves its body in the
/// file that its path names.
pub proof fn law_uploads_are_kept(
    post: RequestView,
    route: RouteView,
    server: ServerView,
    before: Disk,
    turns: Seq<Turn>,
    response: ResponseView,
    after: Disk,
)
    requires
        delimiter(content_type_of(post)) is None,
        leads_to(post, server, post_step(post, route, server), before, turns, response, after),
        response.status == 201,
    ensures
        route.root is Some,
        !may_escape(rest_of(post, route)),
        holds(after, target_of(post, route, route.root->0), post.body),
{
    let rest = rest_of(post, route);
    if route.root is None {
        law_errors_are_answered(post, server, 404, None, before, turns, response, after);
    } else if may_escape(rest) {
        law_errors_are_answered(post, server, 403, None, before, turns, response, after);
    } else if rest.len() == 0 {
        law_errors_are_answered(post, server, 400, None, before, turns, response, after);
    } else {
        reveal_with_fuel(leads_to, 2);
        let turn = turns[0];
        if turn.reply !is Finished {
            law_errors_are_answered(
                post,
                server,
                500,
                None,
                turn.disk,
                turns.skip(1),
                response,
                after,
            );
        }
    }
}

/// A deletion that is answered with 204 leaves nothing under its path.
pub proof fn law_deletions_are_done(
    delete: RequestView,
    route: RouteView,
    server: ServerView,
    before: Disk,
    turns: Seq<Turn>,
    response: ResponseView,
    after: Disk,
)
    requires
        leads_to(
            delete,
            server,
            delete_step(delete, route, server),
            before,
            turns,
            response,
            after,
        ),
        response.status == 204,
    ensures
        route.root is Some,
        !may_escape(rest_of(delete, route)),
        after.get(target_of(delete, route, route.root->0)) is None,
{
    let rest = rest_of(delete, route);
    if route.root is None {
        law_errors_are_answered(delete, server, 404, None, before, turns, response, after);
    } else if may_escape(rest) || rest.len() == 0 {
        law_errors_are_answered(delete, server, 403, None, before, turns, response, after);
    } else {
        let path = target_of(delete, route, route.root->0);
        reveal_with_fuel(leads_to, 3);
        let first = turns[0];
        let others = turns.skip(1);
        match first.reply {
            ReplyView::Found(Kind::Directory) => {
                law_errors_are_answered(
                    delete,
                    server,
                    403,
                    None,
                    first.disk,
                    others,
                    response,
                    after,
                );
            },
            ReplyView::Found(_) => {
                if others[0].reply !is Finished {
                    law_errors_are_answered(
                        delete,
                        server,
                        500,
                        None,
                        others[0].disk,
                        others.skip(1),
                        response,
                        after,
                    );
                }
            },
            _ => {
                law_errors_are_answered(
                    delete,
                    server,
                    404,
                    None,
                    first.disk,
                    others,
                    response,
                    after,
                );
            },
        }
    }
}

/// The path of a file of a form.
pub open spec fn path_of(root: Seq<char>, part: PartView) -> Seq<char> {
    joined_path(root, part.name)
}

/// Whether the first `n` files of a form are on a disk: under each path the last
/// of them that has it.
pub open spec fn are_kept(disk: Disk, root: Seq<char>, parts: Seq<PartView>, n: int) -> bool {
    forall|i: int|
        0 <= i < n && (forall|j: int|
            i < j < n ==> path_of(root, #[trigger] parts[j]) != path_of(root, parts[i]))
            ==> holds(disk, path_of(root, #[trigger] parts[i]), parts[i].content)
}

proof fn lemma_parts_are_kept(
    post: RequestView,
    server: ServerView,
    root: Seq<char>,
    parts: Seq<PartView>,
    saved: int,
    before: Disk,
    turns: Seq<Turn>,
    response: ResponseView,
    after: Disk,
)
    requires
        0 <= saved < parts.len(),
        are_kept(before, root, parts, saved),
        leads_to(
            post,
            server,
            part_step(root, parts, saved),
            before,
            turns,
            response,
            after,
        ),
        response.status == 201,
    ensures
        are_kept(after, root, parts, parts.len() as int),
    decreases parts.len() - saved,
{
    let turn = turns[0];
    let others = turns.skip(1);
    if turn.reply !is Finished {
        law_errors_are_answered(post, server, 500, None, turn.disk, others, response, after);
    }
    assert forall|i: int|
        0 <= i < saved + 1 && (forall|j: int|
            i < j < saved + 1 ==> path_of(root, #[trigger] parts[j]) != path_of(
                root,
                parts[i],
            )) implies holds(turn.disk, path_of(root, #[trigger] parts[i]), parts[i].content) by {
        if i < saved {
            assert(path_of(root, parts[saved]) != path_of(root, parts[i]));
            assert(holds(before, path_of(root, parts[i]), parts[i].content));
        }
    }
    if saved + 1 < parts.len() {
        lemma_parts_are_kept(
            post,
            server,
            root,
            parts,
            saved + 1,
            turn.disk,
            others,
            response,
            after,
        );
    } else {
        reveal_with_fuel(leads_to, 2);
    }
}

/// A form that is answered with 201 leaves its files on the disk: under each
/// path the last of them that has it.
pub proof fn law_forms_are_kept(
    post: RequestView,
    route: RouteView,
    server: ServerView,
    before: Disk,
    turns: Seq<Turn>,
    response: ResponseView,
    after: Disk,
)
    requires
        delimiter(content_type_of(post)) is Some,
        leads_to(post, server, post_step(post, route, server), before, turns, response, after),
        response.status == 201,
    ensures
        route.root is Some,
        ({
            let parts = parts_in(post.body, encode_utf8(delimiter(content_type_of(post))->0));
            are_kept(after, route.root->0, parts, parts.len() as int)
        }),
{
    let parts = parts_in(post.body, encode_utf8(delimiter(content_type_of(post))->0));
    if route.root is None {
        law_errors_are_answered(post, server, 404, None, before, turns, response, after);
    } else if may_escape(rest_of(post, route)) {
        law_errors_are_answered(post, server, 403, None, before, turns, response, after);
    } else if parts.len() == 0 {
        law_errors_are_answered(post, server, 400, None, before, turns, response, after);
    } else {
        lemma_parts_are_kept(
            post,
            server,
            route.root->0,
            parts,
            0,
            before,
            turns,
            response,
            after,
        );
    }
}

/// Whether the route for a path neither redirects nor runs a script for it, and
/// allows `GET`.
pub open spec fn is_readable(req: RequestView, server: ServerView) -> bool {
    best_of(server.routes, req.path) matches Some(i) && {
        let route = server.routes[i];
        &&& route.redirect is None
        &&& methods_of(route).contains("GET"@)
        &&& script_step(req, route, server) is None
    }
}

/// The file that a request is about.
pub open spec fn file_of(req: RequestView, server: ServerView) -> Seq<char> {
    let route = server.routes[best_of(server.routes, req.path)->0];
    target_of(req, route, route.root->0)
}

/// What is uploaded under a path is what is served from it, byte for byte, as
/// long as nothing else touches the file.
pub proof fn law_uploads_are_read_back(
    post: RequestView,
    get: RequestView,
    server: ServerView,
    start: Disk,
    up: Seq<Turn>,
    created: ResponseView,
    between: Disk,
    later: Disk,
    down: Seq<Turn>,
    served: ResponseView,
    end: Disk,
)
    requires
        post.method == "POST"@ && get.method == "GET"@ && get.path == post.path,
        is_readable(post, server),
        delimiter(content_type_of(post)) is None,
        leads_to(post, server, first_step(post, server), start, up, created, between),
        created.status == 201,
        later.get(file_of(post, server)) == between.get(file_of(post, server)),
        leads_to(get, server, first_step(get, server), later, down, served, end),
    ensures
        served.status == 200,
        served.body == post.body,
        end == later,
{
    let route = server.routes[best_of(server.routes, post.path)->0];
    assert(script_step(get, route, server) is None);
    lemma_methods_differ();
    if !methods_of(route).contains("POST"@) {
        law_errors_are_answered(
            post,
            server,
            405,
            Some(joined(methods_of(route), ", "@)),
            start,
            up,
            created,
            between,
        );
    }
    law_uploads_are_kept(post, route, server, start, up, created, between);
    law_files_are_served(get, route, server, later, down, served, end);
}

/// What is deleted is no longer served: as long as nothing is put in its place,
/// 404 is answered.
pub proof fn law_deleted_files_are_gone(
    delete: RequestView,
    get: RequestView,
    server: ServerView,
    start: Disk,
    away: Seq<Turn>,
    deleted: ResponseView,
    between: Disk,
    later: Disk,
    down: Seq<Turn>,
    served: ResponseView,
    end: Disk,
)
    requires
        delete.method == "DELETE"@ && get.method == "GET"@ && get.path == delete.path,
        is_readable(delete, server),
        leads_to(delete, server, first_step(delete, server), start, away, deleted, between),
        deleted.status == 204,
        later.get(file_of(delete, server)) == between.get(file_of(delete, server)),
        leads_to(get, server, first_step(get, server), later, down, served, end),
    ensures
        served.status == 404,
        end == later,
{
    let route = server.routes[best_of(server.routes, delete.path)->0];
    assert(script_step(get, route, server) is None);
    lemma_methods_differ();
    if !methods_of(route).contains("DELETE"@) {
        law_errors_are_answered(
            delete,
            server,
            405,
            Some(joined(methods_of(route), ", "@)),
            start,
            away,
            deleted,
            between,
        );
    }
    law_deletions_are_done(delete, route, server, start, away, deleted, between);
    law_files_are_served(get, route, server, later, down, served, end);
}

/// The file of a form is what is served under its name in the same route, as
/// long as nothing else touches it; of files with one name the last one is.
pub proof fn law_form_files_are_read_back(
    post: RequestView,
    get: RequestView,
    server: ServerView,
    i: int,
    start: Disk,
    up: Seq<Turn>,
    created: ResponseView,
    between: Disk,
    later: Disk,
    down: Seq<Turn>,
    served: ResponseView,
    end: Disk,
)
    requires
        post.method == "POST"@ && get.method == "GET"@,
        is_readable(post, server) && is_readable(get, server),
        best_of(server.routes, get.path) == best_of(server.routes, post.path),
        delimiter(content_type_of(post)) is Some,
        leads_to(post, server, first_step(post, server), start, up, created, between),
        created.status == 201,
        ({
            let parts = parts_in(post.body, encode_utf8(delimiter(content_type_of(post))->0));
            let route = server.routes[best_of(server.routes, post.path)->0];
            &&& 0 <= i < parts.len()
            &&& rest_of(get, route) == parts[i].name
            &&& forall|j: int| i < j < parts.len() ==> (#[trigger] parts[j]).name != parts[i].name
        }),
        later.get(file_of(get, server)) == between.get(file_of(get, server)),
        leads_to(get, server, first_step(get, server), later, down, served, end),
    ensures
        served.status == 200,
        served.body == parts_in(
            post.body,
            encode_utf8(delimiter(content_type_of(post))->0),
        )[i].content,
        end == later,
{
    let delim = encode_utf8(delimiter(content_type_of(post))->0);
    let parts = parts_in(post.body, delim);
    let route = server.routes[best_of(server.routes, post.path)->0];
    lemma_methods_differ();
    if !methods_of(route).contains("POST"@) {
        law_errors_are_answered(
            post,
            server,
            405,
            Some(joined(methods_of(route), ", "@)),
            start,
            up,
            created,
            between,
        );
    }
    law_forms_are_kept(post, route, server, start, up, created, between);
    assert forall|j: int| 0 <= j < parts.len() implies is_plain((#[trigger] parts[j]).name) by {
        lemma_parts_are_plain(post.body, all_at(post.body, delim, 0), delim.len() as int, j);
    }
    assert forall|j: int| i < j < parts.len() implies path_of(
        route.root->0,
        #[trigger] parts[j],
    ) != path_of(route.root->0, parts[i]) by {
        lemma_paths_differ(route.root->0, parts[j].name, parts[i].name);
    }
    lemma_plain_name_stays(parts[i].name);
    assert(holds(between, path_of(route.root->0, parts[i]), parts[i].content));
    law_files_are_served(get, route, server, later, down, served, end);
}

/// Files with different plain names have different paths below a root.
proof fn lemma_paths_differ(root: Seq<char>, a: Seq<char>, b: Seq<char>)
    requires
        is_plain(a),
        is_plain(b),
        a != b,
    ensures
        joined_path(root, a) != joined_path(root, b),
{
    lemma_plain_name_stays(a);
    lemma_plain_name_stays(b);
    let n = if root.len() == 0 || root.last() == '/' {
        root.len() as int
    } else {
        reveal_strlit("/");
        root.len() as int + 1
    };
    assert(joined_path(root, a).skip(n) =~= a);
    assert(joined_path(root, b).skip(n) =~= b);
}

} // verus!
