//! What each request is answered with.

use super::path_laws::{is_slashes, law_paths_are_joined, law_rest_below_route};
use super::multipart::{delimiter, parts_in, PartView};
use super::paths::{answers_for, extension, joined_path, may_escape};
use super::phrase;
use super::request::RequestView;
use super::response::ResponseView;
use super::router::{
    best_of, content_type_of, error_html, error_step, first_step, methods_of, next_step,
    redirection, rest_of, stamped, target_of, ActionView, Kind, ReplyView, StageView, StepView,
};
use super::cgi_output::response_to_output;
use super::listing::{listing_html, Entry};
use crate::config::{RouteView, ServerView};
use crate::numbers::decimal;
use crate::text::joined;
use vstd::prelude::*;
use vstd::utf8::encode_utf8;

verus! {

/// The literals that requests are told apart by.
pub proof fn lemma_methods_differ()
    ensures
        "GET"@ != "POST"@,
        "GET"@ != "DELETE"@,
        "POST"@ != "DELETE"@,
{
    reveal_strlit("GET");
    reveal_strlit("POST");
    reveal_strlit("DELETE");
    assert("GET"@.len() == 3);
    assert("POST"@.len() == 4);
    assert("DELETE"@.len() == 6);
}

/// The reason phrases of HTTP for the codes that are sent; any other code is
/// plainly an error.
pub proof fn law_reason_phrases(code: u16)
    ensures
        phrase(200) == "OK"@ && phrase(201) == "Created"@ && phrase(204) == "No Content"@,
        phrase(301) == "Moved Permanently"@ && phrase(302) == "Found"@,
        phrase(400) == "Bad Request"@ && phrase(403) == "Forbidden"@,
        phrase(404) == "Not Found"@ && phrase(405) == "Method Not Allowed"@,
        phrase(408) == "Request Timeout"@ && phrase(413) == "Payload Too Large"@,
        phrase(500) == "Internal Server Error"@ && phrase(501) == "Not Implemented"@,
        code != 200 && code != 201 && code != 204 && code != 301 && code != 302 && code != 400
            && code != 403 && code != 404 && code != 405 && code != 408 && code != 413 && code
            != 500 && code != 501 ==> phrase(code) == "Error"@,
{
}

/// Whether a response is the answer to an error: it has the code, closes the
/// connection, and says which methods are allowed where that was asked for.
pub open spec fn is_error(
    r: ResponseView,
    code: u16,
    content_type: Seq<char>,
    body: Seq<u8>,
    allow: Option<Seq<char>>,
) -> bool {
    &&& r.status == code
    &&& !r.keep_alive
    &&& r.body == body
    &&& r.headers == (match allow {
        Some(methods) => seq![("Content-Type"@, content_type), ("Allow"@, methods)],
        None => seq![("Content-Type"@, content_type)],
    })
}

/// The page that is made for an error for which none is configured, or whose
/// page cannot be read.
pub open spec fn built_in_page(code: u16) -> Seq<char> {
    let title = decimal(code as nat) + " "@ + phrase(code);
    "<!DOCTYPE html><html><head><meta charset=\"utf-8\"><title>"@ + title
        + "</title></head><body><h1>"@ + title + "</h1><hr><p>localhost</p></body></html>"@
}

/// An error that a server has a page for asks for that page, whatever the code.
/// What is read is sent as it is, under the code of the error; where nothing
/// can be read the built-in page is sent.
pub proof fn law_error_pages_are_sent(
    req: RequestView,
    server: ServerView,
    code: u16,
    allow: Option<Seq<char>>,
    reply: ReplyView,
)
    requires
        server.error_pages.contains_key(code),
    ensures
        error_step(Some(server), code, allow) matches StepView::Ask(action, stage) && action
            == (ActionView::Read { path: server.error_pages[code] }) && {
            &&& next_step(req, server, stage, reply) matches StepView::Done(r) && match reply {
                ReplyView::Contents { data, content_type } => is_error(
                    r,
                    code,
                    content_type,
                    data,
                    allow,
                ),
                _ => is_error(
                    r,
                    code,
                    "text/html; charset=utf-8"@,
                    encode_utf8(built_in_page(code)),
                    allow,
                ),
            }
        },
{
    let (data, content_type) = match reply {
        ReplyView::Contents { data, content_type } => (data, content_type),
        _ => (encode_utf8(error_html(code)), "text/html; charset=utf-8"@),
    };
    if allow is Some {
        assert(seq![("Content-Type"@, content_type)].push(("Allow"@, allow->0)) =~= seq![
            ("Content-Type"@, content_type),
            ("Allow"@, allow->0),
        ]);
    }
}

/// An error that a server has no page for, or that no server is known for, is
/// answered at once with the built-in page.
pub proof fn law_errors_without_a_page(
    server: Option<ServerView>,
    code: u16,
    allow: Option<Seq<char>>,
)
    requires
        server matches Some(s) ==> !s.error_pages.contains_key(code),
    ensures
        error_step(server, code, allow) matches StepView::Done(r) && is_error(
            r,
            code,
            "text/html; charset=utf-8"@,
            encode_utf8(built_in_page(code)),
            allow,
        ),
{
    if allow is Some {
        assert(seq![("Content-Type"@, "text/html; charset=utf-8"@)].push(("Allow"@, allow->0))
            =~= seq![("Content-Type"@, "text/html; charset=utf-8"@), ("Allow"@, allow->0)]);
    }
}

/// A path that no route answers for is not found.
pub proof fn law_unrouted_paths_are_not_found(req: RequestView, server: ServerView)
    requires
        forall|i: int|
            0 <= i < server.routes.len() ==> !answers_for(
                (#[trigger] server.routes[i]).path,
                req.path,
            ),
    ensures
        first_step(req, server) == error_step(Some(server), 404, None),
{
    super::router_laws::law_longest_prefix_wins(server.routes, req.path);
}

/// Of the routes that answer for a path the one whose path has the most bytes
/// is taken, and the first of several such.
pub proof fn law_longest_route_is_taken(routes: Seq<RouteView>, path: Seq<char>, i: int)
    requires
        0 <= i < routes.len(),
        answers_for(routes[i].path, path),
        forall|j: int|
            0 <= j < routes.len() && j != i && answers_for(#[trigger] routes[j].path, path)
                ==> encode_utf8(routes[j].path).len() < encode_utf8(routes[i].path).len() || (j > i
                && encode_utf8(routes[j].path).len() == encode_utf8(routes[i].path).len()),
    ensures
        best_of(routes, path) == Some(i),
{
    super::router_laws::law_longest_prefix_wins(routes, path);
    let k = best_of(routes, path)->0;
    if k != i {
        assert(answers_for(routes[k].path, path));
    }
}

/// A route that lists no methods accepts the three that there are; one that
/// lists some accepts those and no others.
pub proof fn law_methods_of_routes(route: RouteView, method: Seq<char>)
    ensures
        route.methods.len() == 0 ==> (methods_of(route).contains(method) <==> method == "GET"@
            || method == "POST"@ || method == "DELETE"@),
        route.methods.len() > 0 ==> methods_of(route) == route.methods,
        route.methods.len() == 0 ==> joined(methods_of(route), ", "@) == "GET, POST, DELETE"@,
{
    if route.methods.len() == 0 {
        let all = methods_of(route);
        assert(all[0] == "GET"@ && all[1] == "POST"@ && all[2] == "DELETE"@);
        let two = all.drop_last();
        let one = two.drop_last();
        assert(one =~= seq!["GET"@]);
        assert(joined(one, ", "@) == "GET"@);
        assert(joined(two, ", "@) == "GET"@ + ", "@ + "POST"@);
        assert(joined(all, ", "@) == "GET"@ + ", "@ + "POST"@ + ", "@ + "DELETE"@);
        reveal_strlit("GET");
        reveal_strlit("POST");
        reveal_strlit("DELETE");
        reveal_strlit(", ");
        reveal_strlit("GET, POST, DELETE");
        assert("GET"@ + ", "@ + "POST"@ + ", "@ + "DELETE"@ =~= "GET, POST, DELETE"@);
    }
}

/// A route that redirects sends every request to its target under its code,
/// whatever the method is.
pub proof fn law_redirections_come_first(
    req: RequestView,
    server: ServerView,
    code: u16,
    target: Seq<char>,
)
    requires
        best_of(server.routes, req.path) matches Some(i) && server.routes[i].redirect == Some(
            (code, target),
        ),
    ensures
        first_step(req, server) matches StepView::Done(r) && {
            &&& r.status == code
            &&& r.headers == seq![
                ("Content-Type"@, "text/html; charset=utf-8"@),
                ("Location"@, target),
            ]
            &&& r.body == encode_utf8(
                "<!DOCTYPE html><html><body>Redirecting to <a href=\""@ + target + "\">"@ + target
                    + "</a></body></html>"@,
            )
        },
{
    let r = redirection(code, target);
    assert(r.headers =~= seq![
        ("Content-Type"@, "text/html; charset=utf-8"@),
        ("Location"@, target),
    ]);
}

/// Whether a route neither redirects nor refuses a request.
pub open spec fn takes(route: RouteView, req: RequestView) -> bool {
    route.redirect is None && methods_of(route).contains(req.method)
}

/// Whether the file that a request names under a root is one of the scripts of
/// a route: a dot and its extension are given an interpreter.
pub open spec fn is_script(req: RequestView, route: RouteView, root: Seq<char>) -> bool {
    extension(target_of(req, route, root)) matches Some(e) && route.cgi.contains_key("."@ + e)
}

/// A method that the route does not accept is refused with 405, whatever the
/// path names, and the methods that it does accept are told.
pub proof fn law_other_methods_are_refused(req: RequestView, server: ServerView)
    requires
        best_of(server.routes, req.path) matches Some(i) && server.routes[i].redirect is None
            && !methods_of(server.routes[i]).contains(req.method),
    ensures
        first_step(req, server) == error_step(
            Some(server),
            405,
            Some(
                joined(
                    methods_of(server.routes[best_of(server.routes, req.path)->0]),
                    ", "@,
                ),
            ),
        ),
{
}

/// A request for a file with the extension of a script runs that script with
/// the interpreter for it, whatever the method is.
pub proof fn law_scripts_are_run(req: RequestView, server: ServerView, root: Seq<char>)
    requires
        best_of(server.routes, req.path) matches Some(i) && {
            let route = server.routes[i];
            &&& takes(route, req)
            &&& route.root == Some(root)
            &&& !may_escape(rest_of(req, route))
            &&& is_script(req, route, root)
        },
    ensures
        ({
            let route = server.routes[best_of(server.routes, req.path)->0];
            let path = joined_path(root, rest_of(req, route));
            first_step(req, server) == StepView::Ask(
                ActionView::RunScript {
                    interpreter: route.cgi["."@ + extension(path)->0],
                    path,
                },
                StageView::Script,
            )
        }),
{
    let route = server.routes[best_of(server.routes, req.path)->0];
    let key = "."@ + extension(target_of(req, route, root))->0;
    assert(route.cgi.dom().contains(key));
    assert(!route.cgi.dom().is_empty());
}

/// What a script prints becomes the response. One that cannot be found is not
/// found; one that fails is an error of the server.
pub proof fn law_script_output_is_the_response(
    req: RequestView,
    server: ServerView,
    raw: Seq<u8>,
    reply: ReplyView,
)
    ensures
        next_step(req, server, StageView::Script, ReplyView::Output(raw)) == StepView::Done(
            response_to_output(raw),
        ),
        next_step(req, server, StageView::Script, ReplyView::Unresolved) == error_step(
            Some(server),
            404,
            None,
        ),
        reply !is Output && reply !is Unresolved ==> next_step(
            req,
            server,
            StageView::Script,
            reply,
        ) == error_step(Some(server), 500, None),
{
}

/// Whether a request comes to the files of its route: the route takes it, and
/// the file that it names is no script.
pub open spec fn comes_to_files(req: RequestView, server: ServerView) -> bool {
    best_of(server.routes, req.path) matches Some(i) && {
        let route = server.routes[i];
        &&& takes(route, req)
        &&& route.root matches Some(root) ==> !is_script(req, route, root)
    }
}

/// The route for a request.
pub open spec fn route_for(req: RequestView, server: ServerView) -> RouteView {
    server.routes[best_of(server.routes, req.path)->0]
}

/// Where there is no root there are no files; a path that leads out of the root
/// is forbidden, for scripts too; a method that is accepted but unknown is not
/// implemented.
pub proof fn law_requests_without_a_file(req: RequestView, server: ServerView)
    requires
        comes_to_files(req, server) || (best_of(server.routes, req.path) is Some && takes(
            route_for(req, server),
            req,
        )),
    ensures
        ({
            let route = route_for(req, server);
            let known = req.method == "GET"@ || req.method == "POST"@ || req.method == "DELETE"@;
            &&& known && route.root is None ==> first_step(req, server) == error_step(
                Some(server),
                404,
                None,
            )
            &&& known && route.root is Some && may_escape(rest_of(req, route)) ==> first_step(
                req,
                server,
            ) == error_step(Some(server), 403, None)
            &&& !known && comes_to_files(req, server) && (route.root is None || !may_escape(
                rest_of(req, route),
            )) ==> first_step(req, server) == error_step(Some(server), 501, None)
        }),
{
    lemma_methods_differ();
}

/// A `GET` looks at what its path names below the root, with the default file
/// and the listing that its route has in mind.
pub proof fn law_gets_look_first(req: RequestView, server: ServerView, root: Seq<char>)
    requires
        comes_to_files(req, server),
        req.method == "GET"@,
        route_for(req, server).root == Some(root),
        !may_escape(rest_of(req, route_for(req, server))),
    ensures
        ({
            let route = route_for(req, server);
            let path = joined_path(root, rest_of(req, route));
            first_step(req, server) == StepView::Ask(
                ActionView::Stat { path },
                StageView::Target { path, index: route.index, autoindex: route.autoindex },
            )
        }),
{
}

/// What a `GET` comes to, by what its path names: a directory has its default
/// file looked for, or else is listed or forbidden; anything else is read; what
/// is not there is not found.
pub proof fn law_targets_are_served(
    req: RequestView,
    server: ServerView,
    path: Seq<char>,
    index: Option<Seq<char>>,
    autoindex: bool,
    reply: ReplyView,
)
    ensures
        ({
            let next = next_step(
                req,
                server,
                StageView::Target { path, index, autoindex },
                reply,
            );
            &&& reply == ReplyView::Found(Kind::File) || reply == ReplyView::Found(Kind::Other)
                ==> next == StepView::Ask(ActionView::Read { path }, StageView::File)
            &&& reply == ReplyView::Found(Kind::Directory) && index is Some ==> next
                == StepView::Ask(
                ActionView::Stat { path: joined_path(path, index->0) },
                StageView::Index { path, file: joined_path(path, index->0), autoindex },
            )
            &&& reply == ReplyView::Found(Kind::Directory) && index is None && autoindex ==> next
                == StepView::Ask(ActionView::List { path }, StageView::Listing)
            &&& reply == ReplyView::Found(Kind::Directory) && index is None && !autoindex ==> next
                == error_step(Some(server), 403, None)
            &&& reply !is Found ==> next == error_step(Some(server), 404, None)
        }),
{
}

/// A default file that is a file is served in the place of its directory;
/// without one the directory is listed where listings are on, and forbidden
/// where they are off.
pub proof fn law_default_files_come_first(
    req: RequestView,
    server: ServerView,
    path: Seq<char>,
    file: Seq<char>,
    autoindex: bool,
    reply: ReplyView,
)
    ensures
        ({
            let next = next_step(req, server, StageView::Index { path, file, autoindex }, reply);
            &&& reply == ReplyView::Found(Kind::File) ==> next == StepView::Ask(
                ActionView::Read { path: file },
                StageView::File,
            )
            &&& reply != ReplyView::Found(Kind::File) && autoindex ==> next == StepView::Ask(
                ActionView::List { path },
                StageView::Listing,
            )
            &&& reply != ReplyView::Found(Kind::File) && !autoindex ==> next == error_step(
                Some(server),
                403,
                None,
            )
        }),
{
}

/// What was read of a file is sent as it is, and the entries of a directory are
/// sent as a listing of them. If that fails it is an error of the server.
pub proof fn law_what_was_read_is_sent(
    req: RequestView,
    server: ServerView,
    data: Seq<u8>,
    content_type: Seq<char>,
    items: Seq<Entry>,
    reply: ReplyView,
)
    ensures
        next_step(
            req,
            server,
            StageView::File,
            ReplyView::Contents { data, content_type },
        ) matches StepView::Done(r) && r.status == 200 && r.body == data && r.headers == seq![
            ("Content-Type"@, content_type),
        ],
        next_step(
            req,
            server,
            StageView::Listing,
            ReplyView::Entries(items),
        ) matches StepView::Done(r) && r.status == 200 && r.body == encode_utf8(
            listing_html(req.path, items),
        ) && r.headers == seq![("Content-Type"@, "text/html; charset=utf-8"@)],
        reply !is Contents ==> next_step(req, server, StageView::File, reply) == error_step(
            Some(server),
            500,
            None,
        ),
        reply !is Entries ==> next_step(req, server, StageView::Listing, reply) == error_step(
            Some(server),
            500,
            None,
        ),
{
}

/// A `POST` that is no form saves its body in the file that its path names, and
/// says so; without a name there is nothing to save it in.
pub proof fn law_posts_are_saved(
    req: RequestView,
    server: ServerView,
    root: Seq<char>,
    reply: ReplyView,
)
    requires
        comes_to_files(req, server),
        req.method == "POST"@,
        route_for(req, server).root == Some(root),
        !may_escape(rest_of(req, route_for(req, server))),
        delimiter(content_type_of(req)) is None,
    ensures
        ({
            let rest = rest_of(req, route_for(req, server));
            &&& rest.len() > 0 ==> first_step(req, server) == StepView::Ask(
                ActionView::Save { path: joined_path(root, rest), data: req.body, parents: true },
                StageView::Upload,
            )
            &&& rest.len() == 0 ==> first_step(req, server) == error_step(Some(server), 400, None)
        }),
        next_step(req, server, StageView::Upload, ReplyView::Finished) matches StepView::Done(r) && {
            &&& r.status == 201
            &&& r.headers == seq![
                ("Content-Type"@, "text/plain; charset=utf-8"@),
                ("Location"@, req.path),
            ]
            &&& r.body == encode_utf8(
                "created "@ + req.path + " ("@ + decimal(req.body.len()) + " bytes)\n"@,
            )
        },
        reply !is Finished ==> next_step(req, server, StageView::Upload, reply) == error_step(
            Some(server),
            500,
            None,
        ),
{
    lemma_methods_differ();
    let r = super::router::created(req);
    assert(r.headers =~= seq![
        ("Content-Type"@, "text/plain; charset=utf-8"@),
        ("Location"@, req.path),
    ]);
}

/// The content type of a request is what its header field says, or nothing.
pub proof fn law_content_types_of_requests(req: RequestView)
    ensures
        req.headers.contains_key("content-type"@) ==> content_type_of(req)
            == req.headers["content-type"@],
        !req.headers.contains_key("content-type"@) ==> content_type_of(req).len() == 0,
{
    reveal_strlit("");
}

/// A form has its files saved one after the other, each under its name below
/// the root, until all are or one fails. A form without files is a bad request.
pub proof fn law_forms_are_saved(
    req: RequestView,
    server: ServerView,
    root: Seq<char>,
    parts: Seq<PartView>,
    saved: int,
    reply: ReplyView,
)
    requires
        comes_to_files(req, server),
        req.method == "POST"@,
        route_for(req, server).root == Some(root),
        !may_escape(rest_of(req, route_for(req, server))),
        delimiter(content_type_of(req)) is Some,
        parts == parts_in(req.body, encode_utf8(delimiter(content_type_of(req))->0)),
        0 <= saved < parts.len(),
    ensures
        first_step(req, server) == StepView::Ask(
            ActionView::Save {
                path: joined_path(root, parts[0].name),
                data: parts[0].content,
                parents: false,
            },
            StageView::Parts { root, parts, saved: 0 },
        ),
        saved + 1 < parts.len() ==> next_step(
            req,
            server,
            StageView::Parts { root, parts, saved },
            ReplyView::Finished,
        ) == StepView::Ask(
            ActionView::Save {
                path: joined_path(root, parts[saved + 1].name),
                data: parts[saved + 1].content,
                parents: false,
            },
            StageView::Parts { root, parts, saved: saved + 1 },
        ),
        saved + 1 == parts.len() ==> (next_step(
            req,
            server,
            StageView::Parts { root, parts, saved },
            ReplyView::Finished,
        ) matches StepView::Done(r) && r.status == 201 && r.headers == seq![
            ("Content-Type"@, "text/plain; charset=utf-8"@),
        ] && r.body == encode_utf8(
            "uploaded: "@ + joined(parts.map_values(|p: PartView| p.name), ", "@) + "\n"@,
        )),
        reply !is Finished ==> next_step(
            req,
            server,
            StageView::Parts { root, parts, saved },
            reply,
        ) == error_step(Some(server), 500, None),
{
    lemma_methods_differ();
    assert(super::router::part_names(parts) =~= parts.map_values(|p: PartView| p.name));
}

/// A form in which no file is found is a bad request.
pub proof fn law_empty_forms_are_refused(req: RequestView, server: ServerView)
    requires
        comes_to_files(req, server),
        req.method == "POST"@,
        route_for(req, server).root is Some,
        !may_escape(rest_of(req, route_for(req, server))),
        delimiter(content_type_of(req)) is Some,
        parts_in(req.body, encode_utf8(delimiter(content_type_of(req))->0)).len() == 0,
    ensures
        first_step(req, server) == error_step(Some(server), 400, None),
{
    lemma_methods_differ();
}

/// A `DELETE` looks at what its path names and removes it unless it is a
/// directory; the root itself is not to be deleted.
pub proof fn law_deletes_remove_files(
    req: RequestView,
    server: ServerView,
    root: Seq<char>,
    path: Seq<char>,
    reply: ReplyView,
)
    requires
        comes_to_files(req, server),
        req.method == "DELETE"@,
        route_for(req, server).root == Some(root),
        !may_escape(rest_of(req, route_for(req, server))),
    ensures
        ({
            let rest = rest_of(req, route_for(req, server));
            &&& rest.len() > 0 ==> first_step(req, server) == StepView::Ask(
                ActionView::Stat { path: joined_path(root, rest) },
                StageView::Doomed { path: joined_path(root, rest) },
            )
            &&& rest.len() == 0 ==> first_step(req, server) == error_step(Some(server), 403, None)
        }),
        ({
            let next = next_step(req, server, StageView::Doomed { path }, reply);
            &&& reply == ReplyView::Found(Kind::File) || reply == ReplyView::Found(Kind::Other)
                ==> next == StepView::Ask(ActionView::Remove { path }, StageView::Removal)
            &&& reply == ReplyView::Found(Kind::Directory) ==> next == error_step(
                Some(server),
                403,
                None,
            )
            &&& reply !is Found ==> next == error_step(Some(server), 404, None)
        }),
        next_step(req, server, StageView::Removal, ReplyView::Finished) matches StepView::Done(r)
            && r.status == 204 && r.headers.len() == 0 && r.body.len() == 0,
        reply !is Finished ==> next_step(req, server, StageView::Removal, reply) == error_step(
            Some(server),
            500,
            None,
        ),
{
    lemma_methods_differ();
}

/// The connection is kept after a response that is no error if the client wants
/// it, and closed otherwise; nothing else about the response changes.
pub proof fn law_connections_are_kept(r: ResponseView, keep_alive: bool, step: StepView)
    ensures
        stamped(StepView::Done(r), keep_alive) matches StepView::Done(sent) && {
            &&& sent.keep_alive <==> keep_alive && r.status < 400
            &&& sent.status == r.status && sent.headers == r.headers && sent.body == r.body
        },
        step is Ask ==> stamped(step, keep_alive) == step,
{
}

/// A request names a file by what is behind the path of its route, below the
/// root of that route, with one slash between them.
pub proof fn law_requests_name_files(
    req: RequestView,
    route: RouteView,
    slashes: Seq<char>,
    rel: Seq<char>,
    root: Seq<char>,
)
    requires
        is_slashes(slashes),
        rel.len() > 0 ==> rel[0] != '/' && slashes.len() > 0,
        req.path == (if route.path == "/"@ {
            slashes + rel
        } else {
            route.path + slashes + rel
        }),
    ensures
        rest_of(req, route) == rel,
        root.len() > 0 && root.last() == '/' ==> target_of(req, route, root) == root + rel,
        root.len() > 0 && root.last() != '/' ==> target_of(req, route, root) == root + seq!['/']
            + rel,
{
    law_rest_below_route(route.path, slashes, rel);
    law_paths_are_joined(root, rel);
}

} // verus!
