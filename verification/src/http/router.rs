//! From a request to a response.
//!
//! Answering a request takes work on files and scripts, which is not done
//! here. [`handle`] gives either the response or an [`Action`] to carry out,
//! with a [`Stage`] that remembers what the action is for; [`resume`] goes on
//! from there with the [`Reply`].

use super::cgi_output::{parse_cgi_output, response_to_output};
use super::listing::{autoindex_html, entry_views, listing_html, Entry};
use super::multipart::{
    delimiter, multipart_boundary, part_views, parts_in, read_parts, Part, PartView,
};
use super::paths::{
    answers_for, below_route, extension, extension_of, has_traversal, join_path, joined_path,
    lemma_below_route, may_escape, relative_path, route_matches,
};
use super::request::{Request, RequestView};
use super::response::{bare, bodied, Response, ResponseView};
use super::{phrase, reason_phrase};
use crate::config::{route_views, text_of, Route, RouteView, ServerConfig, ServerView};
use crate::numbers::{decimal, push_decimal};
use crate::text::{concat3, join, joined, str_eq, texts};
use vstd::prelude::*;
use vstd::slice::slice_to_vec;
use vstd::utf8::encode_utf8;

verus! {

/// What a path names.
#[derive(Clone, Copy)]
pub enum Kind {
    Directory,
    File,
    Other,
}

/// Work on files and scripts.
pub enum Action {
    /// Find out what a path names.
    Stat { path: String },
    /// Read a file.
    Read { path: String },
    /// List a directory.
    List { path: String },
    /// Write a file, after making the directories that it is in if `parents`
    /// says so.
    Save { path: String, data: Vec<u8>, parents: bool },
    /// Delete a file.
    Remove { path: String },
    /// Resolve the path of a script and run it.
    RunScript { interpreter: String, path: String },
}

/// What became of an [`Action`].
pub enum Reply {
    /// It failed.
    Failed,
    /// A file was written or deleted.
    Finished,
    /// A path names something.
    Found(Kind),
    /// What a file holds, and the content type that goes with its name.
    Contents { data: Vec<u8>, content_type: String },
    /// The entries of a directory, and for each whether it is a directory.
    Entries(Vec<(String, bool)>),
    /// The path of a script could not be resolved.
    Unresolved,
    /// What a script printed.
    Output(Vec<u8>),
}

/// What an [`Action`] is for.
pub enum Stage {
    /// Reading the page for an error. `allow` is what the response says of
    /// allowed methods.
    ErrorPage { code: u16, allow: Option<String> },
    /// Finding out what the target of a `GET` is.
    Target { path: String, index: Option<String>, autoindex: bool },
    /// Finding out whether the default file of a directory is there.
    Index { path: String, file: String, autoindex: bool },
    /// Reading the file that is served.
    File,
    /// Listing the directory that is served.
    Listing,
    /// Running a script.
    Script,
    /// Writing a raw upload.
    Upload,
    /// Writing a file out of a form; `saved` files were written before.
    Parts { root: String, parts: Vec<Part>, saved: usize },
    /// Finding out what the target of a `DELETE` is.
    Doomed { path: String },
    /// Deleting a file.
    Removal,
}

/// How to go on.
pub enum Step {
    Ask(Action, Stage),
    Done(Response),
}

/// What an [`Action`] says.
#[verifier::ext_equal]
pub ghost enum ActionView {
    Stat { path: Seq<char> },
    Read { path: Seq<char> },
    List { path: Seq<char> },
    Save { path: Seq<char>, data: Seq<u8>, parents: bool },
    Remove { path: Seq<char> },
    RunScript { interpreter: Seq<char>, path: Seq<char> },
}

impl View for Action {
    type V = ActionView;

    open spec fn view(&self) -> ActionView {
        match self {
            Action::Stat { path } => ActionView::Stat { path: path@ },
            Action::Read { path } => ActionView::Read { path: path@ },
            Action::List { path } => ActionView::List { path: path@ },
            Action::Save { path, data, parents } => ActionView::Save {
                path: path@,
                data: data@,
                parents: *parents,
            },
            Action::Remove { path } => ActionView::Remove { path: path@ },
            Action::RunScript { interpreter, path } => ActionView::RunScript {
                interpreter: interpreter@,
                path: path@,
            },
        }
    }
}

/// What a [`Reply`] says.
#[verifier::ext_equal]
pub ghost enum ReplyView {
    Failed,
    Finished,
    Found(Kind),
    Contents { data: Seq<u8>, content_type: Seq<char> },
    Entries(Seq<Entry>),
    Unresolved,
    Output(Seq<u8>),
}

impl View for Reply {
    type V = ReplyView;

    open spec fn view(&self) -> ReplyView {
        match self {
            Reply::Failed => ReplyView::Failed,
            Reply::Finished => ReplyView::Finished,
            Reply::Found(kind) => ReplyView::Found(*kind),
            Reply::Contents { data, content_type } => ReplyView::Contents {
                data: data@,
                content_type: content_type@,
            },
            Reply::Entries(items) => ReplyView::Entries(entry_views(items@)),
            Reply::Unresolved => ReplyView::Unresolved,
            Reply::Output(raw) => ReplyView::Output(raw@),
        }
    }
}

/// What a [`Stage`] says.
#[verifier::ext_equal]
pub ghost enum StageView {
    ErrorPage { code: u16, allow: Option<Seq<char>> },
    Target { path: Seq<char>, index: Option<Seq<char>>, autoindex: bool },
    Index { path: Seq<char>, file: Seq<char>, autoindex: bool },
    File,
    Listing,
    Script,
    Upload,
    Parts { root: Seq<char>, parts: Seq<PartView>, saved: int },
    Doomed { path: Seq<char> },
    Removal,
}

impl View for Stage {
    type V = StageView;

    open spec fn view(&self) -> StageView {
        match self {
            Stage::ErrorPage { code, allow } => StageView::ErrorPage {
                code: *code,
                allow: text_of(*allow),
            },
            Stage::Target { path, index, autoindex } => StageView::Target {
                path: path@,
                index: text_of(*index),
                autoindex: *autoindex,
            },
            Stage::Index { path, file, autoindex } => StageView::Index {
                path: path@,
                file: file@,
                autoindex: *autoindex,
            },
            Stage::File => StageView::File,
            Stage::Listing => StageView::Listing,
            Stage::Script => StageView::Script,
            Stage::Upload => StageView::Upload,
            Stage::Parts { root, parts, saved } => StageView::Parts {
                root: root@,
                parts: part_views(parts@),
                saved: *saved as int,
            },
            Stage::Doomed { path } => StageView::Doomed { path: path@ },
            Stage::Removal => StageView::Removal,
        }
    }
}

/// What a [`Step`] says.
#[verifier::ext_equal]
pub ghost enum StepView {
    Ask(ActionView, StageView),
    Done(ResponseView),
}

impl View for Step {
    type V = StepView;

    open spec fn view(&self) -> StepView {
        match self {
            Step::Ask(action, stage) => StepView::Ask(action@, stage@),
            Step::Done(r) => StepView::Done(r@),
        }
    }
}

/// The content type of the pages made here.
pub open spec fn html_type() -> Seq<char> {
    "text/html; charset=utf-8"@
}

/// The content type of the messages made here.
pub open spec fn plain_type() -> Seq<char> {
    "text/plain; charset=utf-8"@
}

/// The built-in page for an error.
pub open spec fn error_html(code: u16) -> Seq<char> {
    let title = decimal(code as nat) + " "@ + phrase(code);
    "<!DOCTYPE html><html><head><meta charset=\"utf-8\"><title>"@ + title
        + "</title></head><body><h1>"@ + title + "</h1><hr><p>localhost</p></body></html>"@
}

/// The response for an error: the page that was read for it, or the built-in
/// one. It closes the connection.
pub open spec fn error_reply(
    code: u16,
    page: Option<(Seq<u8>, Seq<char>)>,
    allow: Option<Seq<char>>,
) -> ResponseView {
    let r = match page {
        Some((data, content_type)) => bodied(code, content_type, data),
        None => bodied(code, html_type(), encode_utf8(error_html(code))),
    };
    let closing = ResponseView { keep_alive: false, ..r };
    match allow {
        Some(methods) => closing.with("Allow"@, methods),
        None => closing,
    }
}

/// How to answer with an error: by the page that the server has for it, or at
/// once.
pub open spec fn error_step(
    server: Option<ServerView>,
    code: u16,
    allow: Option<Seq<char>>,
) -> StepView {
    match server {
        Some(s) => match s.error_pages.get(code) {
            Some(path) => StepView::Ask(
                ActionView::Read { path },
                StageView::ErrorPage { code, allow },
            ),
            None => StepView::Done(error_reply(code, None, allow)),
        },
        None => StepView::Done(error_reply(code, None, allow)),
    }
}

/// The number of bytes in a text.
pub open spec fn byte_len(s: Seq<char>) -> int {
    encode_utf8(s).len() as int
}

/// Which of `routes` is for a path: of those that answer for it, the one with
/// the longest path, and the first of several such.
pub open spec fn best_of(routes: Seq<RouteView>, path: Seq<char>) -> Option<int>
    decreases routes.len(),
{
    if routes.len() == 0 {
        None
    } else {
        let best = best_of(routes.drop_last(), path);
        let last = routes.last();
        let longer = best is None || byte_len(last.path) > byte_len(routes[best->0].path);
        if answers_for(last.path, path) && longer {
            Some(routes.len() - 1)
        } else {
            best
        }
    }
}

/// The methods that a route accepts: those it lists, or all that are
/// implemented.
pub open spec fn methods_of(route: RouteView) -> Seq<Seq<char>> {
    if route.methods.len() == 0 {
        seq!["GET"@, "POST"@, "DELETE"@]
    } else {
        route.methods
    }
}

/// The response that sends the client elsewhere.
pub open spec fn redirection(code: u16, target: Seq<char>) -> ResponseView {
    let body = "<!DOCTYPE html><html><body>Redirecting to <a href=\""@ + target + "\">"@ + target
        + "</a></body></html>"@;
    bodied(code, html_type(), encode_utf8(body)).with("Location"@, target)
}

/// What stands behind the path of the route in the path of the request.
pub open spec fn rest_of(req: RequestView, route: RouteView) -> Seq<char> {
    below_route(route.path, req.path)
}

/// The file that a request is about, under a root.
pub open spec fn target_of(req: RequestView, route: RouteView, root: Seq<char>) -> Seq<char> {
    joined_path(root, rest_of(req, route))
}

/// How to run the script that a request is about, if it is about one: the
/// route has scripts and a root, and the extension of the file is that of one
/// of its scripts.
pub open spec fn script_step(req: RequestView, route: RouteView, server: ServerView) -> Option<
    StepView,
> {
    if route.cgi.dom().is_empty() || route.root is None {
        None
    } else if may_escape(rest_of(req, route)) {
        Some(error_step(Some(server), 403, None))
    } else {
        let path = target_of(req, route, route.root->0);
        match extension(path) {
            Some(e) => match route.cgi.get("."@ + e) {
                Some(interpreter) => Some(
                    StepView::Ask(ActionView::RunScript { interpreter, path }, StageView::Script),
                ),
                None => None,
            },
            None => None,
        }
    }
}

/// How to serve a file or a directory.
pub open spec fn get_step(req: RequestView, route: RouteView, server: ServerView) -> StepView {
    if route.root is None {
        error_step(Some(server), 404, None)
    } else if may_escape(rest_of(req, route)) {
        error_step(Some(server), 403, None)
    } else {
        let path = target_of(req, route, route.root->0);
        StepView::Ask(
            ActionView::Stat { path },
            StageView::Target { path, index: route.index, autoindex: route.autoindex },
        )
    }
}

/// How to write a file out of a form.
pub open spec fn part_step(root: Seq<char>, parts: Seq<PartView>, saved: int) -> StepView {
    StepView::Ask(
        ActionView::Save {
            path: joined_path(root, parts[saved].name),
            data: parts[saved].content,
            parents: false,
        },
        StageView::Parts { root, parts, saved },
    )
}

/// The content type of a request.
pub open spec fn content_type_of(req: RequestView) -> Seq<char> {
    match req.headers.get("content-type"@) {
        Some(t) => t,
        None => ""@,
    }
}

/// How to take an upload: each file of a form under the root, or else the body
/// as the file that the path names.
pub open spec fn post_step(req: RequestView, route: RouteView, server: ServerView) -> StepView {
    if route.root is None {
        error_step(Some(server), 404, None)
    } else if may_escape(rest_of(req, route)) {
        error_step(Some(server), 403, None)
    } else {
        match delimiter(content_type_of(req)) {
            Some(delim) => {
                let parts = parts_in(req.body, encode_utf8(delim));
                if parts.len() == 0 {
                    error_step(Some(server), 400, None)
                } else {
                    part_step(route.root->0, parts, 0)
                }
            },
            None => if rest_of(req, route).len() == 0 {
                error_step(Some(server), 400, None)
            } else {
                StepView::Ask(
                    ActionView::Save {
                        path: target_of(req, route, route.root->0),
                        data: req.body,
                        parents: true,
                    },
                    StageView::Upload,
                )
            },
        }
    }
}

/// How to delete a file.
pub open spec fn delete_step(req: RequestView, route: RouteView, server: ServerView) -> StepView {
    if route.root is None {
        error_step(Some(server), 404, None)
    } else if may_escape(rest_of(req, route)) || rest_of(req, route).len() == 0 {
        error_step(Some(server), 403, None)
    } else {
        let path = target_of(req, route, route.root->0);
        StepView::Ask(ActionView::Stat { path }, StageView::Doomed { path })
    }
}

/// How to answer a request by a given route. Redirects come before anything
/// else, then the methods, then scripts.
pub open spec fn route_step(req: RequestView, route: RouteView, server: ServerView) -> StepView {
    match route.redirect {
        Some((code, target)) => StepView::Done(redirection(code, target)),
        None => if !methods_of(route).contains(req.method) {
            error_step(Some(server), 405, Some(joined(methods_of(route), ", "@)))
        } else {
            match script_step(req, route, server) {
                Some(step) => step,
                None => if req.method == "GET"@ {
                    get_step(req, route, server)
                } else if req.method == "POST"@ {
                    post_step(req, route, server)
                } else if req.method == "DELETE"@ {
                    delete_step(req, route, server)
                } else {
                    error_step(Some(server), 501, None)
                },
            }
        },
    }
}

/// How to answer a request.
pub open spec fn first_step(req: RequestView, server: ServerView) -> StepView {
    match best_of(server.routes, req.path) {
        Some(i) => route_step(req, server.routes[i], server),
        None => error_step(Some(server), 404, None),
    }
}

/// How to serve a directory without a default file.
pub open spec fn directory_step(
    server: ServerView,
    path: Seq<char>,
    autoindex: bool,
) -> StepView {
    if autoindex {
        StepView::Ask(ActionView::List { path }, StageView::Listing)
    } else {
        error_step(Some(server), 403, None)
    }
}

/// The response to a raw upload.
pub open spec fn created(req: RequestView) -> ResponseView {
    let body = "created "@ + req.path + " ("@ + decimal(req.body.len()) + " bytes)\n"@;
    bodied(201, plain_type(), encode_utf8(body)).with("Location"@, req.path)
}

/// The names of files.
pub open spec fn part_names(parts: Seq<PartView>) -> Seq<Seq<char>> {
    parts.map_values(|p: PartView| p.name)
}

/// The response to the files of a form.
pub open spec fn uploaded(parts: Seq<PartView>) -> ResponseView {
    let body = "uploaded: "@ + joined(part_names(parts), ", "@) + "\n"@;
    bodied(201, plain_type(), encode_utf8(body))
}

/// How to go on with a request once a reply has come. A reply that does not go
/// with the stage counts as a failure.
pub open spec fn next_step(
    req: RequestView,
    server: ServerView,
    stage: StageView,
    reply: ReplyView,
) -> StepView {
    match stage {
        StageView::ErrorPage { code, allow } => StepView::Done(
            error_reply(
                code,
                match reply {
                    ReplyView::Contents { data, content_type } => Some((data, content_type)),
                    _ => None,
                },
                allow,
            ),
        ),
        StageView::Target { path, index, autoindex } => match reply {
            ReplyView::Found(Kind::Directory) => match index {
                Some(name) => StepView::Ask(
                    ActionView::Stat { path: joined_path(path, name) },
                    StageView::Index { path, file: joined_path(path, name), autoindex },
                ),
                None => directory_step(server, path, autoindex),
            },
            ReplyView::Found(_) => StepView::Ask(ActionView::Read { path }, StageView::File),
            _ => error_step(Some(server), 404, None),
        },
        StageView::Index { path, file, autoindex } => match reply {
            ReplyView::Found(Kind::File) => StepView::Ask(
                ActionView::Read { path: file },
                StageView::File,
            ),
            _ => directory_step(server, path, autoindex),
        },
        StageView::File => match reply {
            ReplyView::Contents { data, content_type } => StepView::Done(
                bodied(200, content_type, data),
            ),
            _ => error_step(Some(server), 500, None),
        },
        StageView::Listing => match reply {
            ReplyView::Entries(items) => StepView::Done(
                bodied(200, html_type(), encode_utf8(listing_html(req.path, items))),
            ),
            _ => error_step(Some(server), 500, None),
        },
        StageView::Script => match reply {
            ReplyView::Output(raw) => StepView::Done(response_to_output(raw)),
            ReplyView::Unresolved => error_step(Some(server), 404, None),
            _ => error_step(Some(server), 500, None),
        },
        StageView::Upload => match reply {
            ReplyView::Finished => StepView::Done(created(req)),
            _ => error_step(Some(server), 500, None),
        },
        StageView::Parts { root, parts, saved } => match reply {
            ReplyView::Finished => if saved + 1 < parts.len() {
                part_step(root, parts, saved + 1)
            } else {
                StepView::Done(uploaded(parts))
            },
            _ => error_step(Some(server), 500, None),
        },
        StageView::Doomed { path } => match reply {
            ReplyView::Found(Kind::Directory) => error_step(Some(server), 403, None),
            ReplyView::Found(_) => StepView::Ask(
                ActionView::Remove { path },
                StageView::Removal,
            ),
            _ => error_step(Some(server), 404, None),
        },
        StageView::Removal => match reply {
            ReplyView::Finished => StepView::Done(bare(204)),
            _ => error_step(Some(server), 500, None),
        },
    }
}

/// A step, where a response says what becomes of the connection: it stays
/// open if it should and the response is no error.
pub open spec fn stamped(step: StepView, keep_alive: bool) -> StepView {
    match step {
        StepView::Ask(_, _) => step,
        StepView::Done(r) => StepView::Done(
            ResponseView { keep_alive: keep_alive && r.status < 400, ..r },
        ),
    }
}

/// The bytes of a text.
fn bytes_of(s: &String) -> (r: Vec<u8>)
    ensures
        r@ == encode_utf8(s@),
{
    slice_to_vec(s.as_str().as_bytes())
}

/// Makes the built-in page for an error.
pub fn default_error_html(code: u16) -> (r: String)
    ensures
        r@ == error_html(code),
{
    let mut title = String::new();
    push_decimal(&mut title, code as u64);
    title.append(" ");
    title.append(reason_phrase(code));
    assert(title@ =~= decimal(code as nat) + " "@ + phrase(code));
    let mut html = concat3(
        "<!DOCTYPE html><html><head><meta charset=\"utf-8\"><title>",
        title.as_str(),
        "</title></head><body><h1>",
    );
    html.append(title.as_str());
    html.append("</h1><hr><p>localhost</p></body></html>");
    html
}

/// Makes the response for an error out of the reply to the reading of its
/// page.
pub fn error_page(code: u16, allow: Option<String>, reply: Reply) -> (r: Response)
    ensures
        r@ == error_reply(
            code,
            match reply@ {
                ReplyView::Contents { data, content_type } => Some((data, content_type)),
                _ => None,
            },
            text_of(allow),
        ),
{
    let mut r = match reply {
        Reply::Contents { data, content_type } => Response::with_body(
            code,
            content_type.as_str(),
            data,
        ),
        _ => {
            let html = default_error_html(code);
            Response::with_body(code, "text/html; charset=utf-8", bytes_of(&html))
        },
    };
    r.keep_alive = false;
    if let Some(methods) = allow {
        r.set_header("Allow", methods.as_str());
    }
    r
}

/// Builds an error response that may say which methods are allowed.
fn error_with(server: Option<&ServerConfig>, code: u16, allow: Option<String>) -> (r: Step)
    ensures
        r@ == error_step(
            match server {
                Some(s) => Some(s@),
                None => None,
            },
            code,
            text_of(allow),
        ),
{
    broadcast use vstd::std_specs::hash::group_hash_axioms;

    if let Some(s) = server {
        if let Some(path) = s.error_pages.get(&code) {
            return Step::Ask(
                Action::Read { path: path.clone() },
                Stage::ErrorPage { code, allow },
            );
        }
    }
    Step::Done(error_page(code, allow, Reply::Failed))
}

/// Builds an error response: the server's configured error page for this code
/// if it exists and is readable, otherwise a built-in default. Error responses
/// always close the connection.
pub fn error_response(server: Option<&ServerConfig>, code: u16) -> (r: Step)
    ensures
        r@ == error_step(
            match server {
                Some(s) => Some(s@),
                None => None,
            },
            code,
            None,
        ),
{
    error_with(server, code, None)
}

/// Finds the route for a request: the longest prefix, respecting path
/// boundaries.
pub fn best_route<'a>(req: &Request, server: &'a ServerConfig) -> (r: Option<&'a Route>)
    ensures
        match r {
            Some(route) => best_of(server@.routes, req@.path) is Some && route@
                == server@.routes[best_of(server@.routes, req@.path)->0] && answers_for(
                route@.path,
                req@.path,
            ),
            None => best_of(server@.routes, req@.path) is None,
        },
{
    let ghost all = server@.routes;
    let mut best: Option<&'a Route> = None;
    let mut i: usize = 0;
    while i < server.routes.len()
        invariant
            i <= server.routes@.len(),
            all == route_views(server.routes@),
            match best {
                Some(route) => best_of(all.take(i as int), req@.path) is Some && 0 <= best_of(
                    all.take(i as int),
                    req@.path,
                )->0 < i && route@ == all[best_of(all.take(i as int), req@.path)->0]
                    && answers_for(route@.path, req@.path),
                None => best_of(all.take(i as int), req@.path) is None,
            },
        decreases server.routes@.len() - i,
    {
        let r = &server.routes[i];
        proof {
            assert(all.take(i + 1).drop_last() =~= all.take(i as int));
            assert(all.take(i + 1).last() == r@);
        }
        if route_matches(r.path.as_str(), req.path.as_str()) {
            let longer: bool = match best {
                Some(b) => r.path.as_str().as_bytes().len() > b.path.as_str().as_bytes().len(),
                None => true,
            };
            if longer {
                best = Some(r);
            }
        }
        i += 1;
    }
    assert(all.take(all.len() as int) =~= all);
    best
}

/// The methods that a route accepts.
pub fn allowed_methods(route: &Route) -> (r: Vec<String>)
    ensures
        texts(r@) == methods_of(route@),
{
    let mut out: Vec<String> = Vec::new();
    if route.methods.len() == 0 {
        out.push("GET".to_owned());
        out.push("POST".to_owned());
        out.push("DELETE".to_owned());
    } else {
        crate::config::directive::push_all(&mut out, &route.methods);
    }
    assert(texts(out@) =~= methods_of(route@));
    out
}

/// Tests whether a route accepts a method.
pub fn method_allowed(route: &Route, method: &str) -> (r: bool)
    ensures
        r == methods_of(route@).contains(method@),
{
    let all = allowed_methods(route);
    let ghost t = methods_of(route@);
    let mut i: usize = 0;
    while i < all.len()
        invariant
            i <= all@.len(),
            texts(all@) == t,
            t == methods_of(route@),
            forall|j: int| 0 <= j < i ==> #[trigger] t[j] != method@,
        decreases all@.len() - i,
    {
        assert(t[i as int] == all@[i as int]@);
        if str_eq(all[i].as_str(), method) {
            return true;
        }
        i += 1;
    }
    false
}

/// Starts the script that a request is about, if it is about one.
fn try_cgi(req: &Request, route: &Route, server: &ServerConfig) -> (r: Option<Step>)
    requires
        answers_for(route@.path, req@.path),
    ensures
        match r {
            Some(step) => script_step(req@, route@, server@) == Some(step@),
            None => script_step(req@, route@, server@) is None,
        },
{
    proof {
        lemma_below_route(route@.path, req@.path);
        assert(route@.cgi.dom() =~= route.cgi@.dom());
    }
    if route.cgi.is_empty() {
        proof {
            assert(route.cgi@.dom().is_empty());
        }
        return None;
    }
    match &route.root {
        Some(root) => {
            let rel = relative_path(route.path.as_str(), req.path.as_str());
            if has_traversal(rel.as_str()) {
                return Some(error_response(Some(server), 403));
            }
            let path = join_path(root.as_str(), rel.as_str());
            match extension_of(path.as_str()) {
                Some(e) => {
                    let mut ext = ".".to_owned();
                    ext.append(e.as_str());
                    match route.cgi.get(ext.as_str()) {
                        Some(interpreter) => Some(
                            Step::Ask(
                                Action::RunScript { interpreter: interpreter.clone(), path },
                                Stage::Script,
                            ),
                        ),
                        None => None,
                    }
                },
                None => None,
            }
        },
        None => None,
    }
}

/// A copy of a string that may be missing.
fn copy_text(s: &Option<String>) -> (r: Option<String>)
    ensures
        text_of(r) == text_of(*s),
{
    match s {
        Some(s) => Some(s.clone()),
        None => None,
    }
}

/// Starts to serve a file or a directory.
fn serve_get(req: &Request, route: &Route, server: &ServerConfig) -> (r: Step)
    requires
        answers_for(route@.path, req@.path),
    ensures
        r@ == get_step(req@, route@, server@),
{
    proof {
        lemma_below_route(route@.path, req@.path);
    }
    match &route.root {
        Some(root) => {
            let rel = relative_path(route.path.as_str(), req.path.as_str());
            if has_traversal(rel.as_str()) {
                return error_response(Some(server), 403);
            }
            let path = join_path(root.as_str(), rel.as_str());
            Step::Ask(
                Action::Stat { path: path.clone() },
                Stage::Target { path, index: copy_text(&route.index), autoindex: route.autoindex },
            )
        },
        None => error_response(Some(server), 404),
    }
}

/// Starts to write a file out of a form.
fn save_part(root: String, parts: Vec<Part>, saved: usize) -> (r: Step)
    requires
        saved < parts@.len(),
    ensures
        r@ == part_step(root@, part_views(parts@), saved as int),
{
    let path = join_path(root.as_str(), parts[saved].name.as_str());
    let data = slice_to_vec(parts[saved].content.as_slice());
    assert(part_views(parts@)[saved as int] == parts@[saved as int]@);
    Step::Ask(Action::Save { path, data, parents: false }, Stage::Parts { root, parts, saved })
}

/// Starts to write every file of a form to `root`.
fn save_multipart(body: &[u8], delim: &[u8], root: &str, server: &ServerConfig) -> (r: Step)
    ensures
        r@ == ({
            let parts = parts_in(body@, delim@);
            if parts.len() == 0 {
                error_step(Some(server@), 400, None)
            } else {
                part_step(root@, parts, 0)
            }
        }),
{
    let parts = read_parts(body, delim);
    assert(part_views(parts@).len() == parts@.len());
    if parts.len() == 0 {
        error_response(Some(server), 400)
    } else {
        save_part(root.to_owned(), parts, 0)
    }
}

/// Starts to take an upload.
fn handle_post(req: &Request, route: &Route, server: &ServerConfig) -> (r: Step)
    requires
        answers_for(route@.path, req@.path),
    ensures
        r@ == post_step(req@, route@, server@),
{
    proof {
        lemma_below_route(route@.path, req@.path);
    }
    match &route.root {
        Some(root) => {
            let rel = relative_path(route.path.as_str(), req.path.as_str());
            if has_traversal(rel.as_str()) {
                return error_response(Some(server), 403);
            }
            let content_type = match req.headers.get("content-type") {
                Some(t) => t.as_str(),
                None => "",
            };
            assert(content_type@ == content_type_of(req@));
            // multipart/form-data: save each file part under the route root.
            if let Some(delim) = multipart_boundary(content_type) {
                return save_multipart(
                    req.body.as_slice(),
                    delim.as_str().as_bytes(),
                    root.as_str(),
                    server,
                );
            }
            // Raw upload: the URL must name the destination file.

            if rel.as_str().is_empty() {
                return error_response(Some(server), 400);
            }
            let path = join_path(root.as_str(), rel.as_str());
            let data = slice_to_vec(req.body.as_slice());
            Step::Ask(Action::Save { path, data, parents: true }, Stage::Upload)
        },
        None => error_response(Some(server), 404),
    }
}

/// Starts to delete a file.
fn handle_delete(req: &Request, route: &Route, server: &ServerConfig) -> (r: Step)
    requires
        answers_for(route@.path, req@.path),
    ensures
        r@ == delete_step(req@, route@, server@),
{
    proof {
        lemma_below_route(route@.path, req@.path);
    }
    match &route.root {
        Some(root) => {
            let rel = relative_path(route.path.as_str(), req.path.as_str());
            if has_traversal(rel.as_str()) || rel.as_str().is_empty() {
                return error_response(Some(server), 403);
            }
            let path = join_path(root.as_str(), rel.as_str());
            Step::Ask(Action::Stat { path: path.clone() }, Stage::Doomed { path })
        },
        None => error_response(Some(server), 404),
    }
}

/// Makes the response that sends the client elsewhere.
fn redirect(code: u16, target: &str) -> (r: Response)
    ensures
        r@ == redirection(code, target@),
{
    let mut body = concat3(
        "<!DOCTYPE html><html><body>Redirecting to <a href=\"",
        target,
        "\">",
    );
    body.append(target);
    body.append("</a></body></html>");
    let mut r = Response::with_body(code, "text/html; charset=utf-8", bytes_of(&body));
    r.set_header("Location", target);
    r
}

/// Finds out how to answer a request.
pub fn route(req: &Request, server: &ServerConfig) -> (r: Step)
    ensures
        r@ == first_step(req@, server@),
{
    let route = match best_route(req, server) {
        Some(r) => r,
        None => return error_response(Some(server), 404),
    };
    // Redirects take effect before any filesystem work.
    if let Some((code, target)) = &route.redirect {
        return Step::Done(redirect(*code, target.as_str()));
    }
    if !method_allowed(route, req.method.as_str()) {
        let all = allowed_methods(route);
        return error_with(Some(server), 405, Some(join(&all, ", ")));
    }
    // CGI applies to whichever method targets a script with a configured
    // extension; it handles its own body, so it runs before static dispatch.

    if let Some(step) = try_cgi(req, route, server) {
        return step;
    }
    if str_eq(req.method.as_str(), "GET") {
        serve_get(req, route, server)
    } else if str_eq(req.method.as_str(), "POST") {
        handle_post(req, route, server)
    } else if str_eq(req.method.as_str(), "DELETE") {
        handle_delete(req, route, server)
    } else {
        error_response(Some(server), 501)
    }
}

/// Starts to serve a directory without a default file.
fn serve_directory(server: &ServerConfig, path: String, autoindex: bool) -> (r: Step)
    ensures
        r@ == directory_step(server@, path@, autoindex),
{
    if autoindex {
        Step::Ask(Action::List { path }, Stage::Listing)
    } else {
        error_response(Some(server), 403)
    }
}

/// Makes the response to a raw upload.
fn upload_done(req: &Request) -> (r: Response)
    ensures
        r@ == created(req@),
{
    let mut body = concat3("created ", req.path.as_str(), " (");
    push_decimal(&mut body, req.body.len() as u64);
    body.append(" bytes)\n");
    let mut r = Response::with_body(201, "text/plain; charset=utf-8", bytes_of(&body));
    r.set_header("Location", req.path.as_str());
    r
}

/// Makes the response to the files of a form.
fn parts_done(parts: &Vec<Part>) -> (r: Response)
    ensures
        r@ == uploaded(part_views(parts@)),
{
    let mut names: Vec<String> = Vec::new();
    let ghost all = part_names(part_views(parts@));
    let mut i: usize = 0;
    while i < parts.len()
        invariant
            i <= parts@.len(),
            all == part_names(part_views(parts@)),
            texts(names@) =~= all.take(i as int),
        decreases parts@.len() - i,
    {
        let ghost had = names@;
        names.push(parts[i].name.clone());
        assert(texts(names@) =~= texts(had).push(parts@[i as int].name@));
        i += 1;
    }
    assert(all.take(all.len() as int) =~= all);
    let list = join(&names, ", ");
    let body = concat3("uploaded: ", list.as_str(), "\n");
    Response::with_body(201, "text/plain; charset=utf-8", bytes_of(&body))
}

/// Goes on with a request once a reply has come.
fn go_on(req: &Request, server: &ServerConfig, stage: Stage, reply: Reply) -> (r: Step)
    ensures
        r@ == next_step(req@, server@, stage@, reply@),
{
    match stage {
        Stage::ErrorPage { code, allow } => Step::Done(error_page(code, allow, reply)),
        Stage::Target { path, index, autoindex } => match reply {
            Reply::Found(Kind::Directory) => match index {
                Some(name) => {
                    let file = join_path(path.as_str(), name.as_str());
                    Step::Ask(
                        Action::Stat { path: file.clone() },
                        Stage::Index { path, file, autoindex },
                    )
                },
                None => serve_directory(server, path, autoindex),
            },
            Reply::Found(_) => Step::Ask(Action::Read { path }, Stage::File),
            _ => error_response(Some(server), 404),
        },
        Stage::Index { path, file, autoindex } => match reply {
            Reply::Found(Kind::File) => Step::Ask(Action::Read { path: file }, Stage::File),
            _ => serve_directory(server, path, autoindex),
        },
        Stage::File => match reply {
            Reply::Contents { data, content_type } => Step::Done(
                Response::with_body(200, content_type.as_str(), data),
            ),
            _ => error_response(Some(server), 500),
        },
        Stage::Listing => match reply {
            Reply::Entries(items) => {
                let html = autoindex_html(req.path.as_str(), items);
                Step::Done(
                    Response::with_body(200, "text/html; charset=utf-8", bytes_of(&html)),
                )
            },
            _ => error_response(Some(server), 500),
        },
        Stage::Script => match reply {
            Reply::Output(raw) => Step::Done(parse_cgi_output(raw.as_slice())),
            Reply::Unresolved => error_response(Some(server), 404),
            _ => error_response(Some(server), 500),
        },
        Stage::Upload => match reply {
            Reply::Finished => Step::Done(upload_done(req)),
            _ => error_response(Some(server), 500),
        },
        Stage::Parts { root, parts, saved } => match reply {
            Reply::Finished => {
                assert(part_views(parts@).len() == parts@.len());
                if parts.len() > 0 && saved < parts.len() - 1 {
                    save_part(root, parts, saved + 1)
                } else {
                    Step::Done(parts_done(&parts))
                }
            },
            _ => error_response(Some(server), 500),
        },
        Stage::Doomed { path } => match reply {
            Reply::Found(Kind::Directory) => error_response(Some(server), 403),
            Reply::Found(_) => Step::Ask(Action::Remove { path }, Stage::Removal),
            _ => error_response(Some(server), 404),
        },
        Stage::Removal => match reply {
            Reply::Finished => Step::Done(Response::new(204)),
            _ => error_response(Some(server), 500),
        },
    }
}

/// Stamps the connection disposition on a response. Any error status (>= 400)
/// forces `Connection: close`.
fn stamp(step: Step, keep_alive: bool) -> (r: Step)
    ensures
        r@ == stamped(step@, keep_alive),
{
    match step {
        Step::Ask(action, stage) => Step::Ask(action, stage),
        Step::Done(resp) => {
            let mut resp = resp;
            resp.keep_alive = keep_alive && resp.status < 400;
            Step::Done(resp)
        },
    }
}

/// Top-level entry: routes the request within `server` and stamps the
/// connection disposition.
pub fn handle(req: &Request, server: &ServerConfig, keep_alive: bool) -> (r: Step)
    ensures
        r@ == stamped(first_step(req@, server@), keep_alive),
{
    stamp(route(req, server), keep_alive)
}

/// Goes on with a request once a reply has come, and stamps the connection
/// disposition.
pub fn resume(
    req: &Request,
    server: &ServerConfig,
    keep_alive: bool,
    stage: Stage,
    reply: Reply,
) -> (r: Step)
    ensures
        r@ == stamped(next_step(req@, server@, stage@, reply@), keep_alive),
{
    stamp(go_on(req, server, stage, reply), keep_alive)
}

} // verus!
