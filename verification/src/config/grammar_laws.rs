//! How tokens make directives, routes and servers, and what is said of those
//! that do not.

use super::directive::{route_after, server_after};
use super::lexer::{lex, LexedView, TokView};
use super::parser::{
    all_bindings, all_duplicates, bindings_of, bound_names, described, directive_at,
    duplicate_message, duplicates, errors_in, final_line, opening_at, port_bindings, ports_bindings,
    route_at, route_body, server_at, server_body, servers_from, servers_in, without_duplicates,
    words_between, words_end, Binding,
};
use super::{default_route, default_server, RouteView, ServerView};
use crate::numbers::decimal;
use vstd::prelude::*;

verus! {

/// A directive as it is written: its name and its arguments.
pub ghost struct Line {
    pub name: Seq<char>,
    pub args: Seq<Seq<char>>,
}

/// What stands in a server block: a directive, or a route with its directives.
pub ghost enum Item {
    Directive(Line),
    Route { path: Seq<char>, lines: Seq<Line> },
}

/// The tokens of words.
pub open spec fn words(list: Seq<Seq<char>>) -> Seq<TokView> {
    list.map_values(|w: Seq<char>| TokView::Word(w))
}

/// The tokens of a directive: its words and a semicolon.
pub open spec fn line_tokens(l: Line) -> Seq<TokView> {
    seq![TokView::Word(l.name)] + words(l.args) + seq![TokView::Semi]
}

/// The tokens of directives, one after the other.
pub open spec fn lines_tokens(ls: Seq<Line>) -> Seq<TokView>
    decreases ls.len(),
{
    if ls.len() == 0 {
        seq![]
    } else {
        line_tokens(ls[0]) + lines_tokens(ls.skip(1))
    }
}

/// The tokens of what stands in a server block.
pub open spec fn item_tokens(item: Item) -> Seq<TokView> {
    match item {
        Item::Directive(l) => line_tokens(l),
        Item::Route { path, lines } => seq![
            TokView::Word("route"@),
            TokView::Word(path),
            TokView::Open,
        ] + lines_tokens(lines) + seq![TokView::Close],
    }
}

/// The tokens of all that stands in a server block.
pub open spec fn items_tokens(items: Seq<Item>) -> Seq<TokView>
    decreases items.len(),
{
    if items.len() == 0 {
        seq![]
    } else {
        item_tokens(items[0]) + items_tokens(items.skip(1))
    }
}

/// Whether the tokens from `pos` on are `kinds`, on whatever lines.
pub open spec fn stands_at(toks: Seq<LexedView>, pos: int, kinds: Seq<TokView>) -> bool {
    &&& 0 <= pos
    &&& pos + kinds.len() <= toks.len()
    &&& forall|i: int| 0 <= i < kinds.len() ==> (#[trigger] toks[pos + i]).tok == kinds[i]
}

/// A route after the directives of its block, each in turn.
pub open spec fn routed(route: RouteView, ls: Seq<Line>) -> RouteView
    decreases ls.len(),
{
    if ls.len() == 0 {
        route
    } else {
        routed(route_after(route, ls[0].name, ls[0].args, 0).0, ls.skip(1))
    }
}

/// Whether no directive of a route is complained about.
pub open spec fn route_is_quiet(route: RouteView, ls: Seq<Line>) -> bool
    decreases ls.len(),
{
    ls.len() > 0 ==> {
        let after = route_after(route, ls[0].name, ls[0].args, 0);
        after.1.len() == 0 && route_is_quiet(after.0, ls.skip(1))
    }
}

/// A server after what stands in its block, each in turn.
pub open spec fn served(server: ServerView, items: Seq<Item>) -> ServerView
    decreases items.len(),
{
    if items.len() == 0 {
        server
    } else {
        served(
            match items[0] {
                Item::Directive(l) => server_after(server, l.name, l.args, 0).0,
                Item::Route { path, lines } => ServerView {
                    routes: server.routes.push(routed(default_route(path), lines)),
                    ..server
                },
            },
            items.skip(1),
        )
    }
}

/// Whether nothing in a server block is complained about.
pub open spec fn server_is_quiet(server: ServerView, items: Seq<Item>) -> bool
    decreases items.len(),
{
    items.len() > 0 ==> match items[0] {
        Item::Directive(l) => {
            let after = server_after(server, l.name, l.args, 0);
            after.1.len() == 0 && server_is_quiet(after.0, items.skip(1))
        },
        Item::Route { path, lines } => route_is_quiet(default_route(path), lines)
            && server_is_quiet(
            ServerView {
                routes: server.routes.push(routed(default_route(path), lines)),
                ..server
            },
            items.skip(1),
        ),
    }
}

/// Whether no directive of a server block has the name of a route.
pub open spec fn names_no_route(items: Seq<Item>) -> bool {
    forall|i: int|
        0 <= i < items.len() ==> ((#[trigger] items[i]) matches Item::Directive(l) ==> l.name
            != "route"@)
}

proof fn lemma_stands(toks: Seq<LexedView>, pos: int, a: Seq<TokView>, b: Seq<TokView>)
    requires
        stands_at(toks, pos, a + b),
    ensures
        stands_at(toks, pos, a),
        stands_at(toks, pos + a.len(), b),
{
    assert forall|i: int| 0 <= i < a.len() implies (#[trigger] toks[pos + i]).tok == a[i] by {
        assert(toks[pos + i].tok == (a + b)[i]);
    }
    assert forall|i: int| 0 <= i < b.len() implies (#[trigger] toks[pos + a.len() + i]).tok
        == b[i] by {
        let j = a.len() + i;
        assert(toks[pos + j].tok == (a + b)[j]);
    }
}

proof fn lemma_words_end_is(toks: Seq<LexedView>, pos: int, end: int)
    requires
        0 <= pos <= end <= toks.len(),
        forall|i: int| pos <= i < end ==> (#[trigger] toks[i]).tok is Word,
        end < toks.len() ==> !(toks[end].tok is Word),
    ensures
        words_end(toks, pos) == end,
    decreases end - pos,
{
    if pos < end {
        lemma_words_end_is(toks, pos + 1, end);
    }
}

/// A directive is its name, the words behind it, and a semicolon.
pub proof fn law_directives_are_read(toks: Seq<LexedView>, pos: int, l: Line)
    requires
        stands_at(toks, pos, line_tokens(l)),
    ensures
        ({
            let d = directive_at(toks, pos);
            &&& d.value.name == l.name
            &&& d.value.args == l.args
            &&& d.value.line == toks[pos].line
            &&& d.next == pos + l.args.len() + 2
            &&& d.errors.len() == 0
        }),
{
    let all = line_tokens(l);
    let n = l.args.len() as int;
    assert(toks[pos + 0].tok == all[0]);
    let end = pos + 1 + n;
    assert forall|i: int| pos + 1 <= i < end implies (#[trigger] toks[i]).tok is Word by {
        let k = i - pos;
        assert(toks[pos + k].tok == all[k]);
        assert(all[k] == TokView::Word(l.args[k - 1]));
    }
    assert(toks[pos + (n + 1)].tok == all[n + 1]);
    lemma_words_end_is(toks, pos + 1, end);
    let got = words_between(toks, pos + 1, end);
    assert forall|i: int| 0 <= i < n implies got[i] == l.args[i] by {
        let k = i + 1;
        assert(toks[pos + k].tok == all[k]);
        assert(all[k] == TokView::Word(l.args[i]));
    }
    assert(got =~= l.args);
}

/// The directives of a route take effect one after the other, up to the closing
/// brace; where none of them is complained about nothing is said.
pub proof fn law_routes_are_read(
    toks: Seq<LexedView>,
    pos: int,
    route: RouteView,
    ls: Seq<Line>,
)
    requires
        stands_at(toks, pos, lines_tokens(ls) + seq![TokView::Close]),
    ensures
        ({
            let r = route_body(toks, pos, route);
            &&& r.value == routed(route, ls)
            &&& r.next == pos + lines_tokens(ls).len() + 1
            &&& route_is_quiet(route, ls) ==> r.errors.len() == 0
        }),
    decreases ls.len(),
{
    let all = lines_tokens(ls) + seq![TokView::Close];
    if ls.len() == 0 {
        assert(toks[pos + 0].tok == all[0]);
    } else {
        let l = ls[0];
        let rest = ls.skip(1);
        let more = lines_tokens(rest) + seq![TokView::Close];
        assert(all =~= line_tokens(l) + more);
        lemma_stands(toks, pos, line_tokens(l), more);
        law_directives_are_read(toks, pos, l);
        assert(toks[pos + 0].tok == line_tokens(l)[0]);
        let d = directive_at(toks, pos);
        let after = route_after(route, l.name, l.args, d.value.line);
        assert(after.0 == route_after(route, l.name, l.args, 0).0);
        assert(after.1.len() == route_after(route, l.name, l.args, 0).1.len());
        law_routes_are_read(toks, d.next, after.0, rest);
    }
}

/// What stands in a server block takes effect one after the other, up to the
/// closing brace: directives change the server, and each route is one more.
pub proof fn law_server_bodies_are_read(
    toks: Seq<LexedView>,
    pos: int,
    server: ServerView,
    items: Seq<Item>,
)
    requires
        stands_at(toks, pos, items_tokens(items) + seq![TokView::Close]),
        names_no_route(items),
    ensures
        ({
            let r = server_body(toks, pos, server);
            &&& r.value == served(server, items)
            &&& r.next == pos + items_tokens(items).len() + 1
            &&& server_is_quiet(server, items) ==> r.errors.len() == 0
        }),
    decreases items.len(),
{
    let all = items_tokens(items) + seq![TokView::Close];
    if items.len() == 0 {
        assert(toks[pos + 0].tok == all[0]);
    } else {
        let rest = items.skip(1);
        let first = item_tokens(items[0]);
        let more = items_tokens(rest) + seq![TokView::Close];
        assert(all =~= first + more);
        lemma_stands(toks, pos, first, more);
        assert(names_no_route(rest)) by {
            assert forall|i: int| 0 <= i < rest.len() implies ((
            #[trigger] rest[i]) matches Item::Directive(l) ==> l.name != "route"@) by {
                assert(rest[i] == items[i + 1]);
            }
        }
        match items[0] {
            Item::Directive(l) => {
                law_directives_are_read(toks, pos, l);
                assert(toks[pos + 0].tok == first[0]);
                let d = directive_at(toks, pos);
                let after = server_after(server, l.name, l.args, d.value.line);
                assert(after.0 == server_after(server, l.name, l.args, 0).0);
                lemma_quiet_on_every_line(server, l, d.value.line);
                law_server_bodies_are_read(toks, d.next, after.0, rest);
            },
            Item::Route { path, lines } => {
                let head = seq![TokView::Word("route"@), TokView::Word(path), TokView::Open];
                let body = lines_tokens(lines) + seq![TokView::Close];
                assert(first =~= head + body);
                lemma_stands(toks, pos, head, body);
                assert(toks[pos + 0].tok == head[0]);
                assert(toks[pos + 1].tok == head[1]);
                assert(toks[pos + 2].tok == head[2]);
                law_routes_are_read(toks, pos + 3, default_route(path), lines);
                let r = route_at(toks, pos);
                let with = ServerView {
                    routes: server.routes.push(routed(default_route(path), lines)),
                    ..server
                };
                law_server_bodies_are_read(toks, r.next, with, rest);
            },
        }
    }
}

/// Whether a directive is complained about does not depend on its line.
proof fn lemma_quiet_on_every_line(server: ServerView, l: Line, line: int)
    ensures
        server_after(server, l.name, l.args, line).1.len() == server_after(
            server,
            l.name,
            l.args,
            0,
        ).1.len(),
{
    lemma_u16_errors_len(l.args, "invalid port '"@, line);
    lemma_u16_errors_len(l.args.drop_last(), "invalid error code '"@, line);
}

proof fn lemma_u16_errors_len(args: Seq<Seq<char>>, what: Seq<char>, line: int)
    ensures
        super::directive::u16_errors(args, what, line).len() == super::directive::u16_errors(
            args,
            what,
            0,
        ).len(),
    decreases args.len(),
{
    if args.len() > 0 {
        lemma_u16_errors_len(args.drop_last(), what, line);
    }
}

/// A server block is the word `server`, a brace, what stands in it, and a brace.
/// It is kept if it has a port; the blocks behind it are read on their own.
pub proof fn law_servers_are_read(toks: Seq<LexedView>, pos: int, items: Seq<Item>)
    requires
        stands_at(
            toks,
            pos,
            seq![TokView::Word("server"@), TokView::Open] + items_tokens(items) + seq![
                TokView::Close,
            ],
        ),
        names_no_route(items),
    ensures
        ({
            let server = served(default_server(), items);
            let r = servers_from(toks, pos);
            let rest = servers_from(toks, pos + items_tokens(items).len() + 3);
            &&& server.ports.len() > 0 ==> r.value == seq![server] + rest.value
            &&& server.ports.len() == 0 ==> r.value == rest.value
            &&& server.ports.len() > 0 && server_is_quiet(default_server(), items) ==> r.errors
                == rest.errors
            &&& server.ports.len() == 0 && server_is_quiet(default_server(), items) ==> r.errors
                == seq![
                "line "@ + decimal(final_line(toks) as nat) + ": "@
                    + "'server' block has no 'port'"@,
            ] + rest.errors
        }),
{
    let head = seq![TokView::Word("server"@), TokView::Open];
    let body = items_tokens(items) + seq![TokView::Close];
    assert(head + items_tokens(items) + seq![TokView::Close] =~= head + body);
    lemma_stands(toks, pos, head, body);
    assert(toks[pos + 0].tok == head[0]);
    assert(toks[pos + 1].tok == head[1]);
    law_server_bodies_are_read(toks, pos + 2, default_server(), items);
    let s = server_at(toks, pos + 1);
    let rest = servers_from(toks, s.next);
    let r = servers_from(toks, pos);
    assert(r.errors == s.errors + rest.errors);
    if server_is_quiet(default_server(), items) {
        let said = server_body(toks, pos + 2, default_server()).errors;
        assert(said =~= seq![]);
        assert(Seq::<Seq<char>>::empty() + rest.errors =~= rest.errors);
        let msg = super::directive::at_line(
            final_line(toks),
            "'server' block has no 'port'"@,
        );
        assert(said.push(msg) =~= seq![msg]);
    }
}

/// The names of tokens in messages.
pub proof fn law_tokens_are_named(w: Seq<char>)
    ensures
        described(TokView::Word(w)) == "'"@ + w + "'"@,
        described(TokView::Open) == "'{'"@,
        described(TokView::Close) == "'}'"@,
        described(TokView::Semi) == "';'"@,
{
}

/// A directive that does not end in a semicolon is told on its line, keeps its
/// arguments, and ends before the token that is in the way.
pub proof fn law_missing_semicolons_are_told(toks: Seq<LexedView>, pos: int, l: Line)
    requires
        stands_at(toks, pos, seq![TokView::Word(l.name)] + words(l.args)),
        pos + l.args.len() + 1 < toks.len() ==> !(toks[pos + l.args.len() + 1].tok is Word)
            && !(toks[pos + l.args.len() + 1].tok is Semi),
    ensures
        ({
            let d = directive_at(toks, pos);
            &&& d.value.name == l.name
            &&& d.value.args == l.args
            &&& d.next == pos + l.args.len() + 1
            &&& d.errors == seq![
                "line "@ + decimal(toks[pos].line as nat) + ": "@ + ("missing ';' after '"@ + l.name
                    + "' directive"@),
            ]
        }),
{
    let all = seq![TokView::Word(l.name)] + words(l.args);
    let n = l.args.len() as int;
    let end = pos + 1 + n;
    assert(toks[pos + 0].tok == all[0]);
    assert forall|i: int| pos + 1 <= i < end implies (#[trigger] toks[i]).tok is Word by {
        let k = i - pos;
        assert(toks[pos + k].tok == all[k]);
        assert(all[k] == TokView::Word(l.args[k - 1]));
    }
    lemma_words_end_is(toks, pos + 1, end);
    let got = words_between(toks, pos + 1, end);
    assert forall|i: int| 0 <= i < n implies got[i] == l.args[i] by {
        let k = i + 1;
        assert(toks[pos + k].tok == all[k]);
        assert(all[k] == TokView::Word(l.args[i]));
    }
    assert(got =~= l.args);
}

/// A token that has no place in a block is told on its line and passed over.
pub proof fn law_stray_tokens_are_told(
    toks: Seq<LexedView>,
    pos: int,
    route: RouteView,
    server: ServerView,
)
    requires
        0 <= pos < toks.len(),
    ensures
        ({
            let stray = toks[pos].tok is Open || toks[pos].tok is Semi;
            let line = "line "@ + decimal(toks[pos].line as nat) + ": "@;
            &&& stray ==> route_body(toks, pos, route).value == route_body(
                toks,
                pos + 1,
                route,
            ).value && route_body(toks, pos, route).errors == seq![
                line + ("unexpected "@ + described(toks[pos].tok) + " in 'route' block"@),
            ] + route_body(toks, pos + 1, route).errors
            &&& stray ==> server_body(toks, pos, server).value == server_body(
                toks,
                pos + 1,
                server,
            ).value && server_body(toks, pos, server).errors == seq![
                line + ("unexpected "@ + described(toks[pos].tok) + " in 'server' block"@),
            ] + server_body(toks, pos + 1, server).errors
            &&& toks[pos].tok != TokView::Word("server"@) ==> servers_from(toks, pos).value
                == servers_from(toks, pos + 1).value && servers_from(toks, pos).errors == seq![
                line + ("expected 'server', found "@ + described(toks[pos].tok)),
            ] + servers_from(toks, pos + 1).errors
        }),
{
}

/// A block that the file ends in is told, and what it said so far counts; a
/// file with no more tokens has no more servers.
pub proof fn law_unfinished_blocks_are_told(
    toks: Seq<LexedView>,
    route: RouteView,
    server: ServerView,
)
    ensures
        ({
            let n = toks.len() as int;
            let line = "line "@ + decimal(
                (if n == 0 {
                    0
                } else {
                    toks.last().line
                }) as nat,
            ) + ": "@;
            &&& route_body(toks, n, route).value == route
            &&& route_body(toks, n, route).errors == seq![
                line + "unterminated 'route' block (missing '}')"@,
            ]
            &&& server_body(toks, n, server).value == server
            &&& server_body(toks, n, server).errors == seq![
                line + "unterminated 'server' block (missing '}')"@,
            ]
            &&& servers_from(toks, n).value.len() == 0
            &&& servers_from(toks, n).errors.len() == 0
        }),
{
}

/// A block has to be opened by a brace; anything else in its place is told, and
/// the block is none.
pub proof fn law_blocks_are_opened(toks: Seq<LexedView>, pos: int, ctx: Seq<char>)
    requires
        0 <= pos <= toks.len(),
    ensures
        ({
            let open = opening_at(toks, pos, ctx);
            &&& pos < toks.len() && toks[pos].tok is Open ==> open.value && open.next == pos + 1
                && open.errors.len() == 0
            &&& pos < toks.len() && !(toks[pos].tok is Open) ==> !open.value && open.next == pos
                && open.errors == seq![
                "line "@ + decimal(toks[pos].line as nat) + ": "@ + ("expected '{' after '"@ + ctx
                    + "', found "@ + described(toks[pos].tok)),
            ]
            &&& pos == toks.len() ==> !open.value && open.next == pos && open.errors == seq![
                "line "@ + decimal(final_line(toks) as nat) + ": "@ + ("expected '{' after '"@ + ctx
                    + "'"@),
            ]
            &&& !open.value && ctx == "server"@ ==> server_at(toks, pos).value is None
                && server_at(toks, pos).next == open.next && server_at(toks, pos).errors
                == open.errors
        }),
{
}

/// A route has to have a path and a block; without either it is none, and that
/// is told.
pub proof fn law_routes_have_a_path(toks: Seq<LexedView>, pos: int)
    requires
        0 <= pos,
        pos + 1 < toks.len(),
    ensures
        !(toks[pos + 1].tok is Word) ==> route_at(toks, pos).value is None && route_at(
            toks,
            pos,
        ).next == pos + 2 && route_at(toks, pos).errors == seq![
            "line "@ + decimal(toks[pos].line as nat) + ": "@ + "'route' requires a path"@,
        ],
        toks[pos + 1].tok is Word && !opening_at(toks, pos + 2, "route"@).value ==> route_at(
            toks,
            pos,
        ).value is None && route_at(toks, pos).errors == opening_at(
            toks,
            pos + 2,
            "route"@,
        ).errors && route_at(toks, pos).next == opening_at(toks, pos + 2, "route"@).next,
{
}

/// The bindings of several ports are those of each port, and each port is bound
/// by every name.
proof fn lemma_ports_bindings(host: Seq<char>, ports: Seq<u16>, names: Seq<Seq<char>>, b: Binding)
    ensures
        ports_bindings(host, ports, names).contains(b) <==> b.host == host && ports.contains(b.port)
            && names.contains(b.name),
    decreases ports.len(),
{
    let all = ports_bindings(host, ports, names);
    if ports.len() > 0 {
        let front = ports.drop_last();
        let last = port_bindings(host, ports.last(), names);
        lemma_ports_bindings(host, front, names, b);
        assert(all == ports_bindings(host, front, names) + last);
        if all.contains(b) {
            let k = choose|k: int| 0 <= k < all.len() && all[k] == b;
            let n = ports_bindings(host, front, names).len();
            if k < n {
                assert(ports_bindings(host, front, names)[k] == b);
                let m = choose|m: int| 0 <= m < front.len() && front[m] == b.port;
                assert(ports[m] == b.port);
            } else {
                assert(last[k - n] == b);
                assert(names[k - n] == b.name);
                assert(ports[ports.len() - 1] == b.port);
            }
        }
        if b.host == host && ports.contains(b.port) && names.contains(b.name) {
            if b.port == ports.last() {
                let m = choose|m: int| 0 <= m < names.len() && names[m] == b.name;
                assert(last[m] == b);
                assert(all[ports_bindings(host, front, names).len() + m] == b);
            } else {
                let m = choose|m: int| 0 <= m < ports.len() && ports[m] == b.port;
                assert(front[m] == b.port);
                let k = choose|k: int|
                    0 <= k < ports_bindings(host, front, names).len() && ports_bindings(
                        host,
                        front,
                        names,
                    )[k] == b;
                assert(all[k] == b);
            }
        }
    }
}

/// A server is bound under each of its ports by each of its names, or by no
/// name if it has none, at the address as it is written, and nowhere else.
pub proof fn law_bindings_of_servers(s: ServerView, b: Binding)
    ensures
        s.server_names.len() > 0 ==> (bindings_of(s).contains(b) <==> b.host == s.host_str
            && s.ports.contains(b.port) && s.server_names.contains(b.name)),
        s.server_names.len() == 0 ==> (bindings_of(s).contains(b) <==> b.host == s.host_str
            && s.ports.contains(b.port) && b.name.len() == 0),
{
    lemma_ports_bindings(s.host_str, s.ports, bound_names(s), b);
    if s.server_names.len() == 0 {
        let names = bound_names(s);
        assert(names[0] == Seq::<char>::empty());
        if b.name.len() == 0 {
            assert(b.name =~= names[0]);
        }
    }
}

/// One more port of a server is one more binding for each name, behind those of
/// the ports before it.
pub proof fn law_bindings_go_port_by_port(s: ServerView, port: u16)
    ensures
        ({
            let more = ServerView { ports: s.ports.push(port), ..s };
            let n = if s.server_names.len() == 0 {
                1
            } else {
                s.server_names.len() as int
            };
            &&& bindings_of(more).len() == bindings_of(s).len() + n
            &&& bindings_of(more).take(bindings_of(s).len() as int) == bindings_of(s)
        }),
{
    assert(s.ports.push(port).drop_last() =~= s.ports);
    let more = ServerView { ports: s.ports.push(port), ..s };
    assert(bindings_of(more).take(bindings_of(s).len() as int) =~= bindings_of(s));
}

/// A binding that is taken already is told, once for each time that it is
/// claimed again.
pub proof fn law_taken_bindings_are_told(keys: Seq<Binding>, key: Binding, taken: Seq<Binding>)
    ensures
        duplicates(seq![], taken).len() == 0,
        taken.contains(key) || keys.contains(key) ==> duplicates(keys.push(key), taken)
            == duplicates(keys, taken).push(duplicate_message(key)),
        !taken.contains(key) && !keys.contains(key) ==> duplicates(keys.push(key), taken)
            == duplicates(keys, taken),
        key.name.len() == 0 ==> duplicate_message(key) == "duplicate binding "@ + key.host + ":"@
            + decimal(key.port as nat) + " for server_name "@ + "(default)"@,
        key.name.len() > 0 ==> duplicate_message(key) == "duplicate binding "@ + key.host + ":"@
            + decimal(key.port as nat) + " for server_name "@ + key.name,
{
    assert(keys.push(key).drop_last() =~= keys);
}

/// A `route` at the very end of a file has no block.
pub proof fn law_routes_at_the_end_have_no_block(toks: Seq<LexedView>)
    requires
        toks.len() > 0,
        toks.last().tok is Word,
    ensures
        ({
            let pos = toks.len() - 1;
            let r = route_at(toks, pos);
            &&& r.value is None
            &&& r.next == toks.len()
            &&& r.errors == seq![
                "line "@ + decimal(toks.last().line as nat) + ": "@ + ("expected '{' after '"@
                    + "route"@ + "'"@),
            ]
        }),
{
}

/// The messages about bindings are told server by server, each held against all
/// servers before it.
pub proof fn law_duplicates_are_told_in_order(servers: Seq<ServerView>, s: ServerView)
    ensures
        all_duplicates(seq![]).len() == 0,
        all_duplicates(servers.push(s)) == all_duplicates(servers) + duplicates(
            bindings_of(s),
            all_bindings(servers),
        ),
        all_bindings(seq![]).len() == 0,
        all_bindings(servers.push(s)) == all_bindings(servers) + bindings_of(s),
        duplicates(bindings_of(s), all_bindings(servers)).len() == 0 ==> without_duplicates(
            servers.push(s),
        ) == without_duplicates(servers).push(s),
        duplicates(bindings_of(s), all_bindings(servers)).len() > 0 ==> without_duplicates(
            servers.push(s),
        ) == without_duplicates(servers),
{
    assert(servers.push(s).drop_last() =~= servers);
}

/// A file is read from its first line on. Its messages are those about its
/// blocks, then those about bindings; its servers are those of its blocks, but
/// for the ones with a binding that is taken.
pub proof fn law_files_are_read_from_the_start(input: Seq<char>)
    ensures
        ({
            let blocks = servers_from(lex(input, 1), 0);
            &&& servers_in(input) == without_duplicates(blocks.value)
            &&& errors_in(input) == blocks.errors + all_duplicates(blocks.value)
        }),
{
}

} // verus!
