//! What each directive is for.

use super::directive::{at_line, route_after, server_after, u16_errors, u16s_in, with_pages};
use super::{default_route, default_server, RouteView, ServerView};
use crate::numbers::{decimal, number, u16_in};
use crate::number_laws::{law_decimals_are_read, lemma_u16_in};
use crate::text::{all_ascii, capitals, upper_char, uppercase};
use super::value::{address_in, size_in};
use vstd::prelude::*;

verus! {

/// The names of the directives of a server block are told apart.
pub proof fn lemma_server_names_differ()
    ensures
        "host"@ != "port"@ && "host"@ != "listen"@ && "host"@ != "server_name"@,
        "host"@ != "error_page"@ && "host"@ != "client_max_body_size"@,
        "port"@ != "server_name"@ && "port"@ != "error_page"@ && "port"@
            != "client_max_body_size"@,
        "listen"@ != "server_name"@ && "listen"@ != "error_page"@ && "listen"@
            != "client_max_body_size"@,
        "server_name"@ != "error_page"@ && "server_name"@ != "client_max_body_size"@,
        "error_page"@ != "client_max_body_size"@,
{
    reveal_strlit("host");
    reveal_strlit("port");
    reveal_strlit("listen");
    reveal_strlit("server_name");
    reveal_strlit("error_page");
    reveal_strlit("client_max_body_size");
    assert("host"@[0] == 'h' && "port"@[0] == 'p');
    assert("host"@.len() == 4 && "port"@.len() == 4 && "listen"@.len() == 6);
    assert("server_name"@.len() == 11 && "error_page"@.len() == 10);
    assert("client_max_body_size"@.len() == 20);
}

/// The names of the directives of a route block are told apart.
pub proof fn lemma_route_names_differ()
    ensures
        "methods"@.len() == 7,
        "root"@.len() == 4,
        "index"@.len() == 5,
        "autoindex"@.len() == 9,
        "cgi"@.len() == 3,
        "redirect"@.len() == 8,
        "on"@.len() == 2,
        "off"@.len() == 3,
{
    reveal_strlit("methods");
    reveal_strlit("root");
    reveal_strlit("index");
    reveal_strlit("autoindex");
    reveal_strlit("cgi");
    reveal_strlit("redirect");
    reveal_strlit("on");
    reveal_strlit("off");
}

/// A message starts with the number of its line, in decimal.
pub proof fn law_messages_name_their_line(line: nat, msg: Seq<char>)
    ensures
        at_line(line as int, msg) == "line "@ + decimal(line) + ": "@ + msg,
        number(decimal(line), 10) == line,
{
    law_decimals_are_read(line);
}

/// `autoindex` turns listings on and off, says nothing, and leaves the rest of
/// the route as it is; no other word does either.
pub proof fn law_autoindex_turns_listings_on_and_off(
    route: RouteView,
    more: Seq<Seq<char>>,
    word: Seq<char>,
    line: int,
)
    ensures
        route_after(route, "autoindex"@, seq!["on"@] + more, line) == (
            RouteView { autoindex: true, ..route },
            Seq::<Seq<char>>::empty(),
        ),
        route_after(route, "autoindex"@, seq!["off"@] + more, line) == (
            RouteView { autoindex: false, ..route },
            Seq::<Seq<char>>::empty(),
        ),
        word != "on"@ && word != "off"@ ==> route_after(
            route,
            "autoindex"@,
            seq![word] + more,
            line,
        ) == (route, seq!["line "@ + decimal(line as nat) + ": "@
            + "'autoindex' must be 'on' or 'off'"@]),
        route_after(route, "autoindex"@, seq![], line) == (
            route,
            seq!["line "@ + decimal(line as nat) + ": "@ + "'autoindex' must be 'on' or 'off'"@],
        ),
{
    lemma_route_names_differ();
    assert((seq!["on"@] + more)[0] == "on"@);
    assert((seq!["off"@] + more)[0] == "off"@);
    assert((seq![word] + more)[0] == word);
    assert("on"@ != "off"@);
}

/// `root` and `index` set what they are named after to their first argument and
/// leave the rest of the route as it is. Without an argument they say so.
pub proof fn law_root_and_index_are_set(
    route: RouteView,
    value: Seq<char>,
    more: Seq<Seq<char>>,
    line: int,
)
    ensures
        route_after(route, "root"@, seq![value] + more, line) == (
            RouteView { root: Some(value), ..route },
            Seq::<Seq<char>>::empty(),
        ),
        route_after(route, "index"@, seq![value] + more, line) == (
            RouteView { index: Some(value), ..route },
            Seq::<Seq<char>>::empty(),
        ),
        route_after(route, "root"@, seq![], line) == (
            route,
            seq!["line "@ + decimal(line as nat) + ": "@ + "'root' requires a path"@],
        ),
        route_after(route, "index"@, seq![], line) == (
            route,
            seq!["line "@ + decimal(line as nat) + ": "@ + "'index' requires a filename"@],
        ),
{
    lemma_route_names_differ();
    assert((seq![value] + more)[0] == value);
}

/// `methods` puts its arguments, in capitals, in the place of the methods that
/// the route had.
pub proof fn law_methods_are_replaced(route: RouteView, args: Seq<Seq<char>>, line: int)
    ensures
        ({
            let (after, said) = route_after(route, "methods"@, args, line);
            &&& after == RouteView { methods: after.methods, ..route }
            &&& after.methods.len() == args.len()
            &&& forall|i: int, k: int|
                0 <= i < args.len() && all_ascii(args[i]) && 0 <= k < args[i].len()
                    ==> after.methods[i].len() == args[i].len() && #[trigger] after.methods[i][k]
                    == upper_char(args[i][k])
            &&& forall|i: int|
                0 <= i < args.len() && !all_ascii(args[i]) ==> #[trigger] after.methods[i]
                    == uppercase(args[i])
            &&& args.len() > 0 ==> said == Seq::<Seq<char>>::empty()
            &&& args.len() == 0 ==> said == seq![
                "line "@ + decimal(line as nat) + ": "@
                    + "'methods' requires at least one method"@,
            ]
        }),
{
    lemma_route_names_differ();
    let (after, said) = route_after(route, "methods"@, args, line);
    assert forall|i: int, k: int|
        0 <= i < args.len() && all_ascii(args[i]) && 0 <= k
            < args[i].len() implies after.methods[i].len() == args[i].len()
        && #[trigger] after.methods[i][k] == upper_char(args[i][k]) by {
        assert(after.methods[i] == capitals(args[i]));
    }
    assert forall|i: int| 0 <= i < args.len() && !all_ascii(args[i]) implies
        #[trigger] after.methods[i] == uppercase(args[i]) by {
        assert(after.methods[i] == capitals(args[i]));
    }
}

/// `cgi` maps an extension to an interpreter; the other extensions keep theirs,
/// and the rest of the route stays as it is.
pub proof fn law_cgi_adds_an_interpreter(
    route: RouteView,
    ext: Seq<char>,
    interpreter: Seq<char>,
    more: Seq<Seq<char>>,
    args: Seq<Seq<char>>,
    line: int,
)
    ensures
        ({
            let (after, said) = route_after(
                route,
                "cgi"@,
                seq![ext, interpreter] + more,
                line,
            );
            &&& after == RouteView { cgi: after.cgi, ..route }
            &&& after.cgi.get(ext) == Some(interpreter)
            &&& forall|other: Seq<char>|
                other != ext ==> #[trigger] after.cgi.get(other) == route.cgi.get(other)
            &&& said == Seq::<Seq<char>>::empty()
        }),
        args.len() < 2 ==> route_after(route, "cgi"@, args, line) == (
            route,
            seq![
                "line "@ + decimal(line as nat) + ": "@
                    + "'cgi' requires an extension and an interpreter"@,
            ],
        ),
{
    lemma_route_names_differ();
    let both = seq![ext, interpreter] + more;
    assert(both[0] == ext && both[1] == interpreter);
}

/// `redirect` sets the status and the target of a redirection. A status that is
/// no number is told, and nothing is set.
pub proof fn law_redirects_are_set(
    route: RouteView,
    code: u16,
    word: Seq<char>,
    target: Seq<char>,
    more: Seq<Seq<char>>,
    args: Seq<Seq<char>>,
    line: int,
)
    ensures
        route_after(route, "redirect"@, seq![decimal(code as nat), target] + more, line) == (
            RouteView { redirect: Some((code, target)), ..route },
            Seq::<Seq<char>>::empty(),
        ),
        u16_in(word) is None ==> route_after(
            route,
            "redirect"@,
            seq![word, target] + more,
            line,
        ) == (route, seq![
            "line "@ + decimal(line as nat) + ": "@ + ("invalid redirect code '"@ + word + "'"@),
        ]),
        args.len() < 2 ==> route_after(route, "redirect"@, args, line) == (
            route,
            seq!["line "@ + decimal(line as nat) + ": "@ + "'redirect' requires a code and a URL"@],
        ),
{
    lemma_route_names_differ();
    lemma_u16_in(code);
    let a = seq![decimal(code as nat), target] + more;
    assert(a[0] == decimal(code as nat) && a[1] == target);
    let b = seq![word, target] + more;
    assert(b[0] == word && b[1] == target);
}

/// A directive that a block does not know is told by its name and changes
/// nothing.
pub proof fn law_unknown_directives_are_told(
    route: RouteView,
    server: ServerView,
    name: Seq<char>,
    args: Seq<Seq<char>>,
    line: int,
)
    ensures
        name != "methods"@ && name != "root"@ && name != "index"@ && name != "autoindex"@ && name
            != "cgi"@ && name != "redirect"@ ==> route_after(route, name, args, line) == (
            route,
            seq![
                "line "@ + decimal(line as nat) + ": "@ + ("unknown route directive '"@ + name
                    + "'"@),
            ],
        ),
        name != "host"@ && name != "port"@ && name != "listen"@ && name != "server_name"@ && name
            != "error_page"@ && name != "client_max_body_size"@ ==> server_after(
            server,
            name,
            args,
            line,
        ) == (server, seq![
            "line "@ + decimal(line as nat) + ": "@ + ("unknown directive '"@ + name + "'"@),
        ]),
{
}

/// `host` takes an address and keeps it as it was written too. Anything else is
/// told and changes nothing.
pub proof fn law_hosts_are_set(
    server: ServerView,
    word: Seq<char>,
    more: Seq<Seq<char>>,
    line: int,
)
    ensures
        address_in(word) matches Some(host) ==> server_after(
            server,
            "host"@,
            seq![word] + more,
            line,
        ) == (ServerView { host, host_str: word, ..server }, Seq::<Seq<char>>::empty()),
        address_in(word) is None ==> server_after(server, "host"@, seq![word] + more, line) == (
            server,
            seq!["line "@ + decimal(line as nat) + ": "@ + ("invalid host '"@ + word + "'"@)],
        ),
        server_after(server, "host"@, seq![], line) == (
            server,
            seq!["line "@ + decimal(line as nat) + ": "@ + "'host' requires an address"@],
        ),
{
    assert((seq![word] + more)[0] == word);
}

/// The numbers in decimal.
pub open spec fn written_numbers(ns: Seq<u16>) -> Seq<Seq<char>> {
    ns.map_values(|n: u16| decimal(n as nat))
}

proof fn lemma_numbers_are_read(ns: Seq<u16>, what: Seq<char>, line: int)
    ensures
        u16s_in(written_numbers(ns)) == ns,
        u16_errors(written_numbers(ns), what, line) == Seq::<Seq<char>>::empty(),
    decreases ns.len(),
{
    if ns.len() > 0 {
        lemma_numbers_are_read(ns.drop_last(), what, line);
        assert(written_numbers(ns).drop_last() =~= written_numbers(ns.drop_last()));
        lemma_u16_in(ns.last());
        assert(written_numbers(ns).last() == decimal(ns.last() as nat));
        assert(ns.drop_last().push(ns.last()) =~= ns);
    }
}

proof fn lemma_numbers_split(a: Seq<Seq<char>>, b: Seq<Seq<char>>, what: Seq<char>, line: int)
    ensures
        u16s_in(a + b) == u16s_in(a) + u16s_in(b),
        u16_errors(a + b, what, line) == u16_errors(a, what, line) + u16_errors(b, what, line),
    decreases b.len(),
{
    if b.len() == 0 {
        assert(a + b =~= a);
        assert(u16s_in(a) + u16s_in(b) =~= u16s_in(a));
        assert(u16_errors(a, what, line) + u16_errors(b, what, line) =~= u16_errors(a, what, line));
    } else {
        lemma_numbers_split(a, b.drop_last(), what, line);
        assert((a + b).drop_last() =~= a + b.drop_last());
        assert((a + b).last() == b.last());
        assert(u16s_in(a + b) =~= u16s_in(a) + u16s_in(b));
        assert(u16_errors(a + b, what, line) =~= u16_errors(a, what, line) + u16_errors(
            b,
            what,
            line,
        ));
    }
}

/// `port`, which may be written `listen`, adds ports to those that the server
/// has, in the order in which they are given. What is no port is told, each by
/// itself, and the others count.
pub proof fn law_ports_are_added(
    server: ServerView,
    front: Seq<u16>,
    word: Seq<char>,
    back: Seq<u16>,
    line: int,
)
    ensures
        server_after(server, "port"@, written_numbers(front), line).0 == (ServerView {
            ports: server.ports + front,
            ..server
        }),
        front.len() > 0 ==> server_after(server, "port"@, written_numbers(front), line).1
            == Seq::<Seq<char>>::empty(),
        server_after(server, "port"@, seq![], line).1 == seq![
            "line "@ + decimal(line as nat) + ": "@ + "'port' requires at least one value"@,
        ],
        u16_in(word) is None ==> server_after(
            server,
            "port"@,
            written_numbers(front) + seq![word] + written_numbers(back),
            line,
        ) == (ServerView { ports: server.ports + front + back, ..server }, seq![
            "line "@ + decimal(line as nat) + ": "@ + ("invalid port '"@ + word + "'"@),
        ]),
{
    let what = "invalid port '"@;
    lemma_numbers_are_read(front, what, line);
    lemma_numbers_are_read(back, what, line);
    let a = written_numbers(front);
    let b = written_numbers(back);
    lemma_server_names_differ();
    lemma_numbers_split(a, seq![word], what, line);
    lemma_numbers_split(a + seq![word], b, what, line);
    let one = seq![word];
    assert(one.drop_last() =~= seq![]);
    assert(u16s_in(Seq::<Seq<char>>::empty()) =~= seq![]);
    if u16_in(word) is None {
        assert(u16s_in(one) =~= seq![]);
        let msg = at_line(line, "invalid port '"@ + word + "'"@);
        assert(u16_errors(Seq::<Seq<char>>::empty(), what, line) =~= seq![]);
        assert(u16_errors(one, what, line) =~= seq![msg]);
        assert(u16_errors(a + one + b, what, line) =~= seq![msg]);
        assert(server.ports + u16s_in(a + one + b) =~= server.ports + front + back);
    }
}

/// `listen` is another name for `port`.
pub proof fn law_listen_is_port(server: ServerView, args: Seq<Seq<char>>, line: int)
    ensures
        server_after(server, "listen"@, args, line) == server_after(server, "port"@, args, line),
{
    lemma_server_names_differ();
}

/// `server_name` adds names to those that the server has.
pub proof fn law_names_are_added(server: ServerView, names: Seq<Seq<char>>, line: int)
    ensures
        server_after(server, "server_name"@, names, line).0 == (ServerView {
            server_names: server.server_names + names,
            ..server
        }),
        names.len() > 0 ==> server_after(server, "server_name"@, names, line).1 == Seq::<
            Seq<char>,
        >::empty(),
        names.len() == 0 ==> server_after(server, "server_name"@, names, line).1 == seq![
            "line "@ + decimal(line as nat) + ": "@ + "'server_name' requires at least one name"@,
        ],
{
    lemma_server_names_differ();
}

proof fn lemma_with_pages(
    m: Map<u16, Seq<char>>,
    codes: Seq<Seq<char>>,
    path: Seq<char>,
    code: u16,
)
    ensures
        with_pages(m, codes, path).get(code) == (if exists|i: int|
            0 <= i < codes.len() && u16_in(#[trigger] codes[i]) == Some(code) {
            Some(path)
        } else {
            m.get(code)
        }),
    decreases codes.len(),
{
    if codes.len() > 0 {
        let front = codes.drop_last();
        lemma_with_pages(m, front, path, code);
        if u16_in(codes.last()) == Some(code) {
            assert(u16_in(codes[codes.len() - 1]) == Some(code));
        }
        if exists|i: int| 0 <= i < front.len() && u16_in(#[trigger] front[i]) == Some(code) {
            let i = choose|i: int| 0 <= i < front.len() && u16_in(#[trigger] front[i]) == Some(code);
            assert(u16_in(codes[i]) == Some(code));
        }
        if exists|i: int| 0 <= i < codes.len() && u16_in(#[trigger] codes[i]) == Some(code) {
            let i = choose|i: int| 0 <= i < codes.len() && u16_in(#[trigger] codes[i]) == Some(code);
            if i < front.len() {
                assert(u16_in(front[i]) == Some(code));
            }
        }
    }
}

/// `error_page` gives its last argument as the page to each code before it, and
/// leaves the pages of all other codes, and the rest of the server, as they
/// are.
pub proof fn law_error_pages_are_set(
    server: ServerView,
    codes: Seq<u16>,
    path: Seq<char>,
    other: u16,
    args: Seq<Seq<char>>,
    line: int,
)
    ensures
        codes.len() > 0 ==> ({
            let (after, said) = server_after(
                server,
                "error_page"@,
                written_numbers(codes) + seq![path],
                line,
            );
            &&& after == ServerView { error_pages: after.error_pages, ..server }
            &&& codes.contains(other) ==> after.error_pages.get(other) == Some(path)
            &&& !codes.contains(other) ==> after.error_pages.get(other) == server.error_pages.get(
                other,
            )
            &&& said == Seq::<Seq<char>>::empty()
        }),
        args.len() < 2 ==> server_after(server, "error_page"@, args, line) == (
            server,
            seq![
                "line "@ + decimal(line as nat) + ": "@ + "'error_page' requires a code and a path"@,
            ],
        ),
{
    lemma_server_names_differ();
    let all = written_numbers(codes) + seq![path];
    assert(all.drop_last() =~= written_numbers(codes));
    assert(all.last() == path);
    lemma_numbers_are_read(codes, "invalid error code '"@, line);
    lemma_with_pages(server.error_pages, written_numbers(codes), path, other);
    if codes.contains(other) {
        let i = choose|i: int| 0 <= i < codes.len() && codes[i] == other;
        lemma_u16_in(other);
        assert(u16_in(written_numbers(codes)[i]) == Some(other));
    } else {
        assert forall|i: int| 0 <= i < codes.len() implies u16_in(
            #[trigger] written_numbers(codes)[i],
        ) != Some(other) by {
            lemma_u16_in(codes[i]);
            assert(codes.contains(codes[i]));
        }
    }
}

/// A code of `error_page` that is no number is told, and the codes around it
/// count.
pub proof fn law_bad_error_codes_are_told(
    server: ServerView,
    front: Seq<u16>,
    word: Seq<char>,
    back: Seq<u16>,
    path: Seq<char>,
    line: int,
)
    requires
        u16_in(word) is None,
    ensures
        ({
            let args = written_numbers(front) + seq![word] + written_numbers(back) + seq![path];
            let (after, said) = server_after(server, "error_page"@, args, line);
            &&& said == seq![
                "line "@ + decimal(line as nat) + ": "@ + ("invalid error code '"@ + word + "'"@),
            ]
            &&& forall|code: u16|
                front.contains(code) || back.contains(code)
                    ==> #[trigger] after.error_pages.get(code) == Some(path)
            &&& forall|code: u16|
                !front.contains(code) && !back.contains(code)
                    ==> #[trigger] after.error_pages.get(code) == server.error_pages.get(code)
            &&& after == ServerView { error_pages: after.error_pages, ..server }
        }),
{
    lemma_server_names_differ();
    let what = "invalid error code '"@;
    let a = written_numbers(front);
    let b = written_numbers(back);
    let one = seq![word];
    let codes = a + one + b;
    let args = codes + seq![path];
    assert(args.drop_last() =~= codes);
    lemma_numbers_are_read(front, what, line);
    lemma_numbers_are_read(back, what, line);
    lemma_numbers_split(a, one, what, line);
    lemma_numbers_split(a + one, b, what, line);
    assert(one.drop_last() =~= seq![]);
    let msg = at_line(line, what + word + "'"@);
    assert(u16_errors(Seq::<Seq<char>>::empty(), what, line) =~= seq![]);
    assert(u16_errors(one, what, line) =~= seq![msg]);
    assert(u16_errors(codes, what, line) =~= seq![msg]);
    let after = server_after(server, "error_page"@, args, line).0;
    assert forall|code: u16| front.contains(code) || back.contains(code) implies
        #[trigger] after.error_pages.get(code) == Some(path) by {
        lemma_with_pages(server.error_pages, codes, path, code);
        lemma_u16_in(code);
        if front.contains(code) {
            let i = choose|i: int| 0 <= i < front.len() && front[i] == code;
            assert(codes[i] == decimal(code as nat));
        } else {
            let i = choose|i: int| 0 <= i < back.len() && back[i] == code;
            assert(codes[front.len() + 1 + i] == decimal(code as nat));
        }
    }
    assert forall|code: u16| !front.contains(code) && !back.contains(code) implies
        #[trigger] after.error_pages.get(code) == server.error_pages.get(code) by {
        lemma_with_pages(server.error_pages, codes, path, code);
        assert forall|i: int| 0 <= i < codes.len() implies u16_in(#[trigger] codes[i]) != Some(
            code,
        ) by {
            if i < front.len() {
                lemma_u16_in(front[i]);
                assert(codes[i] == decimal(front[i] as nat));
                assert(front.contains(front[i]));
            } else if i > front.len() {
                let k = i - front.len() - 1;
                lemma_u16_in(back[k]);
                assert(codes[i] == decimal(back[k] as nat));
                assert(back.contains(back[k]));
            }
        }
    }
}

/// `client_max_body_size` sets the limit on bodies, or says what is wrong with
/// the size.
pub proof fn law_limits_are_set(
    server: ServerView,
    word: Seq<char>,
    more: Seq<Seq<char>>,
    line: int,
)
    ensures
        match size_in(word) {
            Ok(n) => server_after(server, "client_max_body_size"@, seq![word] + more, line) == (
                ServerView { client_max_body_size: n, ..server },
                Seq::<Seq<char>>::empty(),
            ),
            Err(e) => server_after(server, "client_max_body_size"@, seq![word] + more, line) == (
                server,
                seq!["line "@ + decimal(line as nat) + ": "@ + e],
            ),
        },
        server_after(server, "client_max_body_size"@, seq![], line) == (
            server,
            seq![
                "line "@ + decimal(line as nat) + ": "@ + "'client_max_body_size' requires a value"@,
            ],
        ),
{
    lemma_server_names_differ();
    assert((seq![word] + more)[0] == word);
}

/// A block in which nothing is said has the documented defaults: the loopback
/// address, no port, no name, one mebibyte for bodies, and routes without
/// listings, scripts, root, default file or redirection.
pub proof fn law_defaults(path: Seq<char>)
    ensures
        ({
            let s = default_server();
            &&& s.host == seq![127u8, 0, 0, 1]
            &&& s.host_str == "127.0.0.1"@
            &&& s.ports.len() == 0 && s.server_names.len() == 0 && s.routes.len() == 0
            &&& forall|code: u16| !s.error_pages.contains_key(code)
            &&& s.client_max_body_size == 1024 * 1024
        }),
        ({
            let r = default_route(path);
            &&& r.path == path
            &&& r.methods.len() == 0 && r.root is None && r.index is None && r.redirect is None
            &&& !r.autoindex
            &&& forall|ext: Seq<char>| !r.cgi.contains_key(ext)
        }),
{
}

} // verus!
