//! What each directive does to the block that it stands in.

use super::value::{address_in, parse_address, parse_size, size_in};
use super::{pages, Route, RouteView, ServerConfig, ServerView};
use crate::http::request::values;
use crate::numbers::{decimal, push_decimal, read_u16, u16_in};
use crate::text::{capitals, chars_of, concat3, str_eq, texts, to_uppercase};
use vstd::prelude::*;

verus! {

/// A message about line `line` of a configuration file.
pub open spec fn at_line(line: int, msg: Seq<char>) -> Seq<char> {
    "line "@ + decimal(line as nat) + ": "@ + msg
}

/// A piece of text between a beginning and an end.
pub open spec fn between(a: Seq<char>, s: Seq<char>, b: Seq<char>) -> Seq<char> {
    a + s + b
}

/// The numbers among the arguments of a directive, in order.
pub open spec fn u16s_in(args: Seq<Seq<char>>) -> Seq<u16>
    decreases args.len(),
{
    if args.len() == 0 {
        seq![]
    } else {
        let rest = u16s_in(args.drop_last());
        match u16_in(args.last()) {
            Some(n) => rest.push(n),
            None => rest,
        }
    }
}

/// A message for each argument of a directive that is no number: `what`, and
/// the argument in quotes.
pub open spec fn u16_errors(args: Seq<Seq<char>>, what: Seq<char>, line: int) -> Seq<Seq<char>>
    decreases args.len(),
{
    if args.len() == 0 {
        seq![]
    } else {
        let rest = u16_errors(args.drop_last(), what, line);
        match u16_in(args.last()) {
            Some(_) => rest,
            None => rest.push(at_line(line, between(what, args.last(), "'"@))),
        }
    }
}

/// `m` with `path` as the page for each of `codes` that is a number.
pub open spec fn with_pages(
    m: Map<u16, Seq<char>>,
    codes: Seq<Seq<char>>,
    path: Seq<char>,
) -> Map<u16, Seq<char>>
    decreases codes.len(),
{
    if codes.len() == 0 {
        m
    } else {
        let rest = with_pages(m, codes.drop_last(), path);
        match u16_in(codes.last()) {
            Some(code) => rest.insert(code, path),
            None => rest,
        }
    }
}

/// What a directive makes of a `server` block, and the messages about it.
pub open spec fn server_after(
    s: ServerView,
    name: Seq<char>,
    args: Seq<Seq<char>>,
    line: int,
) -> (ServerView, Seq<Seq<char>>) {
    if name == "host"@ {
        if args.len() == 0 {
            (s, seq![at_line(line, "'host' requires an address"@)])
        } else {
            match address_in(args[0]) {
                Some(host) => (ServerView { host, host_str: args[0], ..s }, seq![]),
                None => (s, seq![at_line(line, between("invalid host '"@, args[0], "'"@))]),
            }
        }
    } else if name == "port"@ || name == "listen"@ {
        (
            ServerView { ports: s.ports + u16s_in(args), ..s },
            if args.len() == 0 {
                seq![at_line(line, "'port' requires at least one value"@)]
            } else {
                u16_errors(args, "invalid port '"@, line)
            },
        )
    } else if name == "server_name"@ {
        (
            ServerView { server_names: s.server_names + args, ..s },
            if args.len() == 0 {
                seq![at_line(line, "'server_name' requires at least one name"@)]
            } else {
                seq![]
            },
        )
    } else if name == "error_page"@ {
        if args.len() < 2 {
            (s, seq![at_line(line, "'error_page' requires a code and a path"@)])
        } else {
            (
                ServerView {
                    error_pages: with_pages(s.error_pages, args.drop_last(), args.last()),
                    ..s
                },
                u16_errors(args.drop_last(), "invalid error code '"@, line),
            )
        }
    } else if name == "client_max_body_size"@ {
        if args.len() == 0 {
            (s, seq![at_line(line, "'client_max_body_size' requires a value"@)])
        } else {
            match size_in(args[0]) {
                Ok(n) => (ServerView { client_max_body_size: n, ..s }, seq![]),
                Err(e) => (s, seq![at_line(line, e)]),
            }
        }
    } else {
        (s, seq![at_line(line, between("unknown directive '"@, name, "'"@))])
    }
}

/// What a directive makes of a `route` block, and the messages about it.
pub open spec fn route_after(
    r: RouteView,
    name: Seq<char>,
    args: Seq<Seq<char>>,
    line: int,
) -> (RouteView, Seq<Seq<char>>) {
    if name == "methods"@ {
        (
            RouteView { methods: args.map_values(|m: Seq<char>| capitals(m)), ..r },
            if args.len() == 0 {
                seq![at_line(line, "'methods' requires at least one method"@)]
            } else {
                seq![]
            },
        )
    } else if name == "root"@ {
        if args.len() == 0 {
            (r, seq![at_line(line, "'root' requires a path"@)])
        } else {
            (RouteView { root: Some(args[0]), ..r }, seq![])
        }
    } else if name == "index"@ {
        if args.len() == 0 {
            (r, seq![at_line(line, "'index' requires a filename"@)])
        } else {
            (RouteView { index: Some(args[0]), ..r }, seq![])
        }
    } else if name == "autoindex"@ {
        if args.len() > 0 && args[0] == "on"@ {
            (RouteView { autoindex: true, ..r }, seq![])
        } else if args.len() > 0 && args[0] == "off"@ {
            (RouteView { autoindex: false, ..r }, seq![])
        } else {
            (r, seq![at_line(line, "'autoindex' must be 'on' or 'off'"@)])
        }
    } else if name == "cgi"@ {
        if args.len() < 2 {
            (r, seq![at_line(line, "'cgi' requires an extension and an interpreter"@)])
        } else {
            (RouteView { cgi: r.cgi.insert(args[0], args[1]), ..r }, seq![])
        }
    } else if name == "redirect"@ {
        if args.len() < 2 {
            (r, seq![at_line(line, "'redirect' requires a code and a URL"@)])
        } else {
            match u16_in(args[0]) {
                Some(code) => (RouteView { redirect: Some((code, args[1])), ..r }, seq![]),
                None => (
                    r,
                    seq![at_line(line, between("invalid redirect code '"@, args[0], "'"@))],
                ),
            }
        }
    } else {
        (r, seq![at_line(line, between("unknown route directive '"@, name, "'"@))])
    }
}

/// Adds a message about line `line`.
pub fn push_error(errors: &mut Vec<String>, line: usize, msg: &str)
    ensures
        texts(final(errors)@) == texts(old(errors)@).push(at_line(line as int, msg@)),
{
    let mut out = "line ".to_owned();
    push_decimal(&mut out, line as u64);
    out.append(": ");
    out.append(msg);
    errors.push(out);
    assert(texts(errors@) =~= texts(old(errors)@).push(at_line(line as int, msg@)));
}

/// Adds a message that quotes `shown`.
fn push_quoting(errors: &mut Vec<String>, line: usize, what: &str, shown: &str)
    ensures
        texts(final(errors)@) == texts(old(errors)@).push(
            at_line(line as int, between(what@, shown@, "'"@)),
        ),
{
    let msg = concat3(what, shown, "'");
    push_error(errors, line, msg.as_str());
}

/// Reads the numbers among the arguments, with a message for each other one.
fn read_u16s(
    out: &mut Vec<u16>,
    errors: &mut Vec<String>,
    args: &Vec<String>,
    what: &str,
    line: usize,
)
    ensures
        final(out)@ == old(out)@ + u16s_in(texts(args@)),
        texts(final(errors)@) == texts(old(errors)@) + u16_errors(
            texts(args@),
            what@,
            line as int,
        ),
{
    let ghost t = texts(args@);
    let ghost had = out@;
    let ghost said = texts(errors@);
    let mut i: usize = 0;
    assert(had + u16s_in(t.take(0)) =~= had);
    assert(said + u16_errors(t.take(0), what@, line as int) =~= said);
    while i < args.len()
        invariant
            i <= args@.len(),
            t == texts(args@),
            out@ == had + u16s_in(t.take(i as int)),
            texts(errors@) == said + u16_errors(t.take(i as int), what@, line as int),
        decreases args@.len() - i,
    {
        proof {
            assert(t.take(i + 1).drop_last() =~= t.take(i as int));
            assert(t.take(i + 1).last() == args@[i as int]@);
        }
        let arg = chars_of(args[i].as_str());
        match read_u16(arg.as_slice()) {
            Some(n) => out.push(n),
            None => push_quoting(errors, line, what, args[i].as_str()),
        }
        assert(out@ =~= had + u16s_in(t.take(i + 1)));
        assert(texts(errors@) =~= said + u16_errors(t.take(i + 1), what@, line as int));
        i += 1;
    }
    assert(t.take(t.len() as int) =~= t);
}

/// Reads `error_page <code...> <path>`.
fn read_pages(
    server: &mut ServerConfig,
    errors: &mut Vec<String>,
    args: &Vec<String>,
    line: usize,
)
    requires
        args@.len() >= 2,
    ensures
        final(server)@ == (ServerView {
            error_pages: with_pages(
                old(server)@.error_pages,
                texts(args@).drop_last(),
                texts(args@).last(),
            ),
            ..old(server)@
        }),
        texts(final(errors)@) == texts(old(errors)@) + u16_errors(
            texts(args@).drop_last(),
            "invalid error code '"@,
            line as int,
        ),
{
    broadcast use vstd::std_specs::hash::group_hash_axioms;

    let what = "invalid error code '";
    let last: usize = args.len() - 1;
    let path = args[last].as_str();
    let ghost t = texts(args@);
    let ghost codes = t.drop_last();
    let ghost had = server@;
    let ghost said = texts(errors@);
    let mut i: usize = 0;
    assert(said + u16_errors(codes.take(0), what@, line as int) =~= said);
    while i < last
        invariant
            i <= last < args@.len(),
            last == codes.len(),
            t == texts(args@),
            codes == t.drop_last(),
            path@ == t.last(),
            server@ =~= (ServerView {
                error_pages: with_pages(had.error_pages, codes.take(i as int), path@),
                ..had
            }),
            texts(errors@) == said + u16_errors(codes.take(i as int), what@, line as int),
        decreases last - i,
    {
        proof {
            assert(codes.take(i + 1).drop_last() =~= codes.take(i as int));
            assert(codes.take(i + 1).last() == args@[i as int]@);
        }
        let arg = chars_of(args[i].as_str());
        match read_u16(arg.as_slice()) {
            Some(code) => {
                let ghost before = server.error_pages@;
                let page = path.to_owned();
                server.error_pages.insert(code, page);
                assert(pages(server.error_pages@) =~= pages(before).insert(code, path@));
            },
            None => push_quoting(errors, line, what, args[i].as_str()),
        }
        assert(texts(errors@) =~= said + u16_errors(codes.take(i + 1), what@, line as int));
        i += 1;
    }
    assert(codes.take(codes.len() as int) =~= codes);
}

/// The strings of a list in capitals.
fn all_uppercase(args: &Vec<String>) -> (r: Vec<String>)
    ensures
        texts(r@) == texts(args@).map_values(|m: Seq<char>| capitals(m)),
{
    let mut out: Vec<String> = Vec::new();
    let mut i: usize = 0;
    while i < args.len()
        invariant
            i == out@.len(),
            i <= args@.len(),
            forall|j: int| 0 <= j < i ==> (#[trigger] out@[j])@ == capitals(args@[j]@),
        decreases args@.len() - i,
    {
        let m = to_uppercase(args[i].as_str());
        out.push(m);
        i += 1;
    }
    assert(texts(out@) =~= texts(args@).map_values(|m: Seq<char>| capitals(m)));
    out
}

/// Carries out a directive of a `server` block.
pub fn apply_directive(
    server: &mut ServerConfig,
    errors: &mut Vec<String>,
    name: &str,
    args: &Vec<String>,
    line: usize,
)
    ensures
        final(server)@ == server_after(old(server)@, name@, texts(args@), line as int).0,
        texts(final(errors)@) == texts(old(errors)@) + server_after(
            old(server)@,
            name@,
            texts(args@),
            line as int,
        ).1,
{
    let ghost t = texts(args@);
    let ghost s0 = server@;
    let ghost e0 = texts(errors@);
    let ghost after = server_after(s0, name@, t, line as int);
    if str_eq(name, "host") {
        if args.len() == 0 {
            push_error(errors, line, "'host' requires an address");
        } else {
            assert(t[0] == args@[0]@);
            match parse_address(args[0].as_str()) {
                Some(host) => {
                    server.host = host;
                    server.host_str = args[0].clone();
                },
                None => push_quoting(errors, line, "invalid host '", args[0].as_str()),
            }
        }
    } else if str_eq(name, "port") || str_eq(name, "listen") {
        if args.len() == 0 {
            push_error(errors, line, "'port' requires at least one value");
            assert(s0.ports + u16s_in(t) =~= s0.ports);
        } else {
            read_u16s(&mut server.ports, errors, args, "invalid port '", line);
        }
    } else if str_eq(name, "server_name") {
        if args.len() == 0 {
            push_error(errors, line, "'server_name' requires at least one name");
        }
        push_all(&mut server.server_names, args);
    } else if str_eq(name, "error_page") {
        if args.len() < 2 {
            push_error(errors, line, "'error_page' requires a code and a path");
        } else {
            read_pages(server, errors, args, line);
        }
    } else if str_eq(name, "client_max_body_size") {
        if args.len() == 0 {
            push_error(errors, line, "'client_max_body_size' requires a value");
        } else {
            assert(t[0] == args@[0]@);
            match parse_size(args[0].as_str()) {
                Ok(n) => server.client_max_body_size = n,
                Err(e) => push_error(errors, line, e.as_str()),
            }
        }
    } else {
        push_quoting(errors, line, "unknown directive '", name);
    }
    assert(texts(errors@) =~= e0 + after.1);
    assert(server@ =~= after.0);
}

/// Appends copies of the strings of a list.
pub fn push_all(out: &mut Vec<String>, more: &Vec<String>)
    ensures
        texts(final(out)@) == texts(old(out)@) + texts(more@),
{
    let ghost had = texts(out@);
    let mut i: usize = 0;
    assert(had + texts(more@).take(0) =~= had);
    while i < more.len()
        invariant
            i <= more@.len(),
            texts(out@) == had + texts(more@).take(i as int),
        decreases more@.len() - i,
    {
        let ghost before = out@;
        out.push(more[i].clone());
        assert(texts(out@) =~= texts(before).push(more@[i as int]@));
        assert(texts(out@) =~= had + texts(more@).take(i + 1));
        i += 1;
    }
    assert(texts(more@).take(more@.len() as int) =~= texts(more@));
}

/// Carries out a directive of a `route` block.
pub fn apply_route_directive(
    route: &mut Route,
    errors: &mut Vec<String>,
    name: &str,
    args: &Vec<String>,
    line: usize,
)
    ensures
        final(route)@ == route_after(old(route)@, name@, texts(args@), line as int).0,
        texts(final(errors)@) == texts(old(errors)@) + route_after(
            old(route)@,
            name@,
            texts(args@),
            line as int,
        ).1,
{
    let ghost t = texts(args@);
    let ghost r0 = route@;
    let ghost e0 = texts(errors@);
    let ghost after = route_after(r0, name@, t, line as int);
    proof {
        if t.len() > 0 {
            assert(t[0] == args@[0]@);
        }
        if t.len() > 1 {
            assert(t[1] == args@[1]@);
        }
    }
    if str_eq(name, "methods") {
        if args.len() == 0 {
            push_error(errors, line, "'methods' requires at least one method");
        }
        route.methods = all_uppercase(args);
    } else if str_eq(name, "root") {
        if args.len() == 0 {
            push_error(errors, line, "'root' requires a path");
        } else {
            route.root = Some(args[0].clone());
        }
    } else if str_eq(name, "index") {
        if args.len() == 0 {
            push_error(errors, line, "'index' requires a filename");
        } else {
            route.index = Some(args[0].clone());
        }
    } else if str_eq(name, "autoindex") {
        if args.len() > 0 && str_eq(args[0].as_str(), "on") {
            route.autoindex = true;
        } else if args.len() > 0 && str_eq(args[0].as_str(), "off") {
            route.autoindex = false;
        } else {
            push_error(errors, line, "'autoindex' must be 'on' or 'off'");
        }
    } else if str_eq(name, "cgi") {
        if args.len() < 2 {
            push_error(errors, line, "'cgi' requires an extension and an interpreter");
        } else {
            let ghost before = route.cgi@;
            route.cgi.insert(args[0].clone(), args[1].clone());
            assert(values(route.cgi@) =~= values(before).insert(t[0], t[1]));
        }
    } else if str_eq(name, "redirect") {
        if args.len() < 2 {
            push_error(errors, line, "'redirect' requires a code and a URL");
        } else {
            let code = chars_of(args[0].as_str());
            match read_u16(code.as_slice()) {
                Some(code) => route.redirect = Some((code, args[1].clone())),
                None => push_quoting(errors, line, "invalid redirect code '", args[0].as_str()),
            }
        }
    } else {
        push_quoting(errors, line, "unknown route directive '", name);
    }
    assert(texts(errors@) =~= e0 + after.1);
    assert(route@ =~= after.0);
}

} // verus!
