//! Connections, addresses and timeouts.

use localhost::config::{parse, Config};
use localhost::http::router::{Action, Kind, Reply};
use localhost::poll::Event;
use localhost::server::address::{build_addresses, select_server};
use localhost::server::state::{Duty, IDLE_TIMEOUT, REQUEST_TIMEOUT};
use localhost::server::{read_result, Dispatch, Effect, Received, Server};

const SITE: &str = r#"
    server { port 8080 8081; server_name a.com; client_max_body_size 4; route / { root /a; } }
    server { host 10.0.0.1; port 8080; route /r { redirect 302 /x; } }
    server { port 8080; server_name B.com c.com; error_page 400 /400.html; route / { root /b; } }
"#;

fn config() -> Config {
    let out = parse(SITE);
    assert!(out.errors.is_empty(), "{:?}", out.errors);
    out.config
}

#[test]
fn one_address_for_servers_that_share_it() {
    let list = build_addresses(&config());
    let shown: Vec<(&str, &[usize])> =
        list.iter().map(|a| (a.label.as_str(), a.servers.as_slice())).collect();
    assert_eq!(
        shown,
        vec![
            ("127.0.0.1:8080", [0, 2].as_slice()),
            ("127.0.0.1:8081", [0].as_slice()),
            ("10.0.0.1:8080", [1].as_slice()),
        ]
    );
    assert_eq!((list[2].host, list[2].port), ([10, 0, 0, 1], 8080));
}

#[test]
fn hosts_select_servers() {
    let config = config();
    let list = build_addresses(&config);
    assert_eq!(select_server(&config, &list[0], Some("b.COM")), 2);
    assert_eq!(select_server(&config, &list[0], Some(" c.com : 8080")), 2);
    assert_eq!(select_server(&config, &list[0], Some("a.com")), 0);
    assert_eq!(select_server(&config, &list[0], Some("nope.invalid")), 0);
    assert_eq!(select_server(&config, &list[0], None), 0);
    assert_eq!(select_server(&config, &list[2], Some("a.com")), 1);
}

/// A server with a listener on each address and one connection on the first.
fn serving() -> Server {
    let mut s = Server::new(config());
    assert!(s.is_deaf());
    for i in 0..s.addresses().len() {
        s.add_listener(3 + i as i32, i);
    }
    assert!(!s.is_deaf());
    s.accept(10, 0, 0);
    s
}

#[test]
fn events_have_duties() {
    let s = serving();
    let ev = |fd, readable, writable| Event { fd, readable, writable };
    assert_eq!(s.duty(ev(4, true, false)), Duty::Accept(1));
    assert_eq!(s.duty(ev(10, true, true)), Duty::Read);
    assert_eq!(s.duty(ev(10, false, true)), Duty::Write);
    assert_eq!(s.duty(ev(10, false, false)), Duty::Nothing);
}

fn text(bytes: &[u8]) -> String {
    String::from_utf8(bytes.to_vec()).unwrap()
}

#[test]
fn a_file_is_served_with_a_fresh_session() {
    let mut s = serving();
    let e = s.receive(10, Received::Data(b"GET /f HTTP/1.1\r\nHost: b.com\r\n"), 1);
    assert!(matches!(e, Effect::Idle));
    let (action, pending) = match s.receive(10, Received::Data(b"\r\nGET /g"), 2) {
        Effect::Perform(a, p) => (a, p),
        _ => panic!("expected an action"),
    };
    assert!(matches!(&action, Action::Stat { path } if path == "/b/f"));
    let (action, pending) = match s.reply(pending, Reply::Found(Kind::File), 3) {
        Effect::Perform(a, p) => (a, p),
        _ => panic!("expected an action"),
    };
    assert!(matches!(&action, Action::Read { path } if path == "/b/f"));
    let reply = Reply::Contents { data: b"data".to_vec(), content_type: "t/x".to_string() };
    let greeting = match s.reply(pending, reply, 4) {
        Effect::Draw(g) => g,
        _ => panic!("expected to draw"),
    };
    assert!(matches!(s.greet(greeting, 5, &[0x11; 16]), Effect::Send));
    let id = "11".repeat(16);
    let expected = format!(
        "HTTP/1.1 200 OK\r\nContent-Type: t/x\r\nSet-Cookie: session_id={id}; Path=/; HttpOnly; SameSite=Lax\r\nX-Session-Visits: 1\r\nContent-Length: 4\r\nConnection: keep-alive\r\n\r\ndata"
    );
    assert!(matches!(s.ready_to_write(10), Effect::Write));
    assert_eq!(text(s.outgoing(10).unwrap()), expected);

    // Written in two parts; what was pipelined is looked at next.
    assert!(matches!(s.note_written(10, 20, false, 6), Effect::Idle));
    assert_eq!(text(s.outgoing(10).unwrap()), expected[20..]);
    assert!(matches!(s.note_written(10, -1, true, 6), Effect::Idle));
    assert!(matches!(s.note_written(10, expected.len() as isize - 20, false, 7), Effect::Rearm));
    assert!(matches!(s.begin(10, 8), Effect::Idle));
    let rest = format!(" HTTP/1.1\r\nHost: b.com\r\nCookie: session_id={id}\r\n\r\n");
    let pending = match s.receive(10, Received::Data(rest.as_bytes()), 9) {
        Effect::Perform(Action::Stat { path }, p) => {
            assert_eq!(path, "/b/g");
            p
        }
        _ => panic!("expected an action"),
    };
    // The session is known, so nothing is drawn.
    assert!(matches!(s.reply(pending, Reply::Failed, 10), Effect::Send));
    let out = text(s.outgoing(10).unwrap());
    assert!(out.starts_with("HTTP/1.1 404 Not Found\r\n"), "{out}");
    assert!(out.contains("\r\nX-Session-Visits: 2\r\n"), "{out}");
    assert!(out.contains("\r\nConnection: close\r\n"), "{out}");
    assert!(!out.contains("Set-Cookie"), "{out}");
    let left = s.outgoing(10).unwrap().len();
    assert!(matches!(s.note_written(10, left as isize, false, 11), Effect::Close));
    assert!(s.outgoing(10).is_none());
    assert!(matches!(s.ready_to_write(10), Effect::Idle));
}

#[test]
fn refusals_close_the_connection() {
    let mut s = serving();
    let e = s.receive(10, Received::Data(b"POST / HTTP/1.1\r\nHost: a.com\r\nContent-Length: 5\r\n\r\n"), 1);
    assert!(matches!(e, Effect::Send));
    let out = text(s.outgoing(10).unwrap());
    assert!(out.starts_with("HTTP/1.1 413 Payload Too Large\r\n"), "{out}");
    assert!(out.contains("\r\nConnection: close\r\n"), "{out}");
    assert!(!out.contains("X-Session-Visits"), "{out}");

    // A chunk over the limit is refused by its size alone.
    s.accept(13, 0, 0);
    let e = s.receive(
        13,
        Received::Data(b"POST / HTTP/1.1\r\nHost: a.com\r\nTransfer-Encoding: chunked\r\n\r\n2\r\nab\r\n3\r\n"),
        1,
    );
    assert!(matches!(e, Effect::Send));
    assert!(text(s.outgoing(13).unwrap()).starts_with("HTTP/1.1 413 Payload Too Large\r\n"));

    // A request that cannot be read at all belongs to no server.
    s.accept(11, 0, 0);
    assert!(matches!(s.receive(11, Received::Data(b"GET /\r\n\r\n"), 1), Effect::Send));
    assert!(text(s.outgoing(11).unwrap()).starts_with("HTTP/1.1 400 Bad Request\r\n"));

    // One whose server is known gets the page of that server.
    s.accept(12, 0, 0);
    let bad = b"POST / HTTP/1.1\r\nHost: c.com\r\nTransfer-Encoding: zip\r\n\r\n";
    let pending = match s.receive(12, Received::Data(bad), 1) {
        Effect::Perform(Action::Read { path }, p) => {
            assert_eq!(path, "/400.html");
            p
        }
        _ => panic!("expected an action"),
    };
    let page = Reply::Contents { data: b"page".to_vec(), content_type: "h".to_string() };
    assert!(matches!(s.reply(pending, page, 2), Effect::Send));
    assert!(text(s.outgoing(12).unwrap()).ends_with("\r\n\r\npage"));
    let left = s.outgoing(12).unwrap().len();
    assert!(matches!(s.note_written(12, left as isize + 9, false, 3), Effect::Close));
}

#[test]
fn requests_at_the_front_of_the_buffer() {
    let mut s = serving();
    assert!(matches!(s.try_dispatch(99), Dispatch::Wait));
    assert!(matches!(s.try_dispatch(10), Dispatch::Wait));
    s.accept(11, 2, 0);
    let raw = b"GET /r HTTP/1.0\r\nHost: x\r\n\r\nrest";
    match s.receive(11, Received::Data(raw), 1) {
        Effect::Draw(g) => assert!(matches!(s.greet(g, 1, &[0; 16]), Effect::Send)),
        _ => panic!("expected to draw"),
    }
    match s.try_dispatch(11) {
        Dispatch::Serve { request, server, keep_alive, len } => {
            assert_eq!((request.path.as_str(), server, keep_alive, len), ("/r", 1, false, 28));
        }
        _ => panic!("expected a request"),
    }
    let out = text(s.outgoing(11).unwrap());
    assert!(out.starts_with("HTTP/1.1 302 Found\r\n"), "{out}");
    assert!(out.contains("\r\nConnection: close\r\n"), "{out}");
}

#[test]
fn connections_that_end() {
    let mut s = serving();
    assert!(matches!(s.receive(10, Received::Blocked, 1), Effect::Idle));
    assert!(s.outgoing(10).is_some());
    assert!(matches!(s.receive(10, Received::Closed, 1), Effect::Close));
    assert!(s.outgoing(10).is_none());
    s.accept(10, 0, 0);
    assert!(matches!(s.receive(10, Received::Failed, 1), Effect::Close));
    s.accept(10, 0, 0);
    assert!(matches!(s.note_written(10, -1, false, 1), Effect::Close));
    s.accept(10, 0, 0);
    // Nothing to write: the connection is done.
    assert!(matches!(s.ready_to_write(10), Effect::Close));
    assert!(matches!(s.receive(10, Received::Data(b"x"), 1), Effect::Idle));
    s.accept(10, 0, 0);
    s.remove_client(10);
    assert!(s.outgoing(10).is_none());
}

#[test]
fn results_of_reading() {
    assert!(matches!(read_result(0, b"", None, 11), Received::Closed));
    assert!(matches!(read_result(2, b"ab", None, 11), Received::Data(b"ab")));
    assert!(matches!(read_result(-1, b"", Some(11), 11), Received::Blocked));
    assert!(matches!(read_result(-1, b"", Some(9), 11), Received::Failed));
    assert!(matches!(read_result(-1, b"", None, 11), Received::Failed));
}

#[test]
fn timeouts_close_or_tell() {
    let mut s = serving();
    s.accept(11, 0, 0);
    s.accept(12, 0, 0);
    s.accept(13, 0, 0);
    assert!(matches!(s.receive(11, Received::Data(b"GET"), 1), Effect::Idle));
    assert!(matches!(s.receive(12, Received::Data(b"GET /\r\n\r\n"), 1), Effect::Send));
    assert!(matches!(s.receive(13, Received::Data(b"GET"), REQUEST_TIMEOUT), Effect::Idle));
    let r = s.sweep_timeouts(REQUEST_TIMEOUT);
    assert!(r.closed.is_empty() && r.told.is_empty());
    let r = s.sweep_timeouts(REQUEST_TIMEOUT + 1);
    assert!(r.closed.is_empty());
    assert_eq!(r.told, vec![11]);
    let out = text(s.outgoing(11).unwrap());
    assert!(out.starts_with("HTTP/1.1 408 Request Timeout\r\n"), "{out}");
    let r = s.sweep_timeouts(IDLE_TIMEOUT);
    assert_eq!((r.closed, r.told), (vec![10], vec![13]));
    assert!(s.outgoing(10).is_none());
    // What is being written is left alone.
    let r = s.sweep_timeouts(10 * IDLE_TIMEOUT);
    assert!(r.closed.is_empty() && r.told.is_empty());
    assert!(text(s.outgoing(12).unwrap()).starts_with("HTTP/1.1 400"));
}
