//! Scripts and pollers.

use localhost::cgi::{
    build_env, prepare, script_directory, InteriorNul, Next, OutputReader, CGI_TIMEOUT,
};
use localhost::http::{parse_head, HeadStatus, Request};
use localhost::poll::{
    fd_in, key_for, timeout_ms, was_interrupted, EpollFlags, Interest, KqueueFlags,
};

fn request(raw: &str, body: &[u8]) -> Request {
    match parse_head(raw.as_bytes()) {
        HeadStatus::Complete(h) => Request {
            method: h.method,
            path: h.path,
            query: h.query,
            headers: h.headers,
            body: body.to_vec(),
        },
        _ => panic!("bad request"),
    }
}

#[test]
fn the_environment_of_a_script() {
    let raw = "POST /cgi/a.py?x=1 HTTP/1.1\r\nHost: h\r\nContent-Type: t/p\r\n\r\n";
    let req = request(raw, b"12345");
    let env = build_env("/srv/cgi/a.py", &req).unwrap();
    assert_eq!(
        env,
        vec![
            "GATEWAY_INTERFACE=CGI/1.1",
            "SERVER_PROTOCOL=HTTP/1.1",
            "SERVER_SOFTWARE=localhost",
            "REQUEST_METHOD=POST",
            "QUERY_STRING=x=1",
            "SCRIPT_NAME=/cgi/a.py",
            "PATH_INFO=/srv/cgi/a.py",
            "PATH_TRANSLATED=/srv/cgi/a.py",
            "REDIRECT_STATUS=200",
            "CONTENT_LENGTH=5",
            "CONTENT_TYPE=t/p",
        ]
    );
    let run = prepare("/usr/bin/python3", "/srv/cgi/a.py", &req).unwrap();
    assert_eq!(run.interpreter, "/usr/bin/python3");
    assert_eq!((run.script.as_str(), run.directory.as_str()), ("/srv/cgi/a.py", "/srv/cgi"));
    assert_eq!(run.env, env);
    let plain = request("GET / HTTP/1.1\r\nHost: h\r\n\r\n", b"");
    assert_eq!(build_env("/a", &plain).unwrap().len(), 10);
}

#[test]
fn zeros_cannot_be_handed_to_the_system() {
    let zero = request("GET /%00 HTTP/1.1\r\nHost: h\r\n\r\n", b"");
    assert!(matches!(build_env("/a", &zero), Err(InteriorNul)));
    let fine = request("GET / HTTP/1.1\r\nHost: h\r\n\r\n", b"");
    assert!(prepare("/bin/\0sh", "/a", &fine).is_err());
    assert!(prepare("/bin/sh", "/a\0", &fine).is_err());
    assert!(prepare("/bin/sh", "/a", &zero).is_err());
    assert!(prepare("/bin/sh", "/a", &fine).is_ok());
}

#[test]
fn directories_of_scripts() {
    assert_eq!(script_directory("/a/b/c"), "/a/b");
    assert_eq!(script_directory("/c"), "/");
    assert_eq!(script_directory("/"), ".");
    assert_eq!(script_directory("c"), "");
    assert_eq!(script_directory("/srv/x.py/"), "/srv");
    assert_eq!(script_directory("/srv/x.py/."), "/srv");
    assert_eq!(script_directory("/srv//x.py"), "/srv");
    assert_eq!(script_directory("/srv/./x.py//./"), "/srv");
    assert_eq!(script_directory(""), ".");
    assert_eq!(script_directory("//"), ".");
}

#[test]
fn output_is_read_until_the_end() {
    let mut r = OutputReader::new(5);
    assert_eq!(r.before_wait(5), Next::Wait(10_000));
    assert_eq!(r.after_wait(1, false, 6), Next::Read);
    assert_eq!(r.after_read(3, b"abc", false, 1_000_005), Next::Wait(9_999));
    assert_eq!(r.after_wait(-1, true, 1_000_005), Next::Wait(9_999));
    assert_eq!(r.after_read(-1, b"", true, 5), Next::Wait(10_000));
    assert_eq!(r.after_read(1, b"d", false, 5), Next::Wait(10_000));
    assert_eq!(r.after_read(0, b"", false, 5), Next::Finish);
    assert_eq!(r.into_output(), b"abcd");
}

#[test]
fn scripts_are_given_up() {
    let mut r = OutputReader::new(0);
    assert_eq!(r.before_wait(CGI_TIMEOUT - 1), Next::Wait(0));
    assert_eq!(r.before_wait(CGI_TIMEOUT), Next::Kill);
    assert_eq!(r.after_wait(0, false, 1), Next::Kill);
    assert_eq!(r.after_wait(-1, false, 1), Next::Fail);
    assert_eq!(r.after_wait(-1, true, CGI_TIMEOUT), Next::Kill);
    assert_eq!(r.after_read(-1, b"", false, 1), Next::Fail);
    assert_eq!(OutputReader::new(u64::MAX).before_wait(u64::MAX), Next::Kill);
}

const FLAGS: EpollFlags = EpollFlags { input: 1, output: 4, hangup: 16, error: 8 };

#[test]
fn epoll_flags_and_events() {
    assert_eq!(FLAGS.mask(Interest::to_read()), 1);
    assert_eq!(FLAGS.mask(Interest::to_write()), 4);
    assert_eq!(FLAGS.mask(Interest { readable: true, writable: true }), 5);
    let e = FLAGS.event(key_for(7), 1);
    assert_eq!((e.fd, e.readable, e.writable), (7, true, false));
    let e = FLAGS.event(7, 16);
    assert!(e.readable && !e.writable);
    let e = FLAGS.event(7, 8 | 4);
    assert!(e.readable && e.writable);
    let e = FLAGS.event(7, 2);
    assert!(!e.readable && !e.writable);
    assert_eq!(fd_in(key_for(-1)), -1);
}

#[test]
fn kqueue_flags_and_events() {
    let f = KqueueFlags { add: 1, enable: 4, delete: 2 };
    assert_eq!((f.change(true), f.change(false)), (5, 2));
    assert!(f.is_benign(Some(2), 2, 2));
    assert!(!f.is_benign(Some(2), 2, 5));
    assert!(!f.is_benign(Some(9), 2, 2));
    assert!(!f.is_benign(None, 2, 2));
    let e = KqueueFlags::event(9, -1, -1, -2);
    assert_eq!((e.fd, e.readable, e.writable), (9, true, false));
    let e = KqueueFlags::event(9, -2, -1, -2);
    assert_eq!((e.fd, e.readable, e.writable), (9, false, true));
}

#[test]
fn polling_times() {
    assert_eq!(timeout_ms(None), -1);
    assert_eq!(timeout_ms(Some(1000)), 1000);
    assert_eq!(timeout_ms(Some(1 << 40)), i32::MAX);
    assert!(was_interrupted(-1, Some(4), 4));
    assert!(!was_interrupted(-1, Some(9), 4));
    assert!(!was_interrupted(0, Some(4), 4));
}
