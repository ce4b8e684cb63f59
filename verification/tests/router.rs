//! From requests to responses.

use localhost::bytes::{find, find_all};
use localhost::config::{parse, Config};
use localhost::http::cgi_output::{parse_cgi_output, parse_output};
use localhost::http::listing::{autoindex_html, html_escape, sort_entries};
use localhost::http::mime::mime_for;
use localhost::http::multipart::{
    multipart_boundary, part_filename, read_parts, sanitize_filename, text_filename,
};
use localhost::http::paths::{
    extension_of, has_traversal, join_path, parent_path, relative_path, route_matches,
};
use localhost::http::response::Response;
use localhost::http::router::{
    allowed_methods, best_route, default_error_html, error_page, error_response, handle,
    method_allowed, resume, Action, Kind, Reply, Stage, Step,
};
use localhost::http::{parse_head, reason_phrase, wants_keep_alive, HeadStatus, Request};
use std::collections::HashMap;
use std::path::Path;

#[test]
fn longest_prefix_wins() {
    assert!(route_matches("/", "/anything"));
    assert!(route_matches("/uploads", "/uploads"));
    assert!(route_matches("/uploads", "/uploads/file.txt"));
    assert!(!route_matches("/uploads", "/uploadsX"));
}

#[test]
fn relative_path_strips_prefix() {
    assert_eq!(relative_path("/uploads", "/uploads/a/b.txt"), "a/b.txt");
    assert_eq!(relative_path("/", "/index.html"), "index.html");
}

#[test]
fn traversal_is_rejected() {
    assert!(has_traversal("../etc/passwd"));
    assert!(has_traversal("a/../../b"));
    assert!(!has_traversal("a/b/c.txt"));
}

/// All texts of up to `n` characters out of a few.
fn short_paths(n: usize) -> Vec<String> {
    let mut all = vec![String::new()];
    let mut from = 0;
    for _ in 0..n {
        let to = all.len();
        for i in from..to {
            for c in ['/', '.', 'a', 'é'] {
                all.push(format!("{}{c}", all[i]));
            }
        }
        from = to;
    }
    all
}

#[test]
fn paths_are_taken_apart_as_the_system_does() {
    for p in short_paths(7) {
        let path = Path::new(&p);
        let parent = path.parent().map(|d| d.to_str().unwrap().to_string());
        assert_eq!(parent_path(&p), parent, "{p}");
        let ext = path.extension().map(|e| e.to_str().unwrap().to_string());
        assert_eq!(extension_of(&p), ext, "{p}");
    }
    for base in short_paths(3) {
        for rel in short_paths(3) {
            let joined = Path::new(&base).join(&rel);
            assert_eq!(join_path(&base, &rel), joined.to_str().unwrap());
        }
    }
}

#[test]
fn files_lie_in_their_directory() {
    for dir in ["/", "/a", "/a/..", ".", "./b", "a//b"] {
        assert_eq!(parent_path(&join_path(dir, "x.py")), Some(dir.to_string()));
        assert_eq!(parent_path(&join_path(dir, "x.py/")), Some(dir.to_string()));
        assert_eq!(parent_path(&join_path(dir, "x.py/.")), Some(dir.to_string()));
    }
    assert_eq!(parent_path("/."), None);
    assert_eq!(parent_path("./"), Some(String::new()));
}

#[test]
fn content_types_go_by_extension() {
    assert_eq!(mime_for("/www/index.html"), "text/html; charset=utf-8");
    assert_eq!(mime_for("a.HTM"), "text/html; charset=utf-8");
    assert_eq!(mime_for("a.tar.Jpeg"), "image/jpeg");
    assert_eq!(mime_for("s.css"), "text/css; charset=utf-8");
    assert_eq!(mime_for("s.mjs"), "text/javascript; charset=utf-8");
    assert_eq!(mime_for("s.json"), "application/json");
    assert_eq!(mime_for("s.md"), "text/plain; charset=utf-8");
    assert_eq!(mime_for("s.svg"), "image/svg+xml");
    assert_eq!(mime_for("s.mp4"), "video/mp4");
    assert_eq!(mime_for(".html"), "application/octet-stream");
    assert_eq!(mime_for("/a.png/.."), "application/octet-stream");
    assert_eq!(mime_for("x.unknown"), "application/octet-stream");
    assert_eq!(mime_for("/a.png/"), "image/png");
}

#[test]
fn parses_multipart_boundary() {
    assert_eq!(
        multipart_boundary("multipart/form-data; boundary=XYZ"),
        Some("--XYZ".to_string())
    );
    assert_eq!(
        multipart_boundary("multipart/form-data; boundary=\"a b\""),
        Some("--a b".to_string())
    );
    assert_eq!(multipart_boundary("text/plain"), None);
}

#[test]
fn extracts_part_filename() {
    let h = b"Content-Disposition: form-data; name=\"file\"; filename=\"hi.txt\"";
    assert_eq!(part_filename(h), Some("hi.txt".to_string()));
}

#[test]
fn sanitizes_filenames() {
    assert_eq!(sanitize_filename("../../etc/passwd"), "passwd");
    assert_eq!(sanitize_filename("a/b/c.txt"), "c.txt");
    assert_eq!(sanitize_filename(".."), "");
}

#[test]
fn more_paths() {
    assert!(has_traversal("/etc"));
    assert!(has_traversal(".."));
    assert!(!has_traversal("..."));
    assert!(!has_traversal(""));
    assert_eq!(relative_path("/a", "/a"), "");
    assert_eq!(relative_path("/abc", "/a"), "");
    assert_eq!(relative_path("/é", "/é//x"), "x");
    assert_eq!(join_path("/srv", "a/b"), "/srv/a/b");
    assert_eq!(join_path("/srv/", "a"), "/srv/a");
    assert_eq!(join_path("/srv", ""), "/srv/");
    assert_eq!(join_path("", "a"), "a");
    assert_eq!(join_path("/srv", "/etc"), "/etc");
    assert_eq!(extension_of("/srv/a.tar.gz"), Some("gz".to_string()));
    assert_eq!(extension_of("/srv/a.py/./"), Some("py".to_string()));
    assert_eq!(extension_of("/srv.d/a"), None);
    assert_eq!(extension_of("/srv/.py"), None);
    assert_eq!(extension_of("/srv/a."), Some(String::new()));
    assert_eq!(extension_of("a/.."), None);
    assert_eq!(extension_of("/"), None);
}

#[test]
fn more_multipart() {
    assert_eq!(multipart_boundary("Multipart/Form-Data; x=1;  BOUNDARY=q"), Some("--q".to_string()));
    assert_eq!(multipart_boundary("multipart/form-data"), None);
    assert_eq!(text_filename("FileName=a\"b"), Some("a".to_string()));
    assert_eq!(text_filename("name=\"x\""), None);
    assert_eq!(sanitize_filename("C:\\dir\\ name.txt "), "name.txt");
    assert_eq!(sanitize_filename("a/."), "");
    assert_eq!(text_filename("filename=\"\"; x=\"y\""), Some(String::new()));
    // Bytes that are no text do not hide a file name.
    assert_eq!(part_filename(b"\xff filename=\"x\xfe\""), Some("x\u{fffd}".to_string()));
}

#[test]
fn files_without_a_name_are_skipped() {
    let h = b"Content-Disposition: form-data; name=\"f\"; filename=\"\"\r\nContent-Type: text/plain";
    assert_eq!(part_filename(h), Some("".to_string()));
    let mut body: Vec<u8> = b"--XYZ\r\n".to_vec();
    body.extend_from_slice(h);
    body.extend_from_slice(b"\r\n\r\nlost\r\n--XYZ\r\nX: filename=\"a\"\r\n\r\nkept\r\n--XYZ--\r\n");
    let parts = read_parts(&body, b"--XYZ");
    assert_eq!(parts.len(), 1);
    assert_eq!((parts[0].name.as_str(), parts[0].content.as_slice()), ("a", b"kept".as_slice()));
}

#[test]
fn files_of_a_form_come_out_as_they_went_in() {
    let mut body: Vec<u8> = Vec::new();
    body.extend_from_slice(b"preamble");
    body.extend_from_slice(b"--XYZab\r\nContent-Disposition: form-data; filename=\"../a.bin\"\r\n\r\n");
    body.extend_from_slice(b"one\r\n\r\ntwo\x00\xff");
    body.extend_from_slice(b"\r\n--XYZab\r\nContent-Disposition: form-data; name=\"f\"\r\n\r\nvalue");
    body.extend_from_slice(b"\r\n--XYZab\r\nno head");
    body.extend_from_slice(b"\r\n--XYZab\r\nX: filename=\"..\"\r\n\r\nskipped");
    body.extend_from_slice(b"\r\n--XYZab\r\nX: filename=\"b\"\r\n\r\n");
    body.extend_from_slice(b"\r\n--XYZab--\r\n");
    let parts = read_parts(&body, b"--XYZab");
    let shown: Vec<(&str, &[u8])> =
        parts.iter().map(|p| (p.name.as_str(), p.content.as_slice())).collect();
    assert_eq!(
        shown,
        vec![("a.bin", b"one\r\n\r\ntwo\x00\xff".as_slice()), ("b", b"".as_slice())]
    );
}

#[test]
fn searching_bytes() {
    assert_eq!(find(b"hello", b"l"), Some(2));
    assert_eq!(find(b"hello", b""), None);
    assert_eq!(find(b"he", b"hello"), None);
    assert_eq!(find_all(b"aaaa", b"aa"), vec![0, 2]);
    assert_eq!(find_all(b"abc", b"x"), Vec::<usize>::new());
}

#[test]
fn phrases_and_connections() {
    assert_eq!(reason_phrase(200), "OK");
    assert_eq!(reason_phrase(413), "Payload Too Large");
    assert_eq!(reason_phrase(418), "Error");
    assert!(wants_keep_alive("HTTP/1.1", None));
    assert!(!wants_keep_alive("HTTP/1.1", Some("Close")));
    assert!(wants_keep_alive("HTTP/1.1", Some("upgrade")));
    assert!(!wants_keep_alive("HTTP/1.0", None));
    assert!(wants_keep_alive("HTTP/1.0", Some("Keep-Alive")));
}

#[test]
fn responses_on_the_wire() {
    let mut r = Response::with_body(200, "text/plain", b"hi\xff".to_vec());
    r.set_header("X", "é");
    let mut expected = "HTTP/1.1 200 OK\r\nContent-Type: text/plain\r\nX: é\r\nContent-Length: 3\r\nConnection: keep-alive\r\n\r\nhi"
        .as_bytes()
        .to_vec();
    expected.push(0xff);
    assert_eq!(r.into_bytes(), expected);
    let mut r = Response::new(204);
    r.keep_alive = false;
    assert_eq!(
        r.into_bytes(),
        b"HTTP/1.1 204 No Content\r\nContent-Length: 0\r\nConnection: close\r\n\r\n".to_vec()
    );
}

#[test]
fn listings_are_sorted_and_escaped() {
    let items = vec![
        ("b".to_string(), false),
        ("a<&\">".to_string(), false),
        ("B".to_string(), true),
        ("a".to_string(), true),
        ("a".to_string(), false),
    ];
    let sorted = sort_entries(items.clone());
    assert_eq!(
        sorted,
        vec![
            ("B".to_string(), true),
            ("a".to_string(), false),
            ("a".to_string(), true),
            ("a<&\">".to_string(), false),
            ("b".to_string(), false),
        ]
    );
    let mut by_std = items.clone();
    by_std.sort();
    assert_eq!(sorted, by_std);
    assert_eq!(html_escape("a<&\">"), "a&lt;&amp;&quot;&gt;");
    assert_eq!(
        autoindex_html("/x", vec![("d&".to_string(), true)]),
        "<!DOCTYPE html><html><head><meta charset=\"utf-8\"><title>Index of /x</title></head>\
         <body><h1>Index of /x</h1><ul><li><a href=\"../\">../</a></li>\
         <li><a href=\"/x/d&amp;/\">d&amp;/</a></li></ul></body></html>"
    );
    assert_eq!(
        autoindex_html("/", vec![]),
        "<!DOCTYPE html><html><head><meta charset=\"utf-8\"><title>Index of /</title></head>\
         <body><h1>Index of /</h1><ul></ul></body></html>"
    );
}

fn fields(r: &Response) -> Vec<(&str, &str)> {
    r.headers.iter().map(|(k, v)| (k.as_str(), v.as_str())).collect()
}

#[test]
fn script_output_becomes_a_response() {
    let r = parse_cgi_output(
        b"Status: 404 Not There\r\nContent-Type: a/b\r\nContent-Length: 9\r\nCONNECTION: x\r\nTransfer-Encoding: y\r\nX-Y:  z \r\nnonsense\r\n\r\nbody",
    );
    assert_eq!(r.status, 404);
    assert_eq!(fields(&r), vec![("Content-Type", "a/b"), ("X-Y", "z")]);
    assert_eq!(r.body, b"body");
    let r = parse_cgi_output(b"X: 1\n\nbo\ndy");
    assert_eq!(r.status, 200);
    assert_eq!(fields(&r), vec![("Content-Type", "text/plain; charset=utf-8"), ("X", "1")]);
    assert_eq!(r.body, b"bo\ndy");
    let r = parse_cgi_output(b"no headers at all");
    assert_eq!(r.body, b"no headers at all");
    let r = parse_output("status: \nStatus: abc", vec![1]);
    assert_eq!((r.status, r.body), (200, vec![1]));
    let r = parse_cgi_output(b"X: \xff\n\n");
    assert_eq!(fields(&r)[1], ("X", "\u{fffd}"));
}

const SITE: &str = r#"
    server {
        port 8080;
        error_page 404 /pages/404.html;
        route / { methods GET; root /www; index index.html; }
        route /list { root /www/list; autoindex on; }
        route /bare { root /www/bare; index home; }
        route /up { methods GET POST DELETE; root /www/up; }
        route /cgi { root /www/cgi; cgi .py /usr/bin/python3; }
        route /old { redirect 301 https://new/; }
        route /void { methods GET POST DELETE; }
        route /odd { methods PATCH; root /www; }
    }
"#;

fn site() -> Config {
    let out = parse(SITE);
    assert!(out.errors.is_empty(), "{:?}", out.errors);
    out.config
}

fn request(method: &str, path: &str, headers: &str, body: &[u8]) -> Request {
    let raw = format!("{method} {path} HTTP/1.1\r\nHost: x\r\n{headers}\r\n");
    match parse_head(raw.as_bytes()) {
        HeadStatus::Complete(h) => Request {
            method: h.method,
            path: h.path,
            query: h.query,
            headers: h.headers,
            body: body.to_vec(),
        },
        _ => panic!("bad request"),
    }
}

fn show(a: &Action) -> String {
    match a {
        Action::Stat { path } => format!("stat {path}"),
        Action::Read { path } => format!("read {path}"),
        Action::List { path } => format!("list {path}"),
        Action::Save { path, data, parents } => format!("save {path} {} {parents}", data.len()),
        Action::Remove { path } => format!("remove {path}"),
        Action::RunScript { interpreter, path } => format!("run {interpreter} {path}"),
    }
}

/// Runs a request to its end, with the given replies; gives the actions and
/// the response.
fn drive(req: &Request, replies: Vec<Reply>) -> (Vec<String>, Response) {
    let config = site();
    let server = &config.servers[0];
    let mut done = Vec::new();
    let mut replies = replies.into_iter();
    let mut step = handle(req, server, true);
    loop {
        match step {
            Step::Done(r) => return (done, r),
            Step::Ask(action, stage) => {
                done.push(show(&action));
                let reply = replies.next().unwrap_or(Reply::Failed);
                step = resume(req, server, true, stage, reply);
            }
        }
    }
}

fn contents(data: &[u8], content_type: &str) -> Reply {
    Reply::Contents { data: data.to_vec(), content_type: content_type.to_string() }
}

#[test]
fn serves_files_and_default_files() {
    let req = request("GET", "/a.txt", "", b"");
    let (done, r) = drive(&req, vec![Reply::Found(Kind::File), contents(b"x", "text/plain")]);
    assert_eq!(done, vec!["stat /www/a.txt", "read /www/a.txt"]);
    assert_eq!((r.status, r.keep_alive), (200, true));
    assert_eq!(fields(&r), vec![("Content-Type", "text/plain")]);
    assert_eq!(r.body, b"x");

    let req = request("GET", "/", "", b"");
    let replies =
        vec![Reply::Found(Kind::Directory), Reply::Found(Kind::File), contents(b"i", "text/html")];
    let (done, r) = drive(&req, replies);
    assert_eq!(done, vec!["stat /www/", "stat /www/index.html", "read /www/index.html"]);
    assert_eq!((r.status, r.body), (200, b"i".to_vec()));
}

#[test]
fn directories_without_a_default_file() {
    let (done, r) = drive(
        &request("GET", "/list/", "", b""),
        vec![Reply::Found(Kind::Directory), Reply::Entries(vec![("f".to_string(), false)])],
    );
    assert_eq!(done, vec!["stat /www/list/", "list /www/list/"]);
    assert_eq!(r.status, 200);
    let html = String::from_utf8(r.body).unwrap();
    assert!(html.contains("<li><a href=\"/list/f\">f</a></li>"), "{html}");

    let (done, r) =
        drive(&request("GET", "/bare", "", b""), vec![Reply::Found(Kind::Directory), Reply::Failed]);
    assert_eq!(done, vec!["stat /www/bare/", "stat /www/bare/home"]);
    assert_eq!((r.status, r.keep_alive), (403, false));

    let (_, r) = drive(
        &request("GET", "/list/", "", b""),
        vec![Reply::Found(Kind::Directory), Reply::Failed],
    );
    assert_eq!(r.status, 500);
}

#[test]
fn errors_use_the_configured_page() {
    let req = request("GET", "/none", "", b"");
    let (done, r) = drive(&req, vec![Reply::Failed, contents(b"gone", "text/html")]);
    assert_eq!(done, vec!["stat /www/none", "read /pages/404.html"]);
    assert_eq!((r.status, r.keep_alive, r.body.as_slice()), (404, false, b"gone".as_slice()));
    let (_, r) = drive(&req, vec![Reply::Failed, Reply::Failed]);
    assert_eq!(r.body, default_error_html(404).into_bytes());
    assert_eq!(
        default_error_html(404),
        "<!DOCTYPE html><html><head><meta charset=\"utf-8\"><title>404 Not Found</title></head>\
         <body><h1>404 Not Found</h1><hr><p>localhost</p></body></html>"
    );
    match error_response(None, 408) {
        Step::Done(r) => assert_eq!((r.status, r.keep_alive), (408, false)),
        Step::Ask(..) => panic!("no page to read"),
    }
    let r = error_page(403, None, contents(b"no", "x/y"));
    assert_eq!((r.status, r.body.as_slice()), (403, b"no".as_slice()));
    let (_, r) = drive(&request("GET", "/a", "", b""), vec![Reply::Found(Kind::File)]);
    assert_eq!(r.status, 500);
}

#[test]
fn redirects_come_first() {
    let (done, r) = drive(&request("PUT", "/old/x", "", b""), vec![]);
    assert!(done.is_empty());
    assert_eq!((r.status, r.keep_alive), (301, true));
    assert_eq!(
        fields(&r),
        vec![("Content-Type", "text/html; charset=utf-8"), ("Location", "https://new/")]
    );
    assert_eq!(
        String::from_utf8(r.body).unwrap(),
        "<!DOCTYPE html><html><body>Redirecting to <a href=\"https://new/\">https://new/</a></body></html>"
    );
}

#[test]
fn refused_methods_are_told_what_is_allowed() {
    let (done, r) = drive(&request("DELETE", "/", "", b""), vec![]);
    assert!(done.is_empty());
    assert_eq!((r.status, r.keep_alive), (405, false));
    assert_eq!(fields(&r)[1], ("Allow", "GET"));
    let (_, r) = drive(&request("PATCH", "/list/x", "", b""), vec![]);
    assert_eq!(fields(&r)[1], ("Allow", "GET, POST, DELETE"));
    let (_, r) = drive(&request("PATCH", "/odd/x", "", b""), vec![]);
    assert_eq!(r.status, 501);
}

#[test]
fn traversal_never_reaches_a_file() {
    for path in ["/up/../../etc/passwd", "/up/a/../b", "/cgi/../x.py"] {
        let (done, r) = drive(&request("GET", path, "", b""), vec![]);
        assert!(done.is_empty(), "{done:?}");
        assert_eq!((r.status, r.keep_alive), (403, false));
    }
}

#[test]
fn uploads_downloads_and_deletes_meet() {
    let (done, r) = drive(&request("POST", "/up/d/n.txt", "", b"12345"), vec![Reply::Finished]);
    assert_eq!(done, vec!["save /www/up/d/n.txt 5 true"]);
    assert_eq!(r.status, 201);
    assert_eq!(
        fields(&r),
        vec![("Content-Type", "text/plain; charset=utf-8"), ("Location", "/up/d/n.txt")]
    );
    assert_eq!(r.body, b"created /up/d/n.txt (5 bytes)\n");
    let (done, _) = drive(&request("GET", "/up/d/n.txt", "", b""), vec![Reply::Found(Kind::File)]);
    assert_eq!(done, vec!["stat /www/up/d/n.txt", "read /www/up/d/n.txt"]);
    let (done, r) = drive(
        &request("DELETE", "/up/d/n.txt", "", b""),
        vec![Reply::Found(Kind::Other), Reply::Finished],
    );
    assert_eq!(done, vec!["stat /www/up/d/n.txt", "remove /www/up/d/n.txt"]);
    assert_eq!((r.status, r.body.len(), r.headers.len()), (204, 0, 0));
}

#[test]
fn uploads_and_deletes_that_fail() {
    let (_, r) = drive(&request("POST", "/up", "", b"x"), vec![]);
    assert_eq!(r.status, 400);
    let (_, r) = drive(&request("POST", "/up/x", "", b"x"), vec![Reply::Failed]);
    assert_eq!(r.status, 500);
    let (_, r) = drive(&request("DELETE", "/up/", "", b""), vec![]);
    assert_eq!(r.status, 403);
    let (_, r) = drive(&request("DELETE", "/up/x", "", b""), vec![Reply::Found(Kind::Directory)]);
    assert_eq!(r.status, 403);
    let (_, r) = drive(&request("DELETE", "/up/x", "", b""), vec![Reply::Failed]);
    assert_eq!(r.status, 404);
    let (_, r) =
        drive(&request("DELETE", "/up/x", "", b""), vec![Reply::Found(Kind::File), Reply::Failed]);
    assert_eq!(r.status, 500);
    for method in ["GET", "POST", "DELETE"] {
        let (_, r) = drive(&request(method, "/void/x", "", b""), vec![]);
        assert_eq!(r.status, 404);
    }
}

#[test]
fn forms_are_saved_file_by_file() {
    let body = b"--QQQQ\r\nX: filename=\"a\"\r\n\r\n1\r\n--QQQQ\r\nX: filename=\"d/b\"\r\n\r\n22\r\n--QQQQ--\r\n";
    let headers = "Content-Type: multipart/form-data; boundary=QQQQ\r\n";
    let req = request("POST", "/up", headers, body);
    let (done, r) = drive(&req, vec![Reply::Finished, Reply::Finished]);
    assert_eq!(done, vec!["save /www/up/a 1 false", "save /www/up/b 2 false"]);
    assert_eq!((r.status, r.body.as_slice()), (201, b"uploaded: a, b\n".as_slice()));
    let (done, r) = drive(&req, vec![Reply::Finished, Reply::Failed]);
    assert_eq!((done.len(), r.status), (2, 500));
    let (done, r) = drive(&request("POST", "/up", headers, b"nothing"), vec![]);
    assert_eq!((done.len(), r.status), (0, 400));
}

/// Runs a request to its end on the files of a disk.
fn carry_out(req: &Request, files: &mut HashMap<String, Vec<u8>>) -> Response {
    let config = site();
    let server = &config.servers[0];
    let mut step = handle(req, server, true);
    loop {
        match step {
            Step::Done(r) => return r,
            Step::Ask(action, stage) => {
                let reply = match action {
                    Action::Stat { path } if files.contains_key(&path) => Reply::Found(Kind::File),
                    Action::Read { path } => match files.get(&path) {
                        Some(data) => contents(data, "x/y"),
                        None => Reply::Failed,
                    },
                    Action::Save { path, data, .. } => {
                        files.insert(path, data);
                        Reply::Finished
                    }
                    Action::Remove { path } if files.remove(&path).is_some() => Reply::Finished,
                    _ => Reply::Failed,
                };
                step = resume(req, server, true, stage, reply);
            }
        }
    }
}

#[test]
fn uploads_are_read_back_until_they_are_deleted() {
    let mut files = HashMap::new();
    files.insert("/pages/404.html".to_string(), b"gone".to_vec());
    let get = request("GET", "/up/d/a%20b.bin", "", b"");
    assert_eq!(carry_out(&get, &mut files).status, 404);
    let post = request("POST", "/up/d/a%20b.bin", "", b"one\r\n\x00\xfftwo");
    assert_eq!(carry_out(&post, &mut files).status, 201);
    let r = carry_out(&get, &mut files);
    assert_eq!((r.status, r.body.as_slice()), (200, b"one\r\n\x00\xfftwo".as_slice()));
    let delete = request("DELETE", "/up/d/a%20b.bin", "", b"");
    assert_eq!(carry_out(&delete, &mut files).status, 204);
    let r = carry_out(&get, &mut files);
    assert_eq!((r.status, r.body.as_slice()), (404, b"gone".as_slice()));
    assert_eq!(carry_out(&delete, &mut files).status, 404);
}

#[test]
fn files_of_a_form_are_read_back() {
    let mut files = HashMap::new();
    let body = b"--QQQQ\r\nX: filename=\"a\"\r\n\r\n1\r\n--QQQQ\r\nX: filename=\"d/b\"\r\n\r\n22\r\n--QQQQ\r\nX: filename=\"a\"\r\n\r\n333\r\n--QQQQ--\r\n";
    let headers = "Content-Type: multipart/form-data; boundary=QQQQ\r\n";
    assert_eq!(carry_out(&request("POST", "/up", headers, body), &mut files).status, 201);
    let r = carry_out(&request("GET", "/up/a", "", b""), &mut files);
    assert_eq!((r.status, r.body.as_slice()), (200, b"333".as_slice()));
    let r = carry_out(&request("GET", "/up/b", "", b""), &mut files);
    assert_eq!((r.status, r.body.as_slice()), (200, b"22".as_slice()));
}

#[test]
fn scripts_run_for_their_extension() {
    let req = request("POST", "/cgi/x.py?q=1", "", b"in");
    let (done, r) = drive(&req, vec![Reply::Output(b"Status: 201\n\nout".to_vec())]);
    assert_eq!(done, vec!["run /usr/bin/python3 /www/cgi/x.py"]);
    assert_eq!((r.status, r.keep_alive, r.body.as_slice()), (201, true, b"out".as_slice()));
    let (_, r) = drive(&req, vec![Reply::Output(b"Status: 500\n\n".to_vec())]);
    assert_eq!((r.status, r.keep_alive), (500, false));
    let (_, r) = drive(&req, vec![Reply::Unresolved]);
    assert_eq!(r.status, 404);
    let (_, r) = drive(&req, vec![Reply::Failed]);
    assert_eq!(r.status, 500);
    let (done, _) = drive(&request("GET", "/cgi/x.txt", "", b""), vec![]);
    assert_eq!(done[0], "stat /www/cgi/x.txt");
}

#[test]
fn routes_and_their_methods() {
    let config = site();
    let server = &config.servers[0];
    let up = best_route(&request("GET", "/up/x", "", b""), server).unwrap();
    assert_eq!(up.path, "/up");
    let root = best_route(&request("GET", "/upX", "", b""), server).unwrap();
    assert_eq!(root.path, "/");
    assert_eq!(allowed_methods(root), vec!["GET"]);
    assert!(method_allowed(root, "GET") && !method_allowed(root, "get"));
    let none = parse("server { port 1; route /a { } }").config;
    assert!(best_route(&request("GET", "/b", "", b""), &none.servers[0]).is_none());
    match handle(&request("GET", "/b", "", b""), &none.servers[0], true) {
        Step::Done(r) => assert_eq!(r.status, 404),
        Step::Ask(..) => panic!("no page to read"),
    }
}

#[test]
fn replies_of_the_wrong_kind_count_as_failures() {
    let config = site();
    let server = &config.servers[0];
    let req = request("GET", "/a", "", b"");
    for stage in [Stage::File, Stage::Listing, Stage::Script, Stage::Upload, Stage::Removal] {
        match resume(&req, server, true, stage, Reply::Found(Kind::File)) {
            Step::Done(r) => assert_eq!(r.status, 500),
            Step::Ask(..) => panic!("no page to read"),
        }
    }
}
