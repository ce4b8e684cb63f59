//! Configuration files: parsing, messages, and duplicate bindings.

use localhost::config::lexer::{tokenize, Tok};
use localhost::config::value::{parse_address, parse_size};
use localhost::config::{parse, Config, Route, ServerConfig, DEFAULT_MAX_BODY_SIZE};

#[test]
fn parses_a_full_server_block() {
    let src = r#"
            server {
                host 127.0.0.1;
                port 8080;
                server_name example.com;
                error_page 404 /errors/404.html;
                client_max_body_size 2m;
                route /uploads {
                    methods GET POST DELETE;
                    root /var/www/uploads;
                    index index.html;
                    autoindex on;
                    cgi .py /usr/bin/python3;
                    redirect 301 https://example.com/;
                }
            }
        "#;
    let out = parse(src);
    assert!(out.errors.is_empty(), "errors: {:?}", out.errors);
    assert_eq!(out.config.servers.len(), 1);
    let s = &out.config.servers[0];
    assert_eq!(s.host, [127, 0, 0, 1]);
    assert_eq!(s.ports, vec![8080]);
    assert_eq!(s.server_names, vec!["example.com"]);
    assert_eq!(s.error_pages.get(&404).map(String::as_str), Some("/errors/404.html"));
    assert_eq!(s.client_max_body_size, 2 * 1024 * 1024);
    assert_eq!(s.routes.len(), 1);
    let r = &s.routes[0];
    assert_eq!(r.path, "/uploads");
    assert_eq!(r.methods, vec!["GET", "POST", "DELETE"]);
    assert_eq!(r.root.as_deref(), Some("/var/www/uploads"));
    assert!(r.autoindex);
    assert_eq!(r.cgi.get(".py").map(String::as_str), Some("/usr/bin/python3"));
    assert_eq!(r.redirect, Some((301, "https://example.com/".to_string())));
}

#[test]
fn supports_multiple_ports_and_comments() {
    let src = r#"
            # a leading comment
            server {
                port 8080 8081; # inline comment
                port 9090;
            }
        "#;
    let out = parse(src);
    assert!(out.errors.is_empty(), "errors: {:?}", out.errors);
    assert_eq!(out.config.servers[0].ports, vec![8080, 8081, 9090]);
}

#[test]
fn detects_duplicate_binding() {
    let src = r#"
            server { port 8080; }
            server { port 8080; }
        "#;
    let out = parse(src);
    assert_eq!(out.config.servers.len(), 1, "second server should be dropped");
    assert!(out.errors.iter().any(|e| e.contains("duplicate binding")), "{:?}", out.errors);
}

#[test]
fn virtual_hosts_share_a_port() {
    let src = r#"
            server { port 8080; server_name a.com; }
            server { port 8080; server_name b.com; }
        "#;
    let out = parse(src);
    assert!(out.errors.is_empty(), "errors: {:?}", out.errors);
    assert_eq!(out.config.servers.len(), 2);
}

#[test]
fn collects_errors_and_keeps_valid_servers() {
    let src = r#"
            server { port notaport; }
            server { server_name lonely.com; }
            server { port 8080; }
        "#;
    let out = parse(src);
    // first: invalid port -> no ports -> dropped; second: no port -> dropped;
    // third: valid.
    assert_eq!(out.config.servers.len(), 1);
    assert_eq!(out.config.servers[0].ports, vec![8080]);
    assert!(out.errors.iter().any(|e| e.contains("invalid port")));
    assert!(out.errors.iter().any(|e| e.contains("no 'port'")));
}

#[test]
fn reports_missing_semicolon() {
    let src = "server { port 8080 }";
    let out = parse(src);
    assert!(out.errors.iter().any(|e| e.contains("missing ';'")), "{:?}", out.errors);
}

#[test]
fn size_suffixes() {
    assert_eq!(parse_size("1024"), Ok(1024));
    assert_eq!(parse_size("1k"), Ok(1024));
    assert_eq!(parse_size("2M"), Ok(2 * 1024 * 1024));
    assert_eq!(parse_size("1g"), Ok(1024 * 1024 * 1024));
    assert!(parse_size("abc").is_err());
}

#[test]
fn sizes_that_are_refused() {
    assert_eq!(parse_size("  "), Err("empty size value".to_string()));
    assert_eq!(parse_size("12X"), Err("invalid size suffix 'x'".to_string()));
    assert_eq!(parse_size("k"), Err("invalid size 'k'".to_string()));
    assert_eq!(parse_size("1 2"), Err("invalid size '1 2'".to_string()));
    assert_eq!(
        parse_size("18446744073709551615k"),
        Err("size '18446744073709551615k' overflows".to_string())
    );
    assert_eq!(
        parse_size("18446744073709551616"),
        Err("invalid size '18446744073709551616'".to_string())
    );
    assert_eq!(parse_size(" 3 m "), Ok(3 * 1024 * 1024));
    assert_eq!(parse_size("+7"), Ok(7));
}

#[test]
fn addresses_in_dotted_decimal() {
    assert_eq!(parse_address("192.168.0.255"), Some([192, 168, 0, 255]));
    assert_eq!(parse_address("0.0.0.0"), Some([0, 0, 0, 0]));
    assert_eq!(parse_address("256.0.0.1"), None);
    assert_eq!(parse_address("1.2.3"), None);
    assert_eq!(parse_address("1.2.3.4.5"), None);
    assert_eq!(parse_address("01.2.3.4"), None);
    assert_eq!(parse_address("1..3.4"), None);
    assert_eq!(parse_address("+1.2.3.4"), None);
    assert_eq!(parse_address("localhost"), None);
}

#[test]
fn tokens_carry_their_lines() {
    let toks = tokenize("a{b;\n# gone }\n}c#d\n e");
    let shown: Vec<(String, usize)> = toks
        .iter()
        .map(|t| {
            let name = match &t.tok {
                Tok::Word(w) => w.clone(),
                Tok::Open => "{".to_string(),
                Tok::Close => "}".to_string(),
                Tok::Semi => ";".to_string(),
            };
            (name, t.line)
        })
        .collect();
    let expected: Vec<(String, usize)> =
        vec![("a", 1), ("{", 1), ("b", 1), (";", 1), ("}", 3), ("c", 3), ("e", 4)]
            .into_iter()
            .map(|(n, l)| (n.to_string(), l))
            .collect();
    assert_eq!(shown, expected);
}

#[test]
fn blocks_start_with_defaults() {
    let s = ServerConfig::new();
    assert_eq!(s.host, [127, 0, 0, 1]);
    assert_eq!(s.host_str, "127.0.0.1");
    assert!(s.ports.is_empty() && s.server_names.is_empty() && s.routes.is_empty());
    assert!(s.error_pages.is_empty());
    assert_eq!(s.client_max_body_size, DEFAULT_MAX_BODY_SIZE);
    assert_eq!(s.client_max_body_size, 1024 * 1024);
    assert!(Config::default().servers.is_empty());
    let r = Route::new("/x".to_string());
    assert_eq!(r.path, "/x");
    assert!(r.methods.is_empty() && r.root.is_none() && r.index.is_none());
    assert!(!r.autoindex && r.cgi.is_empty() && r.redirect.is_none());
}

#[test]
fn every_message_of_a_server_block() {
    let src = "server {\n\
               host;\n\
               host nowhere;\n\
               port;\n\
               listen 99999;\n\
               server_name;\n\
               error_page 404;\n\
               error_page x 404 /p;\n\
               client_max_body_size;\n\
               client_max_body_size 1z;\n\
               bogus 1;\n\
               ; {\n\
               port 80\n\
               }\n\
               stray\n";
    let out = parse(src);
    let expected = vec![
        "line 2: 'host' requires an address",
        "line 3: invalid host 'nowhere'",
        "line 4: 'port' requires at least one value",
        "line 5: invalid port '99999'",
        "line 6: 'server_name' requires at least one name",
        "line 7: 'error_page' requires a code and a path",
        "line 8: invalid error code 'x'",
        "line 9: 'client_max_body_size' requires a value",
        "line 10: invalid size suffix 'z'",
        "line 11: unknown directive 'bogus'",
        "line 12: unexpected ';' in 'server' block",
        "line 12: unexpected '{' in 'server' block",
        "line 13: missing ';' after 'port' directive",
        "line 15: expected 'server', found 'stray'",
    ];
    assert_eq!(out.errors, expected);
    assert_eq!(out.config.servers.len(), 1);
    let s = &out.config.servers[0];
    assert_eq!(s.ports, vec![80]);
    assert_eq!(s.error_pages.get(&404).map(String::as_str), Some("/p"));
}

#[test]
fn every_message_of_a_route_block() {
    let src = "server { port 80; route /a {\n\
               methods;\n\
               root;\n\
               index;\n\
               autoindex maybe;\n\
               cgi .py;\n\
               redirect 301;\n\
               redirect x /y;\n\
               bogus;\n\
               ;\n\
               methods get Head;\n\
               } route { } route /b ; }";
    let out = parse(src);
    let expected = vec![
        "line 2: 'methods' requires at least one method",
        "line 3: 'root' requires a path",
        "line 4: 'index' requires a filename",
        "line 5: 'autoindex' must be 'on' or 'off'",
        "line 6: 'cgi' requires an extension and an interpreter",
        "line 7: 'redirect' requires a code and a URL",
        "line 8: invalid redirect code 'x'",
        "line 9: unknown route directive 'bogus'",
        "line 10: unexpected ';' in 'route' block",
        "line 12: 'route' requires a path",
        "line 12: expected 'server', found 'route'",
        "line 12: expected 'server', found '/b'",
        "line 12: expected 'server', found ';'",
        "line 12: expected 'server', found '}'",
    ];
    assert_eq!(out.errors, expected);
    let routes = &out.config.servers[0].routes;
    assert_eq!(routes.len(), 1);
    assert_eq!(routes[0].methods, vec!["GET", "HEAD"]);
}

#[test]
fn methods_are_put_in_capitals_by_unicode() {
    let out = parse("server { port 80; route / { methods straße; } }");
    assert_eq!(out.config.servers[0].routes[0].methods, vec!["STRASSE"]);
}

#[test]
fn files_that_end_too_soon() {
    assert_eq!(parse("server").errors, vec!["line 1: expected '{' after 'server'"]);
    assert_eq!(
        parse("server 80").errors,
        vec![
            "line 1: expected '{' after 'server', found '80'",
            "line 1: expected 'server', found '80'",
        ]
    );
    assert_eq!(
        parse("server {\nport 80;").errors,
        vec!["line 2: unterminated 'server' block (missing '}')"]
    );
    assert_eq!(
        parse("server { port 80; route").errors,
        vec![
            "line 1: expected '{' after 'route'",
            "line 1: unterminated 'server' block (missing '}')",
        ]
    );
    assert_eq!(
        parse("server { port 80; route /a {").errors,
        vec![
            "line 1: unterminated 'route' block (missing '}')",
            "line 1: unterminated 'server' block (missing '}')",
        ]
    );
    assert!(parse("").errors.is_empty());
}

#[test]
fn one_broken_block_leaves_the_others() {
    let first = "server { port 1; server_name a; }";
    let second = "server { host h; port; bogus 1; }";
    let third = "server { port 3; route /r { root /s; } }";
    let out = parse(&format!("{first}\n{second}\n{third}\n"));
    assert_eq!(out.config.servers.len(), 2);
    assert_eq!(out.config.servers[0].ports, parse(first).config.servers[0].ports);
    assert_eq!(out.config.servers[1].ports, vec![3]);
    assert_eq!(out.config.servers[1].routes[0].root.as_deref(), Some("/s"));
    assert!(parse(second).config.servers.is_empty());
}

#[test]
fn duplicates_drop_the_later_server_only() {
    let src = "server { port 80 81; server_name a b; }\n\
               server { port 81; server_name b c; }\n\
               server { port 81; server_name c; }\n\
               server { port 81; server_name d; }\n\
               server { port 90 90; }\n";
    let out = parse(src);
    let kept: Vec<Vec<String>> =
        out.config.servers.iter().map(|s| s.server_names.clone()).collect();
    assert_eq!(kept, vec![vec!["a".to_string(), "b".to_string()], vec!["d".to_string()]]);
    assert_eq!(
        out.errors,
        vec![
            "duplicate binding 127.0.0.1:81 for server_name b",
            "duplicate binding 127.0.0.1:81 for server_name c",
            "duplicate binding 127.0.0.1:90 for server_name (default)",
        ]
    );
}

#[test]
fn comments_end_words_and_nothing_else() {
    let with = parse("server { port 80#81;\n; server_name a; # b;\n }# server {");
    let without = parse("server { port 80\n; server_name a; \n }");
    assert!(with.errors.is_empty() && without.errors.is_empty());
    assert_eq!(with.config.servers[0].ports, without.config.servers[0].ports);
    assert_eq!(with.config.servers[0].server_names, without.config.servers[0].server_names);
}
