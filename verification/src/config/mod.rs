//! Configuration model and parser entry point.
//!
//! The grammar is nginx-flavoured:
//!
//! ```nginx
//! server {
//!     host        127.0.0.1;
//!     port        8080;
//!     server_name example.com;
//!     error_page  404 /errors/404.html;
//!     client_max_body_size 1m;
//!     route /uploads {
//!         methods   GET POST DELETE;
//!         root      /var/www/uploads;
//!         index     index.html;
//!         autoindex on;
//!         cgi       .py /usr/bin/python3;
//!         redirect  301 https://new.example.com/;
//!     }
//! }
//! ```

use crate::http::request::values;
use crate::text::texts;
use std::collections::HashMap;
use vstd::hash_map::StringHashMap;
use vstd::prelude::*;

pub mod directive;
pub mod directive_laws;
pub mod grammar_laws;
pub mod laws;
pub mod lexer;
pub mod lexer_laws;
pub mod parser;
pub mod value;
pub mod value_laws;

pub use parser::parse;

verus! {

/// Default upload limit when `client_max_body_size` is omitted: 1 MiB.
pub const DEFAULT_MAX_BODY_SIZE: usize = 1048576;

/// The whole parsed configuration: every valid `server` block.
pub struct Config {
    pub servers: Vec<ServerConfig>,
}

/// One `server { ... }` block.
pub struct ServerConfig {
    /// Bind address as four octets (e.g. `[127, 0, 0, 1]`).
    pub host: [u8; 4],
    /// The host as it was written, used for duplicate detection and logging.
    pub host_str: String,
    /// One or more ports this server listens on.
    pub ports: Vec<u16>,
    /// Virtual-host names. Empty means this is the default for its `host:port`.
    pub server_names: Vec<String>,
    /// Custom error pages: status code -> file path.
    pub error_pages: HashMap<u16, String>,
    /// Maximum accepted request body size in bytes.
    pub client_max_body_size: usize,
    /// Route blocks, matched longest-prefix-first by the router.
    pub routes: Vec<Route>,
}

/// A `route <path> { ... }` block.
pub struct Route {
    /// URL prefix this route matches (e.g. `/uploads`).
    pub path: String,
    /// Accepted HTTP methods. Empty means "no restriction" (router decides).
    pub methods: Vec<String>,
    /// Filesystem directory the path is rooted at.
    pub root: Option<String>,
    /// Default file served when the request targets a directory.
    pub index: Option<String>,
    /// Whether to generate a directory listing when no index file exists.
    pub autoindex: bool,
    /// CGI handlers: file extension (with dot) -> interpreter binary.
    pub cgi: StringHashMap<String>,
    /// Optional redirect: (status code, target URL).
    pub redirect: Option<(u16, String)>,
}

/// Result of parsing: the valid config plus every error encountered.
///
/// Parsing goes on past errors, so that the caller can log all of them and
/// decide whether the surviving servers are enough to start.
pub struct ParseOutcome {
    pub config: Config,
    pub errors: Vec<String>,
}

/// What a [`ServerConfig`] says.
#[verifier::ext_equal]
pub ghost struct ServerView {
    pub host: Seq<u8>,
    pub host_str: Seq<char>,
    pub ports: Seq<u16>,
    pub server_names: Seq<Seq<char>>,
    pub error_pages: Map<u16, Seq<char>>,
    pub client_max_body_size: int,
    pub routes: Seq<RouteView>,
}

/// What a [`Route`] says.
#[verifier::ext_equal]
pub ghost struct RouteView {
    pub path: Seq<char>,
    pub methods: Seq<Seq<char>>,
    pub root: Option<Seq<char>>,
    pub index: Option<Seq<char>>,
    pub autoindex: bool,
    pub cgi: Map<Seq<char>, Seq<char>>,
    pub redirect: Option<(u16, Seq<char>)>,
}

/// The text of a string that may be missing.
pub open spec fn text_of(s: Option<String>) -> Option<Seq<char>> {
    match s {
        Some(s) => Some(s@),
        None => None,
    }
}

/// The paths of error pages, by status code.
pub open spec fn pages(m: Map<u16, String>) -> Map<u16, Seq<char>> {
    m.map_values(|s: String| s@)
}

/// What a list of routes says.
pub open spec fn route_views(v: Seq<Route>) -> Seq<RouteView> {
    v.map_values(|r: Route| r@)
}

/// What a list of servers says.
pub open spec fn server_views(v: Seq<ServerConfig>) -> Seq<ServerView> {
    v.map_values(|s: ServerConfig| s@)
}

impl View for Route {
    type V = RouteView;

    open spec fn view(&self) -> RouteView {
        RouteView {
            path: self.path@,
            methods: texts(self.methods@),
            root: text_of(self.root),
            index: text_of(self.index),
            autoindex: self.autoindex,
            cgi: values(self.cgi@),
            redirect: match self.redirect {
                Some((code, target)) => Some((code, target@)),
                None => None,
            },
        }
    }
}

impl View for ServerConfig {
    type V = ServerView;

    open spec fn view(&self) -> ServerView {
        ServerView {
            host: self.host@,
            host_str: self.host_str@,
            ports: self.ports@,
            server_names: texts(self.server_names@),
            error_pages: pages(self.error_pages@),
            client_max_body_size: self.client_max_body_size as int,
            routes: route_views(self.routes@),
        }
    }
}

impl View for Config {
    type V = Seq<ServerView>;

    open spec fn view(&self) -> Seq<ServerView> {
        server_views(self.servers@)
    }
}

/// A server block in which nothing has been said yet.
pub open spec fn default_server() -> ServerView {
    ServerView {
        host: seq![127u8, 0u8, 0u8, 1u8],
        host_str: "127.0.0.1"@,
        ports: seq![],
        server_names: seq![],
        error_pages: Map::empty(),
        client_max_body_size: 1048576,
        routes: seq![],
    }
}

/// A route block in which nothing has been said yet.
pub open spec fn default_route(path: Seq<char>) -> RouteView {
    RouteView {
        path,
        methods: seq![],
        root: None,
        index: None,
        autoindex: false,
        cgi: Map::empty(),
        redirect: None,
    }
}

impl Default for Config {
    /// A configuration without servers.
    fn default() -> (r: Self)
        ensures
            r@ == Seq::<ServerView>::empty(),
    {
        let r = Config { servers: Vec::new() };
        assert(r@ =~= Seq::<ServerView>::empty());
        r
    }
}

impl ServerConfig {
    /// A server block in which nothing has been said yet.
    pub fn new() -> (r: Self)
        ensures
            r@ == default_server(),
    {
        broadcast use vstd::std_specs::hash::group_hash_axioms;

        let r = ServerConfig {
            host: [127, 0, 0, 1],
            host_str: "127.0.0.1".to_owned(),
            ports: Vec::new(),
            server_names: Vec::new(),
            error_pages: HashMap::new(),
            client_max_body_size: DEFAULT_MAX_BODY_SIZE,
            routes: Vec::new(),
        };
        assert(r@ =~= default_server());
        r
    }
}

impl Route {
    /// A route block in which nothing has been said yet.
    pub fn new(path: String) -> (r: Self)
        ensures
            r@ == default_route(path@),
    {
        let r = Route {
            path,
            methods: Vec::new(),
            root: None,
            index: None,
            autoindex: false,
            cgi: StringHashMap::new(),
            redirect: None,
        };
        assert(r@ =~= default_route(path@));
        r
    }
}

} // verus!
