//! The decision core of a single-process HTTP/1.1 server.

pub mod bytes;
pub mod cgi;
pub mod cgi_laws;
pub mod config;
pub mod cookies;
pub mod http;
pub mod number_laws;
pub mod numbers;
pub mod poll;
pub mod server;
pub mod session_laws;
pub mod text;
pub mod text_laws;
pub mod utf8;
