# localhost

The decision core of a single-process, single-threaded HTTP/1.1 server, verified
with Verus, and the program around it.

The library decides; the program does. Every function of `src/` is verified
against a contract over mathematical models: sequences of characters and bytes,
maps, and a state of the whole server. Sockets, files, scripts, the clock and
random bits are in `app/`, which carries out what the library asks for and comes
back with the result.

```
src/
  text.rs numbers.rs bytes.rs utf8.rs   text and bytes
  config/      grammar: lexer, directives, recursive-descent parser, laws
  http/        requests, responses, paths, routing, forms, listings,
               content types, CGI output
  cookies.rs   cookies and the session store (laws in session_laws.rs)
  cgi.rs       the command and environment of a script, and when to give up
  poll.rs      interests, flags and events
  server/      addresses and virtual hosts, connections, timeouts, laws
app/           sockets, pollers, files, scripts, the event loop
tests/         tests of the library
```

`law_...` functions are theorems about the library as a whole: that blocks of a
configuration are read independently, that no request leaves the root of its
route, that what was uploaded is served byte for byte until it is deleted, that
a pipelined request is the next one to be looked at, and so on. Laws about files
speak of a disk of which replies are true (`http/disk_laws.rs`).

What is trusted: four functions of the standard library (`String::push`,
`core::str::from_utf8`, `String::from_utf8_lossy`, `str::to_uppercase`), each
with a contract next to it.
