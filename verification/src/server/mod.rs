//! The runtime server: its addresses, its connections, and what happens to
//! them.
//!
//! A [`Server`] holds what is known of the connections and decides what is to
//! be done about each event. Sockets, files and scripts are not touched here:
//! each function returns an [`Effect`] to carry out.

use self::address::{
    address_views, build_addresses, law_addresses_have_servers, select_server, Address,
};
use self::state::{
    accepted, after_refusal, after_step, begun, cookie_of, dispatch, duty_for, finished,
    fresh_client, greeted, idle_server, is_abandoned, is_stalled, left_to_write, listening,
    pending_wf, queued, received, recycled, replied, sent, swept, timed_out, with_session, writable,
    ClientView, DispatchView, Duty, EffectView, GreetingView, IDLE_TIMEOUT, PendingView,
    REQUEST_TIMEOUT, ReceivedView, State,
};
use crate::bytes::push_bytes;
use crate::config::{text_of, Config};
use crate::cookies::{touched, SessionInfo, SessionStore};
use crate::http::request::{decode_body, parse_head, BodyStatus, HeadStatus, Request};
use crate::http::request_laws::{law_body_is_bounded, law_head_is_inside};
use crate::http::response::Response;
use crate::http::router::{error_page, error_response, handle, resume, Action, Reply, Stage, Step};
use crate::http::wants_keep_alive;
use crate::numbers::{decimal_of, hex};
use crate::poll::{Event, RawFd};
use std::collections::HashMap;
use vstd::prelude::*;
use vstd::slice::slice_subrange;

pub mod address;
pub mod address_laws;
pub mod connection_laws;
pub mod laws;
pub mod state;

verus! {

/// Per-connection state.
pub struct Client {
    addr_idx: usize,
    inbuf: Vec<u8>,
    outbuf: Vec<u8>,
    written: usize,
    keep_alive: bool,
    pending_len: usize,
    last_activity: u64,
}

impl View for Client {
    type V = ClientView;

    closed spec fn view(&self) -> ClientView {
        ClientView {
            addr_idx: self.addr_idx as int,
            inbuf: self.inbuf@,
            outbuf: self.outbuf@,
            written: self.written as int,
            keep_alive: self.keep_alive,
            pending_len: self.pending_len as int,
            last_activity: self.last_activity as int,
        }
    }
}

impl Client {
    /// A connection that was just accepted.
    pub fn new(addr_idx: usize, now: u64) -> (r: Self)
        ensures
            r@ == fresh_client(addr_idx as int, now as int),
    {
        let r = Client {
            addr_idx,
            inbuf: Vec::new(),
            outbuf: Vec::new(),
            written: 0,
            keep_alive: false,
            pending_len: 0,
            last_activity: now,
        };
        assert(r@ =~= fresh_client(addr_idx as int, now as int));
        r
    }
}

/// What is known of connections.
pub open spec fn client_views(m: Map<RawFd, Client>) -> Map<RawFd, ClientView> {
    m.map_values(|c: Client| c@)
}

/// The addresses behind listeners.
pub open spec fn listener_views(m: Map<RawFd, usize>) -> Map<RawFd, int> {
    m.map_values(|i: usize| i as int)
}

/// A server: what it was configured to do, and what is under way.
pub struct Server {
    config: Config,
    addresses: Vec<Address>,
    listener_addr: HashMap<RawFd, usize>,
    clients: HashMap<RawFd, Client>,
    sessions: SessionStore,
}

impl View for Server {
    type V = State;

    closed spec fn view(&self) -> State {
        State {
            servers: self.config@,
            addresses: address_views(self.addresses@),
            listeners: listener_views(self.listener_addr@),
            clients: client_views(self.clients@),
            sessions: self.sessions@,
        }
    }
}

/// What there is to do for the request at the front of a connection's buffer.
pub enum Dispatch {
    Wait,
    Refuse { code: u16, block: Option<usize> },
    Serve { request: Request, server: usize, keep_alive: bool, len: usize },
}

impl View for Dispatch {
    type V = DispatchView;

    open spec fn view(&self) -> DispatchView {
        match self {
            Dispatch::Wait => DispatchView::Wait,
            Dispatch::Refuse { code, block } => DispatchView::Refuse {
                code: *code,
                block: match block {
                    Some(i) => Some(*i as int),
                    None => None,
                },
            },
            Dispatch::Serve { request, server, keep_alive, len } => DispatchView::Serve {
                request: request@,
                server: *server as int,
                keep_alive: *keep_alive,
                len: *len as int,
            },
        }
    }
}

/// A response that waits for something.
pub enum Pending {
    Request {
        fd: RawFd,
        request: Request,
        server: usize,
        keep_alive: bool,
        len: usize,
        stage: Stage,
    },
    Refusal { fd: RawFd, code: u16 },
}

impl View for Pending {
    type V = PendingView;

    open spec fn view(&self) -> PendingView {
        match self {
            Pending::Request { fd, request, server, keep_alive, len, stage } => {
                PendingView::Request {
                    fd: *fd,
                    request: request@,
                    server: *server as int,
                    keep_alive: *keep_alive,
                    len: *len as int,
                    stage: stage@,
                }
            },
            Pending::Refusal { fd, code } => PendingView::Refusal { fd: *fd, code: *code },
        }
    }
}

/// A response that waits for a fresh session.
pub struct Greeting {
    fd: RawFd,
    response: Response,
    cookie: Option<String>,
    len: usize,
}

impl View for Greeting {
    type V = GreetingView;

    closed spec fn view(&self) -> GreetingView {
        GreetingView {
            fd: self.fd,
            response: self.response@,
            cookie: text_of(self.cookie),
            len: self.len as int,
        }
    }
}

/// What is to be done next about a connection.
pub enum Effect {
    Idle,
    Perform(Action, Pending),
    Draw(Greeting),
    Send,
    Write,
    Rearm,
    Close,
}

impl View for Effect {
    type V = EffectView;

    open spec fn view(&self) -> EffectView {
        match self {
            Effect::Idle => EffectView::Idle,
            Effect::Perform(action, pending) => EffectView::Perform(action@, pending@),
            Effect::Draw(g) => EffectView::Draw(g@),
            Effect::Send => EffectView::Send,
            Effect::Write => EffectView::Write,
            Effect::Rearm => EffectView::Rearm,
            Effect::Close => EffectView::Close,
        }
    }
}

/// What came of reading from a connection.
pub enum Received<'a> {
    Closed,
    Blocked,
    Failed,
    Data(&'a [u8]),
}

impl<'a> View for Received<'a> {
    type V = ReceivedView;

    open spec fn view(&self) -> ReceivedView {
        match self {
            Received::Closed => ReceivedView::Closed,
            Received::Blocked => ReceivedView::Blocked,
            Received::Failed => ReceivedView::Failed,
            Received::Data(data) => ReceivedView::Data(data@),
        }
    }
}

/// What came of a `read` that gave `n`.
pub open spec fn outcome_of_read(
    n: isize,
    data: Seq<u8>,
    errno: Option<i32>,
    again: i32,
) -> ReceivedView {
    if n == 0 {
        ReceivedView::Closed
    } else if n > 0 {
        ReceivedView::Data(data)
    } else if errno == Some(again) {
        ReceivedView::Blocked
    } else {
        ReceivedView::Failed
    }
}

/// What the result of a `read` means: the number of bytes, or zero for the end,
/// or less for an error, which is none where only nothing is there right now.
pub fn read_result<'a>(n: isize, data: &'a [u8], errno: Option<i32>, again: i32) -> (r: Received<
    'a,
>)
    ensures
        r@ == outcome_of_read(n, data@, errno, again),
{
    if n == 0 {
        Received::Closed
    } else if n > 0 {
        Received::Data(data)
    } else {
        match errno {
            Some(e) => if e == again {
                Received::Blocked
            } else {
                Received::Failed
            },
            None => Received::Failed,
        }
    }
}

/// Which connections the timeouts concern.
pub struct Swept {
    /// Those that are to be closed.
    pub closed: Vec<RawFd>,
    /// Those that are to be written to.
    pub told: Vec<RawFd>,
}

impl Server {
    /// Whether what is known fits together.
    pub closed spec fn wf(&self) -> bool {
        self@.wf() && self.sessions.wf()
    }

    /// A server for a configuration, which listens nowhere yet.
    pub fn new(config: Config) -> (r: Self)
        ensures
            r.wf(),
            r@ == idle_server(config@),
    {
        broadcast use vstd::std_specs::hash::group_hash_axioms;

        let addresses = build_addresses(&config);
        let r = Server {
            config,
            addresses,
            listener_addr: HashMap::new(),
            clients: HashMap::new(),
            sessions: SessionStore::new(),
        };
        proof {
            assert(r@ =~= idle_server(config@));
            law_addresses_have_servers(config@);
        }
        r
    }

    /// The addresses to listen on.
    pub fn addresses(&self) -> (r: &Vec<Address>)
        ensures
            address_views(r@) == self@.addresses,
    {
        &self.addresses
    }

    /// Notes that a listener is up.
    pub fn add_listener(&mut self, fd: RawFd, addr_idx: usize)
        requires
            old(self).wf(),
            addr_idx < old(self)@.addresses.len(),
        ensures
            final(self).wf(),
            final(self)@ == listening(old(self)@, fd, addr_idx as int),
    {
        broadcast use vstd::std_specs::hash::group_hash_axioms;

        let ghost had = self.listener_addr@;
        self.listener_addr.insert(fd, addr_idx);
        assert(listener_views(self.listener_addr@) =~= listener_views(had).insert(
            fd,
            addr_idx as int,
        ));
        assert(self@ == listening(old(self)@, fd, addr_idx as int));
        assert(self@.wf());
    }

    /// Tells whether no listener is up.
    pub fn is_deaf(&self) -> (r: bool)
        ensures
            r == self@.listeners.dom().is_empty(),
    {
        broadcast use vstd::std_specs::hash::group_hash_axioms;

        let r = self.listener_addr.is_empty();
        assert(self@.listeners.dom() =~= self.listener_addr@.dom());
        r
    }

    /// Decides what is to be done about an event.
    pub fn duty(&self, ev: Event) -> (r: Duty)
        requires
            self.wf(),
        ensures
            r == duty_for(self@, ev),
    {
        broadcast use vstd::std_specs::hash::group_hash_axioms;

        match self.listener_addr.get(&ev.fd) {
            Some(i) => Duty::Accept(*i),
            None => if ev.readable {
                Duty::Read
            } else if ev.writable {
                Duty::Write
            } else {
                Duty::Nothing
            },
        }
    }

    /// Sets what is known of a connection.
    fn set_client(&mut self, fd: RawFd, c: Client)
        requires
            old(self).wf(),
            old(self)@.client_wf(c@),
        ensures
            final(self).wf(),
            final(self)@ == old(self)@.with_client(fd, c@),
    {
        broadcast use vstd::std_specs::hash::group_hash_axioms;

        let ghost had = self.clients@;
        self.clients.insert(fd, c);
        proof {
            let was = old(self)@;
            assert(self@.addresses == was.addresses);
            assert(self@.listeners == was.listeners);
            assert(client_views(self.clients@) =~= client_views(had).insert(fd, c@));
            assert forall|g: RawFd| #[trigger] self@.clients.dom().contains(g) implies self@.client_wf(
                self@.clients[g],
            ) by {
                if g != fd {
                    assert(was.clients.dom().contains(g));
                }
            }
        }
    }

    /// Takes out what is known of a connection.
    fn take_client(&mut self, fd: RawFd) -> (r: Option<Client>)
        requires
            old(self).wf(),
        ensures
            final(self).wf(),
            final(self)@ == old(self)@.without_client(fd),
            match r {
                Some(c) => old(self)@.has_client(fd) && c@ == old(self)@.clients[fd],
                None => !old(self)@.has_client(fd),
            },
    {
        broadcast use vstd::std_specs::hash::group_hash_axioms;

        let ghost had = self.clients@;
        let r = self.clients.remove(&fd);
        proof {
            let was = old(self)@;
            assert(self@.addresses == was.addresses);
            assert(self@.listeners == was.listeners);
            assert(client_views(self.clients@) =~= client_views(had).remove(fd));
            assert forall|g: RawFd| #[trigger] self@.clients.dom().contains(g) implies self@.client_wf(
                self@.clients[g],
            ) by {
                assert(was.clients.dom().contains(g));
            }
        }
        r
    }

    /// Looks at what is known of a connection.
    fn client(&self, fd: RawFd) -> (r: Option<&Client>)
        ensures
            match r {
                Some(c) => self@.has_client(fd) && c@ == self@.clients[fd],
                None => !self@.has_client(fd),
            },
    {
        broadcast use vstd::std_specs::hash::group_hash_axioms;

        self.clients.get(&fd)
    }

    /// Notes that a connection was accepted on an address.
    pub fn accept(&mut self, fd: RawFd, addr_idx: usize, now: u64)
        requires
            old(self).wf(),
            addr_idx < old(self)@.addresses.len(),
        ensures
            final(self).wf(),
            final(self)@ == accepted(old(self)@, fd, addr_idx as int, now as int),
    {
        let c = Client::new(addr_idx, now);
        self.set_client(fd, c);
    }

    /// Forgets a connection, so that no buffer ever leaks. The caller closes
    /// it.
    pub fn remove_client(&mut self, fd: RawFd)
        requires
            old(self).wf(),
        ensures
            final(self).wf(),
            final(self)@ == old(self)@.without_client(fd),
    {
        self.take_client(fd);
    }

    /// Attempts to parse a complete request from a client's buffer.
    pub fn try_dispatch(&self, fd: RawFd) -> (r: Dispatch)
        requires
            self.wf(),
        ensures
            r@ == dispatch(self@, fd),
            r matches Dispatch::Serve { server, .. } ==> server < self@.servers.len(),
            r matches Dispatch::Refuse { block: Some(i), .. } ==> i < self@.servers.len(),
    {
        let c = match self.client(fd) {
            Some(c) => c,
            None => return Dispatch::Wait,
        };
        // 1. Parse the request line + headers.
        let head = match parse_head(c.inbuf.as_slice()) {
            HeadStatus::NeedMore => return Dispatch::Wait,
            HeadStatus::Bad(code) => return Dispatch::Refuse { code, block: None },
            HeadStatus::Complete(head) => head,
        };
        proof {
            law_head_is_inside(c.inbuf@);
            assert(self@.addresses[c.addr_idx as int] == self.addresses@[c.addr_idx as int]@);
        }
        // 2. Pick the server block (by Host) and thus the body-size limit.
        let server: usize = select_server(
            &self.config,
            &self.addresses[c.addr_idx],
            head.host(),
        );
        proof {
            assert(self@.servers[server as int] == self.config.servers@[server as int]@);
        }
        let max_body: usize = self.config.servers[server].client_max_body_size;
        // 3. Determine and decode the body.
        let mode = match head.body_mode() {
            Ok(mode) => mode,
            Err(code) => return Dispatch::Refuse { code, block: Some(server) },
        };
        let body_buf = slice_subrange(c.inbuf.as_slice(), head.head_len, c.inbuf.len());
        proof {
            law_body_is_bounded(body_buf@, mode, max_body as int);
        }
        match decode_body(body_buf, &mode, max_body) {
            BodyStatus::NeedMore => Dispatch::Wait,
            BodyStatus::TooLarge => Dispatch::Refuse { code: 413, block: Some(server) },
            BodyStatus::Bad(code) => Dispatch::Refuse { code, block: Some(server) },
            BodyStatus::Complete { body, consumed } => {
                let connection = match head.headers.get("connection") {
                    Some(v) => Some(v.as_str()),
                    None => None,
                };
                let keep_alive: bool = wants_keep_alive(head.version.as_str(), connection);
                assert(head.head_len + consumed <= c.inbuf.len());
                let len: usize = head.head_len + consumed;
                let request = Request {
                    method: head.method,
                    path: head.path,
                    query: head.query,
                    headers: head.headers,
                    body,
                };
                Dispatch::Serve { request, server, keep_alive, len }
            },
        }
    }

    /// Buffers a response and switches the connection to writing.
    fn queue_response(&mut self, fd: RawFd, response: Response, len: usize)
        requires
            old(self).wf(),
        ensures
            final(self).wf(),
            final(self)@ == queued(old(self)@, fd, response@, len as int),
    {
        match self.take_client(fd) {
            Some(c) => {
                let mut c = c;
                c.keep_alive = response.keep_alive;
                c.pending_len = len;
                c.outbuf = response.into_bytes();
                c.written = 0;
                self.set_client(fd, c);
                assert(self@ =~= queued(old(self)@, fd, response@, len as int));
            },
            None => {
                assert(self@ =~= old(self)@);
            },
        }
    }

    /// Puts what is known of the visit on a response.
    fn stamp_session(response: &mut Response, info: &SessionInfo)
        ensures
            final(response)@ == with_session(old(response)@, info@),
    {
        if info.is_new {
            let value = SessionStore::set_cookie_header(info.id.as_str());
            response.set_header("Set-Cookie", value.as_str());
        }
        let visits = decimal_of(info.visits);
        response.set_header("X-Session-Visits", visits.as_str());
    }

    /// Sends a response that was waiting for a fresh session, given random
    /// bits: ensures the client has a session, counts the visit, and issues a
    /// `Set-Cookie` for brand-new sessions. The visit count is surfaced as a
    /// header.
    pub fn greet(&mut self, greeting: Greeting, now: u64, entropy: &[u8; 16]) -> (r: Effect)
        requires
            old(self).wf(),
        ensures
            final(self).wf(),
            final(self)@ == greeted(old(self)@, greeting@, now, hex(entropy@)),
            r@ == EffectView::Send,
    {
        let mut response = greeting.response;
        let cookie = match &greeting.cookie {
            Some(c) => Some(c.as_str()),
            None => None,
        };
        let ghost before = self@;
        let info = self.sessions.touch(cookie, now, entropy);
        assert(self@ =~= State { sessions: self.sessions@, ..before });
        Self::stamp_session(&mut response, &info);
        self.queue_response(greeting.fd, response, greeting.len);
        Effect::Send
    }

    /// Goes on with a request after a step of it.
    fn take_step(
        &mut self,
        fd: RawFd,
        request: Request,
        server: usize,
        keep_alive: bool,
        len: usize,
        step: Step,
        now: u64,
    ) -> (r: Effect)
        requires
            old(self).wf(),
            server < old(self)@.servers.len(),
        ensures
            final(self).wf(),
            (final(self)@, r@) == after_step(
                old(self)@,
                fd,
                request@,
                server as int,
                keep_alive,
                len as int,
                step@,
                now,
            ),
            r matches Effect::Perform(_, p) ==> pending_wf(final(self)@, p@),
    {
        match step {
            Step::Ask(action, stage) => Effect::Perform(
                action,
                Pending::Request { fd, request, server, keep_alive, len, stage },
            ),
            Step::Done(response) => {
                let cookie = match request.headers.get("cookie") {
                    Some(c) => Some(c.clone()),
                    None => None,
                };
                assert(text_of(cookie) == cookie_of(request@));
                let fresh: bool = match &cookie {
                    Some(c) => self.sessions.needs_session(Some(c.as_str()), now),
                    None => self.sessions.needs_session(None, now),
                };
                let greeting = Greeting { fd, response, cookie, len };
                if fresh {
                    Effect::Draw(greeting)
                } else {
                    let unused: [u8; 16] = [0; 16];
                    let ghost before = self@;
                    let r = self.greet(greeting, now, &unused);
                    assert(touched(before.sessions, greeting@.cookie, now, hex(unused@))
                        == touched(before.sessions, greeting@.cookie, now, seq![]));
                    r
                }
            },
        }
    }

    /// Answers with an error, using the server's configured error page when a
    /// server block has been resolved. Error responses always close.
    fn respond_error(&mut self, fd: RawFd, code: u16, server: Option<usize>) -> (r: Effect)
        requires
            old(self).wf(),
            server matches Some(i) ==> i < old(self)@.servers.len(),
        ensures
            final(self).wf(),
            (final(self)@, r@) == after_refusal(
                old(self)@,
                fd,
                code,
                match server {
                    Some(i) => Some(i as int),
                    None => None,
                },
            ),
            r matches Effect::Perform(_, p) ==> pending_wf(final(self)@, p@),
    {
        let step = match server {
            Some(i) => {
                assert(self@.servers[i as int] == self.config.servers@[i as int]@);
                error_response(Some(&self.config.servers[i]), code)
            },
            None => error_response(None, code),
        };
        match step {
            Step::Ask(action, _) => Effect::Perform(action, Pending::Refusal { fd, code }),
            Step::Done(response) => {
                self.queue_response(fd, response, 0);
                Effect::Send
            },
        }
    }

    /// Looks at the buffer of a connection and begins to answer the request at
    /// its front, if there is one.
    pub fn begin(&mut self, fd: RawFd, now: u64) -> (r: Effect)
        requires
            old(self).wf(),
        ensures
            final(self).wf(),
            (final(self)@, r@) == begun(old(self)@, fd, now),
            r matches Effect::Perform(_, p) ==> pending_wf(final(self)@, p@),
    {
        match self.try_dispatch(fd) {
            Dispatch::Wait => Effect::Idle,
            Dispatch::Refuse { code, block } => self.respond_error(fd, code, block),
            Dispatch::Serve { request, server, keep_alive, len } => {
                assert(self@.servers[server as int] == self.config.servers@[server as int]@);
                let step = handle(&request, &self.config.servers[server], keep_alive);
                self.take_step(fd, request, server, keep_alive, len, step, now)
            },
        }
    }

    /// Goes on with a response that was waiting for a reply.
    pub fn reply(&mut self, pending: Pending, reply: Reply, now: u64) -> (r: Effect)
        requires
            old(self).wf(),
            pending_wf(old(self)@, pending@),
        ensures
            final(self).wf(),
            (final(self)@, r@) == replied(old(self)@, pending@, reply@, now),
            r matches Effect::Perform(_, p) ==> pending_wf(final(self)@, p@),
    {
        match pending {
            Pending::Request { fd, request, server, keep_alive, len, stage } => {
                assert(self@.servers[server as int] == self.config.servers@[server as int]@);
                let step = resume(
                    &request,
                    &self.config.servers[server],
                    keep_alive,
                    stage,
                    reply,
                );
                self.take_step(fd, request, server, keep_alive, len, step, now)
            },
            Pending::Refusal { fd, code } => {
                let response = error_page(code, None, reply);
                self.queue_response(fd, response, 0);
                Effect::Send
            },
        }
    }

    /// Takes up what came of reading from a connection: appends the freshly
    /// read bytes, and then tries to parse a complete request.
    pub fn receive(&mut self, fd: RawFd, got: Received, now: u64) -> (r: Effect)
        requires
            old(self).wf(),
        ensures
            final(self).wf(),
            (final(self)@, r@) == received(old(self)@, fd, got@, now),
            r matches Effect::Perform(_, p) ==> pending_wf(final(self)@, p@),
    {
        match got {
            Received::Closed => {
                self.remove_client(fd);
                Effect::Close
            },
            Received::Failed => {
                self.remove_client(fd);
                Effect::Close
            },
            Received::Blocked => Effect::Idle,
            Received::Data(data) => match self.take_client(fd) {
                Some(c) => {
                    let mut c = c;
                    push_bytes(&mut c.inbuf, data);
                    c.last_activity = now;
                    self.set_client(fd, c);
                    proof {
                        let was = old(self)@.clients[fd];
                        assert(self@ =~= old(self)@.with_client(
                            fd,
                            ClientView {
                                inbuf: was.inbuf + data@,
                                last_activity: now as int,
                                ..was
                            },
                        ));
                    }
                    self.begin(fd, now)
                },
                None => {
                    assert(self@ =~= old(self)@);
                    Effect::Idle
                },
            },
        }
    }

    /// Decides what to do with a connection that can be written to.
    pub fn ready_to_write(&mut self, fd: RawFd) -> (r: Effect)
        requires
            old(self).wf(),
        ensures
            final(self).wf(),
            (final(self)@, r@) == writable(old(self)@, fd),
    {
        let done: bool = match self.client(fd) {
            Some(c) => c.written >= c.outbuf.len(),
            None => return Effect::Idle,
        };
        if done {
            self.remove_client(fd);
            Effect::Close
        } else {
            Effect::Write
        }
    }

    /// The bytes that are left to write on a connection.
    pub fn outgoing(&self, fd: RawFd) -> (r: Option<&[u8]>)
        requires
            self.wf(),
        ensures
            match r {
                Some(b) => self@.has_client(fd) && b@ == left_to_write(self@.clients[fd]),
                None => !self@.has_client(fd),
            },
    {
        match self.client(fd) {
            Some(c) => Some(slice_subrange(c.outbuf.as_slice(), c.written, c.outbuf.len())),
            None => None,
        }
    }

    /// Ends a response that has been written. Closes the connection, or for
    /// keep-alive resets it for the next request: the bytes of the request
    /// just answered are drained, and any pipelined request is looked at once
    /// the connection waits for reading again.
    fn finish_response(&mut self, fd: RawFd) -> (r: Effect)
        requires
            old(self).wf(),
        ensures
            final(self).wf(),
            (final(self)@, r@) == finished(old(self)@, fd),
    {
        match self.take_client(fd) {
            Some(c) => {
                if !c.keep_alive {
                    return Effect::Close;
                }
                let mut c = c;
                let ghost was = c@;
                let mut rest: Vec<u8> = Vec::new();
                if c.pending_len <= c.inbuf.len() {
                    push_bytes(
                        &mut rest,
                        slice_subrange(c.inbuf.as_slice(), c.pending_len, c.inbuf.len()),
                    );
                }
                c.inbuf = rest;
                c.outbuf = Vec::new();
                c.written = 0;
                c.keep_alive = false;
                c.pending_len = 0;
                assert(c@ =~= recycled(was));
                self.set_client(fd, c);
                assert(self@ =~= old(self)@.with_client(fd, recycled(was)));
                Effect::Rearm
            },
            None => {
                assert(self@ =~= old(self)@);
                Effect::Idle
            },
        }
    }

    /// Takes up what came of writing to a connection: `n` is what the system
    /// gave, and `blocked` whether an error only meant that nothing can be
    /// written right now.
    pub fn note_written(&mut self, fd: RawFd, n: isize, blocked: bool, now: u64) -> (r: Effect)
        requires
            old(self).wf(),
        ensures
            final(self).wf(),
            (final(self)@, r@) == sent(old(self)@, fd, n as int, blocked, now),
    {
        if n > 0 {
            match self.take_client(fd) {
                Some(c) => {
                    let mut c = c;
                    let left: usize = c.outbuf.len() - c.written;
                    let done: bool = n as usize >= left;
                    c.written = if done {
                        c.outbuf.len()
                    } else {
                        c.written + n as usize
                    };
                    c.last_activity = now;
                    self.set_client(fd, c);
                    proof {
                        let was = old(self)@.clients[fd];
                        assert(self@ =~= old(self)@.with_client(
                            fd,
                            ClientView { written: c@.written, last_activity: now as int, ..was },
                        ));
                    }
                    if done {
                        self.finish_response(fd)
                    } else {
                        Effect::Idle
                    }
                },
                None => {
                    assert(self@ =~= old(self)@);
                    Effect::Idle
                },
            }
        } else if n < 0 && !blocked {
            self.remove_client(fd);
            Effect::Close
        } else {
            Effect::Idle
        }
    }

    /// The descriptors of all connections.
    fn client_fds(&self) -> (r: Vec<RawFd>)
        ensures
            r@.no_duplicates(),
            r@.to_set() == self@.clients.dom(),
    {
        broadcast use vstd::std_specs::hash::group_hash_axioms;

        let mut out: Vec<RawFd> = Vec::new();
        for fd in it: self.clients.keys()
            invariant
                it.seq().unref().to_set() == self.clients@.dom(),
                it.seq().no_duplicates(),
                out@ == it.seq().unref().take(it.index()),
                it.index() == it.seq().len() ==> out@.to_set() =~= self.clients@.dom(),
        {
            out.push(*fd);
            proof {
                let all = it.seq().unref();
                assert(out@ =~= all.take(it.index() + 1));
                assert(all.take(all.len() as int) =~= all);
            }
        }
        assert(self@.clients.dom() =~= self.clients@.dom());
        out
    }

    /// Closes connections that have gone idle, and tells those that started a
    /// request but never finished it that they took too long. A connection
    /// mid-write is making progress and is left alone.
    pub fn sweep_timeouts(&mut self, now: u64) -> (r: Swept)
        requires
            old(self).wf(),
        ensures
            final(self).wf(),
            final(self)@ == swept(old(self)@, now),
            r.closed@.no_duplicates(),
            forall|fd: RawFd| #[trigger]
                r.closed@.contains(fd) <==> old(self)@.has_client(fd) && is_abandoned(
                    old(self)@.clients[fd],
                    now,
                ),
            r.told@.no_duplicates(),
            forall|fd: RawFd| #[trigger]
                r.told@.contains(fd) <==> old(self)@.has_client(fd) && is_stalled(
                    old(self)@.clients[fd],
                    now,
                ),
    {
        let fds = self.client_fds();
        let ghost was = old(self)@;
        let mut closed: Vec<RawFd> = Vec::new();
        let mut told: Vec<RawFd> = Vec::new();
        let mut i: usize = 0;
        assert(self@ =~= swept_at(was, fds@.take(0), now));
        while i < fds.len()
            invariant
                self.wf(),
                i <= fds@.len(),
                fds@.no_duplicates(),
                fds@.to_set() == was.clients.dom(),
                self@ == swept_at(was, fds@.take(i as int), now),
                closed@.no_duplicates(),
                told@.no_duplicates(),
                forall|fd: RawFd| #[trigger]
                    closed@.contains(fd) <==> fds@.take(i as int).contains(fd) && is_abandoned(
                        was.clients[fd],
                        now,
                    ),
                forall|fd: RawFd| #[trigger]
                    told@.contains(fd) <==> fds@.take(i as int).contains(fd) && is_stalled(
                        was.clients[fd],
                        now,
                    ),
            decreases fds@.len() - i,
        {
            let fd: RawFd = fds[i];
            let ghost done = fds@.take(i as int);
            let ghost more = fds@.take(i + 1);
            let ghost had_closed = closed@;
            let ghost had_told = told@;
            proof {
                assert(fds@.to_set().contains(fds@[i as int]));
                assert(!done.contains(fd)) by {
                    if done.contains(fd) {
                        let j = choose|j: int| 0 <= j < done.len() && done[j] == fd;
                        assert(fds@[j] == fds@[i as int]);
                    }
                }
                assert(more =~= done.push(fd));
                lemma_contains_push(done, fd);
                lemma_contains_push(had_closed, fd);
                lemma_contains_push(had_told, fd);
                assert(!had_closed.contains(fd) && !had_told.contains(fd));
                assert(self@.clients.dom().contains(fd));
                assert(self@.clients[fd] == was.clients[fd]);
            }
            let (abandoned, stalled): (bool, bool) = match self.client(fd) {
                Some(c) => {
                    let idle: u64 = if now >= c.last_activity {
                        now - c.last_activity
                    } else {
                        0
                    };
                    (
                        c.outbuf.len() == 0 && c.inbuf.len() == 0 && idle >= IDLE_TIMEOUT,
                        c.outbuf.len() == 0 && c.inbuf.len() > 0 && idle >= REQUEST_TIMEOUT,
                    )
                },
                None => (false, false),
            };
            if abandoned {
                self.remove_client(fd);
                closed.push(fd);
            } else if stalled {
                let response = error_page(408, None, Reply::Failed);
                self.queue_response(fd, response, 0);
                told.push(fd);
            }
            assert(self@ =~= swept_at(was, more, now));
            i += 1;
        }
        proof {
            assert(fds@.take(fds@.len() as int) =~= fds@);
            assert forall|fd: RawFd| #[trigger] fds@.contains(fd) <==> was.has_client(fd) by {
                assert(fds@.to_set().contains(fd) == fds@.contains(fd));
            }
            assert(self@ =~= swept(was, now));
        }
        Swept { closed, told }
    }
}

/// What is left of the connections once the timeouts of those in `done` have
/// been seen to.
spec fn swept_at(s: State, done: Seq<RawFd>, now: u64) -> State {
    State {
        clients: Map::new(
            |fd: RawFd|
                s.has_client(fd) && !(done.contains(fd) && is_abandoned(s.clients[fd], now)),
            |fd: RawFd|
                if done.contains(fd) && is_stalled(s.clients[fd], now) {
                    timed_out(s.clients[fd])
                } else {
                    s.clients[fd]
                },
        ),
        ..s
    }
}

proof fn lemma_contains_push(s: Seq<RawFd>, fd: RawFd)
    ensures
        forall|g: RawFd| #[trigger] s.push(fd).contains(g) <==> s.contains(g) || g == fd,
        s.no_duplicates() && !s.contains(fd) ==> s.push(fd).no_duplicates(),
{
    assert forall|g: RawFd| #[trigger] s.push(fd).contains(g) <==> s.contains(g) || g == fd by {
        if s.contains(g) {
            let i = choose|i: int| 0 <= i < s.len() && s[i] == g;
            assert(s.push(fd)[i] == g);
        }
        assert(s.push(fd)[s.len() as int] == fd);
    }
}

} // verus!
