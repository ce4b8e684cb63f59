//! What a server knows, and what each event makes of it.

use super::address::{address_wf, addresses_of, selected, AddressView};
use crate::config::ServerView;
use crate::cookies::{cookie_for, known_id, live, touched, InfoView, Sessions};
use crate::http::request::{body_in, framing, head_in, BodyOutcome, HeadOutcome, RequestView};
use crate::http::response::ResponseView;
use crate::http::router::{
    error_reply, error_step, first_step, next_step, stamped, ActionView, ReplyView, StageView,
    StepView,
};
use crate::http::stays_open;
use crate::numbers::decimal;
use crate::poll::{Event, RawFd};
use vstd::prelude::*;

verus! {

/// Idle keep-alive connections are closed after this long with no activity:
/// one minute, in nanoseconds.
pub const IDLE_TIMEOUT: u64 = 60_000_000_000;

/// A connection that has sent a partial request but not finished it within
/// this window gets a `408` and is closed: half a minute, in nanoseconds.
pub const REQUEST_TIMEOUT: u64 = 30_000_000_000;

/// What is known of a connection.
#[verifier::ext_equal]
pub ghost struct ClientView {
    /// Which address this connection arrived on.
    pub addr_idx: int,
    /// What was read and not yet answered.
    pub inbuf: Seq<u8>,
    /// The response that is being written, and how much of it is.
    pub outbuf: Seq<u8>,
    pub written: int,
    /// Whether the in-flight response keeps the connection alive.
    pub keep_alive: bool,
    /// Bytes of `inbuf` the in-flight request occupies, drained on completion.
    pub pending_len: int,
    /// Last time this connection made I/O progress.
    pub last_activity: int,
}

/// What a server knows.
#[verifier::ext_equal]
pub ghost struct State {
    pub servers: Seq<ServerView>,
    pub addresses: Seq<AddressView>,
    /// The address behind each listener.
    pub listeners: Map<RawFd, int>,
    pub clients: Map<RawFd, ClientView>,
    pub sessions: Sessions,
}

/// A connection that was just accepted.
pub open spec fn fresh_client(addr_idx: int, now: int) -> ClientView {
    ClientView {
        addr_idx,
        inbuf: seq![],
        outbuf: seq![],
        written: 0,
        keep_alive: false,
        pending_len: 0,
        last_activity: now,
    }
}

impl State {
    /// Whether what is known fits together: every address has servers that
    /// exist, every listener and every connection an address that exists, and
    /// no more of a response was written than there is of it.
    pub open spec fn wf(self) -> bool {
        &&& forall|i: int|
            0 <= i < self.addresses.len() ==> address_wf(
                #[trigger] self.addresses[i],
                self.servers.len() as int,
            )
        &&& forall|fd: RawFd| #[trigger]
            self.listeners.dom().contains(fd) ==> 0 <= self.listeners[fd] < self.addresses.len()
        &&& forall|fd: RawFd| #[trigger]
            self.clients.dom().contains(fd) ==> self.client_wf(self.clients[fd])
    }

    /// Whether what is known of a connection fits.
    pub open spec fn client_wf(self, c: ClientView) -> bool {
        &&& 0 <= c.addr_idx < self.addresses.len()
        &&& 0 <= c.written <= c.outbuf.len()
    }

    /// With something else known of a connection.
    pub open spec fn with_client(self, fd: RawFd, c: ClientView) -> State {
        State { clients: self.clients.insert(fd, c), ..self }
    }

    /// Without a connection.
    pub open spec fn without_client(self, fd: RawFd) -> State {
        State { clients: self.clients.remove(fd), ..self }
    }

    /// Whether a descriptor is that of a connection.
    pub open spec fn has_client(self, fd: RawFd) -> bool {
        self.clients.dom().contains(fd)
    }
}

/// A server after a connection came in on the address with index `addr_idx`.
pub open spec fn accepted(s: State, fd: RawFd, addr_idx: int, now: int) -> State {
    s.with_client(fd, fresh_client(addr_idx, now))
}

/// A server after a listener came up on the address with index `addr_idx`.
pub open spec fn listening(s: State, fd: RawFd, addr_idx: int) -> State {
    State { listeners: s.listeners.insert(fd, addr_idx), ..s }
}

/// A server that listens nowhere yet.
pub open spec fn idle_server(servers: Seq<ServerView>) -> State {
    State {
        servers,
        addresses: addresses_of(servers),
        listeners: Map::empty(),
        clients: Map::empty(),
        sessions: Map::empty(),
    }
}

/// What is to be done about an event.
#[derive(Clone, Copy, Debug, PartialEq, Eq, Structural)]
pub enum Duty {
    /// Accept every pending connection, all on the address with this index.
    Accept(usize),
    /// Read from the connection.
    Read,
    /// Write to the connection.
    Write,
    Nothing,
}

/// What is to be done about an event: listeners accept; connections read
/// before they write.
pub open spec fn duty_for(s: State, ev: Event) -> Duty {
    if s.listeners.dom().contains(ev.fd) {
        Duty::Accept(s.listeners[ev.fd] as usize)
    } else if ev.readable {
        Duty::Read
    } else if ev.writable {
        Duty::Write
    } else {
        Duty::Nothing
    }
}

/// What there is to do for the request at the front of a connection's buffer.
#[verifier::ext_equal]
pub ghost enum DispatchView {
    /// More bytes are needed.
    Wait,
    /// The request is refused, in the name of a server if one is known.
    Refuse { code: u16, block: Option<int> },
    /// The request is complete; it takes up `len` bytes of the buffer.
    Serve { request: RequestView, server: int, keep_alive: bool, len: int },
}

/// What there is to do for the request at the front of a buffer that came in
/// on an address.
pub open spec fn request_at_front(s: State, addr_idx: int, buf: Seq<u8>) -> DispatchView {
    match head_in(buf) {
        HeadOutcome::NeedMore => DispatchView::Wait,
        HeadOutcome::Bad(code) => DispatchView::Refuse { code, block: None },
        HeadOutcome::Complete(head) => {
            let server = selected(
                s.servers,
                s.addresses[addr_idx],
                head.headers.get("host"@),
            );
            match framing(head.headers) {
                Err(code) => DispatchView::Refuse { code, block: Some(server) },
                Ok(mode) => match body_in(
                    buf.skip(head.head_len),
                    mode,
                    s.servers[server].client_max_body_size,
                ) {
                    BodyOutcome::NeedMore => DispatchView::Wait,
                    BodyOutcome::TooLarge => DispatchView::Refuse {
                        code: 413,
                        block: Some(server),
                    },
                    BodyOutcome::Bad(code) => DispatchView::Refuse { code, block: Some(server) },
                    BodyOutcome::Complete { body, consumed } => DispatchView::Serve {
                        request: RequestView {
                            method: head.method,
                            path: head.path,
                            query: head.query,
                            headers: head.headers,
                            body,
                        },
                        server,
                        keep_alive: stays_open(head.version, head.headers.get("connection"@)),
                        len: head.head_len + consumed,
                    },
                },
            }
        },
    }
}

/// What there is to do for a connection.
pub open spec fn dispatch(s: State, fd: RawFd) -> DispatchView {
    if s.has_client(fd) {
        request_at_front(s, s.clients[fd].addr_idx, s.clients[fd].inbuf)
    } else {
        DispatchView::Wait
    }
}

/// A response that waits for something.
#[verifier::ext_equal]
pub ghost enum PendingView {
    /// A request is being answered.
    Request {
        fd: RawFd,
        request: RequestView,
        server: int,
        keep_alive: bool,
        len: int,
        stage: StageView,
    },
    /// The page for a refused request is being read.
    Refusal { fd: RawFd, code: u16 },
}

/// A response that waits for a fresh session.
#[verifier::ext_equal]
pub ghost struct GreetingView {
    pub fd: RawFd,
    pub response: ResponseView,
    pub cookie: Option<Seq<char>>,
    pub len: int,
}

/// What is to be done next about a connection.
#[verifier::ext_equal]
pub ghost enum EffectView {
    /// Nothing.
    Idle,
    /// Carry out an action and come back with the reply.
    Perform(ActionView, PendingView),
    /// Draw random bits and come back with them.
    Draw(GreetingView),
    /// Wait until the connection can be written to.
    Send,
    /// Write to the connection.
    Write,
    /// Wait until the connection can be read from, and look at what is there
    /// already.
    Rearm,
    /// Close the connection.
    Close,
}

/// The `Cookie` field of a request.
pub open spec fn cookie_of(request: RequestView) -> Option<Seq<char>> {
    request.headers.get("cookie"@)
}

/// A response that says which visit this is, and hands out a fresh session.
pub open spec fn with_session(r: ResponseView, info: InfoView) -> ResponseView {
    (if info.is_new {
        r.with("Set-Cookie"@, cookie_for(info.id))
    } else {
        r
    }).with("X-Session-Visits"@, decimal(info.visits as nat))
}

/// With a response put in the way of a connection, to a request that took up
/// `len` bytes.
pub open spec fn queued(s: State, fd: RawFd, r: ResponseView, len: int) -> State {
    if s.has_client(fd) {
        s.with_client(
            fd,
            ClientView {
                outbuf: r.wire(),
                written: 0,
                keep_alive: r.keep_alive,
                pending_len: len,
                ..s.clients[fd]
            },
        )
    } else {
        s
    }
}

/// With the visit counted and the response put in the way.
pub open spec fn greeted(s: State, g: GreetingView, now: u64, fresh: Seq<char>) -> State {
    let (sessions, info) = touched(s.sessions, g.cookie, now, fresh);
    queued(State { sessions, ..s }, g.fd, with_session(g.response, info), g.len)
}

/// What a step of a request comes to.
pub open spec fn after_step(
    s: State,
    fd: RawFd,
    request: RequestView,
    server: int,
    keep_alive: bool,
    len: int,
    step: StepView,
    now: u64,
) -> (State, EffectView) {
    match step {
        StepView::Ask(action, stage) => (
            s,
            EffectView::Perform(
                action,
                PendingView::Request { fd, request, server, keep_alive, len, stage },
            ),
        ),
        StepView::Done(response) => {
            let g = GreetingView { fd, response, cookie: cookie_of(request), len };
            if known_id(live(s.sessions, now), g.cookie) is None {
                (s, EffectView::Draw(g))
            } else {
                (greeted(s, g, now, seq![]), EffectView::Send)
            }
        },
    }
}

/// What a refusal comes to.
pub open spec fn after_refusal(s: State, fd: RawFd, code: u16, server: Option<int>) -> (
    State,
    EffectView,
) {
    let block = match server {
        Some(i) => Some(s.servers[i]),
        None => None,
    };
    match error_step(block, code, None) {
        StepView::Ask(action, _) => (
            s,
            EffectView::Perform(action, PendingView::Refusal { fd, code }),
        ),
        StepView::Done(r) => (queued(s, fd, r, 0), EffectView::Send),
    }
}

/// What comes of looking at the buffer of a connection.
pub open spec fn begun(s: State, fd: RawFd, now: u64) -> (State, EffectView) {
    match dispatch(s, fd) {
        DispatchView::Wait => (s, EffectView::Idle),
        DispatchView::Refuse { code, block } => after_refusal(s, fd, code, block),
        DispatchView::Serve { request, server, keep_alive, len } => after_step(
            s,
            fd,
            request,
            server,
            keep_alive,
            len,
            stamped(first_step(request, s.servers[server]), keep_alive),
            now,
        ),
    }
}

/// What comes of a reply.
pub open spec fn replied(s: State, pending: PendingView, reply: ReplyView, now: u64) -> (
    State,
    EffectView,
) {
    match pending {
        PendingView::Request { fd, request, server, keep_alive, len, stage } => after_step(
            s,
            fd,
            request,
            server,
            keep_alive,
            len,
            stamped(next_step(request, s.servers[server], stage, reply), keep_alive),
            now,
        ),
        PendingView::Refusal { fd, code } => (
            queued(
                s,
                fd,
                error_reply(
                    code,
                    match reply {
                        ReplyView::Contents { data, content_type } => Some((data, content_type)),
                        _ => None,
                    },
                    None,
                ),
                0,
            ),
            EffectView::Send,
        ),
    }
}

/// Whether a response that waits for something is one of this server.
pub open spec fn pending_wf(s: State, pending: PendingView) -> bool {
    pending matches PendingView::Request { server, .. } ==> 0 <= server < s.servers.len()
}

/// What came of reading from a connection.
pub ghost enum ReceivedView {
    Closed,
    Blocked,
    Failed,
    Data(Seq<u8>),
}

/// What comes of reading from a connection.
pub open spec fn received(s: State, fd: RawFd, got: ReceivedView, now: u64) -> (
    State,
    EffectView,
) {
    match got {
        ReceivedView::Closed | ReceivedView::Failed => (s.without_client(fd), EffectView::Close),
        ReceivedView::Blocked => (s, EffectView::Idle),
        ReceivedView::Data(data) => if s.has_client(fd) {
            let c = s.clients[fd];
            begun(
                s.with_client(
                    fd,
                    ClientView { inbuf: c.inbuf + data, last_activity: now as int, ..c },
                ),
                fd,
                now,
            )
        } else {
            (s, EffectView::Idle)
        },
    }
}

/// What there is left to write on a connection.
pub open spec fn left_to_write(c: ClientView) -> Seq<u8> {
    c.outbuf.skip(c.written)
}

/// What comes of a connection that can be written to.
pub open spec fn writable(s: State, fd: RawFd) -> (State, EffectView) {
    if !s.has_client(fd) {
        (s, EffectView::Idle)
    } else if left_to_write(s.clients[fd]).len() == 0 {
        (s.without_client(fd), EffectView::Close)
    } else {
        (s, EffectView::Write)
    }
}

/// A connection once its response has been written, where it stays open: the
/// bytes of the request just answered are gone, and so is the response.
pub open spec fn recycled(c: ClientView) -> ClientView {
    ClientView {
        inbuf: if c.pending_len <= c.inbuf.len() {
            c.inbuf.skip(c.pending_len)
        } else {
            seq![]
        },
        outbuf: seq![],
        written: 0,
        keep_alive: false,
        pending_len: 0,
        ..c
    }
}

/// What comes of a response that has been written.
pub open spec fn finished(s: State, fd: RawFd) -> (State, EffectView) {
    if !s.has_client(fd) {
        (s, EffectView::Idle)
    } else if !s.clients[fd].keep_alive {
        (s.without_client(fd), EffectView::Close)
    } else {
        (s.with_client(fd, recycled(s.clients[fd])), EffectView::Rearm)
    }
}

/// What comes of writing to a connection, where `n` is what the system gave.
pub open spec fn sent(s: State, fd: RawFd, n: int, blocked: bool, now: u64) -> (
    State,
    EffectView,
) {
    if n > 0 {
        if s.has_client(fd) {
            let c = s.clients[fd];
            let written = if c.written + n < c.outbuf.len() {
                c.written + n
            } else {
                c.outbuf.len() as int
            };
            let after = s.with_client(
                fd,
                ClientView { written, last_activity: now as int, ..c },
            );
            if written == c.outbuf.len() {
                finished(after, fd)
            } else {
                (after, EffectView::Idle)
            }
        } else {
            (s, EffectView::Idle)
        }
    } else if n < 0 && !blocked {
        (s.without_client(fd), EffectView::Close)
    } else {
        (s, EffectView::Idle)
    }
}

/// How long a connection has been without progress.
pub open spec fn idle_for(c: ClientView, now: u64) -> int {
    if now >= c.last_activity {
        now - c.last_activity
    } else {
        0
    }
}

/// Whether a connection is idle for too long: nothing is under way on it.
pub open spec fn is_abandoned(c: ClientView, now: u64) -> bool {
    c.outbuf.len() == 0 && c.inbuf.len() == 0 && idle_for(c, now) >= IDLE_TIMEOUT
}

/// Whether a request was begun on a connection and not finished in time.
pub open spec fn is_stalled(c: ClientView, now: u64) -> bool {
    c.outbuf.len() == 0 && c.inbuf.len() > 0 && idle_for(c, now) >= REQUEST_TIMEOUT
}

/// A connection that is told that its request took too long.
pub open spec fn timed_out(c: ClientView) -> ClientView {
    ClientView {
        outbuf: error_reply(408, None, None).wire(),
        written: 0,
        keep_alive: false,
        pending_len: 0,
        ..c
    }
}

/// What is left of the connections after the timeouts: those that are
/// abandoned go, and those that are stalled are told.
pub open spec fn swept(s: State, now: u64) -> State {
    State {
        clients: Map::new(
            |fd: RawFd| s.has_client(fd) && !is_abandoned(s.clients[fd], now),
            |fd: RawFd|
                if is_stalled(s.clients[fd], now) {
                    timed_out(s.clients[fd])
                } else {
                    s.clients[fd]
                },
        ),
        ..s
    }
}

} // verus!
