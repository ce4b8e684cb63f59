//! What is done for a connection, event by event.

use super::address::{addresses_of, selected};
use super::outcome_of_read;
use super::state::{
    accepted, after_refusal, after_step, begun, dispatch, duty_for, finished, fresh_client, greeted,
    idle_server, left_to_write, listening, queued, received, replied, request_at_front, sent, swept,
    writable, ClientView, DispatchView, Duty, EffectView, GreetingView, PendingView, ReceivedView,
    State,
};
use crate::config::ServerView;
use crate::cookies::{cookie_for, cookie_in, touched};
use crate::http::answer_laws::{built_in_page, is_error};
use crate::http::request::{
    body_in, framing, head_in, BodyMode, BodyOutcome, HeadOutcome, HeadView, RequestView,
};
use crate::http::response::ResponseView;
use crate::http::router::{first_step, next_step, ActionView, ReplyView, StageView, StepView};
use crate::http::stays_open;
use crate::numbers::decimal;
use crate::poll::{Event, RawFd};
use vstd::prelude::*;
use vstd::utf8::encode_utf8;

verus! {

/// A server starts with nothing open: the addresses of its configuration, no
/// listener, no connection, no session.
pub proof fn law_servers_start_idle(servers: Seq<ServerView>, fd: RawFd)
    ensures
        ({
            let s = idle_server(servers);
            &&& s.servers == servers
            &&& s.addresses == addresses_of(servers)
            &&& !s.listeners.contains_key(fd)
            &&& !s.has_client(fd)
            &&& forall|id: Seq<char>| !s.sessions.contains_key(id)
        }),
{
}

/// A connection starts with empty buffers, on the address that it came in on.
pub proof fn law_connections_start_empty(addr_idx: int, now: int)
    ensures
        ({
            let c = fresh_client(addr_idx, now);
            &&& c.addr_idx == addr_idx
            &&& c.inbuf.len() == 0 && c.outbuf.len() == 0 && c.written == 0 && c.pending_len == 0
            &&& c.last_activity == now
            &&& !c.keep_alive
        }),
{
}

/// An event on a listener means that connections are to be accepted, on the
/// address of that listener; on a connection reading comes before writing.
pub proof fn law_events_have_duties(s: State, ev: Event)
    requires
        s.listeners.contains_key(ev.fd) ==> 0 <= s.listeners[ev.fd] <= usize::MAX,
    ensures
        s.listeners.contains_key(ev.fd) ==> (duty_for(s, ev) matches Duty::Accept(i) && i
            == s.listeners[ev.fd]),
        !s.listeners.contains_key(ev.fd) && ev.readable ==> duty_for(s, ev) is Read,
        !s.listeners.contains_key(ev.fd) && !ev.readable && ev.writable ==> duty_for(
            s,
            ev,
        ) is Write,
        !s.listeners.contains_key(ev.fd) && !ev.readable && !ev.writable ==> duty_for(
            s,
            ev,
        ) is Nothing,
{
}

/// A request is served as it was read: by the server that its host selects,
/// with its method, path, query, fields and body, and with as many bytes as its
/// headers and its body have.
pub proof fn law_requests_are_served_as_read(
    s: State,
    addr_idx: int,
    buf: Seq<u8>,
    head: HeadView,
    mode: BodyMode,
    body: Seq<u8>,
    consumed: int,
)
    requires
        head_in(buf) == HeadOutcome::Complete(head),
        framing(head.headers) == Ok::<BodyMode, u16>(mode),
        body_in(
            buf.skip(head.head_len),
            mode,
            s.servers[selected(
                s.servers,
                s.addresses[addr_idx],
                head.headers.get("host"@),
            )].client_max_body_size,
        ) == (BodyOutcome::Complete { body, consumed }),
    ensures
        request_at_front(s, addr_idx, buf) == (DispatchView::Serve {
            request: RequestView {
                method: head.method,
                path: head.path,
                query: head.query,
                headers: head.headers,
                body,
            },
            server: selected(s.servers, s.addresses[addr_idx], head.headers.get("host"@)),
            keep_alive: stays_open(head.version, head.headers.get("connection"@)),
            len: head.head_len + consumed,
        }),
{
}

/// A request that is not all there is waited for.
pub proof fn law_incomplete_requests_wait(s: State, addr_idx: int, buf: Seq<u8>)
    requires
        head_in(buf) is NeedMore || (head_in(buf) matches HeadOutcome::Complete(head) && framing(
            head.headers,
        ) is Ok && body_in(
            buf.skip(head.head_len),
            framing(head.headers)->Ok_0,
            s.servers[selected(
                s.servers,
                s.addresses[addr_idx],
                head.headers.get("host"@),
            )].client_max_body_size,
        ) is NeedMore),
    ensures
        request_at_front(s, addr_idx, buf) is Wait,
{
}

/// A request that cannot be read is refused with the code of what is wrong: in
/// the name of no server where its headers cannot be read, and of the server
/// that it is for where its framing or its body cannot.
pub proof fn law_unreadable_requests_are_refused(s: State, addr_idx: int, buf: Seq<u8>, code: u16)
    ensures
        head_in(buf) == HeadOutcome::Bad(code) ==> request_at_front(s, addr_idx, buf) == (
        DispatchView::Refuse { code, block: None }),
        head_in(buf) matches HeadOutcome::Complete(head) ==> {
            let server = selected(s.servers, s.addresses[addr_idx], head.headers.get("host"@));
            &&& framing(head.headers) == Err::<BodyMode, u16>(code) ==> request_at_front(
                s,
                addr_idx,
                buf,
            ) == (DispatchView::Refuse { code, block: Some(server) })
            &&& framing(head.headers) matches Ok(mode) ==> {
                let body = body_in(
                    buf.skip(head.head_len),
                    mode,
                    s.servers[server].client_max_body_size,
                );
                &&& body == BodyOutcome::Bad(code) ==> request_at_front(s, addr_idx, buf) == (
                DispatchView::Refuse { code, block: Some(server) })
                &&& body is TooLarge ==> request_at_front(s, addr_idx, buf) == (
                DispatchView::Refuse { code: 413, block: Some(server) })
            }
        },
{
}

/// What arrives on a connection is added to what was there, and the connection
/// counts as alive; then what there is of a request is looked at.
pub proof fn law_bytes_are_received(s: State, fd: RawFd, data: Seq<u8>, now: u64)
    requires
        s.has_client(fd),
    ensures
        ({
            let c = s.clients[fd];
            let with = s.with_client(
                fd,
                ClientView { inbuf: c.inbuf + data, last_activity: now as int, ..c },
            );
            &&& received(s, fd, ReceivedView::Data(data), now) == begun(with, fd, now)
            &&& dispatch(with, fd) == request_at_front(s, c.addr_idx, c.inbuf + data)
        }),
{
    let c = s.clients[fd];
    let with = s.with_client(
        fd,
        ClientView { inbuf: c.inbuf + data, last_activity: now as int, ..c },
    );
    assert(with.clients[fd].inbuf == c.inbuf + data);
}

/// A connection that ended or failed is closed; one with nothing to read is
/// left as it is.
pub proof fn law_ends_are_received(s: State, fd: RawFd, now: u64)
    ensures
        received(s, fd, ReceivedView::Closed, now).1 is Close && !received(
            s,
            fd,
            ReceivedView::Closed,
            now,
        ).0.has_client(fd),
        received(s, fd, ReceivedView::Failed, now).1 is Close && !received(
            s,
            fd,
            ReceivedView::Failed,
            now,
        ).0.has_client(fd),
        received(s, fd, ReceivedView::Blocked, now) == (s, EffectView::Idle),
{
}

/// What is begun for a request at the front of a buffer: nothing while it is
/// incomplete, a refusal if it is refused, and else the first step of its
/// server.
pub proof fn law_requests_are_begun(s: State, fd: RawFd, now: u64)
    requires
        s.has_client(fd),
    ensures
        match request_at_front(s, s.clients[fd].addr_idx, s.clients[fd].inbuf) {
            DispatchView::Wait => begun(s, fd, now) == (s, EffectView::Idle),
            DispatchView::Refuse { code, block } => begun(s, fd, now) == after_refusal(
                s,
                fd,
                code,
                block,
            ),
            DispatchView::Serve { request, server, keep_alive, len } => match first_step(
                request,
                s.servers[server],
            ) {
                StepView::Ask(action, stage) => begun(s, fd, now) == (
                    s,
                    EffectView::Perform(
                        action,
                        PendingView::Request { fd, request, server, keep_alive, len, stage },
                    ),
                ),
                StepView::Done(r) => begun(s, fd, now) == after_step(
                    s,
                    fd,
                    request,
                    server,
                    keep_alive,
                    len,
                    StepView::Done(
                        ResponseView { keep_alive: keep_alive && r.status < 400, ..r },
                    ),
                    now,
                ),
            },
        },
{
}

/// What a reply leads to: the next step of the request, on the same terms.
pub proof fn law_replies_lead_on(
    s: State,
    fd: RawFd,
    request: RequestView,
    server: int,
    keep_alive: bool,
    len: int,
    stage: StageView,
    reply: ReplyView,
    now: u64,
)
    ensures
        ({
            let pending = PendingView::Request { fd, request, server, keep_alive, len, stage };
            match next_step(request, s.servers[server], stage, reply) {
                StepView::Ask(action, next) => replied(s, pending, reply, now) == (
                    s,
                    EffectView::Perform(
                        action,
                        PendingView::Request {
                            fd,
                            request,
                            server,
                            keep_alive,
                            len,
                            stage: next,
                        },
                    ),
                ),
                StepView::Done(r) => replied(s, pending, reply, now) == after_step(
                    s,
                    fd,
                    request,
                    server,
                    keep_alive,
                    len,
                    StepView::Done(
                        ResponseView { keep_alive: keep_alive && r.status < 400, ..r },
                    ),
                    now,
                ),
            }
        }),
{
}

/// Whether the visitor behind a cookie header has a session at a given time: it
/// is known, and was last seen less than half an hour ago.
pub open spec fn has_session(s: State, cookie: Option<Seq<char>>, now: u64) -> bool {
    cookie matches Some(h) && cookie_in(h, "session_id"@) matches Some(id) && {
        &&& s.sessions.contains_key(id)
        &&& now - s.sessions[id].last_seen < 30 * 60 * 1_000_000_000
    }
}

/// A response goes to a visitor with a session at once; for any other visitor
/// random bits are drawn first. The cookie of the request says which.
pub proof fn law_visitors_are_greeted(
    s: State,
    fd: RawFd,
    request: RequestView,
    server: int,
    keep_alive: bool,
    len: int,
    response: ResponseView,
    now: u64,
    fresh: Seq<char>,
)
    ensures
        ({
            let cookie = request.headers.get("cookie"@);
            let g = GreetingView { fd, response, cookie, len };
            let step = after_step(
                s,
                fd,
                request,
                server,
                keep_alive,
                len,
                StepView::Done(response),
                now,
            );
            &&& has_session(s, cookie, now) ==> step == (
                greeted(s, g, now, seq![]),
                EffectView::Send,
            )
            &&& !has_session(s, cookie, now) ==> step == (s, EffectView::Draw(g))
        }),
{
    let cookie = request.headers.get("cookie"@);
    match cookie {
        Some(h) => match cookie_in(h, "session_id"@) {
            Some(id) => {
                assert(crate::cookies::live(s.sessions, now).dom().contains(id) <==> has_session(
                    s,
                    cookie,
                    now,
                ));
            },
            None => {},
        },
        None => {},
    }
}

/// A greeting counts the visit and puts the response in the way of its
/// connection, with the number of visits in it and, for a new session, its
/// cookie.
pub proof fn law_greetings_count_visits(s: State, g: GreetingView, now: u64, fresh: Seq<char>)
    requires
        s.has_client(g.fd),
    ensures
        ({
            let (sessions, info) = touched(s.sessions, g.cookie, now, fresh);
            let after = greeted(s, g, now, fresh);
            let visits = ("X-Session-Visits"@, decimal(info.visits as nat));
            let r = ResponseView {
                headers: if info.is_new {
                    g.response.headers.push(("Set-Cookie"@, cookie_for(info.id))).push(visits)
                } else {
                    g.response.headers.push(visits)
                },
                ..g.response
            };
            &&& after.sessions == sessions
            &&& after.clients[g.fd].outbuf == r.wire()
            &&& after.clients[g.fd].written == 0
            &&& after.clients[g.fd].keep_alive == g.response.keep_alive
            &&& after.clients[g.fd].pending_len == g.len
            &&& after.clients[g.fd].inbuf == s.clients[g.fd].inbuf
            &&& after.clients[g.fd].last_activity == s.clients[g.fd].last_activity
        }),
{
}

/// A refusal is answered with the page that the server has for its code, or
/// else with the built-in one; the rest of what was received is not looked at
/// again, for the connection closes.
pub proof fn law_refusals_are_answered(
    s: State,
    fd: RawFd,
    code: u16,
    block: Option<int>,
    reply: ReplyView,
    now: u64,
)
    requires
        s.has_client(fd),
    ensures
        (block matches Some(i) && s.servers[i].error_pages.contains_key(code)) ==> {
            &&& after_refusal(s, fd, code, block) == (
                s,
                EffectView::Perform(
                    ActionView::Read { path: s.servers[block->0].error_pages[code] },
                    PendingView::Refusal { fd, code },
                ),
            )
            &&& exists|r: ResponseView|
                #![trigger r.wire()]
                {
                    let (after, effect) = replied(
                        s,
                        PendingView::Refusal { fd, code },
                        reply,
                        now,
                    );
                    &&& effect is Send
                    &&& after.clients[fd].outbuf == r.wire()
                    &&& !after.clients[fd].keep_alive
                    &&& match reply {
                        ReplyView::Contents { data, content_type } => is_error(
                            r,
                            code,
                            content_type,
                            data,
                            None,
                        ),
                        _ => is_error(
                            r,
                            code,
                            "text/html; charset=utf-8"@,
                            encode_utf8(built_in_page(code)),
                            None,
                        ),
                    }
                }
        },
        !(block matches Some(i) && s.servers[i].error_pages.contains_key(code)) ==> exists|
            r: ResponseView,
        |
            #![trigger r.wire()]
            {
                let (after, effect) = after_refusal(s, fd, code, block);
                &&& effect is Send
                &&& after.clients[fd].outbuf == r.wire()
                &&& !after.clients[fd].keep_alive
                &&& is_error(
                    r,
                    code,
                    "text/html; charset=utf-8"@,
                    encode_utf8(built_in_page(code)),
                    None,
                )
            },
{
    let page = match reply {
        ReplyView::Contents { data, content_type } => Some((data, content_type)),
        _ => None,
    };
    let r = crate::http::router::error_reply(code, page, None);
    let plain = crate::http::router::error_reply(code, None, None);
    assert(r.wire() == r.wire());
    assert(plain.wire() == plain.wire());
}

/// A connection that can be written to has the rest of its response written; if
/// there is none it is closed.
pub proof fn law_writing_goes_on(s: State, fd: RawFd)
    requires
        s.has_client(fd),
        0 <= s.clients[fd].written <= s.clients[fd].outbuf.len(),
    ensures
        s.clients[fd].written < s.clients[fd].outbuf.len() ==> writable(s, fd) == (
            s,
            EffectView::Write,
        ),
        s.clients[fd].written == s.clients[fd].outbuf.len() ==> writable(s, fd).1 is Close
            && !writable(s, fd).0.has_client(fd),
{
}

/// What was written counts, and the connection with it; a write that could not
/// go on is tried again, and one that failed ends the connection.
pub proof fn law_writes_are_counted(s: State, fd: RawFd, n: int, blocked: bool, now: u64)
    requires
        s.has_client(fd),
        0 <= s.clients[fd].written <= s.clients[fd].outbuf.len(),
    ensures
        0 < n < s.clients[fd].outbuf.len() - s.clients[fd].written ==> sent(s, fd, n, blocked, now)
            == (
            s.with_client(
                fd,
                ClientView {
                    written: s.clients[fd].written + n,
                    last_activity: now as int,
                    ..s.clients[fd]
                },
            ),
            EffectView::Idle,
        ),
        n > 0 && n >= s.clients[fd].outbuf.len() - s.clients[fd].written ==> sent(
            s,
            fd,
            n,
            blocked,
            now,
        ) == finished(
            s.with_client(
                fd,
                ClientView {
                    written: s.clients[fd].outbuf.len() as int,
                    last_activity: now as int,
                    ..s.clients[fd]
                },
            ),
            fd,
        ),
        n == 0 || (n < 0 && blocked) ==> sent(s, fd, n, blocked, now) == (s, EffectView::Idle),
        n < 0 && !blocked ==> sent(s, fd, n, blocked, now).1 is Close && !sent(
            s,
            fd,
            n,
            blocked,
            now,
        ).0.has_client(fd),
{
}

/// After a response that keeps the connection the request is taken off the
/// buffer, and the connection waits for the next one.
pub proof fn law_finished_connections_go_on(s: State, fd: RawFd)
    requires
        s.has_client(fd),
        0 <= s.clients[fd].pending_len,
    ensures
        s.clients[fd].keep_alive ==> ({
            let c = s.clients[fd];
            let (after, effect) = finished(s, fd);
            let next = after.clients[fd];
            &&& effect is Rearm
            &&& after.has_client(fd)
            &&& c.pending_len <= c.inbuf.len() ==> next.inbuf == c.inbuf.skip(c.pending_len)
            &&& c.pending_len > c.inbuf.len() ==> next.inbuf.len() == 0
            &&& next.outbuf.len() == 0 && next.written == 0 && next.pending_len == 0
            &&& next.addr_idx == c.addr_idx && next.last_activity == c.last_activity
        }),
        !s.clients[fd].keep_alive ==> finished(s, fd).1 is Close && !finished(s, fd).0.has_client(
            fd,
        ),
{
}

/// A connection without a request is closed once it was idle for a minute; one
/// with part of a request, once it was for half a minute, is told so with 408.
/// One that is being answered, or was active since, is left as it is.
pub proof fn law_idle_connections_time_out(s: State, fd: RawFd, now: u64)
    requires
        s.has_client(fd),
        s.clients[fd].last_activity <= now,
    ensures
        ({
            let c = s.clients[fd];
            let idle = now - c.last_activity;
            let after = swept(s, now);
            &&& c.outbuf.len() == 0 && c.inbuf.len() == 0 && idle >= 60 * 1_000_000_000
                ==> !after.has_client(fd)
            &&& c.outbuf.len() == 0 && c.inbuf.len() == 0 && idle < 60 * 1_000_000_000
                ==> after.has_client(fd) && after.clients[fd] == c
            &&& c.outbuf.len() == 0 && c.inbuf.len() > 0 && idle >= 30 * 1_000_000_000
                ==> after.has_client(fd) && !after.clients[fd].keep_alive
                && after.clients[fd].written == 0 && exists|r: ResponseView|
                is_error(
                    r,
                    408,
                    "text/html; charset=utf-8"@,
                    encode_utf8(built_in_page(408)),
                    None,
                ) && after.clients[fd].outbuf == #[trigger] r.wire()
            &&& c.outbuf.len() == 0 && c.inbuf.len() > 0 && idle < 30 * 1_000_000_000
                ==> after.has_client(fd) && after.clients[fd] == c
            &&& c.outbuf.len() > 0 ==> after.has_client(fd) && after.clients[fd] == c
        }),
{
    let r = crate::http::router::error_reply(408, None, None);
    assert(is_error(
        r,
        408,
        "text/html; charset=utf-8"@,
        encode_utf8(built_in_page(408)),
        None,
    ));
    assert(r.wire() == r.wire());
}

/// A read of nothing is the end, one of some bytes is those bytes, and an error
/// ends the connection unless it says that nothing is there right now.
pub proof fn law_reads_have_outcomes(n: isize, data: Seq<u8>, errno: i32, again: i32)
    ensures
        outcome_of_read(0, data, Some(errno), again) is Closed,
        n > 0 ==> outcome_of_read(n, data, Some(errno), again) == ReceivedView::Data(data),
        n < 0 ==> outcome_of_read(n, data, Some(again), again) is Blocked,
        n < 0 && errno != again ==> outcome_of_read(n, data, Some(errno), again) is Failed,
        n < 0 ==> outcome_of_read(n, data, None, again) is Failed,
{
}

/// Whether a connection is kept and which bytes are left does not depend on
/// more than the connection itself: opening one adds it, and removing one takes
/// it away.
pub proof fn law_connections_come_and_go(s: State, fd: RawFd, c: ClientView, other: RawFd)
    ensures
        s.with_client(fd, c).has_client(fd) && s.with_client(fd, c).clients[fd] == c,
        !s.without_client(fd).has_client(fd),
        other != fd ==> s.with_client(fd, c).has_client(other) == s.has_client(other)
            && s.without_client(fd).has_client(other) == s.has_client(other),
        other != fd && s.has_client(other) ==> s.with_client(fd, c).clients[other]
            == s.clients[other] && s.without_client(fd).clients[other] == s.clients[other],
        s.with_client(fd, c).sessions == s.sessions && s.without_client(fd).sessions == s.sessions,
{
}

/// The bytes that are left to write are those of the response that were not
/// written yet.
pub proof fn law_left_to_write(c: ClientView, i: int)
    requires
        0 <= c.written <= c.outbuf.len(),
    ensures
        left_to_write(c).len() == c.outbuf.len() - c.written,
        0 <= i < left_to_write(c).len() ==> left_to_write(c)[i] == c.outbuf[c.written + i],
{
}

/// Sweeping concerns connections alone; one whose clock is ahead is not idle.
pub proof fn law_sweeping_spares_the_rest(s: State, fd: RawFd, now: u64)
    ensures
        ({
            let after = swept(s, now);
            &&& after.servers == s.servers
            &&& after.addresses == s.addresses
            &&& after.listeners == s.listeners
            &&& after.sessions == s.sessions
            &&& after.has_client(fd) ==> s.has_client(fd)
            &&& s.has_client(fd) && s.clients[fd].last_activity > now ==> after.has_client(fd)
                && after.clients[fd] == s.clients[fd]
        }),
{
}

/// An event on a connection that is not known does nothing.
pub proof fn law_unknown_connections_are_left_alone(
    s: State,
    fd: RawFd,
    data: Seq<u8>,
    n: int,
    r: ResponseView,
    now: u64,
)
    requires
        !s.has_client(fd),
    ensures
        dispatch(s, fd) is Wait,
        begun(s, fd, now) == (s, EffectView::Idle),
        received(s, fd, ReceivedView::Data(data), now) == (s, EffectView::Idle),
        writable(s, fd) == (s, EffectView::Idle),
        n > 0 ==> sent(s, fd, n, false, now) == (s, EffectView::Idle),
        finished(s, fd) == (s, EffectView::Idle),
        queued(s, fd, r, n) == s,
{
}

/// A connection that comes in is added, empty, on its address; a listener that
/// comes up is noted with its address. Nothing else changes.
pub proof fn law_connections_are_accepted(
    s: State,
    fd: RawFd,
    addr_idx: int,
    now: int,
    other: RawFd,
)
    ensures
        ({
            let after = accepted(s, fd, addr_idx, now);
            &&& after.has_client(fd)
            &&& after.clients[fd].addr_idx == addr_idx
            &&& after.clients[fd].last_activity == now
            &&& after.clients[fd].inbuf.len() == 0 && after.clients[fd].outbuf.len() == 0
            &&& other != fd ==> after.has_client(other) == s.has_client(other)
            &&& other != fd && s.has_client(other) ==> after.clients[other] == s.clients[other]
            &&& after == State { clients: after.clients, ..s }
        }),
        ({
            let after = listening(s, fd, addr_idx);
            &&& after.listeners.contains_key(fd) && after.listeners[fd] == addr_idx
            &&& other != fd ==> after.listeners.contains_key(other) == s.listeners.contains_key(
                other,
            )
            &&& other != fd && s.listeners.contains_key(other) ==> after.listeners[other]
                == s.listeners[other]
            &&& after == State { listeners: after.listeners, ..s }
        }),
{
}

} // verus!
