//! What holds of connections.

use super::address::selected;
use super::state::{
    after_refusal, begun, dispatch, finished, greeted, idle_for, is_abandoned, is_stalled,
    left_to_write, queued, received, replied, request_at_front, sent, swept, timed_out,
    with_session, writable, ClientView, DispatchView, EffectView, GreetingView, IDLE_TIMEOUT,
    PendingView, REQUEST_TIMEOUT, ReceivedView, State,
};
use crate::bytes::first_at;
use crate::cookies::InfoView;
use crate::http::cgi_output::lemma_lower_len;
use crate::http::request::{blank_line, crlf, framing, head_in, BodyMode, HeadOutcome};
use crate::http::request_laws::{
    data_of, ends_inside_blank_line, in_chunks, law_body_is_bounded, law_body_is_final,
    law_chunk_sizes_are_checked_first, law_head_is_final, law_head_is_inside, size_line, Chunk,
};
use crate::http::response::{is_framing, leaves_framing, ResponseView};
use crate::http::router::{error_reply, error_step, ReplyView, StepView};
use crate::http::router_laws::{law_requests_come_to_an_end, replies_left};
use crate::poll::RawFd;
use vstd::prelude::*;

verus! {

/// Whether a state differs from another at most in one connection and in the
/// sessions.
pub open spec fn only_touches(before: State, after: State, fd: RawFd) -> bool {
    &&& after.servers == before.servers
    &&& after.addresses == before.addresses
    &&& after.listeners == before.listeners
    &&& forall|g: RawFd|
        g != fd ==> (#[trigger] after.clients.dom().contains(g) <==> before.clients.dom().contains(
            g,
        )) && (after.clients.dom().contains(g) ==> after.clients[g] == before.clients[g])
}

/// An event on one connection leaves the others, the listeners and the
/// configuration as they are: reading and what follows from it.
pub proof fn law_reading_touches_one_connection(
    s: State,
    fd: RawFd,
    got: ReceivedView,
    now: u64,
)
    ensures
        only_touches(s, received(s, fd, got, now).0, fd),
        only_touches(s, begun(s, fd, now).0, fd),
{
}

/// An event on one connection leaves the others, the listeners and the
/// configuration as they are: writing.
pub proof fn law_writing_touches_one_connection(
    s: State,
    fd: RawFd,
    n: int,
    blocked: bool,
    now: u64,
)
    ensures
        only_touches(s, writable(s, fd).0, fd),
        only_touches(s, sent(s, fd, n, blocked, now).0, fd),
{
}

/// The connection that a response is for.
pub open spec fn fd_of(pending: PendingView) -> RawFd {
    match pending {
        PendingView::Request { fd, .. } => fd,
        PendingView::Refusal { fd, .. } => fd,
    }
}

/// A reply and a greeting leave all connections but the one that they are for
/// as they are.
pub proof fn law_answers_touch_one_connection(
    s: State,
    pending: PendingView,
    reply: ReplyView,
    greeting: GreetingView,
    now: u64,
    fresh: Seq<char>,
)
    ensures
        only_touches(s, replied(s, pending, reply, now).0, fd_of(pending)),
        only_touches(s, greeted(s, greeting, now, fresh), greeting.fd),
{
}

/// Whether a connection is closed exactly if it is forgotten.
pub open spec fn closes_what_it_forgets(
    before: State,
    after: State,
    effect: EffectView,
    fd: RawFd,
) -> bool {
    &&& before.has_client(fd) && !after.has_client(fd) ==> effect is Close
    &&& effect is Close ==> !after.has_client(fd)
}

/// No descriptor and no buffer leaks: a connection that is forgotten is
/// closed, and one that is closed is forgotten.
pub proof fn law_no_connection_leaks(
    s: State,
    fd: RawFd,
    got: ReceivedView,
    n: int,
    blocked: bool,
    now: u64,
)
    ensures
        closes_what_it_forgets(s, received(s, fd, got, now).0, received(s, fd, got, now).1, fd),
        closes_what_it_forgets(s, begun(s, fd, now).0, begun(s, fd, now).1, fd),
        closes_what_it_forgets(s, writable(s, fd).0, writable(s, fd).1, fd),
        closes_what_it_forgets(
            s,
            sent(s, fd, n, blocked, now).0,
            sent(s, fd, n, blocked, now).1,
            fd,
        ),
{
}

/// Unless more bytes are waited for, the verdict on the request at the front of
/// a buffer is final: the bytes that follow change nothing, but where those may
/// still complete a blank line within the bound on headers. So it does not
/// matter how the bytes of a request are split over reads.
pub proof fn law_requests_are_final(s: State, addr_idx: int, buf: Seq<u8>, more: Seq<u8>)
    requires
        request_at_front(s, addr_idx, buf) !is Wait,
        first_at(buf, blank_line(), 0) is None ==> !ends_inside_blank_line(buf),
    ensures
        request_at_front(s, addr_idx, buf + more) == request_at_front(s, addr_idx, buf),
{
    law_head_is_final(buf, more);
    law_head_is_inside(buf);
    match head_in(buf) {
        HeadOutcome::Complete(head) => {
            let server = selected(s.servers, s.addresses[addr_idx], head.headers.get("host"@));
            match framing(head.headers) {
                Ok(mode) => {
                    let rest = buf.skip(head.head_len);
                    assert((buf + more).skip(head.head_len) =~= rest + more);
                    law_body_is_final(rest, more, mode, s.servers[server].client_max_body_size);
                },
                Err(_) => {},
            }
        },
        _ => {},
    }
}

/// A request that is served takes up bytes that are there: its headers and its
/// body, and nothing of what follows.
pub proof fn law_requests_lie_in_the_buffer(s: State, addr_idx: int, buf: Seq<u8>)
    requires
        request_at_front(s, addr_idx, buf) is Serve,
        s.servers[request_at_front(s, addr_idx, buf)->server].client_max_body_size >= 0,
    ensures
        4 <= request_at_front(s, addr_idx, buf)->len <= buf.len(),
        request_at_front(s, addr_idx, buf)->request.body.len() <= s.servers[request_at_front(
            s,
            addr_idx,
            buf,
        )->server].client_max_body_size,
{
    law_head_is_inside(buf);
    let head = head_in(buf)->Complete_0;
    let server = selected(s.servers, s.addresses[addr_idx], head.headers.get("host"@));
    let mode = framing(head.headers)->Ok_0;
    law_body_is_bounded(
        buf.skip(head.head_len),
        mode,
        s.servers[server].client_max_body_size,
    );
}

/// A request that declares a body over the limit is refused with 413 as soon
/// as its headers are there, whatever there is of the body.
pub proof fn law_oversized_requests_are_refused_at_once(
    s: State,
    addr_idx: int,
    buf: Seq<u8>,
    n: usize,
)
    requires
        head_in(buf) matches HeadOutcome::Complete(head) && framing(head.headers) == Ok::<
            BodyMode,
            u16,
        >(BodyMode::Length(n)) && n > s.servers[selected(
            s.servers,
            s.addresses[addr_idx],
            head.headers.get("host"@),
        )].client_max_body_size,
    ensures
        request_at_front(s, addr_idx, buf) matches DispatchView::Refuse { code, block } && code
            == 413 && block is Some,
{
}

/// A request sent in chunks is refused with 413 as soon as the size line of a
/// chunk takes its body over the limit, whatever there is of that chunk.
pub proof fn law_oversized_chunks_are_refused_at_once(
    s: State,
    addr_idx: int,
    buf: Seq<u8>,
    chunks: Seq<Chunk>,
    line: Seq<u8>,
    size: int,
    rest: Seq<u8>,
)
    requires
        forall|i: int| 0 <= i < chunks.len() ==> (#[trigger] chunks[i]).wf(),
        size_line(line, size),
        size > 0,
        head_in(buf) matches HeadOutcome::Complete(head) && framing(head.headers) == Ok::<
            BodyMode,
            u16,
        >(BodyMode::Chunked) && buf.skip(head.head_len) == in_chunks(chunks) + line + crlf() + rest
            && data_of(chunks).len() <= s.servers[selected(
            s.servers,
            s.addresses[addr_idx],
            head.headers.get("host"@),
        )].client_max_body_size < data_of(chunks).len() + size,
    ensures
        request_at_front(s, addr_idx, buf) matches DispatchView::Refuse { code, block } && code
            == 413 && block is Some,
{
    let head = head_in(buf)->Complete_0;
    let server = selected(s.servers, s.addresses[addr_idx], head.headers.get("host"@));
    law_chunk_sizes_are_checked_first(
        chunks,
        line,
        size,
        rest,
        s.servers[server].client_max_body_size,
    );
}

/// The bytes of a response go out in order: what is left to write after a part
/// of it was written is what was left, without that part.
pub proof fn law_responses_go_out_in_order(
    s: State,
    fd: RawFd,
    n: int,
    blocked: bool,
    now: u64,
)
    requires
        s.has_client(fd),
        0 <= s.clients[fd].written <= s.clients[fd].outbuf.len(),
        0 < n < left_to_write(s.clients[fd]).len(),
    ensures
        ({
            let (after, effect) = sent(s, fd, n, blocked, now);
            &&& effect is Idle
            &&& after.has_client(fd)
            &&& left_to_write(after.clients[fd]) == left_to_write(s.clients[fd]).skip(n)
        }),
{
    let c = s.clients[fd];
    assert(c.outbuf.skip(c.written + n) =~= c.outbuf.skip(c.written).skip(n));
}

/// A response is put in the way of a connection as a whole.
pub proof fn law_responses_are_queued_whole(s: State, fd: RawFd, r: ResponseView, len: int)
    requires
        s.has_client(fd),
    ensures
        left_to_write(queued(s, fd, r, len).clients[fd]) == r.wire(),
{
    assert(r.wire().skip(0) =~= r.wire());
}

/// Once the last byte of a response was written, a connection that does not
/// stay open is closed.
pub proof fn law_closing_responses_close(
    s: State,
    fd: RawFd,
    n: int,
    blocked: bool,
    now: u64,
)
    requires
        s.has_client(fd),
        !s.clients[fd].keep_alive,
        n > 0,
        n >= s.clients[fd].outbuf.len() - s.clients[fd].written,
    ensures
        sent(s, fd, n, blocked, now).1 is Close,
        !sent(s, fd, n, blocked, now).0.has_client(fd),
{
}

/// A refused request is answered with its status, and the connection does not
/// stay open: at once, or once the page for it was read.
pub proof fn law_refusals_close(
    s: State,
    fd: RawFd,
    code: u16,
    block: Option<int>,
    reply: ReplyView,
    now: u64,
)
    requires
        s.has_client(fd),
    ensures
        match after_refusal(s, fd, code, block) {
            (after, EffectView::Perform(_, pending)) => {
                let (last, effect) = replied(after, pending, reply, now);
                effect is Send && is_refusal(last.clients[fd], code)
            },
            (after, effect) => effect is Send && is_refusal(after.clients[fd], code),
        },
{
    let b = match block {
        Some(i) => Some(s.servers[i]),
        None => None,
    };
    match error_step(b, code, None) {
        StepView::Done(r) => {
            assert(queued(s, fd, r, 0).clients[fd].outbuf == r.wire());
        },
        StepView::Ask(_, _) => {
            let page = match reply {
                ReplyView::Contents { data, content_type } => Some((data, content_type)),
                _ => None,
            };
            let r = error_reply(code, page, None);
            assert(queued(s, fd, r, 0).clients[fd].outbuf == r.wire());
        },
    }
}

/// Whether a connection is about to be told a status and to be closed then.
pub open spec fn is_refusal(c: ClientView, code: u16) -> bool {
    !c.keep_alive && exists|r: ResponseView|
        r.status == code && !r.keep_alive && c.outbuf == #[trigger] r.wire()
}

/// Once a response was written on a connection that stays open, the request it
/// answered is gone from the buffer, and what was behind it is looked at as
/// the next request: nothing of a pipelined request is lost.
pub proof fn law_pipelined_requests_are_next(s: State, fd: RawFd)
    requires
        s.has_client(fd),
        s.clients[fd].keep_alive,
        0 <= s.clients[fd].pending_len <= s.clients[fd].inbuf.len(),
    ensures
        ({
            let (after, effect) = finished(s, fd);
            &&& effect is Rearm
            &&& after.clients[fd].inbuf == s.clients[fd].inbuf.skip(s.clients[fd].pending_len)
            &&& after.clients[fd].outbuf.len() == 0
            &&& dispatch(after, fd) == request_at_front(
                s,
                s.clients[fd].addr_idx,
                s.clients[fd].inbuf.skip(s.clients[fd].pending_len),
            )
        }),
{
}

/// The timeouts close exactly the connections that have been idle for too long
/// with nothing under way, and speak to exactly those on which a request was
/// not finished in time. All others stay as they are, and so does one that is
/// being written to.
pub proof fn law_timeouts_spare_the_rest(s: State, now: u64, fd: RawFd)
    requires
        s.has_client(fd),
    ensures
        swept(s, now).has_client(fd) <==> !is_abandoned(s.clients[fd], now),
        swept(s, now).has_client(fd) && !is_stalled(s.clients[fd], now) ==> swept(
            s,
            now,
        ).clients[fd] == s.clients[fd],
        s.clients[fd].outbuf.len() > 0 ==> swept(s, now).clients[fd] == s.clients[fd],
        idle_for(s.clients[fd], now) < REQUEST_TIMEOUT ==> swept(s, now).has_client(fd) && swept(
            s,
            now,
        ).clients[fd] == s.clients[fd],
{
}

/// No connection hangs: after the timeouts, each one is being written to, or
/// made progress less than a minute ago.
pub proof fn law_no_connection_hangs(s: State, now: u64, fd: RawFd)
    requires
        swept(s, now).has_client(fd),
    ensures
        swept(s, now).clients[fd].outbuf.len() > 0 || idle_for(swept(s, now).clients[fd], now)
            < IDLE_TIMEOUT,
{
    assert(s.has_client(fd));
    lemma_refusal_is_not_empty();
}

/// A connection that took too long is told so, and closed once it was.
pub proof fn law_stalled_requests_get_408(s: State, now: u64, fd: RawFd)
    requires
        s.has_client(fd),
        is_stalled(s.clients[fd], now),
    ensures
        is_refusal(swept(s, now).clients[fd], 408),
{
    let r = error_reply(408, None, None);
    assert(timed_out(s.clients[fd]).outbuf == r.wire());
}

/// The response to a request that took too long is not empty.
proof fn lemma_refusal_is_not_empty()
    ensures
        error_reply(408, None, None).wire().len() > 0,
{
    let r = error_reply(408, None, None);
    let h = r.head();
    reveal_strlit("HTTP/1.1 ");
    assert(h.len() > 0);
    assert(vstd::utf8::encode_utf8(h).len() > 0) by {
        vstd::utf8::encode_utf8_decode_utf8(h);
        if vstd::utf8::encode_utf8(h).len() == 0 {
            assert(vstd::utf8::encode_utf8(h) =~= seq![]);
            assert(vstd::utf8::decode_utf8(seq![]) =~= seq![]);
        }
    }
}

/// Every request that is being answered is answered: each reply either leads
/// to an action after which fewer replies are left to come, or to the
/// response.
pub proof fn law_every_request_is_answered(
    s: State,
    pending: PendingView,
    reply: ReplyView,
    now: u64,
)
    ensures
        match (pending, replied(s, pending, reply, now).1) {
            (
                PendingView::Request { stage, .. },
                EffectView::Perform(_, PendingView::Request { stage: next, .. }),
            ) => replies_left(next) < replies_left(stage),
            (_, EffectView::Draw(_)) => true,
            (_, EffectView::Send) => true,
            _ => false,
        },
{
    match pending {
        PendingView::Request { request, server, stage, .. } => {
            law_requests_come_to_an_end(request, s.servers[server], stage, reply);
        },
        PendingView::Refusal { .. } => {},
    }
}

/// What is said of a visit leaves the framing to the responder.
pub proof fn law_sessions_leave_framing(r: ResponseView, info: InfoView)
    requires
        leaves_framing(r.headers),
    ensures
        leaves_framing(with_session(r, info).headers),
        with_session(r, info).status == r.status,
        with_session(r, info).body == r.body,
        with_session(r, info).keep_alive == r.keep_alive,
{
    reveal_strlit("Set-Cookie");
    reveal_strlit("X-Session-Visits");
    reveal_strlit("content-length");
    reveal_strlit("connection");
    reveal_strlit("transfer-encoding");
    lemma_lower_len("Set-Cookie"@, "content-length"@);
    lemma_lower_len("Set-Cookie"@, "transfer-encoding"@);
    lemma_lower_len("X-Session-Visits"@, "content-length"@);
    lemma_lower_len("X-Session-Visits"@, "connection"@);
    lemma_lower_len("X-Session-Visits"@, "transfer-encoding"@);
    assert(!is_framing("Set-Cookie"@)) by {
        assert(crate::text::lower("Set-Cookie"@)[0] == 's');
        assert(crate::text::lower("connection"@)[0] == 'c');
    }
    assert(!is_framing("X-Session-Visits"@));
}

} // verus!
