//! What holds of cookies and sessions.

use crate::cookies::{
    cookie_among, cookie_for, cookie_in, expired, known_id, live, one_more, touched, InfoView,
    SESSION_TTL, SessionView, Sessions,
};
use crate::numbers::{digit_char, hex};
use crate::text::{
    before, is_space, joined, lead, lemma_lead, lemma_lead_is, lemma_tail, lemma_trimmed_is, split,
    split_first, tail, trim_front, trimmed, Class,
};
use crate::text_laws::law_joining_is_undone_by_cutting;
use vstd::prelude::*;

verus! {

/// Text that is as it is when trimmed has no white space at its ends.
proof fn lemma_trimmed_ends(s: Seq<char>)
    requires
        trimmed(s) == s,
        s.len() > 0,
    ensures
        !is_space(s[0]),
        !is_space(s.last()),
{
    let t = trim_front(s, Class::Space);
    lemma_lead(s, Class::Space);
    lemma_tail(t, Class::Space);
    assert(trimmed(s).len() == s.len() - lead(s, Class::Space) - tail(t, Class::Space));
    assert(t =~= s);
}

/// A cookie that a client sends back is found with the value that it has.
pub proof fn law_cookies_are_found(name: Seq<char>, value: Seq<char>)
    requires
        name.len() > 0,
        trimmed(name) == name,
        !name.contains('='),
        !name.contains(';'),
        trimmed(value) == value,
        !value.contains(';'),
    ensures
        cookie_in(name + "="@ + value, name) == Some(value),
{
    reveal_strlit("=");
    let header = name + "="@ + value;
    let n = name.len() as int;
    assert forall|i: int| 0 <= i < header.len() implies Class::Not(';').holds(
        #[trigger] header[i],
    ) by {
        if i < n {
            assert(header[i] == name[i]);
        } else if i > n {
            assert(header[i] == value[i - n - 1]);
        }
    }
    lemma_lead_is(header, Class::Not(';'), header.len() as int);
    assert(split(header, ';') =~= seq![header]);
    lemma_trimmed_ends(name);
    assert(header[0] == name[0]);
    if value.len() > 0 {
        lemma_trimmed_ends(value);
        assert(header.last() == value.last());
    } else {
        assert(header.last() == '=');
    }
    lemma_trimmed_is(header);
    assert forall|i: int| 0 <= i < n implies Class::Not('=').holds(#[trigger] header[i]) by {
        assert(header[i] == name[i]);
    }
    assert(header[n] == '=');
    lemma_lead_is(header, Class::Not('='), n);
    assert(header.take(n) =~= name);
    assert(header.skip(n + 1) =~= value);
}

/// Whether a character is a small hexadecimal digit.
pub open spec fn is_hex_digit(c: char) -> bool {
    '0' <= c <= '9' || 'a' <= c <= 'f'
}

/// The notation of bytes has two hexadecimal digits for each of them.
proof fn lemma_hex(s: Seq<u8>)
    ensures
        hex(s).len() == 2 * s.len(),
        forall|i: int| 0 <= i < hex(s).len() ==> is_hex_digit(#[trigger] hex(s)[i]),
    decreases s.len(),
{
    if s.len() > 0 {
        let front = hex(s.drop_last());
        lemma_hex(s.drop_last());
        assert forall|i: int| 0 <= i < hex(s).len() implies is_hex_digit(#[trigger] hex(s)[i]) by {
            if i < front.len() {
                assert(hex(s)[i] == front[i]);
            }
        }
    }
}

/// Two session identifiers are the same only if the bits that they were made
/// of are.
pub proof fn law_identifiers_tell_apart(a: Seq<u8>, b: Seq<u8>)
    requires
        hex(a) == hex(b),
    ensures
        a == b,
    decreases a.len(),
{
    lemma_hex(a);
    lemma_hex(b);
    if a.len() > 0 {
        let x = a.last();
        let y = b.last();
        let n = hex(a).len() as int;
        assert(hex(a)[n - 2] == digit_char((x / 16) as nat));
        assert(hex(a)[n - 1] == digit_char((x % 16) as nat));
        assert(hex(b)[n - 2] == digit_char((y / 16) as nat));
        assert(hex(b)[n - 1] == digit_char((y % 16) as nat));
        assert(x / 16 == y / 16);
        assert(x % 16 == y % 16);
        assert(x == y);
        lemma_hex(a.drop_last());
        lemma_hex(b.drop_last());
        assert(hex(a.drop_last()) =~= hex(a).take(n - 2));
        assert(hex(b.drop_last()) =~= hex(b).take(n - 2));
        law_identifiers_tell_apart(a.drop_last(), b.drop_last());
        assert(a =~= a.drop_last().push(x));
        assert(b =~= b.drop_last().push(y));
    } else {
        assert(a =~= b);
    }
}

/// Whether an identifier is one that the store issues: 32 hexadecimal digits.
pub open spec fn is_issued(id: Seq<char>) -> bool {
    id.len() == 32 && forall|i: int| 0 <= i < id.len() ==> is_hex_digit(#[trigger] id[i])
}

/// Whether a store knows only sessions that it issued.
pub open spec fn all_issued(m: Sessions) -> bool {
    forall|id: Seq<char>| #[trigger] m.dom().contains(id) ==> is_issued(id)
}

/// A store that starts empty knows only sessions that it issued, whatever the
/// cookies of its visitors are.
pub proof fn law_only_issued_sessions(
    m: Sessions,
    cookie_header: Option<Seq<char>>,
    now: u64,
    entropy: Seq<u8>,
)
    requires
        all_issued(m),
        entropy.len() == 16,
    ensures
        all_issued(touched(m, cookie_header, now, hex(entropy)).0),
        is_issued(touched(m, cookie_header, now, hex(entropy)).1.id),
{
    lemma_hex(entropy);
}

/// An issued identifier can stand in a cookie.
proof fn lemma_issued_is_clean(id: Seq<char>)
    requires
        is_issued(id),
    ensures
        trimmed(id) == id,
        !id.contains(';'),
{
    assert(is_hex_digit(id[0]));
    assert(is_hex_digit(id[31]));
    lemma_trimmed_is(id);
    if id.contains(';') {
        let i = choose|i: int| 0 <= i < id.len() && id[i] == ';';
        assert(is_hex_digit(id[i]));
    }
}

/// The field that the server sets begins with the cookie that the client
/// sends back.
pub proof fn law_set_cookie_gives_the_session(id: Seq<char>)
    requires
        is_issued(id),
    ensures
        before(cookie_for(id), ';') == "session_id="@ + id,
{
    lemma_issued_is_clean(id);
    reveal_strlit("session_id=");
    reveal_strlit("; Path=/; HttpOnly; SameSite=Lax");
    let s = cookie_for(id);
    let pair = "session_id="@ + id;
    let n = pair.len() as int;
    assert forall|i: int| 0 <= i < n implies Class::Not(';').holds(#[trigger] s[i]) by {
        if i < 11 {
            assert(s[i] == "session_id="@[i]);
        } else {
            assert(s[i] == id[i - 11]);
        }
    }
    assert(s[n] == ';');
    lemma_lead_is(s, Class::Not(';'), n);
    assert(s.take(n) =~= pair);
}

/// A visitor who comes back in time with the cookie of a visit has the same
/// session again, and one visit more.
pub proof fn law_visitors_come_back(
    m: Sessions,
    cookie_header: Option<Seq<char>>,
    first: u64,
    entropy: Seq<u8>,
    second: u64,
    other: Seq<char>,
)
    requires
        all_issued(m),
        entropy.len() == 16,
        second - first < SESSION_TTL,
    ensures
        ({
            let (after, info) = touched(m, cookie_header, first, hex(entropy));
            touched(after, Some("session_id="@ + info.id), second, other).1 == InfoView {
                id: info.id,
                is_new: false,
                visits: one_more(info.visits),
            }
        }),
{
    let (after, info) = touched(m, cookie_header, first, hex(entropy));
    law_only_issued_sessions(m, cookie_header, first, entropy);
    lemma_issued_is_clean(info.id);
    let name = "session_id"@;
    reveal_strlit("session_id");
    reveal_strlit("session_id=");
    reveal_strlit("=");
    assert(name + "="@ + info.id =~= "session_id="@ + info.id);
    assert(name[0] == 's' && name.last() == 'd');
    lemma_trimmed_is(name);
    assert(!name.contains('=') && !name.contains(';'));
    law_cookies_are_found(name, info.id);
    assert(live(after, second).dom().contains(info.id));
}

/// After a visit no session is left that has been idle for too long, so the
/// store does not grow without bound.
pub proof fn law_idle_sessions_go(
    m: Sessions,
    cookie_header: Option<Seq<char>>,
    now: u64,
    fresh: Seq<char>,
    id: Seq<char>,
)
    requires
        touched(m, cookie_header, now, fresh).0.dom().contains(id),
    ensures
        !expired(touched(m, cookie_header, now, fresh).0[id], now),
{
}

/// A visit changes nothing about the sessions of others, but for dropping
/// those that have expired.
pub proof fn law_other_sessions_stay(
    m: Sessions,
    cookie_header: Option<Seq<char>>,
    now: u64,
    fresh: Seq<char>,
    id: Seq<char>,
)
    requires
        id != touched(m, cookie_header, now, fresh).1.id,
    ensures
        touched(m, cookie_header, now, fresh).0.dom().contains(id) <==> m.dom().contains(id)
            && !expired(m[id], now),
        touched(m, cookie_header, now, fresh).0.dom().contains(id) ==> touched(
            m,
            cookie_header,
            now,
            fresh,
        ).0[id] == m[id],
{
}

/// A visitor without the cookie of a session that is known gets a fresh one.
pub proof fn law_strangers_get_a_session(
    m: Sessions,
    cookie_header: Option<Seq<char>>,
    now: u64,
    fresh: Seq<char>,
)
    requires
        known_id(live(m, now), cookie_header) is None,
    ensures
        touched(m, cookie_header, now, fresh).1 == (InfoView {
            id: fresh,
            is_new: true,
            visits: 1,
        }),
{
}

/// Whether a piece of a cookie header sets the cookie `name` to `value`, with
/// white space around either or not.
pub open spec fn sets(piece: Seq<char>, name: Seq<char>, value: Seq<char>) -> bool {
    split_first(trimmed(piece), '=') matches Some((k, v)) && trimmed(k) == name && trimmed(v)
        == value
}

/// Of the cookies in a header the first one with a name is the one that counts,
/// wherever it stands; if there is none with that name, none is found.
pub proof fn law_first_cookie_counts(pieces: Seq<Seq<char>>, name: Seq<char>)
    requires
        pieces.len() > 0,
        forall|i: int| 0 <= i < pieces.len() ==> !(#[trigger] pieces[i]).contains(';'),
    ensures
        forall|i: int, value: Seq<char>|
            0 <= i < pieces.len() && #[trigger] sets(pieces[i], name, value) && (forall|
                j: int,
                v: Seq<char>,
            |
                0 <= j < i ==> !#[trigger] sets(pieces[j], name, v)) ==> cookie_in(
                joined(pieces, seq![';']),
                name,
            ) == Some(value),
        (forall|j: int, v: Seq<char>|
            0 <= j < pieces.len() ==> !#[trigger] sets(pieces[j], name, v)) ==> cookie_in(
            joined(pieces, seq![';']),
            name,
        ) is None,
{
    law_joining_is_undone_by_cutting(pieces, ';');
    assert forall|i: int, value: Seq<char>|
        0 <= i < pieces.len() && #[trigger] sets(pieces[i], name, value) && (forall|
            j: int,
            v: Seq<char>,
        |
            0 <= j < i ==> !#[trigger] sets(pieces[j], name, v)) implies cookie_in(
        joined(pieces, seq![';']),
        name,
    ) == Some(value) by {
        lemma_first_cookie(pieces, name, value, i);
    }
    if forall|j: int, v: Seq<char>|
        0 <= j < pieces.len() ==> !#[trigger] sets(pieces[j], name, v) {
        lemma_no_cookie(pieces, name);
    }
}

proof fn lemma_first_cookie(pieces: Seq<Seq<char>>, name: Seq<char>, value: Seq<char>, i: int)
    requires
        0 <= i < pieces.len(),
        sets(pieces[i], name, value),
        forall|j: int, v: Seq<char>| 0 <= j < i ==> !#[trigger] sets(pieces[j], name, v),
    ensures
        cookie_among(pieces, name) == Some(value),
    decreases i,
{
    if i > 0 {
        let rest = pieces.skip(1);
        assert(rest[i - 1] == pieces[i]);
        assert forall|j: int, v: Seq<char>| 0 <= j < i - 1 implies !#[trigger] sets(
            rest[j],
            name,
            v,
        ) by {
            assert(rest[j] == pieces[j + 1]);
            assert(!sets(pieces[j + 1], name, v));
        }
        lemma_first_cookie(rest, name, value, i - 1);
        match split_first(trimmed(pieces[0]), '=') {
            Some((k, v)) => {
                assert(!sets(pieces[0], name, trimmed(v)));
            },
            None => {},
        }
    }
}

proof fn lemma_no_cookie(pieces: Seq<Seq<char>>, name: Seq<char>)
    requires
        forall|j: int, v: Seq<char>| 0 <= j < pieces.len() ==> !#[trigger] sets(pieces[j], name, v),
    ensures
        cookie_among(pieces, name) is None,
    decreases pieces.len(),
{
    if pieces.len() > 0 {
        let rest = pieces.skip(1);
        assert forall|j: int, v: Seq<char>| 0 <= j < rest.len() implies !#[trigger] sets(
            rest[j],
            name,
            v,
        ) by {
            assert(rest[j] == pieces[j + 1]);
            assert(!sets(pieces[j + 1], name, v));
        }
        lemma_no_cookie(rest, name);
        match split_first(trimmed(pieces[0]), '=') {
            Some((k, v)) => {
                assert(!sets(pieces[0], name, trimmed(v)));
            },
            None => {},
        }
    }
}

/// Every visit within half an hour of the last one counts one more, in what the
/// visitor is told and in what is kept, and puts off the end of the session.
pub proof fn law_visits_are_counted(
    m: Sessions,
    header: Seq<char>,
    id: Seq<char>,
    now: u64,
    fresh: Seq<char>,
)
    requires
        cookie_in(header, "session_id"@) == Some(id),
        m.dom().contains(id),
        now - m[id].last_seen < 30 * 60 * 1_000_000_000,
        m[id].visits < u64::MAX,
    ensures
        ({
            let (after, info) = touched(m, Some(header), now, fresh);
            &&& info.id == id
            &&& !info.is_new
            &&& info.visits == m[id].visits + 1
            &&& after.dom().contains(id)
            &&& after[id].visits == m[id].visits + 1
            &&& after[id].last_seen == now
        }),
{
    assert(live(m, now).dom().contains(id));
}

/// A session that has been idle for half an hour is over: whoever comes with
/// its cookie then is a stranger, and it is no longer kept.
pub proof fn law_sessions_end_after_half_an_hour(
    m: Sessions,
    header: Seq<char>,
    id: Seq<char>,
    now: u64,
    fresh: Seq<char>,
)
    requires
        cookie_in(header, "session_id"@) == Some(id),
        !m.dom().contains(id) || now - m[id].last_seen >= 30 * 60 * 1_000_000_000,
    ensures
        ({
            let (after, info) = touched(m, Some(header), now, fresh);
            &&& info == InfoView { id: fresh, is_new: true, visits: 1 }
            &&& after.dom().contains(fresh)
            &&& after[fresh] == SessionView { visits: 1, last_seen: now }
            &&& id != fresh ==> !after.dom().contains(id)
        }),
{
    assert(!live(m, now).dom().contains(id));
}

/// Without a session cookie a visitor is a stranger: a session is begun for
/// them, with one visit.
pub proof fn law_first_visits(
    m: Sessions,
    header: Option<Seq<char>>,
    now: u64,
    fresh: Seq<char>,
)
    requires
        header matches Some(h) ==> cookie_in(h, "session_id"@) is None,
    ensures
        ({
            let (after, info) = touched(m, header, now, fresh);
            &&& info == InfoView { id: fresh, is_new: true, visits: 1 }
            &&& after.dom().contains(fresh)
            &&& after[fresh] == SessionView { visits: 1, last_seen: now }
        }),
{
}

/// The sessions after visits at the given times, all with one cookie header.
pub open spec fn after_visits(m: Sessions, header: Seq<char>, times: Seq<u64>) -> Sessions
    decreases times.len(),
{
    if times.len() == 0 {
        m
    } else {
        touched(after_visits(m, header, times.drop_last()), Some(header), times.last(), seq![]).0
    }
}

/// Visits in a row, none of them half an hour after the one before, are
/// numbered one after the other: after a session was begun the visits that
/// follow are the second, the third, and so on.
pub proof fn law_visits_in_a_row(
    m: Sessions,
    first: u64,
    fresh: Seq<char>,
    header: Seq<char>,
    times: Seq<u64>,
    now: u64,
    other: Seq<char>,
)
    requires
        cookie_in(header, "session_id"@) == Some(fresh),
        forall|i: int|
            0 <= i < times.len() ==> #[trigger] times[i] - (if i == 0 {
                first
            } else {
                times[i - 1]
            }) < 30 * 60 * 1_000_000_000,
        now - (if times.len() == 0 {
            first
        } else {
            times.last()
        }) < 30 * 60 * 1_000_000_000,
        times.len() + 2 < u64::MAX,
    ensures
        ({
            let begun = touched(m, None, first, fresh).0;
            let visit = touched(after_visits(begun, header, times), Some(header), now, other).1;
            visit == InfoView { id: fresh, is_new: false, visits: (times.len() + 2) as u64 }
        }),
{
    let begun = touched(m, None, first, fresh).0;
    lemma_after_visits(begun, first, fresh, header, times);
    law_visits_are_counted(after_visits(begun, header, times), header, fresh, now, other);
}

proof fn lemma_after_visits(
    m: Sessions,
    first: u64,
    id: Seq<char>,
    header: Seq<char>,
    times: Seq<u64>,
)
    requires
        cookie_in(header, "session_id"@) == Some(id),
        m.dom().contains(id),
        m[id] == (SessionView { visits: 1, last_seen: first }),
        forall|i: int|
            0 <= i < times.len() ==> #[trigger] times[i] - (if i == 0 {
                first
            } else {
                times[i - 1]
            }) < 30 * 60 * 1_000_000_000,
        times.len() + 2 < u64::MAX,
    ensures
        ({
            let after = after_visits(m, header, times);
            &&& after.dom().contains(id)
            &&& after[id].visits == times.len() + 1
            &&& after[id].last_seen == (if times.len() == 0 {
                first
            } else {
                times.last()
            })
        }),
    decreases times.len(),
{
    if times.len() > 0 {
        let front = times.drop_last();
        assert forall|i: int| 0 <= i < front.len() implies #[trigger] front[i] - (if i == 0 {
            first
        } else {
            front[i - 1]
        }) < 30 * 60 * 1_000_000_000 by {
            assert(front[i] == times[i]);
        }
        lemma_after_visits(m, first, id, header, front);
        assert(times[times.len() - 1] == times.last());
        law_visits_are_counted(
            after_visits(m, header, front),
            header,
            id,
            times.last(),
            seq![],
        );
    }
}

/// The cookie that a visitor is given names the session, goes with every path,
/// is kept from scripts, and is not sent with requests from other sites.
pub proof fn law_cookies_are_guarded(id: Seq<char>)
    ensures
        cookie_for(id) == "session_id="@ + id + "; Path=/"@ + "; HttpOnly"@ + "; SameSite=Lax"@,
{
    reveal_strlit("; Path=/");
    reveal_strlit("; HttpOnly");
    reveal_strlit("; SameSite=Lax");
    reveal_strlit("; Path=/; HttpOnly; SameSite=Lax");
    assert("; Path=/; HttpOnly; SameSite=Lax"@ =~= "; Path=/"@ + "; HttpOnly"@ + "; SameSite=Lax"@);
    assert(cookie_for(id) =~= "session_id="@ + id + "; Path=/"@ + "; HttpOnly"@
        + "; SameSite=Lax"@);
}

} // verus!
