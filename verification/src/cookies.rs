//! Cookie parsing and an in-memory session store.
//!
//! Each client that arrives without a valid `session_id` cookie is issued one
//! (128 random bits, hex-encoded) via `Set-Cookie`. Sessions are evicted after
//! a time without requests so the store cannot grow without bound.
//!
//! Times are in nanoseconds since some moment that stays the same.

use crate::numbers::{hex, hex_of};
use crate::text::{
    chars_of, concat3, is_str, pieces, split, split_at_each, split_first, split_once, str_eq,
    string_of, trim, trimmed,
};
use vstd::prelude::*;

verus! {

/// How long a session survives with no requests: half an hour.
pub const SESSION_TTL: u64 = 1_800_000_000_000;

/// The value of the first cookie with a given name among the pairs of a
/// `Cookie` field.
pub open spec fn cookie_among(pairs: Seq<Seq<char>>, name: Seq<char>) -> Option<Seq<char>>
    decreases pairs.len(),
{
    if pairs.len() == 0 {
        None
    } else {
        match split_first(trimmed(pairs[0]), '=') {
            Some((k, v)) => if trimmed(k) == name {
                Some(trimmed(v))
            } else {
                cookie_among(pairs.skip(1), name)
            },
            None => cookie_among(pairs.skip(1), name),
        }
    }
}

/// The value of a cookie in a `Cookie` field.
pub open spec fn cookie_in(header: Seq<char>, name: Seq<char>) -> Option<Seq<char>> {
    cookie_among(split(header, ';'), name)
}

/// Finds a single cookie's value within a `Cookie` header.
pub fn cookie_value(header: &str, name: &str) -> (r: Option<String>)
    ensures
        match r {
            Some(v) => cookie_in(header@, name@) == Some(v@),
            None => cookie_in(header@, name@) is None,
        },
{
    let chars = chars_of(header);
    let pairs = split_at_each(chars.as_slice(), ';');
    let ghost all = split(header@, ';');
    let mut i: usize = 0;
    assert(all.skip(0) =~= all);
    while i < pairs.len()
        invariant
            i <= pairs@.len(),
            pieces(pairs@) == all,
            cookie_in(header@, name@) == cookie_among(all.skip(i as int), name@),
        decreases pairs@.len() - i,
    {
        proof {
            assert(all.skip(i as int)[0] == pairs@[i as int]@);
            assert(all.skip(i as int).skip(1) =~= all.skip(i + 1));
        }
        if let Some((k, v)) = split_once(trim(pairs[i]), '=') {
            if is_str(trim(k), name) {
                return Some(string_of(trim(v)));
            }
        }
        i += 1;
    }
    None
}

/// The identifier of a session, made of 128 random bits.
pub fn session_id(entropy: &[u8; 16]) -> (r: String)
    ensures
        r@ == hex(entropy@),
{
    hex_of(entropy)
}

/// A session.
pub struct Session {
    id: String,
    visits: u64,
    last_seen: u64,
}

/// What is known of a session.
pub ghost struct SessionView {
    pub visits: u64,
    pub last_seen: u64,
}

/// Outcome of touching the store for one request.
pub struct SessionInfo {
    pub id: String,
    /// True if a fresh session was created (caller should `Set-Cookie`).
    pub is_new: bool,
    pub visits: u64,
}

/// What a [`SessionInfo`] says.
#[verifier::ext_equal]
pub ghost struct InfoView {
    pub id: Seq<char>,
    pub is_new: bool,
    pub visits: u64,
}

impl View for SessionInfo {
    type V = InfoView;

    open spec fn view(&self) -> InfoView {
        InfoView { id: self.id@, is_new: self.is_new, visits: self.visits }
    }
}

/// The sessions that a store knows, by identifier.
pub type Sessions = Map<Seq<char>, SessionView>;

/// Whether a session was last seen too long ago.
pub open spec fn expired(s: SessionView, now: u64) -> bool {
    now - s.last_seen >= SESSION_TTL
}

/// The sessions that have not expired.
pub open spec fn live(m: Sessions, now: u64) -> Sessions {
    Map::new(|id: Seq<char>| m.dom().contains(id) && !expired(m[id], now), |id: Seq<char>| m[id])
}

/// A count of visits after one more, which starts again at zero where it would
/// not fit.
pub open spec fn one_more(visits: u64) -> u64 {
    if visits == u64::MAX {
        0
    } else {
        (visits + 1) as u64
    }
}

/// The identifier that a `Cookie` field gives, if it is that of one of the
/// sessions.
pub open spec fn known_id(m: Sessions, cookie_header: Option<Seq<char>>) -> Option<Seq<char>> {
    match cookie_header {
        Some(h) => match cookie_in(h, "session_id"@) {
            Some(id) => if m.dom().contains(id) {
                Some(id)
            } else {
                None
            },
            None => None,
        },
        None => None,
    }
}

/// The sessions after a visit, and what is said of the visit. Sessions that
/// have expired go first. A visitor who names a session counts as one visit
/// more; any other gets a fresh session with the identifier `fresh`.
pub open spec fn touched(
    m: Sessions,
    cookie_header: Option<Seq<char>>,
    now: u64,
    fresh: Seq<char>,
) -> (Sessions, InfoView) {
    let rest = live(m, now);
    match known_id(rest, cookie_header) {
        Some(id) => {
            let visits = one_more(rest[id].visits);
            (
                rest.insert(id, SessionView { visits, last_seen: now }),
                InfoView { id, is_new: false, visits },
            )
        },
        None => (
            rest.insert(fresh, SessionView { visits: 1, last_seen: now }),
            InfoView { id: fresh, is_new: true, visits: 1 },
        ),
    }
}

/// What a list of sessions says, by identifier.
spec fn by_id(list: Seq<Session>) -> Sessions
    decreases list.len(),
{
    if list.len() == 0 {
        Map::empty()
    } else {
        by_id(list.drop_last()).insert(
            list.last().id@,
            SessionView { visits: list.last().visits, last_seen: list.last().last_seen },
        )
    }
}

/// Whether a session in a list was last seen too long ago.
spec fn expired_at(s: Session, now: u64) -> bool {
    expired(SessionView { visits: s.visits, last_seen: s.last_seen }, now)
}

/// Whether no identifier is there twice.
spec fn distinct(list: Seq<Session>) -> bool {
    forall|i: int, j: int|
        0 <= i < j < list.len() ==> (#[trigger] list[i]).id@ != (#[trigger] list[j]).id@
}

/// The sessions of a list that have not expired.
spec fn unexpired(list: Seq<Session>, now: u64) -> Seq<Session>
    decreases list.len(),
{
    if list.len() == 0 {
        seq![]
    } else if expired_at(list.last(), now) {
        unexpired(list.drop_last(), now)
    } else {
        unexpired(list.drop_last(), now).push(list.last())
    }
}

/// A list without a session at its end still has every identifier once.
proof fn lemma_distinct_front(list: Seq<Session>)
    requires
        distinct(list),
        list.len() > 0,
    ensures
        distinct(list.drop_last()),
{
    let front = list.drop_last();
    assert forall|i: int, j: int| 0 <= i < j < front.len() implies (#[trigger] front[i]).id@ != (
    #[trigger] front[j]).id@ by {
        assert(list[i].id@ != list[j].id@);
    }
}

/// Dropping expired sessions from a list drops them from what it says.
proof fn lemma_unexpired(list: Seq<Session>, now: u64)
    requires
        distinct(list),
    ensures
        distinct(unexpired(list, now)),
        by_id(unexpired(list, now)) == live(by_id(list), now),
        forall|j: int|
            0 <= j < unexpired(list, now).len() ==> by_id(list).dom().contains(
                (#[trigger] unexpired(list, now)[j]).id@,
            ),
    decreases list.len(),
{
    let kept = unexpired(list, now);
    if list.len() == 0 {
        assert(by_id(kept) =~= live(by_id(list), now));
    } else {
        let front = list.drop_last();
        let last = list.last();
        let rest = unexpired(front, now);
        lemma_distinct_front(list);
        lemma_unexpired(front, now);
        lemma_by_id(front);
        assert(!by_id(front).dom().contains(last.id@)) by {
            if by_id(front).dom().contains(last.id@) {
                let i = choose|i: int|
                    0 <= i < front.len() && (#[trigger] front[i]).id@ == last.id@;
                assert(list[i].id@ != list[list.len() - 1].id@);
            }
        }
        if !expired_at(last, now) {
            assert(kept.drop_last() =~= rest);
            assert forall|i: int, j: int| 0 <= i < j < kept.len() implies (#[trigger] kept[i]).id@
                != (#[trigger] kept[j]).id@ by {
                assert(kept[i] == rest[i]);
                if j < rest.len() {
                    assert(rest[i].id@ != rest[j].id@);
                }
            }
            assert forall|j: int| 0 <= j < kept.len() implies by_id(list).dom().contains(
                (#[trigger] kept[j]).id@,
            ) by {
                if j < rest.len() {
                    assert(kept[j] == rest[j]);
                }
            }
        }
        assert(by_id(kept) =~= live(by_id(list), now));
    }
}

/// `by_id` has the sessions of the list, each under its identifier.
proof fn lemma_by_id(list: Seq<Session>)
    requires
        distinct(list),
    ensures
        forall|id: Seq<char>| #[trigger]
            by_id(list).dom().contains(id) ==> exists|i: int|
                0 <= i < list.len() && (#[trigger] list[i]).id@ == id,
        forall|i: int|
            0 <= i < list.len() ==> by_id(list).dom().contains((#[trigger] list[i]).id@) && by_id(
                list,
            )[list[i].id@] == (SessionView {
                visits: list[i].visits,
                last_seen: list[i].last_seen,
            }),
    decreases list.len(),
{
    if list.len() > 0 {
        let front = list.drop_last();
        lemma_distinct_front(list);
        lemma_by_id(front);
        assert forall|id: Seq<char>| #[trigger] by_id(list).dom().contains(id) implies exists|i: int|
            0 <= i < list.len() && (#[trigger] list[i]).id@ == id by {
            if id == list.last().id@ {
                assert(list[list.len() - 1].id@ == id);
            } else {
                assert(by_id(front).dom().contains(id));
                let i = choose|i: int| 0 <= i < front.len() && (#[trigger] front[i]).id@ == id;
                assert(list[i].id@ == id);
            }
        }
        assert forall|i: int| 0 <= i < list.len() implies by_id(list).dom().contains(
            (#[trigger] list[i]).id@,
        ) && by_id(list)[list[i].id@] == (SessionView {
            visits: list[i].visits,
            last_seen: list[i].last_seen,
        }) by {
            if i < front.len() {
                assert(front[i] == list[i]);
                assert(list[i].id@ != list[list.len() - 1].id@);
            }
        }
    }
}

/// What a list says is fixed by what `lemma_by_id` says of it.
proof fn lemma_by_id_is(list: Seq<Session>, m: Sessions)
    requires
        distinct(list),
        forall|id: Seq<char>| #[trigger]
            m.dom().contains(id) ==> exists|i: int|
                0 <= i < list.len() && (#[trigger] list[i]).id@ == id,
        forall|i: int|
            0 <= i < list.len() ==> m.dom().contains((#[trigger] list[i]).id@) && m[list[i].id@]
                == (SessionView { visits: list[i].visits, last_seen: list[i].last_seen }),
    ensures
        by_id(list) == m,
{
    lemma_by_id(list);
    let b = by_id(list);
    assert forall|id: Seq<char>| b.dom().contains(id) <==> m.dom().contains(id) by {
        if b.dom().contains(id) {
            let i = choose|i: int| 0 <= i < list.len() && (#[trigger] list[i]).id@ == id;
            assert(m.dom().contains(list[i].id@));
        }
        if m.dom().contains(id) {
            let i = choose|i: int| 0 <= i < list.len() && (#[trigger] list[i]).id@ == id;
            assert(b.dom().contains(list[i].id@));
        }
    }
    assert forall|id: Seq<char>| b.dom().contains(id) implies b[id] == m[id] by {
        let i = choose|i: int| 0 <= i < list.len() && (#[trigger] list[i]).id@ == id;
        assert(b[list[i].id@] == m[list[i].id@]);
    }
    assert(b =~= m);
}

/// The sessions of a server.
pub struct SessionStore {
    sessions: Vec<Session>,
}

impl View for SessionStore {
    type V = Sessions;

    closed spec fn view(&self) -> Sessions {
        by_id(self.sessions@)
    }
}

impl SessionStore {
    /// Whether no two sessions have the same identifier.
    pub closed spec fn wf(&self) -> bool {
        distinct(self.sessions@)
    }

    /// A store without sessions.
    pub fn new() -> (r: Self)
        ensures
            r.wf(),
            r@ == Sessions::empty(),
    {
        SessionStore { sessions: Vec::new() }
    }

    /// Looks for a session.
    fn position(&self, id: &str) -> (r: Option<usize>)
        requires
            self.wf(),
        ensures
            match r {
                Some(i) => i < self.sessions@.len() && self.sessions@[i as int].id@ == id@
                    && self@.dom().contains(id@) && self@[id@] == (SessionView {
                    visits: self.sessions@[i as int].visits,
                    last_seen: self.sessions@[i as int].last_seen,
                }),
                None => !self@.dom().contains(id@) && forall|i: int|
                    0 <= i < self.sessions@.len() ==> (#[trigger] self.sessions@[i]).id@ != id@,
            },
    {
        proof {
            lemma_by_id(self.sessions@);
        }
        let mut i: usize = 0;
        while i < self.sessions.len()
            invariant
                i <= self.sessions@.len(),
                forall|j: int| 0 <= j < i ==> (#[trigger] self.sessions@[j]).id@ != id@,
                forall|j: int|
                    0 <= j < self.sessions@.len() ==> self@.dom().contains(
                        (#[trigger] self.sessions@[j]).id@,
                    ) && self@[self.sessions@[j].id@] == (SessionView {
                        visits: self.sessions@[j].visits,
                        last_seen: self.sessions@[j].last_seen,
                    }),
            decreases self.sessions@.len() - i,
        {
            if str_eq(self.sessions[i].id.as_str(), id) {
                return Some(i);
            }
            i += 1;
        }
        None
    }

    /// Drops the sessions that have expired.
    pub fn evict_expired(&mut self, now: u64)
        requires
            old(self).wf(),
        ensures
            final(self).wf(),
            final(self)@ == live(old(self)@, now),
    {
        let ghost list = self.sessions@;
        let mut all: Vec<Session> = Vec::new();
        core::mem::swap(&mut all, &mut self.sessions);
        let mut kept: Vec<Session> = Vec::new();
        for s in it: all
            invariant
                it.seq() == list,
                kept@ == unexpired(list.take(it.index()), now),
        {
            let ghost i = it.index();
            assert(list.take(i + 1).drop_last() =~= list.take(i));
            let elapsed: u64 = if now >= s.last_seen {
                now - s.last_seen
            } else {
                0
            };
            if elapsed < SESSION_TTL {
                kept.push(s);
            }
        }
        self.sessions = kept;
        proof {
            assert(list.take(list.len() as int) =~= list);
            lemma_unexpired(list, now);
        }
    }

    /// The identifier that a `Cookie` header gives, if it is that of a session.
    fn existing(&self, cookie_header: Option<&str>) -> (r: Option<String>)
        requires
            self.wf(),
        ensures
            match r {
                Some(id) => known_id(self@, view_of(cookie_header)) == Some(id@),
                None => known_id(self@, view_of(cookie_header)) is None,
            },
    {
        match cookie_header {
            Some(h) => match cookie_value(h, "session_id") {
                Some(id) => match self.position(id.as_str()) {
                    Some(_) => Some(id),
                    None => None,
                },
                None => None,
            },
            None => None,
        }
    }

    /// Tells whether a visitor needs a fresh session.
    pub fn needs_session(&self, cookie_header: Option<&str>, now: u64) -> (r: bool)
        requires
            self.wf(),
        ensures
            r == known_id(live(self@, now), view_of(cookie_header)) is None,
    {
        match self.existing(cookie_header) {
            Some(id) => match self.position(id.as_str()) {
                Some(i) => {
                    let last_seen: u64 = self.sessions[i].last_seen;
                    now >= last_seen && now - last_seen >= SESSION_TTL
                },
                None => true,
            },
            None => true,
        }
    }

    /// Looks up (or creates) the session named by the request's `Cookie`
    /// header, counting this visit. Expired sessions are evicted first. A
    /// fresh session takes its identifier from `entropy`.
    pub fn touch(&mut self, cookie_header: Option<&str>, now: u64, entropy: &[u8; 16]) -> (r:
        SessionInfo)
        requires
            old(self).wf(),
        ensures
            final(self).wf(),
            final(self)@ == touched(old(self)@, view_of(cookie_header), now, hex(entropy@)).0,
            r@ == touched(old(self)@, view_of(cookie_header), now, hex(entropy@)).1,
    {
        self.evict_expired(now);
        match self.existing(cookie_header) {
            Some(id) => {
                let visits: u64 = self.put(id.as_str(), now);
                SessionInfo { id, is_new: false, visits }
            },
            None => {
                let id = session_id(entropy);
                self.replace(id.as_str(), 1, now);
                SessionInfo { id, is_new: true, visits: 1 }
            },
        }
    }

    /// Counts a visit to a session that is there.
    fn put(&mut self, id: &str, now: u64) -> (visits: u64)
        requires
            old(self).wf(),
            old(self)@.dom().contains(id@),
        ensures
            final(self).wf(),
            visits == one_more(old(self)@[id@].visits),
            final(self)@ == old(self)@.insert(id@, SessionView { visits, last_seen: now }),
    {
        let mut visits: u64 = 1;
        if let Some(i) = self.position(id) {
            let had: u64 = self.sessions[i].visits;
            visits = if had == u64::MAX {
                0
            } else {
                had + 1
            };
        }
        self.replace(id, visits, now);
        visits
    }

    /// Sets what is known of a session.
    fn replace(&mut self, id: &str, visits: u64, now: u64)
        requires
            old(self).wf(),
        ensures
            final(self).wf(),
            final(self)@ == old(self)@.insert(id@, SessionView { visits, last_seen: now }),
    {
        let ghost had = self.sessions@;
        let ghost want = self@.insert(id@, SessionView { visits, last_seen: now });
        proof {
            lemma_by_id(had);
        }
        match self.position(id) {
            Some(i) => {
                let fresh = Session { id: id.to_owned(), visits, last_seen: now };
                self.sessions.set(i, fresh);
                proof {
                    let list = self.sessions@;
                    assert(list =~= had.update(i as int, fresh));
                    assert forall|a: int, b: int| 0 <= a < b < list.len() implies (
                    #[trigger] list[a]).id@ != (#[trigger] list[b]).id@ by {
                        assert(had[a].id@ != had[b].id@);
                    }
                    assert forall|k: Seq<char>| #[trigger] want.dom().contains(
                        k,
                    ) implies exists|j: int|
                        0 <= j < list.len() && (#[trigger] list[j]).id@ == k by {
                        if k == id@ {
                            assert(list[i as int].id@ == k);
                        } else {
                            assert(by_id(had).dom().contains(k));
                            let j = choose|j: int|
                                0 <= j < had.len() && (#[trigger] had[j]).id@ == k;
                            assert(list[j].id@ == k);
                        }
                    }
                    assert forall|j: int| 0 <= j < list.len() implies want.dom().contains(
                        (#[trigger] list[j]).id@,
                    ) && want[list[j].id@] == (SessionView {
                        visits: list[j].visits,
                        last_seen: list[j].last_seen,
                    }) by {
                        if j != i {
                            assert(list[j] == had[j]);
                            if j < i {
                                assert(had[j].id@ != had[i as int].id@);
                            } else {
                                assert(had[i as int].id@ != had[j].id@);
                            }
                        }
                    }
                    lemma_by_id_is(list, want);
                }
            },
            None => {
                let fresh = Session { id: id.to_owned(), visits, last_seen: now };
                self.sessions.push(fresh);
                proof {
                    let list = self.sessions@;
                    assert(list.drop_last() =~= had);
                }
            },
        }
    }

    /// The `Set-Cookie` header value for a session id.
    pub fn set_cookie_header(id: &str) -> (r: String)
        ensures
            r@ == cookie_for(id@),
    {
        concat3("session_id=", id, "; Path=/; HttpOnly; SameSite=Lax")
    }
}

/// The text of an argument that may be missing.
pub open spec fn view_of(s: Option<&str>) -> Option<Seq<char>> {
    match s {
        Some(s) => Some(s@),
        None => None,
    }
}

/// The `Set-Cookie` value for a session.
pub open spec fn cookie_for(id: Seq<char>) -> Seq<char> {
    "session_id="@ + id + "; Path=/; HttpOnly; SameSite=Lax"@
}

} // verus!
