//! The session table and the operations of the packet plane on it:
//! registration, ingress, egress fan-out and expiry.

use vstd::prelude::*;
use crate::frame::{decode_frame, frame_fields};
use crate::session::{
    Datagram, Endpoint, MIN_IPV4_HEADER, endpoints_unique, Session, SessionView, datagrams_view, elapsed, fresh_session, session_datagrams,
    session_egress, session_ingress,
};

verus! {

/// A session with no ingress activity for this long is expired (ms).
pub const SESSION_TIMEOUT_MS: u64 = 120_000;

/// How many random identifiers registration draws before giving up.
pub const ALLOCATE_DRAWS: usize = 16;

/// Relies on rand::random: a value drawn from the thread-local generator.
/// Nothing is promised of the value.
pub assume_specification<T>[ rand::random::<T> ]() -> (r: T)
    where
        rand::distributions::Standard: rand::distributions::Distribution<T>,
;

pub open spec fn ids_unique(t: Seq<SessionView>) -> bool {
    forall|i: int, j: int| 0 <= i < t.len() && 0 <= j < t.len() && i != j ==> t[i].id != t[j].id
}

pub open spec fn has_session(t: Seq<SessionView>, id: u32) -> bool {
    exists|i: int| 0 <= i < t.len() && t[i].id == id
}

pub open spec fn session_index(t: Seq<SessionView>, id: u32) -> int {
    choose|i: int| 0 <= i < t.len() && t[i].id == id
}

pub open spec fn session_of(t: Seq<SessionView>, id: u32) -> SessionView {
    t[session_index(t, id)]
}

/// A session stays while its last activity is younger than the timeout.
pub open spec fn is_live(s: SessionView, now: u64) -> bool {
    elapsed(now, s.last_activity) < SESSION_TIMEOUT_MS
}

/// The table after expiry at `now`: the live sessions, in order.
pub open spec fn reap_spec(t: Seq<SessionView>, now: u64) -> Seq<SessionView>
    decreases t.len(),
{
    if t.len() == 0 {
        t
    } else {
        let rest = reap_spec(t.drop_last(), now);
        if is_live(t.last(), now) {
            rest.push(t.last())
        } else {
            rest
        }
    }
}

/// Packets from the interface that egress handles: IPv4, at least a header long.
pub open spec fn is_ipv4_packet(p: Seq<u8>) -> bool {
    p.len() >= MIN_IPV4_HEADER && (p[0] >> 4u8) == 4u8
}

/// The datagrams that one packet from the interface gives, session by session.
pub open spec fn egress_datagrams(t: Seq<SessionView>, packet: Seq<u8>, now: u64) -> Seq<(Endpoint, Seq<u8>)>
    decreases t.len(),
{
    if t.len() == 0 {
        Seq::empty()
    } else {
        egress_datagrams(t.drop_last(), packet, now) + session_datagrams(t.last(), packet, now)
    }
}

/// The table after fan-out of one packet.
pub open spec fn egress_table(t: Seq<SessionView>, now: u64) -> Seq<SessionView> {
    t.map_values(|s: SessionView| session_egress(s, now))
}

/// What ingress does with a datagram.
pub enum Ingress {
    /// Shorter than the tunnel header.
    TooShort,
    /// Names no session in the table.
    UnknownSession,
    /// Its sequence number is in the session's dedup window.
    Duplicate,
    /// New, but too short to be an IP packet: a liveness beacon.
    Keepalive,
    /// New: the payload goes to the virtual interface.
    Forward(Vec<u8>),
}

/// The model of an `Ingress` verdict.
pub enum IngressView {
    TooShort,
    UnknownSession,
    Duplicate,
    Keepalive,
    Forward(Seq<u8>),
}

impl Ingress {
    pub open spec fn view(&self) -> IngressView {
        match self {
            Ingress::TooShort => IngressView::TooShort,
            Ingress::UnknownSession => IngressView::UnknownSession,
            Ingress::Duplicate => IngressView::Duplicate,
            Ingress::Keepalive => IngressView::Keepalive,
            Ingress::Forward(p) => IngressView::Forward(p@),
        }
    }
}

/// The verdict on a datagram for table `t`.
pub open spec fn ingress_result(t: Seq<SessionView>, data: Seq<u8>) -> IngressView {
    match frame_fields(data) {
        None => IngressView::TooShort,
        Some((sid, seq, payload)) => if !has_session(t, sid) {
            IngressView::UnknownSession
        } else if session_of(t, sid).dedup.contains(seq) {
            IngressView::Duplicate
        } else if payload.len() > MIN_IPV4_HEADER {
            IngressView::Forward(payload)
        } else {
            IngressView::Keepalive
        },
    }
}

/// The table after a datagram from `src` at `now`: the named session, if
/// present, records the path, the activity and the sequence number.
pub open spec fn ingress_table(t: Seq<SessionView>, data: Seq<u8>, src: Endpoint, now: u64) -> Seq<SessionView> {
    match frame_fields(data) {
        Some((sid, seq, _)) if has_session(t, sid) => t.update(
            session_index(t, sid),
            session_ingress(session_of(t, sid), src, seq, now),
        ),
        _ => t,
    }
}

/// One line of the table's summary.
pub struct SessionSummary {
    pub session_id: u32,
    pub paths: usize,
    pub dedup_entries: usize,
}

/// The sessions of the server, with distinct identifiers, in order of
/// registration.
pub struct SessionTable {
    // A `Vec` rather than a map: fan-out and expiry walk the sessions, and
    // their contracts are stated over this order, which a hash map leaves open.
    sessions: Vec<Session>,
}

impl SessionTable {
    pub closed spec fn view(&self) -> Seq<SessionView> {
        self.sessions@.map_values(|s: Session| s@)
    }

    pub closed spec fn wf(&self) -> bool {
        &&& forall|i: int| 0 <= i < self.sessions@.len() ==> (#[trigger] self.sessions@[i]).wf()
        &&& ids_unique(self@)
    }

    /// What well-formedness gives callers: distinct session identifiers,
    /// and in each session distinct path endpoints and a finite window.
    pub proof fn lemma_wf(&self)
        requires
            self.wf(),
        ensures
            ids_unique(self@),
            forall|i: int| 0 <= i < self@.len() ==> endpoints_unique(#[trigger] self@[i].paths) && self@[i].dedup.finite(),
    {
        assert forall|i: int| 0 <= i < self@.len() implies endpoints_unique(#[trigger] self@[i].paths) && self@[i].dedup.finite() by {
            self.sessions@[i].lemma_wf();
        }
    }

    pub fn new() -> (r: Self)
        ensures
            r.wf(),
            r@ == Seq::<SessionView>::empty(),
    {
        let r = SessionTable { sessions: Vec::new() };
        assert(r@ =~= Seq::<SessionView>::empty());
        r
    }

    /// Number of sessions.
    pub fn len(&self) -> (r: usize)
        ensures
            r == self@.len(),
    {
        self.sessions.len()
    }

    /// Position of session `id`, if present.
    fn find(&self, id: u32) -> (r: Option<usize>)
        requires
            self.wf(),
        ensures
            r is None <==> !has_session(self@, id),
            r matches Some(i) ==> i < self@.len() && i == session_index(self@, id),
    {
        let mut i: usize = 0;
        while i < self.sessions.len()
            invariant
                self.wf(),
                i <= self.sessions@.len(),
                forall|j: int| 0 <= j < i ==> self@[j].id != id,
            decreases self.sessions@.len() - i,
        {
            if self.sessions[i].id() == id {
                proof {
                    assert(self@[i as int].id == id);
                    assert(has_session(self@, id));
                    let k = session_index(self@, id);
                    assert(self@[k].id == id);
                }
                return Some(i);
            }
            i = i + 1;
        }
        None
    }

    /// Whether session `id` is present.
    pub fn contains(&self, id: u32) -> (r: bool)
        requires
            self.wf(),
        ensures
            r == has_session(self@, id),
    {
        self.find(id).is_some()
    }

    /// Session `id`, if present.
    pub fn get(&self, id: u32) -> (r: Option<&Session>)
        requires
            self.wf(),
        ensures
            r is None <==> !has_session(self@, id),
            r matches Some(s) ==> s@ == session_of(self@, id) && s.wf(),
    {
        match self.find(id) {
            None => None,
            Some(i) => Some(&self.sessions[i]),
        }
    }

    /// Adds an empty session `id` with activity `now`, unless `id` is taken;
    /// returns whether it was added.
    pub fn register(&mut self, id: u32, now: u64) -> (added: bool)
        requires
            old(self).wf(),
        ensures
            final(self).wf(),
            added == !has_session(old(self)@, id),
            added ==> final(self)@ == old(self)@.push(fresh_session(id, now)),
            !added ==> final(self)@ == old(self)@,
    {
        if self.contains(id) {
            return false;
        }
        let ghost before = self@;
        self.sessions.push(Session::new(id, now));
        assert(self@ =~= before.push(fresh_session(id, now)));
        true
    }

    /// Registers a session under a randomly drawn identifier, redrawing on a
    /// collision; `None` when every draw collided.
    pub fn allocate(&mut self, now: u64) -> (r: Option<u32>)
        requires
            old(self).wf(),
        ensures
            final(self).wf(),
            r matches Some(id) ==> !has_session(old(self)@, id) && final(self)@ == old(self)@.push(
                fresh_session(id, now),
            ),
            r is None ==> final(self)@ == old(self)@,
            old(self)@.len() == 0 ==> r is Some,
    {
        let mut k: usize = 0;
        while k < ALLOCATE_DRAWS
            invariant
                self.wf(),
                self@ == old(self)@,
                old(self)@.len() == 0 ==> k == 0,
            decreases ALLOCATE_DRAWS - k,
        {
            let id: u32 = rand::random::<u32>();
            if self.register(id, now) {
                return Some(id);
            }
            k = k + 1;
        }
        None
    }

    /// Handles one datagram received from `src` at `now`.
    pub fn ingress(&mut self, data: &[u8], src: Endpoint, now: u64) -> (r: Ingress)
        requires
            old(self).wf(),
        ensures
            final(self).wf(),
            final(self)@ == ingress_table(old(self)@, data@, src, now),
            r@ == ingress_result(old(self)@, data@),
    {
        let frame = match decode_frame(data) {
            None => return Ingress::TooShort,
            Some(f) => f,
        };
        let i = match self.find(frame.session_id) {
            None => return Ingress::UnknownSession,
            Some(i) => i,
        };
        let ghost before = self@;
        let mut s = self.sessions.remove(i);
        let fresh = s.observe(src, frame.packet_seq, now);
        self.sessions.insert(i, s);
        proof {
            assert(self@ =~= before.update(i as int, session_ingress(before[i as int], src, frame.packet_seq, now)));
            assert forall|a: int| 0 <= a < self.sessions@.len() implies (#[trigger] self.sessions@[a]).wf() by {
                if a != i {
                    assert(self.sessions@[a] == old(self).sessions@[a]);
                }
            }
            assert forall|a: int, b: int| 0 <= a < self@.len() && 0 <= b < self@.len() && a != b implies self@[a].id != self@[b].id by {
                assert(self@[a].id == before[a].id);
                assert(self@[b].id == before[b].id);
            }
        }
        if !fresh {
            Ingress::Duplicate
        } else if frame.payload.len() > MIN_IPV4_HEADER {
            Ingress::Forward(frame.payload)
        } else {
            Ingress::Keepalive
        }
    }
    /// Fans one packet read from the interface out to every session: one
    /// frame per active path, stamped with the session's egress counter.
    /// Anything but an IPv4 packet of at least a header is ignored.
    pub fn egress(&mut self, packet: &[u8], now: u64) -> (r: Vec<Datagram>)
        requires
            old(self).wf(),
        ensures
            final(self).wf(),
            is_ipv4_packet(packet@) ==> final(self)@ == egress_table(old(self)@, now)
                && datagrams_view(r@) == egress_datagrams(old(self)@, packet@, now),
            !is_ipv4_packet(packet@) ==> final(self)@ == old(self)@ && r@.len() == 0,
    {
        let mut out: Vec<Datagram> = Vec::new();
        if packet.len() < MIN_IPV4_HEADER || (packet[0] >> 4u8) != 4u8 {
            return out;
        }
        let ghost start = self@;
        let mut i: usize = 0;
        while i < self.sessions.len()
            invariant
                self.wf(),
                i <= self@.len(),
                self@.len() == start.len(),
                forall|j: int| 0 <= j < i ==> self@[j] == session_egress(start[j], now),
                forall|j: int| i <= j < self@.len() ==> self@[j] == start[j],
                datagrams_view(out@) == egress_datagrams(start.subrange(0, i as int), packet@, now),
            decreases self@.len() - i,
        {
            let ghost before = self@;
            assert(start.subrange(0, i + 1).drop_last() =~= start.subrange(0, i as int));
            let mut s = self.sessions.remove(i);
            s.fan_out(packet, now, &mut out);
            self.sessions.insert(i, s);
            proof {
                assert(self@ =~= before.update(i as int, session_egress(before[i as int], now)));
                assert forall|a: int| 0 <= a < self.sessions@.len() implies (#[trigger] self.sessions@[a]).wf() by {
                    if a != i {
                        assert(self.sessions@[a] == self.sessions@.update(i as int, self.sessions@[i as int])[a]);
                    }
                }
                assert forall|a: int, b: int| 0 <= a < self@.len() && 0 <= b < self@.len() && a != b implies self@[a].id != self@[b].id by {
                    assert(self@[a].id == before[a].id);
                    assert(self@[b].id == before[b].id);
                }
            }
            i = i + 1;
        }
        assert(start.subrange(0, start.len() as int) =~= start);
        assert(self@ =~= egress_table(start, now));
        out
    }

    /// Removes every session whose last activity is at least
    /// `SESSION_TIMEOUT_MS` before `now`; the others keep their order.
    pub fn reap(&mut self, now: u64)
        requires
            old(self).wf(),
        ensures
            final(self).wf(),
            final(self)@ == reap_spec(old(self)@, now),
    {
        let ghost start = self@;
        let mut i: usize = 0;
        let mut j: usize = 0;
        let n = self.sessions.len();
        while j < n
            invariant
                self.wf(),
                n == start.len(),
                j <= start.len(),
                i <= j,
                i == reap_spec(start.subrange(0, j as int), now).len(),
                self@ == reap_spec(start.subrange(0, j as int), now) + start.subrange(j as int, start.len() as int),
            decreases start.len() - j,
        {
            let ghost before = self@;
            let ghost before_s = self.sessions@;
            assert(start.subrange(0, j + 1).drop_last() =~= start.subrange(0, j as int));
            assert(self@.len() == i + (n - j));
            assert(before[i as int] == start[j as int]);
            let last = self.sessions[i].last_activity();
            let age = if now >= last { now - last } else { 0 };
            if age < SESSION_TIMEOUT_MS {
                i = i + 1;
                proof {
                    assert(self@ =~= reap_spec(start.subrange(0, j + 1), now) + start.subrange(j + 1, start.len() as int));
                }
            } else {
                self.sessions.remove(i);
                proof {
                    assert(self@ =~= before.remove(i as int));
                    assert(self@ =~= reap_spec(start.subrange(0, j + 1), now) + start.subrange(j + 1, start.len() as int));
                    assert forall|a: int| 0 <= a < self.sessions@.len() implies (#[trigger] self.sessions@[a]).wf() by {
                        let a0 = if a < i { a } else { a + 1 };
                        assert(self.sessions@[a] == before_s[a0]);
                    }
                    assert forall|a: int, b: int| 0 <= a < self@.len() && 0 <= b < self@.len() && a != b implies self@[a].id != self@[b].id by {
                        let a0 = if a < i { a } else { a + 1 };
                        let b0 = if b < i { b } else { b + 1 };
                        assert(self@[a] == before[a0]);
                        assert(self@[b] == before[b0]);
                    }
                }
            }
            j = j + 1;
        }
        assert(start.subrange(0, start.len() as int) =~= start);
        assert(self@ =~= reap_spec(start, now));
    }

    /// Identifier, number of paths and number of dedup entries of each session.
    pub fn summary(&self) -> (r: Vec<SessionSummary>)
        requires
            self.wf(),
        ensures
            r@.len() == self@.len(),
            forall|i: int| 0 <= i < r@.len() ==> {
                &&& (#[trigger] r@[i]).session_id == self@[i].id
                &&& r@[i].paths == self@[i].paths.len()
                &&& r@[i].dedup_entries == self@[i].dedup.len()
            },
    {
        let mut r: Vec<SessionSummary> = Vec::new();
        let mut i: usize = 0;
        while i < self.sessions.len()
            invariant
                self.wf(),
                i <= self@.len(),
                r@.len() == i,
                forall|k: int| 0 <= k < i ==> {
                    &&& (#[trigger] r@[k]).session_id == self@[k].id
                    &&& r@[k].paths == self@[k].paths.len()
                    &&& r@[k].dedup_entries == self@[k].dedup.len()
                },
            decreases self@.len() - i,
        {
            let s = &self.sessions[i];
            assert(s.wf());
            let line = SessionSummary {
                session_id: s.id(),
                paths: s.paths().len(),
                dedup_entries: s.dedup().len(),
            };
            r.push(line);
            i = i + 1;
        }
        r
    }
}

} // verus!
