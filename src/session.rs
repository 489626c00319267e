//! One client session: its transport paths, its dedup window, its egress
//! counter and the time of its last ingress activity.

use vstd::prelude::*;
use crate::dedup::{DedupWindow, accept_spec};
use crate::frame::{encode_frame, frame_bytes};

verus! {

/// A path counts as active while its last datagram is younger than this (ms).
pub const PATH_ACTIVE_WINDOW_MS: u64 = 10_000;

/// Payloads of at most this many bytes are kept out of the interface.
pub const MIN_IPV4_HEADER: usize = 20;

/// A transport endpoint of a client path: an address (an IPv4 address is held
/// in its IPv4-mapped IPv6 form) and a port.
#[derive(Clone, Copy, Debug, PartialEq, Eq, Structural, Hash)]
pub struct Endpoint {
    pub addr: u128,
    pub port: u16,
}

/// Liveness record of one path. Timestamps are milliseconds of a monotonic clock.
#[derive(Clone, Copy, Debug, PartialEq, Eq, Structural)]
pub struct PathInfo {
    pub last_seen: u64,
    pub packets_received: u64,
}

/// A datagram to send: destination and bytes of the frame.
pub struct Datagram {
    pub dest: Endpoint,
    pub bytes: Vec<u8>,
}

impl Datagram {
    pub open spec fn view(&self) -> (Endpoint, Seq<u8>) {
        (self.dest, self.bytes@)
    }
}

/// The views of a list of datagrams.
pub open spec fn datagrams_view(v: Seq<Datagram>) -> Seq<(Endpoint, Seq<u8>)> {
    v.map_values(|d: Datagram| d@)
}

/// Time from `then` to `now`, zero when `then` is not earlier.
pub open spec fn elapsed(now: u64, then: u64) -> u64 {
    if now >= then {
        (now - then) as u64
    } else {
        0
    }
}

pub open spec fn is_active(p: PathInfo, now: u64) -> bool {
    elapsed(now, p.last_seen) < PATH_ACTIVE_WINDOW_MS
}

pub open spec fn saturating_inc(n: u64) -> u64 {
    if n < u64::MAX {
        (n + 1) as u64
    } else {
        n
    }
}

pub open spec fn wrapping_inc(n: u32) -> u32 {
    if n < u32::MAX {
        (n + 1) as u32
    } else {
        0
    }
}

pub open spec fn has_path(paths: Seq<(Endpoint, PathInfo)>, e: Endpoint) -> bool {
    exists|i: int| 0 <= i < paths.len() && paths[i].0 == e
}

pub open spec fn endpoints_unique(paths: Seq<(Endpoint, PathInfo)>) -> bool {
    forall|i: int, j: int| 0 <= i < paths.len() && 0 <= j < paths.len() && i != j ==> paths[i].0 != paths[j].0
}

/// The path map after a datagram from `src` at `now`: an existing entry is
/// refreshed and counted, a new endpoint is appended with a count of one.
pub open spec fn upsert_path(paths: Seq<(Endpoint, PathInfo)>, src: Endpoint, now: u64) -> Seq<(Endpoint, PathInfo)> {
    if has_path(paths, src) {
        let i = choose|i: int| 0 <= i < paths.len() && paths[i].0 == src;
        paths.update(i, (src, PathInfo { last_seen: now, packets_received: saturating_inc(paths[i].1.packets_received) }))
    } else {
        paths.push((src, PathInfo { last_seen: now, packets_received: 1 }))
    }
}

/// The endpoints of the active paths, in map order.
pub open spec fn active_endpoints(paths: Seq<(Endpoint, PathInfo)>, now: u64) -> Seq<Endpoint>
    decreases paths.len(),
{
    if paths.len() == 0 {
        Seq::empty()
    } else {
        let rest = active_endpoints(paths.drop_last(), now);
        if is_active(paths.last().1, now) {
            rest.push(paths.last().0)
        } else {
            rest
        }
    }
}

/// The model of a session.
pub struct SessionView {
    pub id: u32,
    pub paths: Seq<(Endpoint, PathInfo)>,
    pub dedup: Set<u32>,
    pub egress_seq: u32,
    pub last_activity: u64,
}

/// A freshly registered session.
pub open spec fn fresh_session(id: u32, now: u64) -> SessionView {
    SessionView { id, paths: Seq::empty(), dedup: Set::empty(), egress_seq: 0, last_activity: now }
}

/// The session after an ingress datagram with `seq` from `src` at `now`.
pub open spec fn session_ingress(s: SessionView, src: Endpoint, seq: u32, now: u64) -> SessionView {
    SessionView {
        paths: upsert_path(s.paths, src, now),
        dedup: accept_spec(s.dedup, seq),
        last_activity: now,
        ..s
    }
}

/// The frames that one packet from the interface gives for a session: one
/// copy per active path, all stamped with the current egress sequence number.
pub open spec fn session_datagrams(s: SessionView, packet: Seq<u8>, now: u64) -> Seq<(Endpoint, Seq<u8>)> {
    active_endpoints(s.paths, now).map_values(|e: Endpoint| (e, frame_bytes(s.id, s.egress_seq, packet)))
}

/// The session after fan-out: the counter advances when a frame was emitted.
pub open spec fn session_egress(s: SessionView, now: u64) -> SessionView {
    if active_endpoints(s.paths, now).len() > 0 {
        SessionView { egress_seq: wrapping_inc(s.egress_seq), ..s }
    } else {
        s
    }
}

/// A client session; its paths have distinct endpoints.
pub struct Session {
    id: u32,
    paths: Vec<(Endpoint, PathInfo)>,
    dedup: DedupWindow,
    egress_seq: u32,
    last_activity: u64,
}

impl Session {
    pub closed spec fn view(&self) -> SessionView {
        SessionView {
            id: self.id,
            paths: self.paths@,
            dedup: self.dedup@,
            egress_seq: self.egress_seq,
            last_activity: self.last_activity,
        }
    }

    pub closed spec fn wf(&self) -> bool {
        self.dedup.wf() && endpoints_unique(self.paths@)
    }

    /// What well-formedness gives callers: distinct path endpoints and a
    /// finite window.
    pub proof fn lemma_wf(&self)
        requires
            self.wf(),
        ensures
            endpoints_unique(self@.paths),
            self@.dedup.finite(),
    {
        self.dedup.lemma_finite();
    }

    pub fn new(id: u32, now: u64) -> (r: Self)
        ensures
            r.wf(),
            r@ == fresh_session(id, now),
    {
        let r = Session { id, paths: Vec::new(), dedup: DedupWindow::new(), egress_seq: 0, last_activity: now };
        assert(r@.paths =~= Seq::<(Endpoint, PathInfo)>::empty());
        r
    }

    pub fn id(&self) -> (r: u32)
        ensures
            r == self@.id,
    {
        self.id
    }

    pub fn last_activity(&self) -> (r: u64)
        ensures
            r == self@.last_activity,
    {
        self.last_activity
    }

    pub fn egress_seq(&self) -> (r: u32)
        ensures
            r == self@.egress_seq,
    {
        self.egress_seq
    }

    pub fn dedup(&self) -> (r: &DedupWindow)
        ensures
            r@ == self@.dedup,
            self.wf() ==> r.wf(),
    {
        &self.dedup
    }

    /// The paths, in the order they were first seen.
    pub fn paths(&self) -> (r: Vec<(Endpoint, PathInfo)>)
        ensures
            r@ == self@.paths,
    {
        let mut r: Vec<(Endpoint, PathInfo)> = Vec::new();
        let mut i: usize = 0;
        while i < self.paths.len()
            invariant
                i <= self.paths@.len(),
                r@ == self.paths@.subrange(0, i as int),
            decreases self.paths@.len() - i,
        {
            r.push(self.paths[i]);
            i = i + 1;
            assert(r@ =~= self.paths@.subrange(0, i as int));
        }
        assert(r@ =~= self.paths@);
        r
    }

    /// The endpoints of the paths active at `now`, in map order.
    pub fn active_paths(&self, now: u64) -> (r: Vec<Endpoint>)
        ensures
            r@ == active_endpoints(self@.paths, now),
    {
        let mut r: Vec<Endpoint> = Vec::new();
        let mut i: usize = 0;
        while i < self.paths.len()
            invariant
                i <= self.paths@.len(),
                r@ == active_endpoints(self.paths@.subrange(0, i as int), now),
            decreases self.paths@.len() - i,
        {
            assert(self.paths@.subrange(0, i + 1).drop_last() =~= self.paths@.subrange(0, i as int));
            let (dest, info) = self.paths[i];
            let age = if now >= info.last_seen { now - info.last_seen } else { 0 };
            if age < PATH_ACTIVE_WINDOW_MS {
                r.push(dest);
            }
            i = i + 1;
        }
        assert(self.paths@.subrange(0, self.paths@.len() as int) =~= self.paths@);
        r
    }

    fn upsert(&mut self, src: Endpoint, now: u64)
        requires
            endpoints_unique(old(self).paths@),
        ensures
            endpoints_unique(final(self).paths@),
            final(self).paths@ == upsert_path(old(self).paths@, src, now),
            final(self).id == old(self).id,
            final(self).dedup == old(self).dedup,
            final(self).egress_seq == old(self).egress_seq,
            final(self).last_activity == old(self).last_activity,
    {
        let mut i: usize = 0;
        while i < self.paths.len()
            invariant
                *self == *old(self),
                endpoints_unique(self.paths@),
                i <= self.paths@.len(),
                forall|j: int| 0 <= j < i ==> self.paths@[j].0 != src,
            decreases self.paths@.len() - i,
        {
            if self.paths[i].0 == src {
                let count = self.paths[i].1.packets_received;
                let bumped = if count < u64::MAX { count + 1 } else { count };
                let ghost before = self.paths@;
                proof {
                    assert(has_path(before, src));
                    let k = choose|k: int| 0 <= k < before.len() && before[k].0 == src;
                    assert(k == i);
                }
                self.paths.set(i, (src, PathInfo { last_seen: now, packets_received: bumped }));
                assert(self.paths@ =~= upsert_path(before, src, now));
                return;
            }
            i = i + 1;
        }
        assert(!has_path(self.paths@, src));
        self.paths.push((src, PathInfo { last_seen: now, packets_received: 1 }));
    }

    /// Records an ingress datagram with `seq` from `src` at `now`; returns
    /// whether `seq` was new to the dedup window.
    pub fn observe(&mut self, src: Endpoint, seq: u32, now: u64) -> (fresh: bool)
        requires
            old(self).wf(),
        ensures
            final(self).wf(),
            final(self)@ == session_ingress(old(self)@, src, seq, now),
            fresh == !old(self)@.dedup.contains(seq),
    {
        self.upsert(src, now);
        self.last_activity = now;
        self.dedup.accept(seq)
    }

    /// Appends to `out` one frame of `packet` per active path and advances
    /// the egress counter when any was emitted.
    pub fn fan_out(&mut self, packet: &[u8], now: u64, out: &mut Vec<Datagram>)
        requires
            old(self).wf(),
        ensures
            final(self).wf(),
            final(self)@ == session_egress(old(self)@, now),
            datagrams_view(final(out)@) == datagrams_view(old(out)@) + session_datagrams(old(self)@, packet@, now),
    {
        let ghost start = datagrams_view(out@);
        let ghost frame = frame_bytes(self.id, self.egress_seq, packet@);
        let mut emitted = false;
        let mut i: usize = 0;
        while i < self.paths.len()
            invariant
                i <= self.paths@.len(),
                frame == frame_bytes(self.id, self.egress_seq, packet@),
                emitted == (active_endpoints(self.paths@.subrange(0, i as int), now).len() > 0),
                datagrams_view(out@) == start + active_endpoints(self.paths@.subrange(0, i as int), now).map_values(
                    |e: Endpoint| (e, frame),
                ),
            decreases self.paths@.len() - i,
        {
            let ghost prev = active_endpoints(self.paths@.subrange(0, i as int), now);
            let ghost prev_out = out@;
            assert(self.paths@.subrange(0, i + 1).drop_last() =~= self.paths@.subrange(0, i as int));
            let (dest, info) = self.paths[i];
            let age = if now >= info.last_seen { now - info.last_seen } else { 0 };
            if age < PATH_ACTIVE_WINDOW_MS {
                let bytes = encode_frame(self.id, self.egress_seq, packet);
                out.push(Datagram { dest, bytes });
                emitted = true;
                assert(datagrams_view(out@) =~= datagrams_view(prev_out).push((dest, frame)));
                assert(prev.push(dest).map_values(|e: Endpoint| (e, frame)) =~= prev.map_values(
                    |e: Endpoint| (e, frame),
                ).push((dest, frame)));
            }
            i = i + 1;
        }
        assert(self.paths@.subrange(0, self.paths@.len() as int) =~= self.paths@);
        if emitted {
            self.egress_seq = if self.egress_seq < u32::MAX { self.egress_seq + 1 } else { 0 };
        }
    }
}

} // verus!
