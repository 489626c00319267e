//! Properties of the packet plane that relate its operations, proved over
//! the models that the operations' contracts use.

use vstd::prelude::*;
use crate::dedup::{DEDUP_CAPACITY, accept_spec, window_floor};
use crate::frame::{frame_bytes, frame_fields, lemma_frame_round_trip};
use crate::session::{
    Endpoint, PathInfo, SessionView, active_endpoints, fresh_session, has_path, is_active,
    session_datagrams, session_egress, upsert_path,
};
use crate::table::{
    IngressView, egress_datagrams, egress_table, has_session, ids_unique, ingress_result,
    ingress_table, is_live, reap_spec, session_index, session_of,
};

verus! {

/// Accepting `s` into window `d` would evict `s` itself: the window
/// overflows and `s` lies at or below its own floor (only `s == 0` can).
pub open spec fn evicts_itself(d: Set<u32>, s: u32) -> bool {
    !d.contains(s) && d.insert(s).len() > DEDUP_CAPACITY && s <= window_floor(s)
}

proof fn lemma_index_of(t: Seq<SessionView>, i: int, id: u32)
    requires
        ids_unique(t),
        0 <= i < t.len(),
        t[i].id == id,
    ensures
        has_session(t, id),
        session_index(t, id) == i,
{
    assert(has_session(t, id));
    let k = session_index(t, id);
    assert(t[k].id == id);
}

/// Ingress keeps the identifiers of the table, position by position.
proof fn lemma_ingress_keeps_ids(t: Seq<SessionView>, data: Seq<u8>, src: Endpoint, now: u64)
    requires
        ids_unique(t),
    ensures
        ingress_table(t, data, src, now).len() == t.len(),
        forall|i: int| 0 <= i < t.len() ==> #[trigger] ingress_table(t, data, src, now)[i].id == t[i].id,
        ids_unique(ingress_table(t, data, src, now)),
{
    let t2 = ingress_table(t, data, src, now);
    match frame_fields(data) {
        Some((sid, seq, _)) => {
            if has_session(t, sid) {
                let k = session_index(t, sid);
                assert forall|i: int| 0 <= i < t.len() implies #[trigger] t2[i].id == t[i].id by {
                    if i == k {
                    }
                }
                assert forall|a: int, b: int| 0 <= a < t2.len() && 0 <= b < t2.len() && a != b implies t2[a].id != t2[b].id by {
                    assert(t2[a].id == t[a].id);
                    assert(t2[b].id == t[b].id);
                }
            }
        },
        None => {},
    }
}

/// A sequence number just accepted stays in the window, unless it evicts itself.
pub proof fn lemma_accepted_stays(d: Set<u32>, s: u32)
    requires
        !evicts_itself(d, s),
    ensures
        accept_spec(d, s).contains(s),
{
}

/// Dedup idempotence: once a datagram with sequence number `seq` has gone
/// through ingress for session `sid`, a second copy with the same number,
/// from any endpoint and with any payload, is a duplicate: it is not
/// forwarded and leaves `seq` in the window, so every later copy is a
/// duplicate as well. Excluded is the one case where accepting `seq`
/// evicts it at once.
pub proof fn law_dedup_idempotence(
    t: Seq<SessionView>,
    sid: u32,
    seq: u32,
    first: Seq<u8>,
    second: Seq<u8>,
    a: Endpoint,
    b: Endpoint,
    now1: u64,
    now2: u64,
)
    requires
        ids_unique(t),
        has_session(t, sid),
        !evicts_itself(session_of(t, sid).dedup, seq),
    ensures
        ingress_result(ingress_table(t, frame_bytes(sid, seq, first), a, now1), frame_bytes(sid, seq, second))
            == IngressView::Duplicate,
        session_of(
            ingress_table(
                ingress_table(t, frame_bytes(sid, seq, first), a, now1),
                frame_bytes(sid, seq, second),
                b,
                now2,
            ),
            sid,
        ).dedup.contains(seq),
{
    let d1 = frame_bytes(sid, seq, first);
    let d2 = frame_bytes(sid, seq, second);
    lemma_frame_round_trip(sid, seq, first);
    lemma_frame_round_trip(sid, seq, second);
    let k = session_index(t, sid);
    let t1 = ingress_table(t, d1, a, now1);
    lemma_ingress_keeps_ids(t, d1, a, now1);
    lemma_index_of(t1, k, sid);
    assert(session_of(t1, sid).dedup == accept_spec(session_of(t, sid).dedup, seq));
    lemma_accepted_stays(session_of(t, sid).dedup, seq);
    let t2 = ingress_table(t1, d2, b, now2);
    lemma_ingress_keeps_ids(t1, d2, b, now2);
    lemma_index_of(t2, k, sid);
    assert(session_of(t2, sid).dedup == accept_spec(session_of(t1, sid).dedup, seq));
}

/// A copy whose sequence number is in its session's window, from whatever
/// endpoint, is a duplicate and leaves the window as it was: however many
/// copies follow, none is forwarded while the number stays in the window.
pub proof fn law_duplicate_is_inert(t: Seq<SessionView>, sid: u32, seq: u32, payload: Seq<u8>, src: Endpoint, now: u64)
    requires
        ids_unique(t),
        has_session(t, sid),
        session_of(t, sid).dedup.contains(seq),
    ensures
        ingress_result(t, frame_bytes(sid, seq, payload)) == IngressView::Duplicate,
        session_of(ingress_table(t, frame_bytes(sid, seq, payload), src, now), sid).dedup == session_of(t, sid).dedup,
{
    let d = frame_bytes(sid, seq, payload);
    lemma_frame_round_trip(sid, seq, payload);
    let k = session_index(t, sid);
    lemma_ingress_keeps_ids(t, d, src, now);
    lemma_index_of(ingress_table(t, d, src, now), k, sid);
}

proof fn lemma_upsert_has_path(paths: Seq<(Endpoint, PathInfo)>, src: Endpoint, now: u64, e: Endpoint)
    ensures
        has_path(upsert_path(paths, src, now), e) <==> has_path(paths, e) || e == src,
{
    let p2 = upsert_path(paths, src, now);
    if has_path(paths, src) {
        let i = choose|i: int| 0 <= i < paths.len() && paths[i].0 == src;
        if has_path(paths, e) {
            let j = choose|j: int| 0 <= j < paths.len() && paths[j].0 == e;
            assert(p2[j].0 == e);
        }
        if e == src {
            assert(p2[i].0 == e);
        }
        if has_path(p2, e) {
            let j = choose|j: int| 0 <= j < p2.len() && p2[j].0 == e;
            if j != i {
                assert(paths[j].0 == e);
            }
        }
    } else {
        if has_path(paths, e) {
            let j = choose|j: int| 0 <= j < paths.len() && paths[j].0 == e;
            assert(p2[j].0 == e);
        }
        if e == src {
            assert(p2[paths.len() as int].0 == e);
        }
        if has_path(p2, e) {
            let j = choose|j: int| 0 <= j < p2.len() && p2[j].0 == e;
            if j < paths.len() {
                assert(paths[j].0 == e);
            }
        }
    }
}

/// Path union: a session starts with no paths, and a datagram changes the
/// path set of exactly the session it names, which gains its source
/// endpoint; so a session's paths are the endpoints it has heard from.
pub proof fn law_path_union(t: Seq<SessionView>, data: Seq<u8>, src: Endpoint, now: u64, id: u32, e: Endpoint)
    requires
        ids_unique(t),
        has_session(t, id),
    ensures
        fresh_session(id, now).paths.len() == 0,
        has_session(ingress_table(t, data, src, now), id),
        has_path(session_of(ingress_table(t, data, src, now), id).paths, e) <==> has_path(
            session_of(t, id).paths,
            e,
        ) || (frame_fields(data) matches Some((sid, _, _)) && sid == id && e == src),
{
    let t2 = ingress_table(t, data, src, now);
    let k = session_index(t, id);
    lemma_ingress_keeps_ids(t, data, src, now);
    lemma_index_of(t2, k, id);
    match frame_fields(data) {
        Some((sid, seq, _)) => {
            if sid == id {
                lemma_upsert_has_path(session_of(t, id).paths, src, now, e);
            } else if has_session(t, sid) {
                let j = session_index(t, sid);
                assert(t[j].id == sid);
                assert(j != k);
            }
        },
        None => {},
    }
}

/// Session liveness: a datagram sets the activity time of the session it
/// names to its arrival time and leaves every other session's alone; with
/// arrival times that never decrease, the activity time is the latest
/// arrival.
pub proof fn law_session_liveness(t: Seq<SessionView>, data: Seq<u8>, src: Endpoint, now: u64, id: u32)
    requires
        ids_unique(t),
        has_session(t, id),
        now >= session_of(t, id).last_activity,
    ensures
        session_of(ingress_table(t, data, src, now), id).last_activity == if (frame_fields(data) matches Some(
            (sid, _, _),
        ) && sid == id) {
            now
        } else {
            session_of(t, id).last_activity
        },
        session_of(ingress_table(t, data, src, now), id).last_activity >= session_of(t, id).last_activity,
{
    let t2 = ingress_table(t, data, src, now);
    let k = session_index(t, id);
    lemma_ingress_keeps_ids(t, data, src, now);
    lemma_index_of(t2, k, id);
    match frame_fields(data) {
        Some((sid, seq, _)) => {
            if sid != id && has_session(t, sid) {
                let j = session_index(t, sid);
                assert(t[j].id == sid);
                assert(j != k);
            }
        },
        None => {},
    }
}

/// The table after a run of datagrams, each given with its source endpoint
/// and arrival time, in arrival order.
pub open spec fn ingress_run(t: Seq<SessionView>, events: Seq<(Seq<u8>, Endpoint, u64)>) -> Seq<SessionView>
    decreases events.len(),
{
    if events.len() == 0 {
        t
    } else {
        let (data, src, now) = events.last();
        ingress_table(ingress_run(t, events.drop_last()), data, src, now)
    }
}

/// Whether datagram `data` names session `id`.
pub open spec fn names_session(data: Seq<u8>, id: u32) -> bool {
    frame_fields(data) matches Some((sid, _, _)) && sid == id
}

proof fn lemma_run_keeps_session(t: Seq<SessionView>, events: Seq<(Seq<u8>, Endpoint, u64)>, id: u32)
    requires
        ids_unique(t),
        has_session(t, id),
    ensures
        ids_unique(ingress_run(t, events)),
        has_session(ingress_run(t, events), id),
    decreases events.len(),
{
    if events.len() > 0 {
        lemma_run_keeps_session(t, events.drop_last(), id);
        let (data, src, now) = events.last();
        let t1 = ingress_run(t, events.drop_last());
        lemma_ingress_keeps_ids(t1, data, src, now);
        law_path_union(t1, data, src, now, id, src);
    }
}

/// Path union over a run: a session that started with no paths has, after
/// any run of datagrams, a path to endpoint `e` exactly when some datagram
/// of the run named the session and came from `e`.
pub proof fn law_path_union_run(t: Seq<SessionView>, events: Seq<(Seq<u8>, Endpoint, u64)>, id: u32, e: Endpoint)
    requires
        ids_unique(t),
        has_session(t, id),
        session_of(t, id).paths.len() == 0,
    ensures
        has_path(session_of(ingress_run(t, events), id).paths, e) <==> exists|k: int|
            0 <= k < events.len() && names_session(#[trigger] events[k].0, id) && events[k].1 == e,
    decreases events.len(),
{
    if events.len() > 0 {
        let init = events.drop_last();
        law_path_union_run(t, init, id, e);
        lemma_run_keeps_session(t, init, id);
        let (data, src, now) = events.last();
        let t1 = ingress_run(t, init);
        law_path_union(t1, data, src, now, id, e);
        let last = events.len() - 1;
        if exists|k: int| 0 <= k < events.len() && names_session(#[trigger] events[k].0, id) && events[k].1 == e {
            let k = choose|k: int| 0 <= k < events.len() && names_session(#[trigger] events[k].0, id) && events[k].1 == e;
            if k < last {
                assert(init[k] == events[k]);
            }
        }
        if exists|k: int| 0 <= k < init.len() && names_session(#[trigger] init[k].0, id) && init[k].1 == e {
            let k = choose|k: int| 0 <= k < init.len() && names_session(#[trigger] init[k].0, id) && init[k].1 == e;
            assert(events[k] == init[k]);
        }
        if names_session(data, id) && src == e {
            assert(events[last] == (data, src, now));
        }
    } else {
        assert(!has_path(session_of(t, id).paths, e));
    }
}

/// Arrival times that never decrease and start no earlier than `from`.
pub open spec fn times_ordered(events: Seq<(Seq<u8>, Endpoint, u64)>, from: u64) -> bool {
    &&& forall|k: int| 0 <= k < events.len() ==> from <= #[trigger] events[k].2
    &&& forall|j: int, k: int| 0 <= j <= k < events.len() ==> events[j].2 <= events[k].2
}

/// Session liveness over a run: with arrival times that never decrease, a
/// session's activity time after the run is the latest arrival time of the
/// datagrams that named it, or its activity time before the run when none did.
pub proof fn law_session_liveness_run(t: Seq<SessionView>, events: Seq<(Seq<u8>, Endpoint, u64)>, id: u32)
    requires
        ids_unique(t),
        has_session(t, id),
        times_ordered(events, session_of(t, id).last_activity),
    ensures
        forall|k: int| 0 <= k < events.len() && names_session(#[trigger] events[k].0, id)
            ==> events[k].2 <= session_of(ingress_run(t, events), id).last_activity,
        (exists|k: int| 0 <= k < events.len() && names_session(#[trigger] events[k].0, id))
            ==> exists|k: int| 0 <= k < events.len() && names_session(#[trigger] events[k].0, id)
                && events[k].2 == session_of(ingress_run(t, events), id).last_activity,
        (forall|k: int| 0 <= k < events.len() ==> !names_session(#[trigger] events[k].0, id))
            ==> session_of(ingress_run(t, events), id).last_activity == session_of(t, id).last_activity,
    decreases events.len(),
{
    if events.len() > 0 {
        let init = events.drop_last();
        let last = events.len() - 1;
        assert(times_ordered(init, session_of(t, id).last_activity)) by {
            assert forall|k: int| 0 <= k < init.len() implies session_of(t, id).last_activity <= #[trigger] init[k].2 by {
                assert(init[k] == events[k]);
            }
            assert forall|j: int, k: int| 0 <= j <= k < init.len() implies init[j].2 <= init[k].2 by {
                assert(init[j] == events[j]);
                assert(init[k] == events[k]);
            }
        }
        law_session_liveness_run(t, init, id);
        lemma_run_keeps_session(t, init, id);
        let (data, src, now) = events.last();
        let t1 = ingress_run(t, init);
        let before = session_of(t1, id).last_activity;
        assert(events[last] == (data, src, now));
        // the activity time before the last datagram is an earlier arrival or the start
        assert(before <= now) by {
            if exists|k: int| 0 <= k < init.len() && names_session(#[trigger] init[k].0, id) {
                let k = choose|k: int| 0 <= k < init.len() && names_session(#[trigger] init[k].0, id) && init[k].2 == before;
                assert(init[k] == events[k]);
            } else {
                assert(before == session_of(t, id).last_activity);
            }
        }
        law_session_liveness(t1, data, src, now, id);
        let after = session_of(ingress_run(t, events), id).last_activity;
        assert forall|k: int| 0 <= k < events.len() && names_session(#[trigger] events[k].0, id) implies events[k].2 <= after by {
            if k < last {
                assert(init[k] == events[k]);
                assert(events[k].2 <= events[last].2);
            }
        }
        if names_session(data, id) {
            assert(names_session(events[last].0, id) && events[last].2 == after);
        } else {
            if exists|k: int| 0 <= k < events.len() && names_session(#[trigger] events[k].0, id) {
                let k = choose|k: int| 0 <= k < events.len() && names_session(#[trigger] events[k].0, id);
                assert(k < last);
                assert(init[k] == events[k]);
                let m = choose|m: int| 0 <= m < init.len() && names_session(#[trigger] init[m].0, id) && init[m].2 == before;
                assert(events[m] == init[m]);
            }
            if forall|k: int| 0 <= k < events.len() ==> !names_session(#[trigger] events[k].0, id) {
                assert forall|k: int| 0 <= k < init.len() implies !names_session(#[trigger] init[k].0, id) by {
                    assert(init[k] == events[k]);
                }
            }
        }
    }
}

/// Egress monotonicity: a new session counts from zero; every frame that one
/// packet gives for a session carries the session's current counter, and the
/// counter then advances by one (modulo 2^32) if and only if a frame was
/// emitted. The counters stamped on a session's frames are so 0, 1, 2, ...
pub proof fn law_egress_counter(s: SessionView, packet: Seq<u8>, now: u64)
    ensures
        fresh_session(s.id, now).egress_seq == 0,
        forall|i: int| 0 <= i < session_datagrams(s, packet, now).len() ==>
            (#[trigger] session_datagrams(s, packet, now)[i]).1 == frame_bytes(s.id, s.egress_seq, packet),
        session_datagrams(s, packet, now).len() > 0 ==> session_egress(s, now).egress_seq == (s.egress_seq + 1) % 0x1_0000_0000,
        session_datagrams(s, packet, now).len() == 0 ==> session_egress(s, now).egress_seq == s.egress_seq,
{
}

/// A session after fan-out of one packet at each of `times`, in order.
pub open spec fn session_egress_run(s: SessionView, times: Seq<u64>) -> SessionView
    decreases times.len(),
{
    if times.len() == 0 {
        s
    } else {
        session_egress(session_egress_run(s, times.drop_last()), times.last())
    }
}

/// How many of `times` find an active path among `paths`.
pub open spec fn emitting_steps(paths: Seq<(Endpoint, PathInfo)>, times: Seq<u64>) -> nat
    decreases times.len(),
{
    if times.len() == 0 {
        0
    } else {
        emitting_steps(paths, times.drop_last()) + if active_endpoints(paths, times.last()).len() > 0 {
            1nat
        } else {
            0nat
        }
    }
}

/// Egress monotonicity over a run: fan-out leaves the paths alone, and after
/// any run of fan-outs the counter has advanced once per fan-out that
/// emitted a frame, modulo 2^32. With the per-packet law, the frames of a
/// new session so carry 0, 1, 2, ... in order.
pub proof fn law_egress_counter_run(s: SessionView, times: Seq<u64>)
    ensures
        session_egress_run(s, times).paths == s.paths,
        session_egress_run(s, times).id == s.id,
        session_egress_run(s, times).egress_seq == (s.egress_seq + emitting_steps(s.paths, times)) % 0x1_0000_0000,
    decreases times.len(),
{
    if times.len() > 0 {
        law_egress_counter_run(s, times.drop_last());
        let c = emitting_steps(s.paths, times.drop_last());
        let a = s.egress_seq + c;
        vstd::arithmetic::div_mod::lemma_add_mod_noop(a as int, 1, 0x1_0000_0000);
        vstd::arithmetic::div_mod::lemma_mod_twice(a as int, 0x1_0000_0000);
        assert(1int % 0x1_0000_0000 == 1);
    } else {
        assert((s.egress_seq as int) % 0x1_0000_0000 == s.egress_seq);
    }
}

proof fn lemma_active_endpoints(paths: Seq<(Endpoint, PathInfo)>, now: u64, e: Endpoint)
    ensures
        active_endpoints(paths, now).contains(e) <==> exists|i: int|
            0 <= i < paths.len() && paths[i].0 == e && is_active(paths[i].1, now),
    decreases paths.len(),
{
    if paths.len() > 0 {
        let init = paths.drop_last();
        lemma_active_endpoints(init, now, e);
        let r = active_endpoints(init, now);
        let last = paths.len() - 1;
        if exists|i: int| 0 <= i < paths.len() && paths[i].0 == e && is_active(paths[i].1, now) {
            let i = choose|i: int| 0 <= i < paths.len() && paths[i].0 == e && is_active(paths[i].1, now);
            if i < last {
                assert(init[i] == paths[i]);
                let j = choose|j: int| 0 <= j < r.len() && r[j] == e;
                if is_active(paths.last().1, now) {
                    assert(r.push(paths.last().0)[j] == e);
                }
            } else {
                assert(r.push(paths.last().0)[r.len() as int] == e);
            }
        }
        if active_endpoints(paths, now).contains(e) {
            if is_active(paths.last().1, now) && paths.last().0 == e {
                assert(paths[last].0 == e);
            } else {
                let rr = active_endpoints(paths, now);
                let j = choose|j: int| 0 <= j < rr.len() && rr[j] == e;
                if is_active(paths.last().1, now) {
                    assert(j < r.len());
                    assert(r[j] == e);
                }
                assert(r.contains(e));
                let i = choose|i: int| 0 <= i < init.len() && init[i].0 == e && is_active(init[i].1, now);
                assert(paths[i] == init[i]);
            }
        }
    }
}

/// Egress fan-out, per session: a packet goes to an endpoint exactly when
/// the endpoint has a path of the session that is active at `now`.
pub proof fn law_session_fan_out(s: SessionView, packet: Seq<u8>, now: u64, e: Endpoint)
    ensures
        (exists|k: int| 0 <= k < session_datagrams(s, packet, now).len() && #[trigger] session_datagrams(s, packet, now)[k].0 == e)
            <==> (exists|i: int| 0 <= i < s.paths.len() && s.paths[i].0 == e && is_active(s.paths[i].1, now)),
{
    lemma_active_endpoints(s.paths, now, e);
    let ae = active_endpoints(s.paths, now);
    let ds = session_datagrams(s, packet, now);
    if exists|k: int| 0 <= k < ds.len() && ds[k].0 == e {
        let k = choose|k: int| 0 <= k < ds.len() && ds[k].0 == e;
        assert(ae[k] == e);
        assert(ae.contains(e));
    }
    if ae.contains(e) {
        let j = choose|j: int| 0 <= j < ae.len() && ae[j] == e;
        assert(ds[j].0 == e);
    }
}

/// Egress fan-out over the table: every datagram that one packet gives goes
/// to an active path of some session and carries that session's identifier
/// and counter; every active path of every session gets one.
pub proof fn law_egress_fan_out(t: Seq<SessionView>, packet: Seq<u8>, now: u64, e: Endpoint, f: Seq<u8>)
    ensures
        egress_datagrams(t, packet, now).contains((e, f)) <==> exists|j: int|
            0 <= j < t.len() && #[trigger] active_endpoints(t[j].paths, now).contains(e) && f == frame_bytes(
                t[j].id,
                t[j].egress_seq,
                packet,
            ),
    decreases t.len(),
{
    if t.len() > 0 {
        let init = t.drop_last();
        law_egress_fan_out(init, packet, now, e, f);
        let rest = egress_datagrams(init, packet, now);
        let tail = session_datagrams(t.last(), packet, now);
        let all = egress_datagrams(t, packet, now);
        let ae = active_endpoints(t.last().paths, now);
        let fr = frame_bytes(t.last().id, t.last().egress_seq, packet);
        assert(all == rest + tail);
        if all.contains((e, f)) {
            let k = choose|k: int| 0 <= k < all.len() && all[k] == (e, f);
            if k < rest.len() {
                assert(rest[k] == (e, f));
                let j = choose|j: int|
                    0 <= j < init.len() && #[trigger] active_endpoints(init[j].paths, now).contains(e) && f
                        == frame_bytes(init[j].id, init[j].egress_seq, packet);
                assert(t[j] == init[j]);
            } else {
                let m = k - rest.len();
                assert(tail[m] == (e, f));
                assert(ae[m] == e);
                assert(ae.contains(e));
                assert(active_endpoints(t[t.len() - 1].paths, now).contains(e));
            }
        }
        if exists|j: int|
            0 <= j < t.len() && #[trigger] active_endpoints(t[j].paths, now).contains(e) && f == frame_bytes(
                t[j].id,
                t[j].egress_seq,
                packet,
            ) {
            let j = choose|j: int|
                0 <= j < t.len() && #[trigger] active_endpoints(t[j].paths, now).contains(e) && f == frame_bytes(
                    t[j].id,
                    t[j].egress_seq,
                    packet,
                );
            if j < t.len() - 1 {
                assert(init[j] == t[j]);
                assert(rest.contains((e, f)));
                let k = choose|k: int| 0 <= k < rest.len() && rest[k] == (e, f);
                assert(all[k] == (e, f));
            } else {
                let m = choose|m: int| 0 <= m < ae.len() && ae[m] == e;
                assert(tail[m] == (e, f));
                assert(all[rest.len() + m] == (e, f));
            }
        }
    }
}

/// Egress changes nothing but the counters of the sessions that emitted.
pub proof fn law_egress_keeps_sessions(t: Seq<SessionView>, now: u64, i: int)
    requires
        0 <= i < t.len(),
    ensures
        egress_table(t, now).len() == t.len(),
        egress_table(t, now)[i] == session_egress(t[i], now),
        egress_table(t, now)[i].id == t[i].id,
        egress_table(t, now)[i].paths == t[i].paths,
        egress_table(t, now)[i].dedup == t[i].dedup,
        egress_table(t, now)[i].last_activity == t[i].last_activity,
{
}

/// Reaper correctness: after expiry at `now` the table holds exactly the
/// sessions of before whose last activity is less than the timeout ago; a
/// session idle for the timeout or longer is gone.
pub proof fn law_reap(t: Seq<SessionView>, now: u64, s: SessionView)
    ensures
        reap_spec(t, now).contains(s) <==> t.contains(s) && is_live(s, now),
    decreases t.len(),
{
    if t.len() > 0 {
        let init = t.drop_last();
        law_reap(init, now, s);
        let r = reap_spec(init, now);
        if reap_spec(t, now).contains(s) {
            let rr = reap_spec(t, now);
            let k = choose|k: int| 0 <= k < rr.len() && rr[k] == s;
            if k < r.len() {
                assert(r[k] == s);
                assert(r.contains(s));
                let j = choose|j: int| 0 <= j < init.len() && init[j] == s;
                assert(t[j] == s);
            } else {
                assert(t[t.len() - 1] == s);
            }
        }
        if t.contains(s) && is_live(s, now) {
            let j = choose|j: int| 0 <= j < t.len() && t[j] == s;
            if j < t.len() - 1 {
                assert(init[j] == s);
                assert(init.contains(s));
                let k = choose|k: int| 0 <= k < r.len() && r[k] == s;
                if is_live(t.last(), now) {
                    assert(r.push(t.last())[k] == s);
                }
            } else {
                assert(r.push(t.last())[r.len() as int] == s);
            }
        }
    }
}

} // verus!
