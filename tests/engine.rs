use netual::control::{is_register_request, session_id_reply};
use netual::frame::{decode_frame, encode_frame};
use netual::session::{Endpoint, PathInfo};
use netual::table::{Ingress, SessionTable};

fn ep(last: u8, port: u16) -> Endpoint {
    Endpoint { addr: 0xffff_0a00_0000u128 | last as u128, port }
}

fn ipv4(len: usize, tag: u8) -> Vec<u8> {
    let mut p = vec![tag; len];
    p[0] = 0x45;
    p
}

fn sorted_dedup(t: &SessionTable, id: u32) -> Vec<u32> {
    let mut d = t.get(id).unwrap().dedup().to_vec();
    d.sort();
    d
}

#[test]
fn register_and_forward() {
    let mut t = SessionTable::new();
    let n = t.allocate(1_000).unwrap();
    let reply = session_id_reply(n);
    assert_eq!(reply, format!("SESSION_ID:{}\n", n).into_bytes());
    let ip = ipv4(40, 7);
    let r = t.ingress(&encode_frame(n, 0, &ip), ep(1, 5000), 1_500);
    match r {
        Ingress::Forward(p) => assert_eq!(p, ip),
        _ => panic!("expected a forward"),
    }
    let s = t.get(n).unwrap();
    let paths = s.paths();
    assert_eq!(paths.len(), 1);
    assert_eq!(paths[0].1.packets_received, 1);
    assert_eq!(sorted_dedup(&t, n), vec![0]);
}

#[test]
fn dedup_across_two_paths() {
    let mut t = SessionTable::new();
    assert!(t.register(42, 0));
    let ip = ipv4(40, 1);
    let a = ep(1, 4000);
    let b = ep(2, 4001);
    let mut writes = 0;
    for src in [a, b] {
        if let Ingress::Forward(_) = t.ingress(&encode_frame(42, 7, &ip), src, 10) {
            writes += 1;
        }
    }
    assert_eq!(writes, 1);
    let paths = t.get(42).unwrap().paths();
    assert_eq!(paths.len(), 2);
    assert_eq!(paths[0].0, a);
    assert_eq!(paths[1].0, b);
    assert_eq!(sorted_dedup(&t, 42), vec![7]);
}

#[test]
fn duplicate_still_refreshes_path() {
    let mut t = SessionTable::new();
    t.register(3, 0);
    let ip = ipv4(30, 2);
    t.ingress(&encode_frame(3, 1, &ip), ep(1, 1), 100);
    assert!(matches!(t.ingress(&encode_frame(3, 1, &ip), ep(1, 1), 900), Ingress::Duplicate));
    let s = t.get(3).unwrap();
    assert_eq!(s.paths()[0].1, PathInfo { last_seen: 900, packets_received: 2 });
    assert_eq!(s.last_activity(), 900);
}

#[test]
fn egress_fan_out_skips_idle_path() {
    let mut t = SessionTable::new();
    t.register(9, 0);
    let a = ep(1, 1000);
    let b = ep(2, 2000);
    let ka = ipv4(10, 0);
    t.ingress(&encode_frame(9, 1, &ka), b, 0);
    t.ingress(&encode_frame(9, 2, &ka), a, 30_000);
    let packet = ipv4(60, 3);
    let out = t.egress(&packet, 30_000);
    assert_eq!(out.len(), 1);
    assert_eq!(out[0].dest, a);
    assert_eq!(out[0].bytes, encode_frame(9, 0, &packet));
    let f = decode_frame(&out[0].bytes).unwrap();
    assert_eq!((f.session_id, f.packet_seq), (9, 0));
    assert_eq!(f.payload.len(), 60);
}

#[test]
fn egress_counter_advances_per_packet() {
    let mut t = SessionTable::new();
    t.register(5, 0);
    t.ingress(&encode_frame(5, 0, &[]), ep(1, 1), 0);
    for k in 0..3u32 {
        let out = t.egress(&ipv4(20, 0), 1_000);
        assert_eq!(out.len(), 1);
        assert_eq!(decode_frame(&out[0].bytes).unwrap().packet_seq, k);
    }
    assert_eq!(t.get(5).unwrap().egress_seq(), 3);
}

#[test]
fn egress_counter_idle_without_active_path() {
    let mut t = SessionTable::new();
    t.register(5, 0);
    assert_eq!(t.egress(&ipv4(40, 0), 0).len(), 0);
    assert_eq!(t.get(5).unwrap().egress_seq(), 0);
}

#[test]
fn egress_counters_are_per_session() {
    let mut t = SessionTable::new();
    t.register(5, 0);
    t.ingress(&encode_frame(5, 0, &[]), ep(1, 1), 0);
    t.register(6, 0);
    t.ingress(&encode_frame(6, 0, &[]), ep(2, 1), 0);
    let out = t.egress(&ipv4(40, 0), 0);
    assert_eq!(out.len(), 2);
    assert_eq!(out[0].bytes, encode_frame(5, 0, &ipv4(40, 0)));
    assert_eq!(out[1].bytes, encode_frame(6, 0, &ipv4(40, 0)));
}

#[test]
fn egress_ignores_short_and_non_ipv4() {
    let mut t = SessionTable::new();
    t.register(5, 0);
    t.ingress(&encode_frame(5, 0, &[]), ep(1, 1), 0);
    assert_eq!(t.egress(&ipv4(19, 0), 0).len(), 0);
    let mut v6 = vec![0u8; 60];
    v6[0] = 0x60;
    assert_eq!(t.egress(&v6, 0).len(), 0);
    assert_eq!(t.get(5).unwrap().egress_seq(), 0);
}

#[test]
fn out_of_order_ingress() {
    let mut t = SessionTable::new();
    t.register(11, 0);
    let ip5 = ipv4(40, 5);
    let ip3 = ipv4(40, 3);
    assert!(matches!(t.ingress(&encode_frame(11, 5, &ip5), ep(1, 1), 1), Ingress::Forward(p) if p == ip5));
    assert!(matches!(t.ingress(&encode_frame(11, 3, &ip3), ep(1, 1), 2), Ingress::Forward(p) if p == ip3));
    assert_eq!(sorted_dedup(&t, 11), vec![3, 5]);
}

#[test]
fn session_expiry() {
    let mut t = SessionTable::new();
    t.register(77, 0);
    t.ingress(&encode_frame(77, 0, &ipv4(40, 0)), ep(1, 1), 0);
    t.reap(121_000);
    assert!(!t.contains(77));
    assert!(matches!(t.ingress(&encode_frame(77, 0, &ipv4(40, 0)), ep(1, 1), 121_001), Ingress::UnknownSession));
}

#[test]
fn reap_keeps_recent_sessions() {
    let mut t = SessionTable::new();
    t.register(1, 0);
    t.register(2, 10_000);
    t.register(3, 50_000);
    t.reap(120_000);
    assert!(!t.contains(1));
    assert!(t.contains(2));
    assert!(t.contains(3));
    assert_eq!(t.len(), 2);
    t.reap(130_000);
    assert!(!t.contains(2));
    assert!(t.contains(3));
}

#[test]
fn dedup_window_eviction() {
    let mut t = SessionTable::new();
    t.register(4, 0);
    for s in 0..=100u32 {
        t.ingress(&encode_frame(4, s, &ipv4(40, 0)), ep(1, 1), 1);
    }
    assert_eq!(sorted_dedup(&t, 4), (1..=100).collect::<Vec<u32>>());
    t.ingress(&encode_frame(4, 201, &ipv4(40, 0)), ep(1, 1), 2);
    let d = sorted_dedup(&t, 4);
    assert!(d.iter().all(|s| *s > 101));
    assert_eq!(d, vec![201]);
    assert!(matches!(t.ingress(&encode_frame(4, 50, &ipv4(40, 0)), ep(1, 1), 3), Ingress::Forward(_)));
}

#[test]
fn dedup_window_keeps_newer_out_of_order_entries() {
    let mut t = SessionTable::new();
    t.register(4, 0);
    for s in 1000..1100u32 {
        t.ingress(&encode_frame(4, s, &[]), ep(1, 1), 1);
    }
    t.ingress(&encode_frame(4, 5, &[]), ep(1, 1), 1);
    assert_eq!(t.get(4).unwrap().dedup().len(), 101);
}

#[test]
fn seq_zero_evicts_itself_on_full_window() {
    let mut t = SessionTable::new();
    t.register(4, 0);
    for s in 1..=100u32 {
        t.ingress(&encode_frame(4, s, &[]), ep(1, 1), 1);
    }
    assert!(matches!(t.ingress(&encode_frame(4, 0, &ipv4(40, 0)), ep(1, 1), 1), Ingress::Forward(_)));
    assert!(matches!(t.ingress(&encode_frame(4, 0, &ipv4(40, 0)), ep(1, 1), 1), Ingress::Forward(_)));
}

#[test]
fn short_datagrams() {
    let mut t = SessionTable::new();
    t.register(8, 0);
    assert!(matches!(t.ingress(&[0, 0, 0, 8, 0, 0, 0], ep(1, 1), 5), Ingress::TooShort));
    assert!(t.get(8).unwrap().paths().is_empty());
    assert!(matches!(t.ingress(&encode_frame(8, 1, &[]), ep(1, 1), 5), Ingress::Keepalive));
    assert!(matches!(t.ingress(&encode_frame(8, 2, &[0x45; 20]), ep(1, 1), 5), Ingress::Keepalive));
    assert!(matches!(t.ingress(&encode_frame(8, 3, &[0x45; 21]), ep(1, 1), 5), Ingress::Forward(_)));
    assert_eq!(sorted_dedup(&t, 8), vec![1, 2, 3]);
    assert!(matches!(t.ingress(&encode_frame(9, 1, &[0x45; 40]), ep(1, 1), 5), Ingress::UnknownSession));
}

#[test]
fn register_refuses_taken_id() {
    let mut t = SessionTable::new();
    assert!(t.register(1, 0));
    assert!(!t.register(1, 5));
    assert_eq!(t.len(), 1);
    assert_eq!(t.get(1).unwrap().last_activity(), 0);
}

#[test]
fn summary_lines() {
    let mut t = SessionTable::new();
    t.register(1, 0);
    t.register(2, 0);
    t.ingress(&encode_frame(2, 1, &[]), ep(1, 1), 0);
    t.ingress(&encode_frame(2, 2, &[]), ep(2, 1), 0);
    let s = t.summary();
    assert_eq!(s.len(), 2);
    assert_eq!((s[0].session_id, s[0].paths, s[0].dedup_entries), (1, 0, 0));
    assert_eq!((s[1].session_id, s[1].paths, s[1].dedup_entries), (2, 2, 2));
}

#[test]
fn frame_round_trip() {
    let payload = vec![1u8, 2, 3, 255];
    let bytes = encode_frame(0xdead_beef, 0x0102_0304, &payload);
    assert_eq!(&bytes[..8], &[0xde, 0xad, 0xbe, 0xef, 1, 2, 3, 4]);
    let f = decode_frame(&bytes).unwrap();
    assert_eq!(f.session_id, 0xdead_beef);
    assert_eq!(f.packet_seq, 0x0102_0304);
    assert_eq!(f.payload, payload);
    assert!(decode_frame(&bytes[..7]).is_none());
    assert_eq!(decode_frame(&bytes[..8]).unwrap().payload.len(), 0);
}

#[test]
fn control_requests() {
    assert!(is_register_request(b"REGISTER"));
    assert!(is_register_request(b"REGISTER  \n"));
    assert!(!is_register_request(b"REGISTE"));
    assert!(!is_register_request(b"HELLO WORLD"));
    assert!(!is_register_request(b"register"));
    assert_eq!(session_id_reply(0), b"SESSION_ID:0\n".to_vec());
    assert_eq!(session_id_reply(4294967295), b"SESSION_ID:4294967295\n".to_vec());
    assert_eq!(session_id_reply(1203), b"SESSION_ID:1203\n".to_vec());
}

#[test]
fn active_path_snapshot() {
    let mut t = SessionTable::new();
    t.register(2, 0);
    t.ingress(&encode_frame(2, 1, &[]), ep(1, 1), 0);
    t.ingress(&encode_frame(2, 2, &[]), ep(2, 2), 5_000);
    let s = t.get(2).unwrap();
    assert_eq!(s.active_paths(9_999), vec![ep(1, 1), ep(2, 2)]);
    assert_eq!(s.active_paths(10_000), vec![ep(2, 2)]);
    assert_eq!(s.active_paths(15_000), Vec::<Endpoint>::new());
}
