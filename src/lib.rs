//! Packet-plane engine of a multipath tunnel server: framing, per-session
//! duplicate suppression, path liveness, egress fan-out and session expiry.

pub mod control;
pub mod dedup;
pub mod frame;
pub mod laws;
pub mod session;
pub mod table;
