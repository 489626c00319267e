//! The tunnel header: `session_id` and `packet_seq` as big-endian `u32`s,
//! followed by the raw payload. The datagram boundary is the frame boundary.

use vstd::prelude::*;

verus! {

/// Length of the tunnel header in bytes.
pub const HEADER_LEN: usize = 8;

/// The four big-endian bytes of `x`.
pub open spec fn be_bytes(x: u32) -> Seq<u8> {
    seq![(x >> 24u32) as u8, ((x >> 16u32) & 0xffu32) as u8, ((x >> 8u32) & 0xffu32) as u8, (x & 0xffu32) as u8]
}

/// The integer held big-endian in the first four bytes of `b`.
pub open spec fn be_value(b: Seq<u8>) -> u32
    recommends
        b.len() >= 4,
{
    ((b[0] as u32) << 24u32) | ((b[1] as u32) << 16u32) | ((b[2] as u32) << 8u32) | (b[3] as u32)
}

/// The bytes of a frame.
pub open spec fn frame_bytes(session_id: u32, packet_seq: u32, payload: Seq<u8>) -> Seq<u8> {
    be_bytes(session_id) + be_bytes(packet_seq) + payload
}

/// The fields of a datagram: `None` when it is shorter than the header.
pub open spec fn frame_fields(data: Seq<u8>) -> Option<(u32, u32, Seq<u8>)> {
    if data.len() < HEADER_LEN {
        None
    } else {
        Some(
            (
                be_value(data.subrange(0, 4)),
                be_value(data.subrange(4, 8)),
                data.subrange(8, data.len() as int),
            ),
        )
    }
}

/// A decoded frame.
pub struct Frame {
    pub session_id: u32,
    pub packet_seq: u32,
    pub payload: Vec<u8>,
}

impl Frame {
    pub open spec fn view(&self) -> (u32, u32, Seq<u8>) {
        (self.session_id, self.packet_seq, self.payload@)
    }
}

pub proof fn lemma_be_round_trip(x: u32)
    ensures
        be_value(be_bytes(x)) == x,
{
    let b0 = (x >> 24u32) as u8;
    let b1 = ((x >> 16u32) & 0xffu32) as u8;
    let b2 = ((x >> 8u32) & 0xffu32) as u8;
    let b3 = (x & 0xffu32) as u8;
    assert(((b0 as u32) << 24u32) | ((b1 as u32) << 16u32) | ((b2 as u32) << 8u32) | (b3 as u32)
        == x) by (bit_vector)
        requires
            b0 == (x >> 24u32) as u8,
            b1 == ((x >> 16u32) & 0xffu32) as u8,
            b2 == ((x >> 8u32) & 0xffu32) as u8,
            b3 == (x & 0xffu32) as u8,
    ;
}

fn push_be(out: &mut Vec<u8>, x: u32)
    ensures
        final(out)@ == old(out)@ + be_bytes(x),
{
    out.push((x >> 24u32) as u8);
    out.push(((x >> 16u32) & 0xffu32) as u8);
    out.push(((x >> 8u32) & 0xffu32) as u8);
    out.push((x & 0xffu32) as u8);
    assert(final(out)@ =~= old(out)@ + be_bytes(x));
}

fn read_be(data: &[u8], at: usize) -> (r: u32)
    requires
        at + 4 <= data@.len(),
    ensures
        r == be_value(data@.subrange(at as int, at + 4)),
{
    ((data[at] as u32) << 24u32) | ((data[at + 1] as u32) << 16u32) | ((data[at + 2] as u32) << 8u32)
        | (data[at + 3] as u32)
}

/// Builds the datagram that carries `payload` for `session_id` under `packet_seq`.
pub fn encode_frame(session_id: u32, packet_seq: u32, payload: &[u8]) -> (r: Vec<u8>)
    ensures
        r@ == frame_bytes(session_id, packet_seq, payload@),
{
    let mut out: Vec<u8> = Vec::new();
    push_be(&mut out, session_id);
    push_be(&mut out, packet_seq);
    let mut i: usize = 0;
    while i < payload.len()
        invariant
            i <= payload@.len(),
            out@ == be_bytes(session_id) + be_bytes(packet_seq) + payload@.subrange(0, i as int),
        decreases payload@.len() - i,
    {
        out.push(payload[i]);
        i = i + 1;
        assert(out@ =~= be_bytes(session_id) + be_bytes(packet_seq) + payload@.subrange(0, i as int));
    }
    assert(payload@.subrange(0, payload@.len() as int) =~= payload@);
    out
}

/// Splits a datagram into header fields and payload; `None` when it is
/// shorter than the header.
pub fn decode_frame(data: &[u8]) -> (r: Option<Frame>)
    ensures
        r matches Some(f) ==> frame_fields(data@) == Some(f@),
        r is None <==> frame_fields(data@) is None,
{
    if data.len() < HEADER_LEN {
        return None;
    }
    let session_id = read_be(data, 0);
    let packet_seq = read_be(data, 4);
    let payload = vstd::slice::slice_to_vec(vstd::slice::slice_subrange(data, HEADER_LEN, data.len()));
    Some(Frame { session_id, packet_seq, payload })
}

/// Decoding an encoded frame gives back its session, sequence number and payload.
pub proof fn lemma_frame_round_trip(session_id: u32, packet_seq: u32, payload: Seq<u8>)
    ensures
        frame_fields(frame_bytes(session_id, packet_seq, payload)) == Some(
            (session_id, packet_seq, payload),
        ),
{
    let d = frame_bytes(session_id, packet_seq, payload);
    lemma_be_round_trip(session_id);
    lemma_be_round_trip(packet_seq);
    assert(d.subrange(0, 4) =~= be_bytes(session_id));
    assert(d.subrange(4, 8) =~= be_bytes(packet_seq));
    assert(d.subrange(8, d.len() as int) =~= payload);
}

} // verus!
