//! The textual handshake of the control channel.

use vstd::prelude::*;

verus! {

/// The bytes of `REGISTER`.
pub open spec fn register_token() -> Seq<u8> {
    seq![82u8, 69u8, 71u8, 73u8, 83u8, 84u8, 69u8, 82u8]
}

/// The bytes of `SESSION_ID:`.
pub open spec fn response_prefix() -> Seq<u8> {
    seq![83u8, 69u8, 83u8, 83u8, 73u8, 79u8, 78u8, 95u8, 73u8, 68u8, 58u8]
}

/// The decimal digits of `n`, most significant first, without leading zeros.
pub open spec fn decimal(n: nat) -> Seq<u8>
    decreases n,
{
    if n < 10 {
        seq![(48 + n) as u8]
    } else {
        decimal(n / 10).push((48 + n % 10) as u8)
    }
}

/// The reply to a registration: `SESSION_ID:<id>` and a newline.
pub open spec fn register_reply(id: u32) -> Seq<u8> {
    response_prefix() + decimal(id as nat) + seq![10u8]
}

/// Whether the first message on a control connection asks for registration:
/// it starts with `REGISTER`; anything may follow.
pub fn is_register_request(msg: &[u8]) -> (r: bool)
    ensures
        r == (msg@.len() >= 8 && msg@.subrange(0, 8) == register_token()),
{
    if msg.len() < 8 {
        return false;
    }
    let ok = msg[0] == 82u8 && msg[1] == 69u8 && msg[2] == 71u8 && msg[3] == 73u8 && msg[4] == 83u8
        && msg[5] == 84u8 && msg[6] == 69u8 && msg[7] == 82u8;
    proof {
        if ok {
            assert(msg@.subrange(0, 8) =~= register_token());
        } else {
            assert(msg@.subrange(0, 8) != register_token()) by {
                if msg@.subrange(0, 8) == register_token() {
                    assert(msg@[0] == msg@.subrange(0, 8)[0]);
                    assert(msg@[1] == msg@.subrange(0, 8)[1]);
                    assert(msg@[2] == msg@.subrange(0, 8)[2]);
                    assert(msg@[3] == msg@.subrange(0, 8)[3]);
                    assert(msg@[4] == msg@.subrange(0, 8)[4]);
                    assert(msg@[5] == msg@.subrange(0, 8)[5]);
                    assert(msg@[6] == msg@.subrange(0, 8)[6]);
                    assert(msg@[7] == msg@.subrange(0, 8)[7]);
                }
            }
        }
    }
    ok
}

fn push_decimal(out: &mut Vec<u8>, n: u32)
    ensures
        final(out)@ == old(out)@ + decimal(n as nat),
    decreases n,
{
    if n >= 10 {
        push_decimal(out, n / 10);
    }
    out.push(48u8 + (n % 10) as u8);
    proof {
        if n >= 10 {
            assert(final(out)@ =~= old(out)@ + decimal(n as nat));
        } else {
            assert(final(out)@ =~= old(out)@ + decimal(n as nat));
        }
    }
}

/// The reply that hands session `id` to a registering client.
pub fn session_id_reply(id: u32) -> (r: Vec<u8>)
    ensures
        r@ == register_reply(id),
{
    let mut out: Vec<u8> = Vec::new();
    out.push(83u8);
    out.push(69u8);
    out.push(83u8);
    out.push(83u8);
    out.push(73u8);
    out.push(79u8);
    out.push(78u8);
    out.push(95u8);
    out.push(73u8);
    out.push(68u8);
    out.push(58u8);
    assert(out@ =~= response_prefix());
    push_decimal(&mut out, id);
    out.push(10u8);
    assert(out@ =~= register_reply(id));
    out
}

} // verus!
