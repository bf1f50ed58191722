//! The framing of messages on a connection: each message is its length in
//! four bytes, most significant first, and then as many bytes of UTF-8 text.

use crate::bignat::{be_value, lemma_be_value_step};
use vstd::prelude::*;

verus! {

/// The longest payload that a frame can hold.
pub const MAX_PAYLOAD_LENGTH: usize = 0xffff_ffff;

/// The four bytes that stand for the length `n`, most significant first.
pub open spec fn length_prefix(n: nat) -> Seq<u8> {
    seq![
        (n / 0x100_0000) as u8,
        ((n / 0x1_0000) % 256) as u8,
        ((n / 0x100) % 256) as u8,
        (n % 256) as u8,
    ]
}

/// The frame of a payload: the prefix of its length, then the payload.
pub open spec fn frame_of(payload: Seq<u8>) -> Seq<u8> {
    length_prefix(payload.len()) + payload
}

/// The length prefix of `n` denotes `n`.
pub proof fn lemma_length_prefix_value(n: nat)
    requires
        n <= 0xffff_ffff,
    ensures
        length_prefix(n).len() == 4,
        be_value(length_prefix(n)) == n,
{
    let s = length_prefix(n);
    assert(s.take(0) =~= Seq::<u8>::empty());
    lemma_be_value_step(s, 0);
    assert(be_value(s.take(1)) == n / 0x100_0000);
    lemma_be_value_step(s, 1);
    assert(be_value(s.take(2)) == n / 0x1_0000);
    lemma_be_value_step(s, 2);
    assert(be_value(s.take(3)) == n / 0x100);
    lemma_be_value_step(s, 3);
    assert(s.take(4) =~= s);
}

/// The four bytes that announce a payload of `n` bytes.
pub fn encode_length(n: u32) -> (r: [u8; 4])
    ensures
        r@ == length_prefix(n as nat),
{
    [
        (n / 0x100_0000) as u8,
        ((n / 0x1_0000) % 256) as u8,
        ((n / 0x100) % 256) as u8,
        (n % 256) as u8,
    ]
}

/// The length of the payload that the four bytes `prefix` announce.
pub fn decode_length(prefix: &[u8; 4]) -> (n: u32)
    ensures
        n == be_value(prefix@),
{
    let n: u32 = ((prefix[0] as u32 * 256 + prefix[1] as u32) * 256 + prefix[2] as u32) * 256
        + prefix[3] as u32;
    proof {
        let s = prefix@;
        assert(s.take(0) =~= Seq::<u8>::empty());
        lemma_be_value_step(s, 0);
        lemma_be_value_step(s, 1);
        lemma_be_value_step(s, 2);
        lemma_be_value_step(s, 3);
        assert(s.take(4) =~= s);
    }
    n
}

/// The frame of `payload`; none where the payload is longer than
/// `MAX_PAYLOAD_LENGTH`, whose length four bytes cannot hold.
pub fn frame(payload: &[u8]) -> (r: Option<Vec<u8>>)
    ensures
        match r {
            Some(framed) => payload@.len() <= MAX_PAYLOAD_LENGTH && framed@ == frame_of(payload@),
            None => payload@.len() > MAX_PAYLOAD_LENGTH,
        },
{
    if payload.len() > MAX_PAYLOAD_LENGTH {
        return None;
    }
    let prefix = encode_length(payload.len() as u32);
    let mut framed: Vec<u8> = Vec::new();
    framed.push(prefix[0]);
    framed.push(prefix[1]);
    framed.push(prefix[2]);
    framed.push(prefix[3]);
    let mut i: usize = 0;
    while i < payload.len()
        invariant
            i <= payload@.len(),
            framed@ == prefix@ + payload@.take(i as int),
        decreases payload@.len() - i,
    {
        framed.push(payload[i]);
        i = i + 1;
    }
    Some(framed)
}

} // verus!
