use vstd::prelude::*;

use vstd::bytes::{
    lemma_auto_spec_u64_to_from_le_bytes, spec_u64_from_le_bytes, spec_u64_to_le_bytes,
    u64_from_le_bytes, u64_to_le_bytes,
};
use vstd::slice::{slice_index_get, slice_subrange, slice_to_vec};

use crate::errors::ServiceError;

verus! {

/// Error code reported when a message expected to be the keep-alive
/// sentinel holds anything else.
pub const KEEPALIVE_MISMATCH: u64 = 1;

/// The fixed four-byte keep-alive sentinel that the two ends of a transport
/// exchange as a handshake and periodically afterwards.
pub open spec fn spec_keepalive() -> Seq<u8> {
    seq![92u8, 82u8, 192u8, 75u8]
}

/// A framed message: an eight-byte little-endian length prefix, then
/// exactly that many payload bytes.
pub open spec fn spec_frame(payload: Seq<u8>) -> Seq<u8> {
    spec_u64_to_le_bytes(payload.len() as u64) + payload
}

/// The keep-alive sentinel as a value.
pub fn keepalive_bytes() -> (r: Vec<u8>)
    ensures
        r@ == spec_keepalive(),
{
    let mut v: Vec<u8> = Vec::new();
    v.push(92u8);
    v.push(82u8);
    v.push(192u8);
    v.push(75u8);
    proof {
        assert(v@ =~= spec_keepalive());
    }
    v
}

/// Wrap a payload in its length-prefixed frame.
pub fn encode_frame(payload: &[u8]) -> (r: Vec<u8>)
    ensures
        r@ == spec_frame(payload@),
        r@.len() == payload@.len() + 8,
{
    proof {
        lemma_auto_spec_u64_to_from_le_bytes();
    }
    let mut out = u64_to_le_bytes(payload.len() as u64);
    let ghost prefix = out@;
    let mut i: usize = 0;
    while i < payload.len()
        invariant
            i <= payload@.len(),
            out@ == prefix + payload@.take(i as int),
        decreases payload@.len() - i,
    {
        let b = *slice_index_get(payload, i);
        out.push(b);
        proof {
            assert((prefix + payload@.take(i as int)).push(b) =~= prefix + payload@.take(
                i as int + 1,
            ));
        }
        i = i + 1;
    }
    proof {
        assert(payload@.take(payload@.len() as int) =~= payload@);
    }
    out
}

/// Read the length out of a frame's eight-byte prefix.
pub fn decode_len(header: &[u8]) -> (n: u64)
    requires
        header@.len() == 8,
    ensures
        n == spec_u64_from_le_bytes(header@),
{
    u64_from_le_bytes(header)
}

/// Take a complete frame apart: succeeds exactly when the buffer starts
/// with an eight-byte length prefix that counts precisely the bytes after
/// it, and then returns those payload bytes.
pub fn parse_frame(buf: &[u8]) -> (r: Option<Vec<u8>>)
    ensures
        r is Some <==> buf@.len() >= 8 && spec_u64_from_le_bytes(buf@.take(8)) == buf@.len() - 8,
        r matches Some(p) ==> p@ == buf@.skip(8) && buf@ == spec_frame(p@),
{
    proof {
        lemma_auto_spec_u64_to_from_le_bytes();
    }
    if buf.len() < 8 {
        return None;
    }
    let header = slice_subrange(buf, 0, 8);
    let n = u64_from_le_bytes(header);
    if n != (buf.len() - 8) as u64 {
        return None;
    }
    let payload = slice_to_vec(slice_subrange(buf, 8, buf.len()));
    proof {
        assert(payload@ =~= buf@.skip(8));
        assert(buf@.take(8) + buf@.skip(8) =~= buf@);
        assert(spec_u64_to_le_bytes(spec_u64_from_le_bytes(buf@.take(8))) == buf@.take(8));
        assert(buf@ =~= spec_frame(payload@));
    }
    Some(payload)
}

/// Law (framing round trip): a frame opens back up to exactly the payload
/// it was built from, and to nothing else.
pub proof fn lemma_frame_round_trip(payload: Seq<u8>)
    requires
        payload.len() <= u64::MAX,
    ensures
        spec_frame(payload).len() == payload.len() + 8,
        spec_frame(payload).take(8) == spec_u64_to_le_bytes(payload.len() as u64),
        spec_u64_from_le_bytes(spec_frame(payload).take(8)) == payload.len(),
        spec_frame(payload).skip(8) == payload,
{
    lemma_auto_spec_u64_to_from_le_bytes();
    assert(spec_frame(payload).take(8) =~= spec_u64_to_le_bytes(payload.len() as u64));
    assert(spec_frame(payload).skip(8) =~= payload);
}

/// Whether a received message is the keep-alive sentinel.
pub fn is_keepalive(msg: &[u8]) -> (r: bool)
    ensures
        r == (msg@ == spec_keepalive()),
{
    if msg.len() != 4 {
        proof {
            assert(msg@ != spec_keepalive());
        }
        return false;
    }
    let ok = *slice_index_get(msg, 0) == 92u8 && *slice_index_get(msg, 1) == 82u8
        && *slice_index_get(msg, 2) == 192u8 && *slice_index_get(msg, 3) == 75u8;
    proof {
        if ok {
            assert(msg@ =~= spec_keepalive());
        } else {
            assert(msg@ != spec_keepalive());
        }
    }
    ok
}

/// Check a message that is owed to be the keep-alive sentinel: accepts the
/// sentinel and nothing else, a failure distinct from a transport failure.
pub fn verify_keepalive(msg: &[u8]) -> (r: Result<(), ServiceError>)
    ensures
        r is Ok <==> msg@ == spec_keepalive(),
        r matches Err(e) ==> e.code == KEEPALIVE_MISMATCH,
{
    if is_keepalive(msg) {
        Ok(())
    } else {
        Err(ServiceError::new(KEEPALIVE_MISMATCH, String::new()))
    }
}

} // verus!
