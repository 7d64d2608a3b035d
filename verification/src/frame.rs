//! Wire framing: a 4-byte little-endian length prefix followed by exactly
//! that many payload bytes, and the fixed 8-byte encoding of the handshake's
//! public values.

use vstd::prelude::*;

verus! {

use vstd::bytes::{
    spec_u32_from_le_bytes, spec_u32_to_le_bytes, spec_u64_from_le_bytes, spec_u64_to_le_bytes,
    u32_from_le_bytes, u32_to_le_bytes, u64_from_le_bytes, u64_to_le_bytes,
    lemma_auto_spec_u32_to_from_le_bytes, lemma_auto_spec_u64_to_from_le_bytes,
};
use vstd::slice::slice_subrange;
use crate::errors::ProtocolError;

/// The bytes of one frame carrying `payload`.
pub open spec fn frame_spec(payload: Seq<u8>) -> Seq<u8>
    recommends
        payload.len() <= u32::MAX,
{
    spec_u32_to_le_bytes(payload.len() as u32) + payload
}

/// What decoding the start of `bytes` yields: the first frame's payload, or
/// nothing when the header or the declared payload is not fully present.
pub open spec fn decode_frame_spec(bytes: Seq<u8>) -> Option<Seq<u8>> {
    if bytes.len() < 4 {
        None
    } else {
        let n = spec_u32_from_le_bytes(bytes.subrange(0, 4)) as int;
        if bytes.len() - 4 < n {
            None
        } else {
            Some(bytes.subrange(4, 4 + n))
        }
    }
}

/// Encode one frame: the payload's length as 4 little-endian bytes, then the
/// payload itself.
pub fn encode_frame(payload: &[u8]) -> (r: Vec<u8>)
    requires
        payload@.len() <= u32::MAX,
    ensures
        r@ == frame_spec(payload@),
        r@.len() == 4 + payload@.len(),
{
    let len: u32 = payload.len() as u32;
    let mut out = u32_to_le_bytes(len);
    let mut i: usize = 0;
    while i < payload.len()
        invariant
            i <= payload@.len() <= u32::MAX,
            out@ == spec_u32_to_le_bytes(payload@.len() as u32) + payload@.subrange(0, i as int),
        decreases payload@.len() - i,
    {
        out.push(payload[i]);
        i = i + 1;
        proof {
            assert(out@ =~= spec_u32_to_le_bytes(payload@.len() as u32) + payload@.subrange(
                0,
                i as int,
            ));
        }
    }
    proof {
        lemma_auto_spec_u32_to_from_le_bytes();
        assert(out@ =~= frame_spec(payload@));
    }
    out
}

/// Decode the first frame at the start of `bytes`: its payload and how many
/// bytes it occupied.  A missing header or a payload cut short by stream
/// closure is an error, never a silently shortened payload.
pub fn decode_frame(bytes: &[u8]) -> (r: Result<(Vec<u8>, usize), ProtocolError>)
    ensures
        r is Ok <==> decode_frame_spec(bytes@) is Some,
        match r {
            Ok(pair) => {
                &&& decode_frame_spec(bytes@) == Some(pair.0@)
                &&& pair.1 == 4 + pair.0@.len()
                &&& pair.1 <= bytes@.len()
            },
            Err(e) => {
                &&& e == ProtocolError::TruncatedHeader <==> bytes@.len() < 4
                &&& e == ProtocolError::TruncatedPayload <==> (bytes@.len() >= 4
                    && bytes@.len() - 4 < spec_u32_from_le_bytes(bytes@.subrange(0, 4)) as int)
            },
        },
{
    if bytes.len() < 4 {
        return Err(ProtocolError::TruncatedHeader);
    }
    let header = slice_subrange(bytes, 0, 4);
    let declared = u32_from_le_bytes(header) as usize;
    if bytes.len() - 4 < declared {
        return Err(ProtocolError::TruncatedPayload);
    }
    let payload_slice = slice_subrange(bytes, 4, 4 + declared);
    let mut payload: Vec<u8> = Vec::new();
    let mut i: usize = 0;
    while i < payload_slice.len()
        invariant
            i <= payload_slice@.len(),
            payload@ == payload_slice@.subrange(0, i as int),
        decreases payload_slice@.len() - i,
    {
        payload.push(payload_slice[i]);
        i = i + 1;
        proof {
            assert(payload@ =~= payload_slice@.subrange(0, i as int));
        }
    }
    proof {
        assert(payload@ =~= payload_slice@);
    }
    Ok((payload, 4 + declared))
}

/// Law: framing round-trips.  Decoding an encoded frame yields exactly the
/// payload that was encoded.
pub proof fn lemma_frame_round_trip(payload: Seq<u8>)
    requires
        payload.len() <= u32::MAX,
    ensures
        decode_frame_spec(frame_spec(payload)) == Some(payload),
{
    lemma_auto_spec_u32_to_from_le_bytes();
    let bytes = frame_spec(payload);
    assert(bytes.subrange(0, 4) =~= spec_u32_to_le_bytes(payload.len() as u32));
    assert(bytes.subrange(4, 4 + payload.len() as int) =~= payload);
}

/// Read a frame's declared payload length back from its 4-byte prefix.
pub fn decode_frame_length(bytes: &[u8]) -> (r: u32)
    requires
        bytes@.len() == 4,
    ensures
        r == spec_u32_from_le_bytes(bytes@),
        spec_u32_to_le_bytes(r) == bytes@,
{
    proof {
        lemma_auto_spec_u32_to_from_le_bytes();
    }
    u32_from_le_bytes(bytes)
}

/// Encode a handshake public value as its 8 little-endian bytes.
pub fn encode_public_value(value: u64) -> (r: Vec<u8>)
    ensures
        r@ == spec_u64_to_le_bytes(value),
        r@.len() == 8,
{
    proof {
        lemma_auto_spec_u64_to_from_le_bytes();
    }
    u64_to_le_bytes(value)
}

/// Read a handshake public value back from its 8 little-endian bytes.
pub fn decode_public_value(bytes: &[u8]) -> (r: u64)
    requires
        bytes@.len() == 8,
    ensures
        r == spec_u64_from_le_bytes(bytes@),
        spec_u64_to_le_bytes(r) == bytes@,
{
    proof {
        lemma_auto_spec_u64_to_from_le_bytes();
    }
    u64_from_le_bytes(bytes)
}

} // verus!
