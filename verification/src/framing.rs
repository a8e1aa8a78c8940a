//! Length-delimited wire framing: each message goes out as its byte
//! length in four little-endian bytes, then exactly that many bytes.
//! The same frame shape carries requests and responses.

use vstd::prelude::*;
use vstd::bytes::{
    spec_u32_to_le_bytes, spec_u32_from_le_bytes, u32_to_le_bytes, u32_from_le_bytes,
    lemma_auto_spec_u32_to_from_le_bytes,
};
use vstd::slice::{slice_subrange, slice_to_vec};
use crate::error::KvError;

verus! {

/// The largest payload a frame can carry: its length must fit the
/// four-byte prefix.
pub open spec fn frame_fits(payload: Seq<u8>) -> bool {
    payload.len() < 0x1_0000_0000
}

/// The bytes of one frame: the payload's length, little-endian, then the
/// payload.
pub open spec fn frame_bytes(payload: Seq<u8>) -> Seq<u8> {
    spec_u32_to_le_bytes(payload.len() as u32) + payload
}

/// Wrap a payload in a frame. A payload too long for the length prefix
/// is refused, and nothing else is.
pub fn encode_frame(payload: &Vec<u8>) -> (r: Result<Vec<u8>, KvError>)
    ensures
        (match r {
            Ok(f) => frame_fits(payload@) && f@ == frame_bytes(payload@),
            Err(e) => !frame_fits(payload@) && e@ is EncodeError,
        }),
{
    if payload.len() as u64 >= 0x1_0000_0000u64 {
        return Err(KvError::EncodeError);
    }
    let mut out = u32_to_le_bytes(payload.len() as u32);
    let mut body = slice_to_vec(payload.as_slice());
    out.append(&mut body);
    proof {
        assert(out@ =~= frame_bytes(payload@));
    }
    Ok(out)
}

/// Read one frame off the front of a buffer: the payload and how many
/// bytes it took. Nothing comes back until the buffer holds the length
/// prefix and the full payload it announces, and what comes back is
/// exactly the frame that stood at the front.
pub fn decode_frame(buf: &Vec<u8>) -> (r: Option<(Vec<u8>, usize)>)
    ensures
        (match r {
            Some((payload, used)) => {
                &&& frame_fits(payload@)
                &&& used == 4 + payload@.len()
                &&& used <= buf@.len()
                &&& buf@.subrange(0, used as int) == frame_bytes(payload@)
            },
            None => forall|p: Seq<u8>|
                frame_fits(p) && 4 + p.len() <= buf@.len() ==> buf@.subrange(
                    0,
                    4 + p.len() as int,
                ) != frame_bytes(p),
        }),
{
    proof {
        lemma_auto_spec_u32_to_from_le_bytes();
    }
    if buf.len() < 4 {
        return None;
    }
    let len32 = u32_from_le_bytes(slice_subrange(buf.as_slice(), 0, 4));
    let need64: u64 = 4u64 + (len32 as u64);
    if (buf.len() as u64) < need64 {
        proof {
            assert forall|p: Seq<u8>|
                frame_fits(p) && 4 + p.len() <= buf@.len() implies buf@.subrange(
                0,
                4 + p.len() as int,
            ) != frame_bytes(p) by {
                if buf@.subrange(0, 4 + p.len() as int) == frame_bytes(p) {
                    assert(frame_bytes(p).subrange(0, 4) =~= spec_u32_to_le_bytes(
                        p.len() as u32,
                    ));
                    assert(buf@.subrange(0, 4 + p.len() as int).subrange(0, 4) =~= buf@.subrange(
                        0,
                        4,
                    ));
                    assert(spec_u32_from_le_bytes(buf@.subrange(0, 4)) == p.len() as u32);
                    assert(p.len() == len32 as nat);
                }
            }
        }
        return None;
    }
    let need: usize = 4 + (len32 as usize);
    let payload = slice_to_vec(slice_subrange(buf.as_slice(), 4, need));
    proof {
        assert(payload@.len() == len32 as nat);
        assert(buf@.subrange(0, need as int).subrange(0, 4) =~= buf@.subrange(0, 4));
        assert(spec_u32_to_le_bytes(spec_u32_from_le_bytes(buf@.subrange(0, 4))) == buf@.subrange(
            0,
            4,
        ));
        assert(buf@.subrange(0, need as int) =~= frame_bytes(payload@));
    }
    Some((payload, need))
}

} // verus!
