//! How a payload is laid down in the `data` table: as it is, or compressed
//! and marked with a trailing byte.

use vstd::prelude::*;
use crate::bytes::copy_bytes;
use crate::error::Error;

verus! {

/// The level at which payloads are compressed.
pub const COMPRESSION_LEVEL: i32 = 5;

/// The byte that follows a compressed payload.
pub const COMPRESSED_MARK: u8 = 1;

/// The frame that `zstd` writes for `data` at a level; `None` where it fails.
pub uninterp spec fn zstd_frame(data: Seq<u8>, level: int) -> Option<Seq<u8>>;

/// What `zstd` reads out of a frame; `None` where the bytes are no frame.
pub uninterp spec fn zstd_unframe(data: Seq<u8>) -> Option<Seq<u8>>;

/// `zstd::encode_all` on a slice: the whole input compressed into one frame.
#[verifier::external_body]
fn zstd_encode_all(data: &[u8], level: i32) -> (r: Option<Vec<u8>>)
    ensures
        r.is_some() == zstd_frame(data@, level as int).is_some(),
        r matches Some(b) ==> b@ == zstd_frame(data@, level as int).unwrap(),
{
    match zstd::encode_all(data, level) {
        Ok(b) => Some(b),
        Err(_) => None,
    }
}

/// `zstd::decode_all` on a slice: the whole frame decompressed.
#[verifier::external_body]
fn zstd_decode_all(data: &[u8]) -> (r: Option<Vec<u8>>)
    ensures
        r.is_some() == zstd_unframe(data@).is_some(),
        r matches Some(b) ==> b@ == zstd_unframe(data@).unwrap(),
{
    match zstd::decode_all(data) {
        Ok(b) => Some(b),
        Err(_) => None,
    }
}

/// The bytes kept for a payload: the payload itself, or its compressed frame
/// followed by the mark.
pub open spec fn stored_payload(payload: Seq<u8>, compress: bool) -> Option<Seq<u8>> {
    if compress {
        match zstd_frame(payload, COMPRESSION_LEVEL as int) {
            Some(f) => Some(f.push(COMPRESSED_MARK)),
            None => None,
        }
    } else {
        Some(payload)
    }
}

/// The payload that stored bytes stand for. Where payloads are compressed,
/// the bytes are a compressed frame followed by the mark; where they are
/// not, the bytes are the payload itself, whatever byte they end in.
pub open spec fn loaded_payload(stored: Seq<u8>, compress: bool) -> Option<Seq<u8>> {
    if compress {
        if stored.len() > 0 && stored.last() == COMPRESSED_MARK {
            zstd_unframe(stored.drop_last())
        } else {
            None
        }
    } else {
        Some(stored)
    }
}

/// A payload that was laid down without compression is taken up as it was.
pub proof fn lemma_plain_payload_reads_back(payload: Seq<u8>)
    ensures
        loaded_payload(stored_payload(payload, false).unwrap(), false) == Some(payload),
{
}

/// Lays a payload down for the `data` table.
pub fn encode_event(payload: &[u8], compress: bool) -> (r: Result<Vec<u8>, Error>)
    ensures
        r.is_ok() == stored_payload(payload@, compress).is_some(),
        r matches Ok(b) ==> b@ == stored_payload(payload@, compress).unwrap(),
        r matches Err(e) ==> e == Error::Serialization,
{
    if compress {
        match zstd_encode_all(payload, COMPRESSION_LEVEL) {
            Some(f) => {
                let mut out = f;
                out.push(COMPRESSED_MARK);
                Ok(out)
            },
            None => Err(Error::Serialization),
        }
    } else {
        Ok(copy_bytes(payload))
    }
}

/// Takes a payload up from the `data` table of a store that compresses its
/// payloads or does not. It fails on bytes that are no compressed frame
/// followed by the mark where payloads are compressed.
pub fn decode_event(stored: &[u8], compress: bool) -> (r: Result<Vec<u8>, Error>)
    ensures
        r.is_ok() == loaded_payload(stored@, compress).is_some(),
        r matches Ok(b) ==> b@ == loaded_payload(stored@, compress).unwrap(),
        r matches Err(e) ==> e == Error::Serialization,
{
    if !compress {
        return Ok(copy_bytes(stored));
    }
    let n = stored.len();
    if n > 0 && stored[n - 1] == COMPRESSED_MARK {
        let mut body = copy_bytes(stored);
        let _mark = body.pop();
        assert(body@ == stored@.drop_last());
        match zstd_decode_all(body.as_slice()) {
            Some(b) => Ok(b),
            None => Err(Error::Serialization),
        }
    } else {
        Err(Error::Serialization)
    }
}

} // verus!
