//! LZ4 framing of chunk bytes, done by the `building_blocks` storage crate.

use building_blocks::storage::{BytesCompression, Lz4};
use vstd::prelude::*;

verus! {

/// The highest LZ4 level that the storage crate documents.
pub const MAX_LZ4_LEVEL: u32 = 10;

/// The bytes that decompressing `frame` produces, or nothing if `frame` is
/// not an LZ4 frame that can be decompressed.
pub uninterp spec fn lz4_payload(frame: Seq<u8>) -> Option<Seq<u8>>;

/// Calls `Lz4::compress_bytes` of `building_blocks::storage` with a fresh
/// vector as the writer. Trusted: the result is a frame that decompresses to
/// `bytes`. Levels above 10 are left out because the crate documents the
/// range 0 to 10.
#[verifier::external_body]
pub(crate) fn lz4_compress(level: u32, bytes: &Vec<u8>) -> (frame: Vec<u8>)
    requires
        level <= MAX_LZ4_LEVEL,
    ensures
        lz4_payload(frame@) == Some(bytes@),
{
    let mut frame: Vec<u8> = Vec::new();
    Lz4 { level }.compress_bytes(bytes.as_slice(), &mut frame);
    frame
}

/// Calls `Lz4::decompress_bytes` of `building_blocks::storage` with a fresh
/// vector as the writer. Trusted: the result is the payload of `frame`. The
/// call panics on bytes that cannot be decompressed, so only frames that
/// have a payload are admitted.
#[verifier::external_body]
pub(crate) fn lz4_decompress(frame: &Vec<u8>) -> (bytes: Vec<u8>)
    requires
        lz4_payload(frame@) is Some,
    ensures
        lz4_payload(frame@) == Some(bytes@),
{
    let mut bytes: Vec<u8> = Vec::new();
    Lz4::decompress_bytes(frame.as_slice(), &mut bytes);
    bytes
}

} // verus!
