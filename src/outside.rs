//! The calls into general-purpose libraries: CRC-32, Zstandard and LZ4.
//! Their results are named here and believed as the libraries document them.
use vstd::prelude::*;
use crate::bytes::le_bytes;

verus! {

/// The IEEE CRC-32 of a byte sequence.
pub uninterp spec fn crc32_of(data: Seq<u8>) -> u32;

/// What `zstd::bulk::compress` returns for `data` at `level`.
pub uninterp spec fn zstd_compressed(data: Seq<u8>, level: int) -> Option<Seq<u8>>;

/// What `zstd::bulk::decompress` returns for `data` with room for `capacity` bytes.
pub uninterp spec fn zstd_decompressed(data: Seq<u8>, capacity: nat) -> Option<Seq<u8>>;

/// The LZ4 block of `data`, preceded by its length (`lz4_flex::block::compress_prepend_size`).
pub uninterp spec fn lz4_compressed(data: Seq<u8>) -> Seq<u8>;

/// What `lz4_flex::block::decompress_size_prepended` returns for `data`.
pub uninterp spec fn lz4_decompressed(data: Seq<u8>) -> Option<Seq<u8>>;

/// Relies on crc32fast's `Hasher` (new, update, finalize): the standard
/// CRC-32 of the bytes, a function of the bytes alone.
#[verifier::external_body]
pub fn crc32(data: &[u8]) -> (r: u32)
    ensures
        r == crc32_of(data@),
{
    let mut h = crc32fast::Hasher::new();
    h.update(data);
    h.finalize()
}

/// Relies on `zstd::bulk::compress`: one Zstandard frame of `data` at `level`,
/// or an error.
#[verifier::external_body]
pub(crate) fn zstd_compress(data: &[u8], level: i32) -> (r: Option<Vec<u8>>)
    ensures
        r matches Some(v) ==> zstd_compressed(data@, level as int) == Some(v@),
        r is None ==> zstd_compressed(data@, level as int) is None,
{
    zstd::bulk::compress(data, level).ok()
}

/// Relies on `zstd::bulk::decompress`: the decompressed bytes, which are at
/// most `capacity`, or an error.
#[verifier::external_body]
pub(crate) fn zstd_decompress(data: &[u8], capacity: usize) -> (r: Option<Vec<u8>>)
    ensures
        r matches Some(v) ==> zstd_decompressed(data@, capacity as nat) == Some(v@) && v@.len() <= capacity,
        r is None ==> zstd_decompressed(data@, capacity as nat) is None,
{
    zstd::bulk::decompress(data, capacity).ok()
}

/// Relies on `lz4_flex::block::compress_prepend_size`: the input's length as
/// a little-endian u32, then the LZ4 block.
#[verifier::external_body]
pub(crate) fn lz4_compress(data: &[u8]) -> (r: Vec<u8>)
    requires
        data@.len() <= u32::MAX,
    ensures
        r@ == lz4_compressed(data@),
        r@.len() >= 4,
        r@.take(4) == le_bytes(data@.len(), 4),
{
    lz4_flex::block::compress_prepend_size(data)
}

/// Relies on `lz4_flex::block::decompress_size_prepended`: the block after
/// the four-byte length, decompressed, or an error.
#[verifier::external_body]
pub(crate) fn lz4_decompress(data: &[u8]) -> (r: Option<Vec<u8>>)
    ensures
        r matches Some(v) ==> lz4_decompressed(data@) == Some(v@),
        r is None ==> lz4_decompressed(data@) is None,
{
    lz4_flex::block::decompress_size_prepended(data).ok()
}

} // verus!
