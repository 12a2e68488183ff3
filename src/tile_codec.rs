//! Choosing and running the codec of a tile.
use vstd::prelude::*;
use crate::codec::{
    rle_encode, rle_decoded, lz77_decoded, lz77_encode, delta_encode, delta_decode, predictive_encode,
    predictive_decode, rle_compress, rle_decompress, lz77_compress, lz77_decompress, delta_forward,
    delta_inverse, predictive_forward, predictive_inverse, copy_bytes, lemma_rle_decodes_encoding, lemma_lz77_decodes_encoding,
    lemma_delta_round_trip, lemma_predictive_round_trip,
};
use crate::bytes::le_bytes;
use crate::error::CtiError;
use crate::format::{ColorKind, CompressionType};
use crate::outside::{
    zstd_compressed, zstd_decompressed, lz4_compressed, lz4_decompressed, zstd_compress,
    zstd_decompress, lz4_compress, lz4_decompress,
};

verus! {

/// The codec used for a raster: 16-bit rasters take Zstandard in place of
/// any of the byte codecs.
pub open spec fn effective_codec(color: ColorKind, requested: CompressionType) -> CompressionType {
    if color.is_16bit() && requested.is_byte_codec() {
        CompressionType::Zstd
    } else {
        requested
    }
}

/// The codec used for a raster of colour `color` when `requested` is asked for.
pub fn effective_compression(color: &ColorKind, requested: &CompressionType) -> (r: CompressionType)
    ensures
        r == effective_codec(*color, *requested),
{
    let wide = match color {
        ColorKind::L16 | ColorKind::Rgb16 => true,
        _ => false,
    };
    match requested {
        CompressionType::Zstd => CompressionType::Zstd,
        CompressionType::Lz4 => CompressionType::Lz4,
        _ => if wide {
            CompressionType::Zstd
        } else {
            *requested
        },
    }
}

/// Whether `out` is what compressing `data` with `kind` at Zstandard level
/// `level` gives.
pub open spec fn compressed_as(kind: CompressionType, data: Seq<u8>, level: int, out: Seq<u8>) -> bool {
    match kind {
        CompressionType::Uncompressed => out == data,
        CompressionType::RLE => out == rle_encode(data),
        CompressionType::LZ77 => out == lz77_encode(data),
        CompressionType::Delta => out == rle_encode(delta_encode(data)),
        CompressionType::Predictive => out == rle_encode(predictive_encode(data)),
        CompressionType::Zstd => zstd_compressed(data, level) == Some(out),
        CompressionType::Lz4 => out == lz4_compressed(data) && out.len() >= 4 && out.take(4) == le_bytes(data.len(), 4),
    }
}

/// The bytes compressing `data` with `kind` at `level` gives, where it does
/// not fail.
pub open spec fn compressed_tile(kind: CompressionType, data: Seq<u8>, level: int) -> Seq<u8> {
    match kind {
        CompressionType::Uncompressed => data,
        CompressionType::RLE => rle_encode(data),
        CompressionType::LZ77 => lz77_encode(data),
        CompressionType::Delta => rle_encode(delta_encode(data)),
        CompressionType::Predictive => rle_encode(predictive_encode(data)),
        CompressionType::Zstd => zstd_compressed(data, level).unwrap(),
        CompressionType::Lz4 => lz4_compressed(data),
    }
}

/// Compression has one result: the bytes `compressed_tile` names.
pub proof fn lemma_compressed_as_unique(kind: CompressionType, data: Seq<u8>, level: int, out: Seq<u8>)
    requires
        compressed_as(kind, data, level, out),
    ensures
        out == compressed_tile(kind, data, level),
{
}

/// Whether compressing `data` with `kind` at `level` fails.
pub open spec fn compress_fails(kind: CompressionType, data: Seq<u8>, level: int) -> bool {
    match kind {
        CompressionType::Zstd => zstd_compressed(data, level) is None,
        CompressionType::Lz4 => data.len() > u32::MAX,
        _ => false,
    }
}

/// Compresses one tile.
pub fn compress_tile(kind: CompressionType, data: &[u8], zstd_level: i32) -> (r: Result<Vec<u8>, CtiError>)
    ensures
        r is Err <==> compress_fails(kind, data@, zstd_level as int),
        r matches Ok(v) ==> compressed_as(kind, data@, zstd_level as int, v@),
        r matches Err(e) ==> e == (if kind is Zstd { CtiError::LibraryDecode } else { CtiError::SizeOverflow }),
{
    match kind {
        CompressionType::Uncompressed => Ok(copy_bytes(data)),
        CompressionType::RLE => Ok(rle_compress(data)),
        CompressionType::Delta => {
            let d = delta_forward(data);
            Ok(rle_compress(d.as_slice()))
        },
        CompressionType::Predictive => {
            let p = predictive_forward(data);
            Ok(rle_compress(p.as_slice()))
        },
        CompressionType::LZ77 => Ok(lz77_compress(data)),
        CompressionType::Zstd => match zstd_compress(data, zstd_level) {
            Some(v) => Ok(v),
            None => Err(CtiError::LibraryDecode),
        },
        CompressionType::Lz4 => {
            if data.len() > 0xffff_ffffusize {
                Err(CtiError::SizeOverflow)
            } else {
                Ok(lz4_compress(data))
            }
        },
    }
}

/// What decompressing `comp` with codec id `kind` gives, `original_size`
/// being the length of the tile; `None` where it fails.
pub open spec fn decompressed(kind: u8, comp: Seq<u8>, original_size: nat) -> Option<Seq<u8>> {
    if kind == 0 {
        Some(comp)
    } else if kind == 1 {
        rle_decoded(comp)
    } else if kind == 2 {
        lz77_decoded(comp)
    } else if kind == 3 {
        match rle_decoded(comp) {
            Some(d) => Some(delta_decode(d)),
            None => None,
        }
    } else if kind == 4 {
        match rle_decoded(comp) {
            Some(d) => Some(predictive_decode(d)),
            None => None,
        }
    } else if kind == 10 {
        zstd_decompressed(comp, original_size)
    } else if kind == 11 {
        lz4_decompressed(comp)
    } else {
        None
    }
}

/// Whether `kind` names a codec.
pub open spec fn known_codec(kind: u8) -> bool {
    kind <= 4 || kind == 10 || kind == 11
}

/// Decompresses one tile stored with codec id `kind`.
pub fn decompress_tile_with_size(kind: u8, comp: &[u8], original_size: usize) -> (r: Result<Vec<u8>, CtiError>)
    ensures
        r is Ok <==> decompressed(kind, comp@, original_size as nat) is Some,
        r matches Ok(v) ==> decompressed(kind, comp@, original_size as nat) == Some(v@),
        !known_codec(kind) ==> r == Err::<Vec<u8>, CtiError>(CtiError::UnknownCompression),
        r matches Err(e) ==> !(e is CrcMismatch),
{
    if kind == 0 {
        Ok(copy_bytes(comp))
    } else if kind == 1 {
        rle_decompress(comp)
    } else if kind == 2 {
        lz77_decompress(comp)
    } else if kind == 3 {
        match rle_decompress(comp) {
            Ok(d) => Ok(delta_inverse(d.as_slice())),
            Err(e) => Err(e),
        }
    } else if kind == 4 {
        match rle_decompress(comp) {
            Ok(d) => Ok(predictive_inverse(d.as_slice())),
            Err(e) => Err(e),
        }
    } else if kind == 10 {
        match zstd_decompress(comp, original_size) {
            Some(v) => Ok(v),
            None => Err(CtiError::LibraryDecode),
        }
    } else if kind == 11 {
        match lz4_decompress(comp) {
            Some(v) => Ok(v),
            None => Err(CtiError::LibraryDecode),
        }
    } else {
        Err(CtiError::UnknownCompression)
    }
}

/// Every byte codec gives back the tile it compressed: decompressing, with
/// the codec's id, what compressing `data` produced yields `data`.
pub proof fn lemma_byte_codec_round_trip(kind: CompressionType, data: Seq<u8>, level: int, out: Seq<u8>)
    requires
        kind.is_byte_codec(),
        compressed_as(kind, data, level, out),
    ensures
        decompressed(kind.spec_id(), out, data.len()) == Some(data),
{
    match kind {
        CompressionType::RLE => {
            lemma_rle_decodes_encoding(data);
        },
        CompressionType::LZ77 => {
            lemma_lz77_decodes_encoding(data);
        },
        CompressionType::Delta => {
            lemma_rle_decodes_encoding(delta_encode(data));
            lemma_delta_round_trip(data);
        },
        CompressionType::Predictive => {
            lemma_rle_decodes_encoding(predictive_encode(data));
            lemma_predictive_round_trip(data);
        },
        _ => {},
    }
}

} // verus!
