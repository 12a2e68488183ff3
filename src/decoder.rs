//! The decoder: validates the header, reads the index, then decompresses,
//! checks and places every tile.
use vstd::prelude::*;
use crate::bytes::{le_value};
use crate::error::CtiError;
use crate::format::{
    CTIHeader, TileIndex, bpp_of_id, bytes_per_pixel_of_id, cti_magic, header_read_from, index_read_from,
    read_header, read_indices, zeros, CTI_HEADER_SIZE, TILE_INDEX_ONDISK_SIZE,
};
use crate::outside::{crc32, crc32_of};
use crate::rct::{rgb8_inverse, rgb16_inverse, rct_inverse_rgb8, rct_inverse_rgb16, lemma_inverse_len};
use crate::tile::{blit_tile, blit_tile_spec, tile_in_raster, tile_span};
use crate::tile_codec::{decompressed, decompress_tile_with_size};

verus! {

/// The little-endian field in bytes `a .. b` of `s`.
pub open spec fn field(s: Seq<u8>, a: int, b: int) -> nat {
    le_value(s.subrange(a, b))
}

/// Whether `s` starts with a header this decoder accepts: 64 bytes, the
/// magic and version 1.
pub open spec fn header_ok(s: Seq<u8>) -> bool {
    s.len() >= CTI_HEADER_SIZE && s.subrange(0, 4) == cti_magic() && field(s, 4, 6) == 1
}

/// Header fields of a file.
pub open spec fn f_width(s: Seq<u8>) -> nat {
    field(s, 8, 12)
}

pub open spec fn f_height(s: Seq<u8>) -> nat {
    field(s, 12, 16)
}

pub open spec fn f_tile(s: Seq<u8>) -> nat {
    field(s, 16, 20)
}

pub open spec fn f_tiles_x(s: Seq<u8>) -> nat {
    field(s, 20, 24)
}

pub open spec fn f_tile_count(s: Seq<u8>) -> nat {
    field(s, 20, 24) * field(s, 24, 28)
}

pub open spec fn f_bpp(s: Seq<u8>) -> nat {
    bpp_of_id(s[28])
}

/// Whether the header says the colour transform was applied to an RGB raster.
pub open spec fn f_rct(s: Seq<u8>) -> bool {
    field(s, 6, 8) % 2 == 1 && (s[28] == 3 || s[28] == 5)
}

/// The index record of tile `i`.
pub open spec fn record_of(s: Seq<u8>, i: int) -> TileIndex {
    let p = CTI_HEADER_SIZE + TILE_INDEX_ONDISK_SIZE * i;
    TileIndex {
        offset: field(s, p, p + 8) as u64,
        compressed_size: field(s, p + 8, p + 12) as u32,
        original_size: field(s, p + 12, p + 16) as u32,
        crc32: field(s, p + 16, p + 20) as u32,
    }
}

/// The decompressed bytes of tile `i`, where its payload lies in the file and decodes.
pub open spec fn stored_tile(s: Seq<u8>, i: int) -> Option<Seq<u8>> {
    let rec = record_of(s, i);
    if rec.offset + rec.compressed_size > s.len() {
        None
    } else {
        decompressed(s[29], s.subrange(rec.offset as int, rec.offset + rec.compressed_size), rec.original_size as nat)
    }
}

/// Tile bytes with the colour transform undone where the header says so.
pub open spec fn untransformed(s: Seq<u8>, d: Seq<u8>) -> Seq<u8> {
    if f_rct(s) {
        if s[28] == 3 {
            rgb8_inverse(d)
        } else {
            rgb16_inverse(d)
        }
    } else {
        d
    }
}

/// Whether tile `i` decodes, matches its checksum and fits its place.
pub open spec fn tile_ok(s: Seq<u8>, i: int) -> bool {
    let rec = record_of(s, i);
    let nx = f_tiles_x(s);
    let tx = (i % (nx as int)) as nat;
    let ty = (i / (nx as int)) as nat;
    &&& stored_tile(s, i) is Some
    &&& crc32_of(stored_tile(s, i).unwrap()) == rec.crc32
    &&& tile_in_raster(f_width(s), f_height(s), f_tile(s), tx, ty)
    &&& stored_tile(s, i).unwrap().len() == tile_span(f_width(s), f_tile(s), tx) * tile_span(f_height(s), f_tile(s), ty) * f_bpp(s)
}

/// The raster once the first `k` tiles are placed on a zeroed one.
pub open spec fn raster_after(s: Seq<u8>, k: nat) -> Seq<u8>
    decreases k,
{
    if k == 0 {
        zeros(f_width(s) * f_height(s) * f_bpp(s))
    } else {
        let i = k - 1;
        let nx = f_tiles_x(s);
        blit_tile_spec(
            raster_after(s, (k - 1) as nat),
            untransformed(s, stored_tile(s, i).unwrap()),
            f_width(s),
            f_height(s),
            f_tile(s),
            f_bpp(s),
            (i % (nx as int)) as nat,
            (i / (nx as int)) as nat,
        )
    }
}

/// Whether a file decodes: a good header and colour id, the whole index in
/// the file, a raster whose size fits memory, and every tile good.
pub open spec fn decodable(s: Seq<u8>) -> bool {
    &&& frame_ok(s)
    &&& forall|i: int| 0 <= i < f_tile_count(s) ==> #[trigger] tile_ok(s, i)
}

/// Whether everything but the tiles is good: the header and colour id, the
/// whole index in the file, and a raster whose size fits memory.
pub open spec fn frame_ok(s: Seq<u8>) -> bool {
    &&& header_ok(s)
    &&& CTI_HEADER_SIZE + TILE_INDEX_ONDISK_SIZE * f_tile_count(s) <= s.len()
    &&& f_bpp(s) > 0
    &&& f_width(s) * f_height(s) * f_bpp(s) <= usize::MAX
}

/// Whether tile `i` is the first bad tile of a good frame, and it decodes but
/// fails its checksum.
pub open spec fn first_bad_by_checksum(s: Seq<u8>, i: int) -> bool {
    &&& frame_ok(s)
    &&& 0 <= i < f_tile_count(s)
    &&& forall|j: int| 0 <= j < i ==> #[trigger] tile_ok(s, j)
    &&& stored_tile(s, i) is Some
    &&& crc32_of(stored_tile(s, i).unwrap()) != record_of(s, i).crc32
}

proof fn lemma_record_of(t: TileIndex, s: Seq<u8>, i: int)
    requires
        0 <= i,
        CTI_HEADER_SIZE + TILE_INDEX_ONDISK_SIZE * (i + 1) <= s.len(),
        index_read_from(t, s, CTI_HEADER_SIZE + TILE_INDEX_ONDISK_SIZE * i),
    ensures
        t == record_of(s, i),
{
}

proof fn lemma_raster_len(s: Seq<u8>, k: nat)
    ensures
        raster_after(s, k).len() == f_width(s) * f_height(s) * f_bpp(s),
    decreases k,
{
    if k > 0 {
        lemma_raster_len(s, (k - 1) as nat);
    }
}

/// A copy of `s[a .. b]`.
fn copy_range(s: &[u8], a: usize, b: usize) -> (r: Vec<u8>)
    requires
        a <= b <= s@.len(),
    ensures
        r@ == s@.subrange(a as int, b as int),
{
    let mut out: Vec<u8> = Vec::new();
    let mut k: usize = a;
    while k < b
        invariant
            a <= k <= b <= s@.len(),
            out@ == s@.subrange(a as int, k as int),
        decreases b - k,
    {
        out.push(s[k]);
        k += 1;
        assert(out@ =~= s@.subrange(a as int, k as int));
    }
    out
}

/// Decompresses and checks tile `i`, and undoes its colour transform.
fn decode_tile(s: &[u8], hdr: &CTIHeader, t: &TileIndex, i: u64) -> (r: Result<Vec<u8>, CtiError>)
    requires
        header_read_from(*hdr, s@),
        s@.len() >= CTI_HEADER_SIZE,
        *t == record_of(s@, i as int),
    ensures
        r is Ok <==> stored_tile(s@, i as int) is Some && crc32_of(stored_tile(s@, i as int).unwrap()) == t.crc32,
        r matches Ok(v) ==> v@ == untransformed(s@, stored_tile(s@, i as int).unwrap()),
        r matches Err(e) ==> (stored_tile(s@, i as int) is Some ==> e == CtiError::CrcMismatch(i)),
        r matches Err(CtiError::CrcMismatch(j)) ==> j == i && stored_tile(s@, i as int) is Some,
{
    let len = s.len() as u64;
    if t.offset > len || t.compressed_size as u64 > len - t.offset {
        return Err(CtiError::TruncatedStream);
    }
    let start = t.offset as usize;
    let end = start + t.compressed_size as usize;
    let comp = copy_range(s, start, end);
    let mut tile = match decompress_tile_with_size(hdr.compression, comp.as_slice(), t.original_size as usize) {
        Ok(v) => v,
        Err(e) => return Err(e),
    };
    if crc32(tile.as_slice()) != t.crc32 {
        return Err(CtiError::CrcMismatch(i));
    }
    if hdr.flags % 2 == 1 {
        if hdr.color_type == 3 {
            rct_inverse_rgb8(&mut tile);
        } else if hdr.color_type == 5 {
            rct_inverse_rgb16(&mut tile);
        }
    }
    Ok(tile)
}

/// Decodes CTI files held in memory.
pub struct CTIDecoder;

impl CTIDecoder {
    /// The header of a file, validated.
    pub fn info(file: &[u8]) -> (r: Result<CTIHeader, CtiError>)
        ensures
            r is Ok <==> header_ok(file@),
            r matches Ok(h) ==> header_read_from(h, file@),
    {
        read_header(file)
    }

    /// Decodes a file into its header and raster.
#[verifier::rlimit(80)]
    pub fn decode(file: &[u8]) -> (r: Result<(CTIHeader, Vec<u8>), CtiError>)
        ensures
            r is Ok <==> decodable(file@),
            r matches Ok((h, raster)) ==> header_read_from(h, file@) && raster@ == raster_after(
                file@,
                f_tile_count(file@),
            ),
            r matches Err(CtiError::CrcMismatch(i)) ==> i < f_tile_count(file@) && stored_tile(file@, i as int) is Some
                && crc32_of(stored_tile(file@, i as int).unwrap()) != record_of(file@, i as int).crc32,
            forall|i: int| #[trigger] first_bad_by_checksum(file@, i) ==> r == Err::<(CTIHeader, Vec<u8>), CtiError>(
                CtiError::CrcMismatch(i as u64),
            ),
    {
        let hdr = match read_header(file) {
            Ok(h) => h,
            Err(e) => return Err(e),
        };
        let ghost s = file@;
        assert(header_ok(s));
        assert(hdr.tiles_x as u64 * hdr.tiles_y as u64 <= 0xffff_ffff_ffff_ffffu64) by (nonlinear_arith)
            requires hdr.tiles_x <= 0xffff_ffffu32, hdr.tiles_y <= 0xffff_ffffu32;
        let n64 = hdr.tiles_x as u64 * hdr.tiles_y as u64;
        assert(n64 == f_tile_count(s));
        let len = file.len();
        if n64 > ((len - CTI_HEADER_SIZE) / TILE_INDEX_ONDISK_SIZE) as u64 {
            return Err(CtiError::TruncatedStream);
        }
        let n = n64 as usize;
        let indices = match read_indices(file, CTI_HEADER_SIZE, n) {
            Ok(v) => v,
            Err(e) => return Err(e),
        };
        let bpp = match bytes_per_pixel_of_id(hdr.color_type) {
            Ok(b) => b,
            Err(e) => return Err(e),
        };
        assert(hdr.width as u64 * hdr.height as u64 <= 0xffff_ffff_ffff_ffffu64) by (nonlinear_arith)
            requires hdr.width <= 0xffff_ffffu32, hdr.height <= 0xffff_ffffu32;
        let wh = hdr.width as u64 * hdr.height as u64;
        if wh > 0xffff_ffff_ffff_ffffu64 / (bpp as u64) {
            assert(wh * bpp > 0xffff_ffff_ffff_ffffu64) by (nonlinear_arith)
                requires wh > 0xffff_ffff_ffff_ffffu64 / (bpp as u64), bpp > 0;
            return Err(CtiError::SizeOverflow);
        }
        assert(wh * bpp <= 0xffff_ffff_ffff_ffffu64) by (nonlinear_arith)
            requires wh <= 0xffff_ffff_ffff_ffffu64 / (bpp as u64), bpp > 0;
        if wh * (bpp as u64) > usize::MAX as u64 {
            return Err(CtiError::SizeOverflow);
        }
        let total = (wh * (bpp as u64)) as usize;
        let mut out: Vec<u8> = Vec::new();
        let mut z: usize = 0;
        while z < total
            invariant
                z <= total,
                out@ == zeros(z as nat),
            decreases total - z,
        {
            out.push(0);
            z += 1;
            assert(out@ =~= zeros(z as nat));
        }
        let mut i: usize = 0;
        while i < n
            invariant
                s == file@,
                header_read_from(hdr, s),
                header_ok(s),
                n == f_tile_count(s),
                n == hdr.tiles_x * hdr.tiles_y,
                CTI_HEADER_SIZE + TILE_INDEX_ONDISK_SIZE * n <= s.len(),
                indices@.len() == n,
                forall|j: int|
                    0 <= j < n ==> index_read_from(#[trigger] indices@[j], s, CTI_HEADER_SIZE + TILE_INDEX_ONDISK_SIZE * j),
                bpp == f_bpp(s),
                bpp > 0,
                total == f_width(s) * f_height(s) * f_bpp(s),
                i <= n,
                out@ == raster_after(s, i as nat),
                forall|j: int| 0 <= j < i ==> #[trigger] tile_ok(s, j),
            decreases n - i,
        {
            let t = &indices[i];
            proof {
                lemma_record_of(*t, s, i as int);
                lemma_raster_len(s, i as nat);
            }
            let tile = match decode_tile(file, &hdr, t, i as u64) {
                Ok(v) => v,
                Err(e) => {
                    assert(!tile_ok(s, i as int));
                    assert forall|k: int| #[trigger] first_bad_by_checksum(s, k) implies k == i as int by {
                        if k > i as int {
                            assert(tile_ok(s, i as int));
                        } else if k < i as int {
                            assert(tile_ok(s, k));
                        }
                    }
                    return Err(e);
                },
            };
            assert(hdr.tiles_x > 0) by (nonlinear_arith) requires i < hdr.tiles_x * hdr.tiles_y;
            assert((i as u64 / hdr.tiles_x as u64) < hdr.tiles_y) by (nonlinear_arith)
                requires i < hdr.tiles_x * hdr.tiles_y, hdr.tiles_x > 0;
            let tx = (i as u64 % hdr.tiles_x as u64) as u32;
            let ty = (i as u64 / hdr.tiles_x as u64) as u32;
            proof {
                lemma_inverse_len(stored_tile(s, i as int).unwrap());
            }
            assert(tx as nat == (i as int % (f_tiles_x(s) as int)) as nat);
            assert(ty as nat == (i as int / (f_tiles_x(s) as int)) as nat);
            match blit_tile(&mut out, tile.as_slice(), hdr.width, hdr.height, hdr.tile_size, bpp, tx, ty) {
                Ok(()) => {},
                Err(e) => {
                    assert(!tile_ok(s, i as int));
                    assert forall|k: int| !(#[trigger] first_bad_by_checksum(s, k)) by {
                        if first_bad_by_checksum(s, k) {
                            if k > i as int {
                                assert(tile_ok(s, i as int));
                            } else {
                                assert(tile_ok(s, k));
                            }
                        }
                    }
                    return Err(e);
                },
            }
            assert(tile_ok(s, i as int));
            i += 1;
        }
        assert forall|k: int| !(#[trigger] first_bad_by_checksum(s, k)) by {
            if first_bad_by_checksum(s, k) {
                assert(tile_ok(s, k));
            }
        }
        Ok((hdr, out))
    }
}

} // verus!
