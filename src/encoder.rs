//! The encoder: tiles a raster, transforms and compresses each tile, and lays
//! out header, index, payloads and sections as one canonical byte stream.
use vstd::prelude::*;
use crate::bytes::{le_bytes, push_le, lemma_le_bytes_len};
use crate::error::CtiError;
use crate::format::{CTIConfig, CTIHeader, ColorKind, TiffImage, TileIndex, bpp_of_id, bytes_per_pixel, color_type_id, cti_magic, index_table_bytes, sections_bytes, sections_view, sections_size, section_payloads, write_header, write_sections, write_tile_index, zeros, CTI_HEADER_SIZE, TILE_INDEX_ONDISK_SIZE, SEC_TYPE_ICC, SEC_TYPE_RES, CTI_VERSION};
use crate::outside::{crc32, crc32_of};
use crate::rct::{rgb8_forward, rgb16_forward, rct_forward_rgb8, rct_forward_rgb16};
use crate::tile::{tile_count, tile_of, extract_tile};
use crate::tile_codec::{effective_codec, effective_compression, compressed_as, compressed_tile, compress_fails, compress_tile, lemma_compressed_as_unique};

verus! {

/// Whether the colour transform applies: asked for, on an RGB raster.
pub open spec fn uses_rct(color: ColorKind, cfg: CTIConfig) -> bool {
    cfg.color_transform && (color is Rgb8 || color is Rgb16)
}

/// Whether a raster can be encoded with `cfg`: a supported colour kind, a
/// positive tile size and `width * height * bpp` bytes of data.
pub open spec fn raster_ok(img: TiffImage, cfg: CTIConfig) -> bool {
    &&& !(img.color_type is Other)
    &&& cfg.tile_size > 0
    &&& img.data@.len() == img.width * img.height * bpp_of_id(img.color_type.spec_id())
}

/// Tiles across and down.
pub open spec fn grid_x(img: TiffImage, cfg: CTIConfig) -> nat {
    tile_count(img.width as nat, cfg.tile_size as nat)
}

pub open spec fn grid_y(img: TiffImage, cfg: CTIConfig) -> nat {
    tile_count(img.height as nat, cfg.tile_size as nat)
}

/// The uncompressed bytes of tile `i` as stored: cut out in linear tile
/// order and, where it applies, colour-transformed.
pub open spec fn plain_tile(img: TiffImage, cfg: CTIConfig, i: nat) -> Seq<u8> {
    let nx = grid_x(img, cfg);
    let t = tile_of(
        img.data@,
        img.width as nat,
        img.height as nat,
        bpp_of_id(img.color_type.spec_id()),
        cfg.tile_size as nat,
        i % nx,
        i / nx,
    );
    if uses_rct(img.color_type, cfg) {
        if img.color_type is Rgb8 {
            rgb8_forward(t)
        } else {
            rgb16_forward(t)
        }
    } else {
        t
    }
}

/// One compressed tile, with the length and checksum of its uncompressed bytes.
#[derive(Debug, Clone)]
pub struct CompTile {
    pub comp: Vec<u8>,
    pub orig_len: u32,
    pub crc: u32,
}

/// Whether `t` is tile `i` of the raster, encoded with `cfg`.
pub open spec fn tile_encoded(img: TiffImage, cfg: CTIConfig, i: nat, t: CompTile) -> bool {
    let p = plain_tile(img, cfg, i);
    &&& t.orig_len == p.len()
    &&& t.crc == crc32_of(p)
    &&& compressed_as(effective_codec(img.color_type, cfg.compression), p, cfg.zstd_level as int, t.comp@)
    &&& t.comp@.len() <= u32::MAX
}

/// The header bytes of a raster encoded with `cfg`.
pub open spec fn encoded_header_bytes(img: TiffImage, cfg: CTIConfig) -> Seq<u8> {
    cti_magic() + le_bytes(CTI_VERSION as nat, 2) + le_bytes(if uses_rct(img.color_type, cfg) { 1 } else { 0 }, 2)
        + le_bytes(img.width as nat, 4) + le_bytes(img.height as nat, 4) + le_bytes(cfg.tile_size as nat, 4)
        + le_bytes(grid_x(img, cfg), 4) + le_bytes(grid_y(img, cfg), 4) + seq![
        img.color_type.spec_id(),
        effective_codec(img.color_type, cfg.compression).spec_id(),
        cfg.quality_level,
    ] + zeros(33)
}

/// The sections of a raster: `RES ` where both resolutions are known, then
/// `ICC ` where a profile is.
pub open spec fn sections_of(img: TiffImage) -> Seq<(u32, Seq<u8>)> {
    let res: Seq<(u32, Seq<u8>)> = if img.xdpi is Some && img.ydpi is Some {
        seq![(SEC_TYPE_RES, le_bytes(img.xdpi.unwrap() as nat, 4) + le_bytes(img.ydpi.unwrap() as nat, 4))]
    } else {
        Seq::empty()
    };
    let icc: Seq<(u32, Seq<u8>)> = if img.icc is Some {
        seq![(SEC_TYPE_ICC, img.icc.unwrap()@)]
    } else {
        Seq::empty()
    };
    res + icc
}

/// The payloads, concatenated.
pub open spec fn concat(ps: Seq<Seq<u8>>) -> Seq<u8>
    decreases ps.len(),
{
    if ps.len() == 0 {
        Seq::empty()
    } else {
        concat(ps.drop_last()) + ps.last()
    }
}

/// Whether the index records of `n` tiles point at payloads packed one after
/// the other right after the index.
pub open spec fn indices_contiguous(recs: Seq<TileIndex>) -> bool {
    &&& recs.len() > 0 ==> recs[0].offset == CTI_HEADER_SIZE + TILE_INDEX_ONDISK_SIZE * recs.len()
    &&& forall|i: int|
        0 <= i < recs.len() - 1 ==> #[trigger] recs[i].offset + recs[i].compressed_size == recs[i + 1].offset
}

/// Whether `f` is the file of raster `img` encoded with `cfg`, with index
/// records `recs` and tile payloads `ps`.
pub open spec fn file_layout(f: Seq<u8>, img: TiffImage, cfg: CTIConfig, recs: Seq<TileIndex>, ps: Seq<Seq<u8>>) -> bool {
    let n = grid_x(img, cfg) * grid_y(img, cfg);
    let end = (CTI_HEADER_SIZE + TILE_INDEX_ONDISK_SIZE * n + concat(ps).len()) as nat;
    &&& recs.len() == n
    &&& ps.len() == n
    &&& indices_contiguous(recs)
    &&& records_match(img, cfg, recs, ps)
    &&& f == encoded_header_bytes(img, cfg) + index_table_bytes(recs) + concat(ps) + sections_bytes(end, sections_of(img))
}

/// Whether tile `i` encodes: its codec does not fail, and the tile and its
/// compressed bytes each fit the u32 size fields of the index.
pub open spec fn tile_fits(img: TiffImage, cfg: CTIConfig, i: nat) -> bool {
    let p = plain_tile(img, cfg, i);
    let k = effective_codec(img.color_type, cfg.compression);
    &&& !compress_fails(k, p, cfg.zstd_level as int)
    &&& p.len() <= u32::MAX
    &&& compressed_tile(k, p, cfg.zstd_level as int).len() <= u32::MAX
}

/// The compressed bytes of every tile, in linear order.
pub open spec fn encoded_payloads(img: TiffImage, cfg: CTIConfig) -> Seq<Seq<u8>> {
    let k = effective_codec(img.color_type, cfg.compression);
    Seq::new(
        grid_x(img, cfg) * grid_y(img, cfg),
        |i: int| compressed_tile(k, plain_tile(img, cfg, i as nat), cfg.zstd_level as int),
    )
}

/// The length of the raster's ICC profile, 0 where there is none.
pub open spec fn icc_len(img: TiffImage) -> nat {
    if img.icc is Some {
        img.icc.unwrap()@.len()
    } else {
        0
    }
}

/// Whether a file with payloads `ps` has every offset fit a u64: header,
/// index, payloads, and room for the section trailer.
pub open spec fn file_fits(img: TiffImage, ps: Seq<Seq<u8>>) -> bool {
    CTI_HEADER_SIZE + TILE_INDEX_ONDISK_SIZE * ps.len() + concat(ps).len() + 64 + icc_len(img) <= u64::MAX
}

pub proof fn lemma_concat_prefix_len(ps: Seq<Seq<u8>>, k: int)
    requires
        0 <= k <= ps.len(),
    ensures
        concat(ps.take(k)).len() <= concat(ps).len(),
    decreases ps.len(),
{
    if k < ps.len() {
        assert(ps.drop_last().take(k) =~= ps.take(k));
        lemma_concat_prefix_len(ps.drop_last(), k);
    } else {
        assert(ps.take(k) =~= ps);
    }
}

proof fn lemma_sections_of_size(img: TiffImage)
    ensures
        section_payloads(sections_of(img)).len() <= 8 + (if img.icc is Some { img.icc.unwrap()@.len() } else { 0 }),
{
    reveal_with_fuel(section_payloads, 3);
    let s = sections_of(img);
    lemma_le_bytes_len(img.xdpi.unwrap() as nat, 4);
    lemma_le_bytes_len(img.ydpi.unwrap() as nat, 4);
    if s.len() == 2 {
        assert(s.drop_last().drop_last() =~= Seq::<(u32, Seq<u8>)>::empty());
    } else if s.len() == 1 {
        assert(s.drop_last() =~= Seq::<(u32, Seq<u8>)>::empty());
    }
}

pub proof fn lemma_tile_row_in_range(i: nat, nx: nat, ny: nat, extent: nat, t: nat)
    requires
        t > 0,
        nx > 0,
        i < nx * ny,
        ny == tile_count(extent, t),
    ensures
        (i / nx) * t < extent,
        i % nx < nx,
{
    let c = ny;
    assert(i / nx < ny) by (nonlinear_arith)
        requires i < nx * ny, nx > 0;
    assert(c * t <= extent + t - 1) by (nonlinear_arith)
        requires c == ((extent + t - 1) as nat) / t, t > 0;
    let a = i / nx;
    assert(a * t <= (c - 1) * t) by (nonlinear_arith)
        requires a <= c - 1, t > 0;
    assert((c - 1) * t == c * t - t) by (nonlinear_arith);
}

pub proof fn lemma_tile_col_in_range(x: nat, nx: nat, extent: nat, t: nat)
    requires
        t > 0,
        x < nx,
        nx == tile_count(extent, t),
    ensures
        x * t < extent,
{
    assert(nx * t <= extent + t - 1) by (nonlinear_arith)
        requires nx == ((extent + t - 1) as nat) / t, t > 0;
    assert(x * t < extent) by (nonlinear_arith)
        requires x < nx, nx * t <= extent + t - 1, t > 0;
}

/// Tiles needed along an axis: `ceil(extent / t)`.
fn count_tiles(extent: u32, t: u32) -> (r: u32)
    requires
        t > 0,
    ensures
        r == tile_count(extent as nat, t as nat),
{
    let q = extent / t;
    proof {
        vstd::arithmetic::div_mod::lemma_fundamental_div_mod(extent as int, t as int);
    }
    if extent % t == 0 {
        proof {
            assert(extent + t - 1 == q * t + (t - 1)) by (nonlinear_arith)
                requires extent == t * q + extent % t, extent % t == 0;
            vstd::arithmetic::div_mod::lemma_fundamental_div_mod_converse(
                (extent + t - 1) as int,
                t as int,
                q as int,
                (t - 1) as int,
            );
        }
        q
    } else {
        proof {
            assert(extent + t - 1 == (q + 1) * t + (extent % t - 1)) by (nonlinear_arith)
                requires extent == t * q + extent % t;
            vstd::arithmetic::div_mod::lemma_fundamental_div_mod_converse(
                (extent + t - 1) as int,
                t as int,
                (q + 1) as int,
                (extent % t - 1) as int,
            );
            assert(q < 0xffff_ffffu32) by (nonlinear_arith)
                requires extent == t * q + extent % t, extent % t > 0, t > 0, extent <= 0xffff_ffffu32;
        }
        q + 1
    }
}

/// The payloads of encoded tiles.
pub open spec fn payloads_of(tiles: Seq<CompTile>) -> Seq<Seq<u8>> {
    tiles.map_values(|t: CompTile| t.comp@)
}

/// Packs the payloads of `tiles` one after the other from `data_offset` on,
/// and gives the index record of each.
fn pack_tiles(tiles: &Vec<CompTile>, data_offset: u64) -> (r: Result<(Vec<TileIndex>, Vec<u8>), CtiError>)
    requires
        forall|i: int| 0 <= i < tiles@.len() ==> (#[trigger] tiles@[i]).comp@.len() <= u32::MAX,
    ensures
        data_offset + concat(payloads_of(tiles@)).len() <= u64::MAX ==> r is Ok,
        r matches Ok((recs, payload)) ==> {
            let ps = payloads_of(tiles@);
            &&& recs@.len() == tiles@.len()
            &&& payload@ == concat(ps)
            &&& data_offset + payload@.len() <= u64::MAX
            &&& forall|j: int|
                0 <= j < tiles@.len() ==> {
                    &&& (#[trigger] recs@[j]).offset == data_offset + concat(ps.take(j)).len()
                    &&& recs@[j].compressed_size == tiles@[j].comp@.len()
                    &&& recs@[j].original_size == tiles@[j].orig_len
                    &&& recs@[j].crc32 == tiles@[j].crc
                }
        },
        r matches Err(e) ==> e == CtiError::SizeOverflow,
{
    let ghost ps = payloads_of(tiles@);
    let n = tiles.len();
    let mut recs: Vec<TileIndex> = Vec::new();
    let mut payload: Vec<u8> = Vec::new();
    let mut cursor: u64 = data_offset;
    let mut i: usize = 0;
    assert(ps.take(0) =~= Seq::<Seq<u8>>::empty());
    while i < n
        invariant
            n == tiles@.len() == ps.len(),
            ps == payloads_of(tiles@),
            forall|i: int| 0 <= i < tiles@.len() ==> (#[trigger] tiles@[i]).comp@.len() <= u32::MAX,
            i <= n,
            recs@.len() == i,
            payload@ == concat(ps.take(i as int)),
            cursor == data_offset + payload@.len(),
            forall|j: int|
                0 <= j < i ==> {
                    &&& (#[trigger] recs@[j]).offset == data_offset + concat(ps.take(j)).len()
                    &&& recs@[j].compressed_size == tiles@[j].comp@.len()
                    &&& recs@[j].original_size == tiles@[j].orig_len
                    &&& recs@[j].crc32 == tiles@[j].crc
                },
        decreases n - i,
    {
        let t = &tiles[i];
        let clen = t.comp.len();
        proof {
            lemma_concat_prefix_len(ps, i + 1);
            assert(ps.take(i + 1).drop_last() =~= ps.take(i as int));
        }
        if clen > 0xffff_ffffusize || cursor > 0xffff_ffff_ffff_ffffu64 - clen as u64 {
            return Err(CtiError::SizeOverflow);
        }
        recs.push(TileIndex { offset: cursor, compressed_size: clen as u32, original_size: t.orig_len, crc32: t.crc });
        let mut k: usize = 0;
        let ghost before = payload@;
        while k < clen
            invariant
                clen == t.comp@.len(),
                k <= clen,
                payload@ == before + t.comp@.take(k as int),
            decreases clen - k,
        {
            payload.push(t.comp[k]);
            k += 1;
            assert(payload@ =~= before + t.comp@.take(k as int));
        }
        assert(t.comp@.take(clen as int) =~= t.comp@);
        assert(ps.take(i + 1).drop_last() =~= ps.take(i as int));
        cursor = cursor + clen as u64;
        i += 1;
    }
    assert(ps.take(n as int) =~= ps);
    Ok((recs, payload))
}

/// Appends the index table.
fn write_index_table(out: &mut Vec<u8>, recs: &Vec<TileIndex>)
    ensures
        final(out)@ == old(out)@ + index_table_bytes(recs@),
{
    let ghost start = out@;
    let n = recs.len();
    let mut k: usize = 0;
    assert(recs@.take(0) =~= Seq::<TileIndex>::empty());
    assert(start + index_table_bytes(Seq::<TileIndex>::empty()) =~= start);
    while k < n
        invariant
            n == recs@.len(),
            k <= n,
            out@ == start + index_table_bytes(recs@.take(k as int)),
        decreases n - k,
    {
        write_tile_index(out, &recs[k]);
        assert(recs@.take(k + 1).drop_last() =~= recs@.take(k as int));
        k += 1;
    }
    assert(recs@.take(n as int) =~= recs@);
}

/// The section list of a raster.
fn sections_list(img: &TiffImage) -> (r: Vec<(u32, Vec<u8>)>)
    ensures
        sections_view(r@) == sections_of(*img),
        sections_size(r@) <= 8 + (if img.icc is Some { img.icc.unwrap()@.len() } else { 0 }),
{
    let mut sections: Vec<(u32, Vec<u8>)> = Vec::new();
    match (img.xdpi, img.ydpi) {
        (Some(x), Some(y)) => {
            let mut res: Vec<u8> = Vec::new();
            push_le(&mut res, x as u64, 4);
            push_le(&mut res, y as u64, 4);
            assert(res@ =~= le_bytes(x as nat, 4) + le_bytes(y as nat, 4));
            sections.push((SEC_TYPE_RES, res));
        },
        _ => {},
    }
    match &img.icc {
        Some(icc) => {
            let copy = crate::codec::copy_bytes(icc.as_slice());
            sections.push((SEC_TYPE_ICC, copy));
        },
        None => {},
    }
    assert(sections_view(sections@) =~= sections_of(*img));
    proof {
        lemma_sections_of_size(*img);
    }
    sections
}

/// Whether `recs` index the payloads `ps` packed from `data_offset` on, for
/// the tiles of `img`.
pub open spec fn records_match(img: TiffImage, cfg: CTIConfig, recs: Seq<TileIndex>, ps: Seq<Seq<u8>>) -> bool {
    forall|i: int|
        0 <= i < recs.len() ==> {
            let p = plain_tile(img, cfg, i as nat);
            &&& (#[trigger] recs[i]).compressed_size == ps[i].len()
            &&& recs[i].original_size == p.len()
            &&& recs[i].crc32 == crc32_of(p)
            &&& compressed_as(effective_codec(img.color_type, cfg.compression), p, cfg.zstd_level as int, ps[i])
        }
}

proof fn lemma_records(img: TiffImage, cfg: CTIConfig, tiles: Seq<CompTile>, recs: Seq<TileIndex>, data_offset: nat)
    requires
        data_offset == CTI_HEADER_SIZE + TILE_INDEX_ONDISK_SIZE * tiles.len(),
        recs.len() == tiles.len(),
        forall|i: int| 0 <= i < tiles.len() ==> tile_encoded(img, cfg, i as nat, #[trigger] tiles[i]),
        forall|j: int|
            0 <= j < tiles.len() ==> {
                &&& (#[trigger] recs[j]).offset == data_offset + concat(payloads_of(tiles).take(j)).len()
                &&& recs[j].compressed_size == tiles[j].comp@.len()
                &&& recs[j].original_size == tiles[j].orig_len
                &&& recs[j].crc32 == tiles[j].crc
            },
    ensures
        indices_contiguous(recs),
        records_match(img, cfg, recs, payloads_of(tiles)),
{
    let ps = payloads_of(tiles);
    let n = tiles.len();
    assert forall|j: int| 0 <= j < n - 1 implies #[trigger] recs[j].offset + recs[j].compressed_size
        == recs[j + 1].offset by {
        assert(ps.take(j + 1).drop_last() =~= ps.take(j));
        assert(ps.take(j + 1).last() == ps[j]);
    }
    if n > 0 {
        assert(ps.take(0) =~= Seq::<Seq<u8>>::empty());
    }
    assert forall|j: int| 0 <= j < n implies {
        let p = plain_tile(img, cfg, j as nat);
        &&& (#[trigger] recs[j]).compressed_size == ps[j].len()
        &&& recs[j].original_size == p.len()
        &&& recs[j].crc32 == crc32_of(p)
        &&& compressed_as(effective_codec(img.color_type, cfg.compression), p, cfg.zstd_level as int, ps[j])
    } by {
        assert(tile_encoded(img, cfg, j as nat, tiles[j]));
    }
}

proof fn lemma_layout(f: Seq<u8>, img: TiffImage, cfg: CTIConfig, recs: Seq<TileIndex>, ps: Seq<Seq<u8>>, end: nat)
    requires
        recs.len() == grid_x(img, cfg) * grid_y(img, cfg),
        ps.len() == recs.len(),
        indices_contiguous(recs),
        records_match(img, cfg, recs, ps),
        end == CTI_HEADER_SIZE + TILE_INDEX_ONDISK_SIZE * recs.len() + concat(ps).len(),
        f == encoded_header_bytes(img, cfg) + index_table_bytes(recs) + concat(ps) + sections_bytes(end, sections_of(img)),
    ensures
        file_layout(f, img, cfg, recs, ps),
{
}

/// The encoder of one configuration.
pub struct CTIEncoder {
    pub config: CTIConfig,
}

impl CTIEncoder {
    pub fn new(config: CTIConfig) -> (r: Self)
        ensures
            r.config == config,
    {
        CTIEncoder { config }
    }

    /// Checks that the raster can be encoded and gives the tiles across and down.
    pub fn tile_grid(&self, img: &TiffImage) -> (r: Result<(u32, u32), CtiError>)
        ensures
            r is Ok <==> raster_ok(*img, self.config),
            r matches Ok(g) ==> g.0 == grid_x(*img, self.config) && g.1 == grid_y(*img, self.config),
            img.color_type is Other ==> r == Err::<(u32, u32), CtiError>(CtiError::UnsupportedColorKind),
            !(img.color_type is Other) && !raster_ok(*img, self.config) ==> r == Err::<(u32, u32), CtiError>(
                CtiError::BadGeometry,
            ),
    {
        let bpp = match bytes_per_pixel(&img.color_type) {
            Ok(b) => b as u64,
            Err(e) => return Err(e),
        };
        let t = self.config.tile_size;
        if t == 0 {
            return Err(CtiError::BadGeometry);
        }
        let len = img.data.len() as u64;
        assert((img.width as u64) * (img.height as u64) <= 0xffff_ffff_ffff_ffffu64) by (nonlinear_arith)
            requires img.width <= 0xffff_ffffu32, img.height <= 0xffff_ffffu32;
        let wh = (img.width as u64) * (img.height as u64);
        if wh > len / bpp {
            proof {
                if img.data@.len() == img.width * img.height * bpp {
                    assert(((wh * bpp) as int) / (bpp as int) == wh as int) by (nonlinear_arith) requires bpp > 0;
                }
            }
            return Err(CtiError::BadGeometry);
        }
        assert(wh * bpp <= len) by (nonlinear_arith) requires wh <= (len as int) / (bpp as int), bpp > 0;
        if wh * bpp != len {
            return Err(CtiError::BadGeometry);
        }
        Ok((count_tiles(img.width, t), count_tiles(img.height, t)))
    }

    /// Encodes tile `i` (in linear order) of a raster whose grid is `nx` by `ny`
    /// tiles. Tiles are independent, so they may be encoded in any order or at once.
#[verifier::rlimit(80)]
    pub fn encode_tile(&self, img: &TiffImage, i: u64, nx: u32, ny: u32) -> (r: Result<CompTile, CtiError>)
        requires
            raster_ok(*img, self.config),
            nx == grid_x(*img, self.config),
            ny == grid_y(*img, self.config),
            i < nx * ny,
        ensures
            r matches Ok(t) ==> tile_encoded(*img, self.config, i as nat, t),
            r is Err ==> ({
                let p = plain_tile(*img, self.config, i as nat);
                let k = effective_codec(img.color_type, self.config.compression);
                compress_fails(k, p, self.config.zstd_level as int) || p.len() > u32::MAX || exists|o: Seq<u8>|
                    compressed_as(k, p, self.config.zstd_level as int, o) && o.len() > u32::MAX
            }),
            r matches Err(e) ==> (e == CtiError::LibraryDecode && effective_codec(img.color_type, self.config.compression) is Zstd)
                || e == CtiError::SizeOverflow,
            tile_fits(*img, self.config, i as nat) ==> r is Ok,
    {
        let cfg = self.config;
        let nx64 = nx as u64;
        assert(nx > 0) by (nonlinear_arith) requires i < nx * ny;
        proof {
            lemma_tile_row_in_range(i as nat, nx as nat, ny as nat, img.height as nat, cfg.tile_size as nat);
            lemma_tile_col_in_range((i % nx64) as nat, nx as nat, img.width as nat, cfg.tile_size as nat);
            assert((i / nx64) as nat <= ((i / nx64) * cfg.tile_size) as nat) by (nonlinear_arith)
                requires cfg.tile_size > 0;
        }
        let tx = (i % nx64) as u32;
        let ty = (i / nx64) as u32;
        assert(tx as nat == (i as nat) % grid_x(*img, cfg));
        assert(ty as nat == (i as nat) / grid_x(*img, cfg));
        let mut tile = match extract_tile(img, tx, ty, cfg.tile_size) {
            Ok(t) => t,
            Err(e) => return Err(e),
        };
        let rct = cfg.color_transform && match img.color_type {
            ColorKind::Rgb8 | ColorKind::Rgb16 => true,
            _ => false,
        };
        if rct {
            match img.color_type {
                ColorKind::Rgb8 => rct_forward_rgb8(&mut tile),
                _ => rct_forward_rgb16(&mut tile),
            }
        }
        assert(tile@ == plain_tile(*img, cfg, i as nat));
        let kind = effective_compression(&img.color_type, &cfg.compression);
        let comp = match compress_tile(kind, tile.as_slice(), cfg.zstd_level) {
            Ok(c) => c,
            Err(e) => return Err(e),
        };
        proof {
            lemma_compressed_as_unique(kind, tile@, cfg.zstd_level as int, comp@);
        }
        if tile.len() > 0xffff_ffffusize || comp.len() > 0xffff_ffffusize {
            return Err(CtiError::SizeOverflow);
        }
        let crc = crc32(tile.as_slice());
        Ok(CompTile { comp, orig_len: tile.len() as u32, crc })
    }

    /// Lays out the file of a raster from its encoded tiles, in linear order.
#[verifier::rlimit(80)]
    pub fn assemble(&self, img: &TiffImage, tiles: &Vec<CompTile>) -> (r: Result<Vec<u8>, CtiError>)
        requires
            raster_ok(*img, self.config),
            tiles@.len() == grid_x(*img, self.config) * grid_y(*img, self.config),
            forall|i: int| 0 <= i < tiles@.len() ==> tile_encoded(*img, self.config, i as nat, #[trigger] tiles@[i]),
        ensures
            r is Ok ==> exists|recs: Seq<TileIndex>, ps: Seq<Seq<u8>>| #[trigger] file_layout(r.unwrap()@, *img, self.config, recs, ps),
            r matches Err(e) ==> e == CtiError::SizeOverflow,
            file_fits(*img, payloads_of(tiles@)) ==> r is Ok,
    {
        let cfg = self.config;
        let nx = count_tiles(img.width, cfg.tile_size);
        let ny = count_tiles(img.height, cfg.tile_size);
        let n = tiles.len();
        let kind = effective_compression(&img.color_type, &cfg.compression);
        let color_id = match color_type_id(&img.color_type) {
            Ok(c) => c,
            Err(_) => return Err(CtiError::SizeOverflow),
        };
        let rct = cfg.color_transform && match img.color_type {
            ColorKind::Rgb8 | ColorKind::Rgb16 => true,
            _ => false,
        };
        let flags: u16 = if rct { 1 } else { 0 };
        let header = CTIHeader::new(
            img.width,
            img.height,
            cfg.tile_size,
            nx,
            ny,
            color_id,
            kind.id(),
            cfg.quality_level,
            flags,
        );
        let mut out = write_header(&header);
        assert(out@ =~= encoded_header_bytes(*img, cfg));
        if n as u64 > (0xffff_ffff_ffff_ffffu64 - 64) / 20 {
            return Err(CtiError::SizeOverflow);
        }
        assert(20 * (n as int) <= 0xffff_ffff_ffff_ffff - 64);
        let data_offset: u64 = CTI_HEADER_SIZE as u64 + TILE_INDEX_ONDISK_SIZE as u64 * n as u64;
        assert forall|i: int| 0 <= i < tiles@.len() implies (#[trigger] tiles@[i]).comp@.len() <= u32::MAX by {
            assert(tile_encoded(*img, cfg, i as nat, tiles@[i]));
        }
        let (recs, mut payload) = match pack_tiles(tiles, data_offset) {
            Ok(p) => p,
            Err(e) => return Err(e),
        };
        let ghost ps = payloads_of(tiles@);
        let ghost recs_s = recs@;
        let cursor = data_offset + payload.len() as u64;
        proof {
            lemma_records(*img, cfg, tiles@, recs_s, data_offset as nat);
        }
        write_index_table(&mut out, &recs);
        out.append(&mut payload);
        let sections = sections_list(img);
        let tail_len = match &img.icc {
            Some(icc) => icc.len() as u64,
            None => 0,
        };
        assert(tail_len == icc_len(*img));
        assert(ps.len() == n);
        assert(cursor == CTI_HEADER_SIZE + TILE_INDEX_ONDISK_SIZE * n + concat(ps).len());
        if tail_len > 0xffff_ffff_ffff_ffffu64 - 64 || cursor > 0xffff_ffff_ffff_ffffu64 - 64 - tail_len {
            return Err(CtiError::SizeOverflow);
        }
        let mut trailer = write_sections(cursor, &sections);
        out.append(&mut trailer);
        proof {
            lemma_layout(out@, *img, cfg, recs_s, ps, cursor as nat);
            assert(file_layout(out@, *img, self.config, recs_s, ps));
            assert(exists|recs2: Seq<TileIndex>, ps2: Seq<Seq<u8>>| #[trigger] file_layout(out@, *img, self.config, recs2, ps2));
        }
        let ghost fin = out@;
        let r: Result<Vec<u8>, CtiError> = Ok(out);
        assert(r.unwrap()@ == fin);
        r
    }

    /// Encodes a raster into the bytes of a CTI file.
    pub fn encode_to_cti(&self, img: &TiffImage) -> (r: Result<Vec<u8>, CtiError>)
        ensures
            img.color_type is Other ==> r == Err::<Vec<u8>, CtiError>(CtiError::UnsupportedColorKind),
            !(img.color_type is Other) && !raster_ok(*img, self.config) ==> r == Err::<Vec<u8>, CtiError>(
                CtiError::BadGeometry,
            ),
            r is Ok ==> exists|recs: Seq<TileIndex>, ps: Seq<Seq<u8>>| #[trigger] file_layout(r.unwrap()@, *img, self.config, recs, ps),
            raster_ok(*img, self.config) ==> (r matches Err(e) ==> (e == CtiError::LibraryDecode && effective_codec(
                img.color_type,
                self.config.compression,
            ) is Zstd) || e == CtiError::SizeOverflow),
            raster_ok(*img, self.config) && (forall|i: nat|
                i < grid_x(*img, self.config) * grid_y(*img, self.config) ==> #[trigger] tile_fits(
                    *img,
                    self.config,
                    i,
                )) && file_fits(*img, encoded_payloads(*img, self.config)) ==> r is Ok,
    {
        let (nx, ny) = match self.tile_grid(img) {
            Ok(g) => g,
            Err(e) => return Err(e),
        };
        assert(nx as u64 * ny as u64 <= 0xffff_ffff_ffff_ffffu64) by (nonlinear_arith)
            requires nx <= 0xffff_ffffu32, ny <= 0xffff_ffffu32;
        let n: u64 = nx as u64 * ny as u64;
        let mut tiles: Vec<CompTile> = Vec::new();
        let mut i: u64 = 0;
        while i < n
            invariant
                raster_ok(*img, self.config),
                nx == grid_x(*img, self.config),
                ny == grid_y(*img, self.config),
                n == nx * ny,
                i <= n,
                tiles@.len() == i,
                forall|j: int| 0 <= j < i ==> tile_encoded(*img, self.config, j as nat, #[trigger] tiles@[j]),
            decreases n - i,
        {
            let t = match self.encode_tile(img, i, nx, ny) {
                Ok(t) => t,
                Err(e) => {
                    assert(!tile_fits(*img, self.config, i as nat));
                    return Err(e);
                },
            };
            tiles.push(t);
            i += 1;
        }
        proof {
            let k = effective_codec(img.color_type, self.config.compression);
            assert forall|j: int| 0 <= j < n implies #[trigger] payloads_of(tiles@)[j] == encoded_payloads(*img, self.config)[j] by {
                assert(tile_encoded(*img, self.config, j as nat, tiles@[j]));
                lemma_compressed_as_unique(k, plain_tile(*img, self.config, j as nat), self.config.zstd_level as int, tiles@[j].comp@);
            }
            assert(payloads_of(tiles@) =~= encoded_payloads(*img, self.config));
        }
        self.assemble(img, &tiles)
    }
}

} // verus!
