//! Reading back what the encoder lays out: the decoder accepts every file the
//! encoder produces with a byte codec.
use vstd::prelude::*;
use crate::bytes::{le_bytes, le_value, pow256, lemma_le_bytes_len, lemma_le_round_trip};
use crate::decoder::{decodable, raster_after, untransformed, f_bpp, f_height, f_tile, f_tile_count, f_tiles_x, f_width, field, header_ok, record_of, stored_tile, tile_ok};
use crate::encoder::{
    concat, sections_of, encoded_header_bytes, file_layout, grid_x, grid_y, indices_contiguous, lemma_tile_col_in_range,
    lemma_tile_row_in_range, plain_tile, raster_ok, records_match, uses_rct,
};
use crate::outside::crc32_of;
use crate::format::{sections_bytes, CTIConfig, TiffImage, TileIndex, bpp_of_id, cti_magic, index_bytes, index_table_bytes};
use crate::rct::{lemma_inverse_len, lemma_rgb8_round_trip, lemma_rgb16_round_trip, rgb8_fits, rgb16_fits};
use crate::tile::{blit_window, in_window, lemma_row_index, tile_count, tile_in_raster, tile_of, tile_span, window_source};
use crate::tile_codec::{effective_codec, lemma_byte_codec_round_trip};

verus! {

proof fn lemma_pow256_values()
    ensures
        pow256(2) == 0x1_0000,
        pow256(4) == 0x1_0000_0000,
        pow256(8) == 0x1_0000_0000_0000_0000,
{
    reveal_with_fuel(pow256, 9);
}

proof fn lemma_header_read_back(img: TiffImage, cfg: CTIConfig)
    ensures
        ({
            let h = encoded_header_bytes(img, cfg);
            &&& h.len() == 64
            &&& h.subrange(0, 4) == cti_magic()
            &&& field(h, 4, 6) == 1
            &&& field(h, 6, 8) == (if uses_rct(img.color_type, cfg) { 1nat } else { 0nat })
            &&& field(h, 8, 12) == img.width
            &&& field(h, 12, 16) == img.height
            &&& field(h, 16, 20) == cfg.tile_size
            &&& field(h, 20, 24) == grid_x(img, cfg)
            &&& field(h, 24, 28) == grid_y(img, cfg)
            &&& h[28] == img.color_type.spec_id()
            &&& h[29] == effective_codec(img.color_type, cfg.compression).spec_id()
        }),
{
    let h = encoded_header_bytes(img, cfg);
    let flags: nat = if uses_rct(img.color_type, cfg) { 1 } else { 0 };
    let (nx, ny) = (grid_x(img, cfg), grid_y(img, cfg));
    lemma_le_bytes_len(1, 2);
    lemma_le_bytes_len(flags, 2);
    lemma_le_bytes_len(img.width as nat, 4);
    lemma_le_bytes_len(img.height as nat, 4);
    lemma_le_bytes_len(cfg.tile_size as nat, 4);
    lemma_le_bytes_len(nx, 4);
    lemma_le_bytes_len(ny, 4);
    lemma_pow256_values();
    assert(nx <= img.width) by {
        if cfg.tile_size > 0 {
            assert(((img.width + cfg.tile_size - 1) as nat) / (cfg.tile_size as nat) <= img.width) by (nonlinear_arith)
                requires cfg.tile_size > 0;
        }
    }
    assert(ny <= img.height) by {
        if cfg.tile_size > 0 {
            assert(((img.height + cfg.tile_size - 1) as nat) / (cfg.tile_size as nat) <= img.height) by (nonlinear_arith)
                requires cfg.tile_size > 0;
        }
    }
    lemma_le_round_trip(1, 2);
    lemma_le_round_trip(flags, 2);
    lemma_le_round_trip(img.width as nat, 4);
    lemma_le_round_trip(img.height as nat, 4);
    lemma_le_round_trip(cfg.tile_size as nat, 4);
    lemma_le_round_trip(nx, 4);
    lemma_le_round_trip(ny, 4);
    assert(h.subrange(0, 4) =~= cti_magic());
    assert(h.subrange(4, 6) =~= le_bytes(1, 2));
    assert(h.subrange(6, 8) =~= le_bytes(flags, 2));
    assert(h.subrange(8, 12) =~= le_bytes(img.width as nat, 4));
    assert(h.subrange(12, 16) =~= le_bytes(img.height as nat, 4));
    assert(h.subrange(16, 20) =~= le_bytes(cfg.tile_size as nat, 4));
    assert(h.subrange(20, 24) =~= le_bytes(nx, 4));
    assert(h.subrange(24, 28) =~= le_bytes(ny, 4));
}

proof fn lemma_index_table_at(recs: Seq<TileIndex>, i: int)
    requires
        0 <= i < recs.len(),
    ensures
        index_table_bytes(recs).len() == 20 * recs.len(),
        index_table_bytes(recs).subrange(20 * i, 20 * i + 20) == index_bytes(recs[i]),
    decreases recs.len(),
{
    let t = recs.last();
    lemma_le_bytes_len(t.offset as nat, 8);
    lemma_le_bytes_len(t.compressed_size as nat, 4);
    lemma_le_bytes_len(t.original_size as nat, 4);
    lemma_le_bytes_len(t.crc32 as nat, 4);
    let prev = recs.drop_last();
    if i < recs.len() - 1 {
        lemma_index_table_at(prev, i);
        assert(index_table_bytes(recs).subrange(20 * i, 20 * i + 20) =~= index_table_bytes(prev).subrange(
            20 * i,
            20 * i + 20,
        ));
    } else {
        if prev.len() > 0 {
            lemma_index_table_at(prev, 0);
        }
        assert(index_table_bytes(recs).subrange(20 * i, 20 * i + 20) =~= index_bytes(t));
    }
}

proof fn lemma_record_read_back(t: TileIndex)
    ensures
        ({
            let b = index_bytes(t);
            &&& b.len() == 20
            &&& le_value(b.subrange(0, 8)) == t.offset
            &&& le_value(b.subrange(8, 12)) == t.compressed_size
            &&& le_value(b.subrange(12, 16)) == t.original_size
            &&& le_value(b.subrange(16, 20)) == t.crc32
        }),
{
    let b = index_bytes(t);
    lemma_le_bytes_len(t.offset as nat, 8);
    lemma_le_bytes_len(t.compressed_size as nat, 4);
    lemma_le_bytes_len(t.original_size as nat, 4);
    lemma_le_bytes_len(t.crc32 as nat, 4);
    lemma_pow256_values();
    lemma_le_round_trip(t.offset as nat, 8);
    lemma_le_round_trip(t.compressed_size as nat, 4);
    lemma_le_round_trip(t.original_size as nat, 4);
    lemma_le_round_trip(t.crc32 as nat, 4);
    assert(b.subrange(0, 8) =~= le_bytes(t.offset as nat, 8));
    assert(b.subrange(8, 12) =~= le_bytes(t.compressed_size as nat, 4));
    assert(b.subrange(12, 16) =~= le_bytes(t.original_size as nat, 4));
    assert(b.subrange(16, 20) =~= le_bytes(t.crc32 as nat, 4));
}

proof fn lemma_concat_at(ps: Seq<Seq<u8>>, i: int)
    requires
        0 <= i < ps.len(),
    ensures
        concat(ps.take(i)).len() + ps[i].len() <= concat(ps).len(),
        concat(ps).subrange(concat(ps.take(i)).len() as int, (concat(ps.take(i)).len() + ps[i].len()) as int) == ps[i],
    decreases ps.len(),
{
    let prev = ps.drop_last();
    if i < ps.len() - 1 {
        lemma_concat_at(prev, i);
        assert(prev.take(i) =~= ps.take(i));
        assert(concat(ps).subrange(concat(ps.take(i)).len() as int, (concat(ps.take(i)).len() + ps[i].len()) as int)
            =~= concat(prev).subrange(concat(ps.take(i)).len() as int, (concat(ps.take(i)).len() + ps[i].len()) as int));
    } else {
        assert(ps.take(i) =~= prev);
    }
}

proof fn lemma_offsets(recs: Seq<TileIndex>, ps: Seq<Seq<u8>>, base: nat, i: int)
    requires
        recs.len() == ps.len(),
        0 <= i < recs.len(),
        recs.len() > 0 ==> recs[0].offset == base,
        forall|j: int| 0 <= j < recs.len() - 1 ==> #[trigger] recs[j].offset + recs[j].compressed_size == recs[j + 1].offset,
        forall|j: int| 0 <= j < recs.len() ==> (#[trigger] recs[j]).compressed_size == ps[j].len(),
    ensures
        recs[i].offset == base + concat(ps.take(i)).len(),
    decreases i,
{
    if i == 0 {
        assert(ps.take(0) =~= Seq::<Seq<u8>>::empty());
    } else {
        lemma_offsets(recs, ps, base, i - 1);
        assert(ps.take(i).drop_last() =~= ps.take(i - 1));
        assert(recs[i - 1].offset + recs[i - 1].compressed_size == recs[i].offset);
        assert(recs[i - 1].compressed_size == ps[i - 1].len());
    }
}

/// Where the pieces of an encoded file lie.
#[verifier::rlimit(60)]
proof fn lemma_file_parts(f: Seq<u8>, img: TiffImage, cfg: CTIConfig, recs: Seq<TileIndex>, ps: Seq<Seq<u8>>)
    requires
        file_layout(f, img, cfg, recs, ps),
    ensures
        f.len() >= 64 + 20 * recs.len() + concat(ps).len(),
        f.subrange(0, 64) == encoded_header_bytes(img, cfg),
        forall|i: int| 0 <= i < recs.len() ==> #[trigger] f.subrange(64 + 20 * i, 64 + 20 * i + 20) == index_bytes(recs[i]),
        forall|a: int, b: int| 0 <= a <= b <= concat(ps).len() ==> #[trigger] f.subrange(64 + 20 * recs.len() + a, 64 + 20 * recs.len() + b)
            == concat(ps).subrange(a, b),
{
    let hb = encoded_header_bytes(img, cfg);
    lemma_header_read_back(img, cfg);
    let n = recs.len();
    let it = index_table_bytes(recs);
    if n > 0 {
        lemma_index_table_at(recs, 0);
    } else {
        assert(it.len() == 0);
    }
    assert(f.subrange(0, 64) =~= hb);
    assert forall|i: int| 0 <= i < n implies #[trigger] f.subrange(64 + 20 * i, 64 + 20 * i + 20) == index_bytes(recs[i]) by {
        lemma_index_table_at(recs, i);
        assert(f.subrange(64 + 20 * i, 64 + 20 * i + 20) =~= it.subrange(20 * i, 20 * i + 20));
    }
    assert forall|a: int, b: int| 0 <= a <= b <= concat(ps).len() implies #[trigger] f.subrange(64 + 20 * n + a, 64 + 20 * n + b)
        == concat(ps).subrange(a, b) by {
        assert(f.subrange(64 + 20 * n + a, 64 + 20 * n + b) =~= concat(ps).subrange(a, b));
    }
}

proof fn lemma_record_at(f: Seq<u8>, recs: Seq<TileIndex>, i: int)
    requires
        0 <= i < recs.len(),
        f.len() >= 64 + 20 * recs.len(),
        f.subrange(64 + 20 * i, 64 + 20 * i + 20) == index_bytes(recs[i]),
    ensures
        record_of(f, i) == recs[i],
{
    let p = 64 + 20 * i;
    let b = index_bytes(recs[i]);
    lemma_record_read_back(recs[i]);
    assert(f.subrange(p, p + 8) =~= b.subrange(0, 8));
    assert(f.subrange(p + 8, p + 12) =~= b.subrange(8, 12));
    assert(f.subrange(p + 12, p + 16) =~= b.subrange(12, 16));
    assert(f.subrange(p + 16, p + 20) =~= b.subrange(16, 20));
}

proof fn lemma_payload_at(f: Seq<u8>, recs: Seq<TileIndex>, ps: Seq<Seq<u8>>, i: int)
    requires
        recs.len() == ps.len(),
        0 <= i < recs.len(),
        indices_contiguous(recs),
        forall|j: int| 0 <= j < recs.len() ==> (#[trigger] recs[j]).compressed_size == ps[j].len(),
        f.len() >= 64 + 20 * recs.len() + concat(ps).len(),
        forall|a: int, b: int| 0 <= a <= b <= concat(ps).len() ==> #[trigger] f.subrange(64 + 20 * recs.len() + a, 64 + 20 * recs.len() + b)
            == concat(ps).subrange(a, b),
    ensures
        recs[i].offset + recs[i].compressed_size <= f.len(),
        f.subrange(recs[i].offset as int, recs[i].offset + recs[i].compressed_size) == ps[i],
{
    let n = recs.len();
    lemma_offsets(recs, ps, (64 + 20 * n) as nat, i);
    lemma_concat_at(ps, i);
    let c = concat(ps.take(i)).len() as int;
    assert(f.subrange(64 + 20 * n + c, 64 + 20 * n + (c + ps[i].len())) == concat(ps).subrange(c, c + ps[i].len()));
}

#[verifier::rlimit(80)]
proof fn lemma_tile_stored(f: Seq<u8>, img: TiffImage, cfg: CTIConfig, recs: Seq<TileIndex>, ps: Seq<Seq<u8>>, i: int)
    requires
        records_match(img, cfg, recs, ps),
        indices_contiguous(recs),
        recs.len() == ps.len(),
        effective_codec(img.color_type, cfg.compression).is_byte_codec(),
        0 <= i < recs.len(),
        f.len() >= 64 + 20 * recs.len() + concat(ps).len(),
        f[29] == effective_codec(img.color_type, cfg.compression).spec_id(),
        f.subrange(64 + 20 * i, 64 + 20 * i + 20) == index_bytes(recs[i]),
        forall|a: int, b: int| 0 <= a <= b <= concat(ps).len() ==> #[trigger] f.subrange(64 + 20 * recs.len() + a, 64 + 20 * recs.len() + b)
            == concat(ps).subrange(a, b),
    ensures
        record_of(f, i) == recs[i],
        stored_tile(f, i) == Some(plain_tile(img, cfg, i as nat)),
        crc32_of(plain_tile(img, cfg, i as nat)) == recs[i].crc32,
{
    lemma_record_at(f, recs, i);
    assert forall|j: int| 0 <= j < recs.len() implies (#[trigger] recs[j]).compressed_size == ps[j].len() by {}
    lemma_payload_at(f, recs, ps, i);
    let k = effective_codec(img.color_type, cfg.compression);
    let p = plain_tile(img, cfg, i as nat);
    assert(recs[i].original_size == p.len());
    lemma_byte_codec_round_trip(k, p, cfg.zstd_level as int, ps[i]);
}

proof fn lemma_tile_fits(img: TiffImage, cfg: CTIConfig, i: int)
    requires
        raster_ok(img, cfg),
        0 <= i < grid_x(img, cfg) * grid_y(img, cfg),
    ensures
        ({
            let nx = grid_x(img, cfg);
            let tx = (i % (nx as int)) as nat;
            let ty = (i / (nx as int)) as nat;
            let t = cfg.tile_size as nat;
            &&& tile_in_raster(img.width as nat, img.height as nat, t, tx, ty)
            &&& plain_tile(img, cfg, i as nat).len() == tile_span(img.width as nat, t, tx) * tile_span(
                img.height as nat,
                t,
                ty,
            ) * bpp_of_id(img.color_type.spec_id())
        }),
{
    let nx = grid_x(img, cfg);
    let ny = grid_y(img, cfg);
    let t = cfg.tile_size as nat;
    lemma_tile_row_in_range(i as nat, nx, ny, img.height as nat, t);
    lemma_tile_col_in_range((i % (nx as int)) as nat, nx, img.width as nat, t);
    let tx = (i % (nx as int)) as nat;
    let ty = (i / (nx as int)) as nat;
    let bpp = bpp_of_id(img.color_type.spec_id());
    let tw = tile_span(img.width as nat, t, tx);
    let th = tile_span(img.height as nat, t, ty);
    let raw = tile_of(img.data@, img.width as nat, img.height as nat, bpp, t, tx, ty);
    assert(raw.len() == th * (tw * bpp));
    assert(th * (tw * bpp) == tw * th * bpp) by (nonlinear_arith);
    lemma_inverse_len(raw);
}

proof fn lemma_tile_accepted(f: Seq<u8>, img: TiffImage, cfg: CTIConfig, recs: Seq<TileIndex>, ps: Seq<Seq<u8>>, i: int)
    requires
        file_layout(f, img, cfg, recs, ps),
        raster_ok(img, cfg),
        effective_codec(img.color_type, cfg.compression).is_byte_codec(),
        0 <= i < recs.len(),
        f.len() >= 64 + 20 * recs.len() + concat(ps).len(),
        f_width(f) == img.width,
        f_height(f) == img.height,
        f_tile(f) == cfg.tile_size,
        f_tiles_x(f) == grid_x(img, cfg),
        f_bpp(f) == bpp_of_id(img.color_type.spec_id()),
        f[29] == effective_codec(img.color_type, cfg.compression).spec_id(),
        f.subrange(64 + 20 * i, 64 + 20 * i + 20) == index_bytes(recs[i]),
        forall|a: int, b: int| 0 <= a <= b <= concat(ps).len() ==> #[trigger] f.subrange(64 + 20 * recs.len() + a, 64 + 20 * recs.len() + b)
            == concat(ps).subrange(a, b),
    ensures
        tile_ok(f, i),
{
    assert(records_match(img, cfg, recs, ps));
    assert(indices_contiguous(recs));
    lemma_tile_stored(f, img, cfg, recs, ps, i);
    lemma_tile_fits(img, cfg, i);
}

/// Every file the encoder lays out with a byte codec is one the decoder
/// accepts: its header, index and every tile pass the decoder's checks, so
/// `CTIDecoder::decode` returns `Ok` on it.
#[verifier::rlimit(80)]
pub proof fn lemma_encoded_file_decodes(f: Seq<u8>, img: TiffImage, cfg: CTIConfig, recs: Seq<TileIndex>, ps: Seq<Seq<u8>>)
    requires
        file_layout(f, img, cfg, recs, ps),
        raster_ok(img, cfg),
        effective_codec(img.color_type, cfg.compression).is_byte_codec(),
        img.data@.len() <= usize::MAX,
    ensures
        decodable(f),
{
    lemma_file_parts(f, img, cfg, recs, ps);
    lemma_header_read_back(img, cfg);
    let hb = encoded_header_bytes(img, cfg);
    assert(f.subrange(0, 64).subrange(0, 4) =~= f.subrange(0, 4));
    assert(f.subrange(0, 64).subrange(4, 6) =~= f.subrange(4, 6));
    assert(f.subrange(0, 64).subrange(8, 12) =~= f.subrange(8, 12));
    assert(f.subrange(0, 64).subrange(12, 16) =~= f.subrange(12, 16));
    assert(f.subrange(0, 64).subrange(20, 24) =~= f.subrange(20, 24));
    assert(f.subrange(0, 64).subrange(24, 28) =~= f.subrange(24, 28));
    assert(f.subrange(0, 64)[28] == f[28]);
    assert(header_ok(f));
    assert(f_tile_count(f) == recs.len());
    assert(f_bpp(f) == bpp_of_id(img.color_type.spec_id()));
    assert(f.subrange(0, 64).subrange(16, 20) =~= f.subrange(16, 20));
    assert(f.subrange(0, 64)[29] == f[29]);
    assert forall|i: int| 0 <= i < f_tile_count(f) implies #[trigger] tile_ok(f, i) by {
        lemma_tile_accepted(f, img, cfg, recs, ps, i);
    }
}

/// The linear index of the tile that holds raster byte `p`.
pub open spec fn tile_index_of(p: int, w: nat, bpp: nat, t: nat, nx: nat) -> int {
    let wb = (w * bpp) as int;
    let y = p / wb;
    let x = (p % wb) / (bpp as int);
    (y / (t as int)) * (nx as int) + x / (t as int)
}

proof fn lemma_axis(v: int, t: int, i: int, extent: int, span: int)
    requires
        t > 0,
        0 <= v < extent,
        0 <= i,
        i * t < extent,
        span == (if (i + 1) * t <= extent { t } else { extent - i * t }),
    ensures
        (i * t <= v < i * t + span) <==> v / t == i,
{
    vstd::arithmetic::div_mod::lemma_fundamental_div_mod(v, t);
    assert((i + 1) * t == i * t + t) by (nonlinear_arith);
    if v / t == i {
        assert(v == t * i + v % t);
        assert(t * i == i * t) by (nonlinear_arith);
    }
    if i * t <= v < i * t + span {
        vstd::arithmetic::div_mod::lemma_fundamental_div_mod_converse(v, t, i, v - i * t);
    }
}

#[verifier::rlimit(80)]
proof fn lemma_tile_window(data: Seq<u8>, p: int, w: nat, h: nat, bpp: nat, t: nat, nx: nat, ny: nat, k: int)
    requires
        bpp > 0,
        t > 0,
        data.len() == w * h * bpp,
        0 <= p < w * h * bpp,
        nx == tile_count(w, t),
        ny == tile_count(h, t),
        0 <= k < nx * ny,
    ensures
        ({
            let tx = (k % (nx as int)) as nat;
            let ty = (k / (nx as int)) as nat;
            let tw = tile_span(w, t, tx);
            let th = tile_span(h, t, ty);
            &&& in_window(p, w, bpp, tx * t, ty * t, tw, th) <==> tile_index_of(p, w, bpp, t, nx) == k
            &&& in_window(p, w, bpp, tx * t, ty * t, tw, th) ==> window_source(
                tile_of(data, w, h, bpp, t, tx, ty),
                p,
                w,
                bpp,
                tx * t,
                ty * t,
                tw,
            ) == data[p]
            &&& 0 <= tile_index_of(p, w, bpp, t, nx) < nx * ny
        }),
{
    let wb = (w * bpp) as int;
    assert(wb > 0) by (nonlinear_arith) requires w * h * bpp > 0, bpp > 0, wb == w * bpp;
    let y = p / wb;
    let c = p % wb;
    let x = c / (bpp as int);
    vstd::arithmetic::div_mod::lemma_fundamental_div_mod(p, wb);
    vstd::arithmetic::div_mod::lemma_fundamental_div_mod(c, bpp as int);
    assert(0 <= y < h) by (nonlinear_arith)
        requires p == wb * y + c, 0 <= c < wb, 0 <= p < w * h * bpp, wb == w * bpp;
    assert(0 <= x < w) by (nonlinear_arith)
        requires c == bpp * x + c % (bpp as int), 0 <= c % (bpp as int), 0 <= c < wb, wb == w * bpp, bpp > 0;
    let nxi = nx as int;
    assert(nx > 0) by (nonlinear_arith) requires k < nx * ny, 0 <= k;
    let tx = k % nxi;
    let ty = k / nxi;
    vstd::arithmetic::div_mod::lemma_fundamental_div_mod(k, nxi);
    lemma_tile_row_in_range(k as nat, nx, ny, h, t);
    lemma_tile_col_in_range(tx as nat, nx, w, t);
    let tw = tile_span(w, t, tx as nat);
    let th = tile_span(h, t, ty as nat);
    lemma_axis(y, t as int, ty, h as int, th as int);
    lemma_axis(x, t as int, tx, w as int, tw as int);
    // the byte range of the window's columns
    assert((tx * t) * bpp <= c < (tx * t + tw) * bpp <==> tx * t <= x < tx * t + tw) by (nonlinear_arith)
        requires c == bpp * x + c % (bpp as int), 0 <= c % (bpp as int) < bpp, bpp > 0;
    // tile index uniqueness
    let jy = y / (t as int);
    let jx = x / (t as int);
    assert(0 <= jx < nx) by {
        lemma_tile_col_in_range(0, nx, w, t);
        vstd::arithmetic::div_mod::lemma_fundamental_div_mod(x, t as int);
        assert(nx * t >= w) by (nonlinear_arith)
            requires nx == ((w + t - 1) as nat) / t, t > 0;
        assert(jx < nx) by (nonlinear_arith)
            requires x < w, nx * t >= w, x == t * jx + x % (t as int), 0 <= x % (t as int), t > 0;
    }
    assert(0 <= jy < ny) by {
        vstd::arithmetic::div_mod::lemma_fundamental_div_mod(y, t as int);
        assert(ny * t >= h) by (nonlinear_arith)
            requires ny == ((h + t - 1) as nat) / t, t > 0;
        assert(jy < ny) by (nonlinear_arith)
            requires y < h, ny * t >= h, y == t * jy + y % (t as int), 0 <= y % (t as int), t > 0;
    }
    assert(0 <= jy * nxi + jx < nx * ny) by (nonlinear_arith)
        requires 0 <= jx < nxi, 0 <= jy < ny, nxi == nx;
    if jy * nxi + jx == k {
        vstd::arithmetic::div_mod::lemma_fundamental_div_mod_converse(k, nxi, jy, jx);
    }
    if jy == ty && jx == tx {
        assert(jy * nxi + jx == k) by (nonlinear_arith)
            requires jy == ty, jx == tx, k == nxi * ty + tx;
    }
    // the source byte
    if in_window(p, w, bpp, (tx * t) as nat, (ty * t) as nat, tw, th) {
        let row = (tw * bpp) as int;
        let idx = (y - ty * t) * row + (c - tx * t * bpp);
        assert(0 <= c - tx * t * bpp < row) by (nonlinear_arith)
            requires (tx * t) * bpp <= c < (tx * t + tw) * bpp, row == tw * bpp;
        lemma_row_index(y - ty * t, c - tx * t * bpp, row);
        assert(((ty * t + idx / row) * w + tx * t) * bpp + idx % row == p) by (nonlinear_arith)
            requires
                idx / row == y - ty * t,
                idx % row == c - tx * t * bpp,
                p == wb * y + c,
                wb == w * bpp;
        assert(0 <= idx < th * row) by (nonlinear_arith)
            requires
                idx == (y - ty * t) * row + (c - tx * t * bpp),
                0 <= y - ty * t < th,
                0 <= c - tx * t * bpp < row;
    }
}

/// Tile `i` of a raster as cut out, before any colour transform.
pub open spec fn raw_tile(img: TiffImage, cfg: CTIConfig, i: nat) -> Seq<u8> {
    let nx = grid_x(img, cfg);
    tile_of(
        img.data@,
        img.width as nat,
        img.height as nat,
        bpp_of_id(img.color_type.spec_id()),
        cfg.tile_size as nat,
        i % nx,
        i / nx,
    )
}

/// Whether the colour transform, where it applies, is undone exactly: every
/// pixel of every tile has chroma differences that fit the stored signed range.
pub open spec fn transform_reversible(img: TiffImage, cfg: CTIConfig) -> bool {
    uses_rct(img.color_type, cfg) ==> forall|i: nat|
        i < grid_x(img, cfg) * grid_y(img, cfg) ==> if img.color_type is Rgb8 {
            rgb8_fits(#[trigger] raw_tile(img, cfg, i))
        } else {
            rgb16_fits(raw_tile(img, cfg, i))
        }
}

#[verifier::rlimit(80)]
proof fn lemma_raster_after(f: Seq<u8>, img: TiffImage, cfg: CTIConfig, k: nat)
    requires
        raster_ok(img, cfg),
        transform_reversible(img, cfg),
        k <= grid_x(img, cfg) * grid_y(img, cfg),
        f_width(f) == img.width,
        f_height(f) == img.height,
        f_tile(f) == cfg.tile_size,
        f_tiles_x(f) == grid_x(img, cfg),
        f_bpp(f) == bpp_of_id(img.color_type.spec_id()),
        f[28] == img.color_type.spec_id(),
        field(f, 6, 8) == (if uses_rct(img.color_type, cfg) { 1nat } else { 0nat }),
        forall|i: int| 0 <= i < grid_x(img, cfg) * grid_y(img, cfg) ==> #[trigger] stored_tile(f, i) == Some(
            plain_tile(img, cfg, i as nat),
        ),
    ensures
        raster_after(f, k).len() == img.data@.len(),
        forall|p: int|
            0 <= p < img.data@.len() ==> #[trigger] raster_after(f, k)[p] == if tile_index_of(
                p,
                img.width as nat,
                bpp_of_id(img.color_type.spec_id()),
                cfg.tile_size as nat,
                grid_x(img, cfg),
            ) < k {
                img.data@[p]
            } else {
                0u8
            },
    decreases k,
{
    let (w, h, t) = (img.width as nat, img.height as nat, cfg.tile_size as nat);
    let bpp = bpp_of_id(img.color_type.spec_id());
    let (nx, ny) = (grid_x(img, cfg), grid_y(img, cfg));
    if k == 0 {
        assert forall|p: int| 0 <= p < img.data@.len() implies #[trigger] raster_after(f, k)[p] == if tile_index_of(
            p,
            w,
            bpp,
            t,
            nx,
        ) < k {
            img.data@[p]
        } else {
            0u8
        } by {
            lemma_some_tiles(img, cfg, p);
            lemma_tile_window(img.data@, p, w, h, bpp, t, nx, ny, 0);
            assert(raster_after(f, 0)[p] == 0u8);
        }
    } else {
        let i = k - 1;
        lemma_raster_after(f, img, cfg, (k - 1) as nat);
        let o = raster_after(f, (k - 1) as nat);
        let raw = raw_tile(img, cfg, i as nat);
        assert(stored_tile(f, i) == Some(plain_tile(img, cfg, i as nat)));
        let d = plain_tile(img, cfg, i as nat);
        if uses_rct(img.color_type, cfg) {
            if img.color_type is Rgb8 {
                assert(rgb8_fits(raw_tile(img, cfg, i as nat)));
                lemma_rgb8_round_trip(raw);
            } else {
                assert(rgb16_fits(raw_tile(img, cfg, i as nat)));
                lemma_rgb16_round_trip(raw);
            }
        }
        assert(untransformed(f, d) == raw);
        let tx = (i % (nx as int)) as nat;
        let ty = (i / (nx as int)) as nat;
        assert(raster_after(f, k) == blit_window(o, raw, w, bpp, tx * t, ty * t, tile_span(w, t, tx), tile_span(h, t, ty)));
        assert forall|p: int| 0 <= p < img.data@.len() implies #[trigger] raster_after(f, k)[p] == if tile_index_of(
            p,
            w,
            bpp,
            t,
            nx,
        ) < k {
            img.data@[p]
        } else {
            0u8
        } by {
            lemma_tile_window(img.data@, p, w, h, bpp, t, nx, ny, i);
            assert(o[p] == if tile_index_of(p, w, bpp, t, nx) < k - 1 {
                img.data@[p]
            } else {
                0u8
            });
        }
    }
}

/// Decoding what the encoder laid out with a byte codec gives back the raster
/// byte for byte, wherever the colour transform, if used, is reversible on it.
#[verifier::rlimit(80)]
pub proof fn lemma_decode_inverts_encode(f: Seq<u8>, img: TiffImage, cfg: CTIConfig, recs: Seq<TileIndex>, ps: Seq<Seq<u8>>)
    requires
        file_layout(f, img, cfg, recs, ps),
        raster_ok(img, cfg),
        effective_codec(img.color_type, cfg.compression).is_byte_codec(),
        transform_reversible(img, cfg),
        img.data@.len() <= usize::MAX,
    ensures
        decodable(f),
        raster_after(f, f_tile_count(f)) == img.data@,
{
    lemma_encoded_file_decodes(f, img, cfg, recs, ps);
    lemma_file_parts(f, img, cfg, recs, ps);
    lemma_header_read_back(img, cfg);
    assert(f.subrange(0, 64).subrange(6, 8) =~= f.subrange(6, 8));
    assert(f.subrange(0, 64).subrange(8, 12) =~= f.subrange(8, 12));
    assert(f.subrange(0, 64).subrange(12, 16) =~= f.subrange(12, 16));
    assert(f.subrange(0, 64).subrange(16, 20) =~= f.subrange(16, 20));
    assert(f.subrange(0, 64).subrange(20, 24) =~= f.subrange(20, 24));
    assert(f.subrange(0, 64).subrange(24, 28) =~= f.subrange(24, 28));
    assert(f.subrange(0, 64)[28] == f[28] && f.subrange(0, 64)[29] == f[29]);
    assert(records_match(img, cfg, recs, ps));
    assert(indices_contiguous(recs));
    assert forall|i: int| 0 <= i < grid_x(img, cfg) * grid_y(img, cfg) implies #[trigger] stored_tile(f, i) == Some(
        plain_tile(img, cfg, i as nat),
    ) by {
        lemma_tile_stored(f, img, cfg, recs, ps, i);
    }
    let n = f_tile_count(f);
    lemma_raster_after(f, img, cfg, n);
    let (w, h, t) = (img.width as nat, img.height as nat, cfg.tile_size as nat);
    let bpp = bpp_of_id(img.color_type.spec_id());
    assert forall|p: int| 0 <= p < img.data@.len() implies #[trigger] raster_after(f, n)[p] == img.data@[p] by {
        lemma_some_tiles(img, cfg, p);
        lemma_tile_window(img.data@, p, w, h, bpp, t, grid_x(img, cfg), grid_y(img, cfg), 0);
    }
    assert(raster_after(f, n) =~= img.data@);
}

proof fn lemma_some_tiles(img: TiffImage, cfg: CTIConfig, p: int)
    requires
        raster_ok(img, cfg),
        0 <= p < img.data@.len(),
    ensures
        grid_x(img, cfg) * grid_y(img, cfg) > 0,
{
    let t = cfg.tile_size as nat;
    let bpp = bpp_of_id(img.color_type.spec_id());
    assert(img.width > 0 && img.height > 0) by (nonlinear_arith)
        requires img.data@.len() == img.width * img.height * bpp, 0 <= p < img.data@.len();
    assert(grid_x(img, cfg) > 0) by (nonlinear_arith)
        requires grid_x(img, cfg) == ((img.width + t - 1) as nat) / t, t > 0, img.width > 0;
    assert(grid_y(img, cfg) > 0) by (nonlinear_arith)
        requires grid_y(img, cfg) == ((img.height + t - 1) as nat) / t, t > 0, img.height > 0;
    assert(grid_x(img, cfg) * grid_y(img, cfg) > 0) by (nonlinear_arith)
        requires grid_x(img, cfg) > 0, grid_y(img, cfg) > 0;
}

/// The index table read back from an encoded file holds the records the
/// encoder wrote: the first payload starts right after the index, each one
/// right after the previous, and the last ends where the section trailer,
/// which follows at once, begins.
pub proof fn lemma_index_in_file(f: Seq<u8>, img: TiffImage, cfg: CTIConfig, recs: Seq<TileIndex>, ps: Seq<Seq<u8>>)
    requires
        file_layout(f, img, cfg, recs, ps),
    ensures
        ({
            let n = recs.len();
            let end = 64 + 20 * n + concat(ps).len();
            &&& forall|i: int| 0 <= i < n ==> #[trigger] record_of(f, i) == recs[i]
            &&& n > 0 ==> record_of(f, 0).offset == 64 + 20 * n
            &&& forall|i: int| 0 <= i < n - 1 ==> #[trigger] record_of(f, i).offset + record_of(f, i).compressed_size
                == record_of(f, i + 1).offset
            &&& n > 0 ==> record_of(f, n - 1).offset + record_of(f, n - 1).compressed_size == end
            &&& f.subrange(end as int, f.len() as int) == sections_bytes(end as nat, sections_of(img))
        }),
{
    let n = recs.len();
    let end = 64 + 20 * n + concat(ps).len();
    lemma_file_parts(f, img, cfg, recs, ps);
    assert forall|i: int| 0 <= i < n implies #[trigger] record_of(f, i) == recs[i] by {
        lemma_record_at(f, recs, i);
    }
    assert(indices_contiguous(recs));
    assert forall|i: int| 0 <= i < n - 1 implies #[trigger] record_of(f, i).offset + record_of(f, i).compressed_size
        == record_of(f, i + 1).offset by {
        lemma_record_at(f, recs, i);
        lemma_record_at(f, recs, i + 1);
    }
    if n > 0 {
        lemma_record_at(f, recs, 0);
        lemma_record_at(f, recs, n - 1);
        assert(records_match(img, cfg, recs, ps));
        assert forall|j: int| 0 <= j < recs.len() implies (#[trigger] recs[j]).compressed_size == ps[j].len() by {}
        lemma_offsets(recs, ps, (64 + 20 * n) as nat, n - 1);
        assert(ps.take(n as int).drop_last() =~= ps.take(n - 1));
        assert(ps.take(n as int) =~= ps);
    }
    lemma_header_read_back(img, cfg);
    if n > 0 {
        lemma_index_table_at(recs, 0);
    }
    assert(f.subrange(end as int, f.len() as int) =~= sections_bytes(end as nat, sections_of(img)));
}

} // verus!
