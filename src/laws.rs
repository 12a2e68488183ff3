//! Properties of the encoded file that hold for every raster and configuration.
use vstd::prelude::*;
use crate::bytes::{le_bytes, lemma_le_bytes_len};
use crate::encoder::{encoded_header_bytes, file_layout, grid_x, grid_y, indices_contiguous, plain_tile, records_match, sections_of, uses_rct};
use crate::format::{CTIConfig, CompressionType, TiffImage, TileIndex, section_payloads, section_toc, sections_bytes, SEC_TYPE_ICC, SEC_TYPE_RES};
use crate::outside::crc32_of;
use crate::tile_codec::{compressed_as, decompressed, effective_codec, lemma_byte_codec_round_trip};

verus! {

proof fn lemma_header_bytes(img: TiffImage, cfg: CTIConfig)
    ensures
        encoded_header_bytes(img, cfg).len() == 64,
        encoded_header_bytes(img, cfg)[6] == (if uses_rct(img.color_type, cfg) { 1u8 } else { 0u8 }),
        encoded_header_bytes(img, cfg)[28] == img.color_type.spec_id(),
        encoded_header_bytes(img, cfg)[29] == effective_codec(img.color_type, cfg.compression).spec_id(),
{
    let flags: nat = if uses_rct(img.color_type, cfg) { 1 } else { 0 };
    lemma_le_bytes_len(1, 2);
    lemma_le_bytes_len(flags, 2);
    lemma_le_bytes_len(img.width as nat, 4);
    lemma_le_bytes_len(img.height as nat, 4);
    lemma_le_bytes_len(cfg.tile_size as nat, 4);
    lemma_le_bytes_len(grid_x(img, cfg), 4);
    lemma_le_bytes_len(grid_y(img, cfg), 4);
    reveal_with_fuel(le_bytes, 2);
    assert(le_bytes(flags, 2)[0] == (flags % 256) as u8);
}

/// A 16-bit raster asked to use one of the byte codecs is stored with
/// Zstandard, and its header's compression byte says so.
pub proof fn lemma_sixteen_bit_override(f: Seq<u8>, img: TiffImage, cfg: CTIConfig, recs: Seq<TileIndex>, ps: Seq<Seq<u8>>)
    requires
        file_layout(f, img, cfg, recs, ps),
        img.color_type.is_16bit(),
        cfg.compression.is_byte_codec(),
    ensures
        f[29] == 10,
        effective_codec(img.color_type, cfg.compression) == CompressionType::Zstd,
{
    lemma_header_bytes(img, cfg);
}

/// The header's flag bit 0 is set exactly where the colour transform was applied.
pub proof fn lemma_rct_flag(f: Seq<u8>, img: TiffImage, cfg: CTIConfig, recs: Seq<TileIndex>, ps: Seq<Seq<u8>>)
    requires
        file_layout(f, img, cfg, recs, ps),
    ensures
        f[6] % 2 == (if uses_rct(img.color_type, cfg) { 1int } else { 0int }),
{
    lemma_header_bytes(img, cfg);
}

proof fn lemma_offsets_agree(ra: Seq<TileIndex>, rb: Seq<TileIndex>, k: int)
    requires
        ra.len() == rb.len(),
        indices_contiguous(ra),
        indices_contiguous(rb),
        forall|i: int| 0 <= i < ra.len() ==> (#[trigger] ra[i]).compressed_size == rb[i].compressed_size,
        0 <= k < ra.len(),
    ensures
        ra[k].offset == rb[k].offset,
    decreases k,
{
    if k > 0 {
        lemma_offsets_agree(ra, rb, k - 1);
        assert(ra[k - 1].offset + ra[k - 1].compressed_size == ra[k].offset);
        assert(rb[k - 1].offset + rb[k - 1].compressed_size == rb[k].offset);
    }
}

#[verifier::rlimit(80)]
proof fn lemma_payloads_agree(img: TiffImage, cfg: CTIConfig, ra: Seq<TileIndex>, pa: Seq<Seq<u8>>, rb: Seq<TileIndex>, pb: Seq<Seq<u8>>)
    requires
        records_match(img, cfg, ra, pa),
        records_match(img, cfg, rb, pb),
        ra.len() == rb.len() == pa.len() == pb.len(),
    ensures
        pa == pb,
        forall|i: int| 0 <= i < ra.len() ==> {
            &&& (#[trigger] ra[i]).compressed_size == rb[i].compressed_size
            &&& ra[i].original_size == rb[i].original_size
            &&& ra[i].crc32 == rb[i].crc32
        },
{
    let n = ra.len();
    let k = effective_codec(img.color_type, cfg.compression);
    assert forall|i: int| 0 <= i < n implies #[trigger] pa[i] == pb[i] by {
        let p = plain_tile(img, cfg, i as nat);
        assert(ra[i].original_size == p.len());
        assert(rb[i].original_size == p.len());
        assert(compressed_as(k, p, cfg.zstd_level as int, pa[i]));
        assert(compressed_as(k, p, cfg.zstd_level as int, pb[i]));
    }
    assert(pa =~= pb);
    assert forall|i: int| 0 <= i < n implies {
        &&& (#[trigger] ra[i]).compressed_size == rb[i].compressed_size
        &&& ra[i].original_size == rb[i].original_size
        &&& ra[i].crc32 == rb[i].crc32
    } by {
        let p = plain_tile(img, cfg, i as nat);
        assert(ra[i].compressed_size == pa[i].len());
        assert(rb[i].compressed_size == pb[i].len());
        assert(ra[i].original_size == p.len());
        assert(rb[i].original_size == p.len());
    }
}

proof fn lemma_records_agree(ra: Seq<TileIndex>, rb: Seq<TileIndex>)
    requires
        ra.len() == rb.len(),
        indices_contiguous(ra),
        indices_contiguous(rb),
        forall|i: int| 0 <= i < ra.len() ==> {
            &&& (#[trigger] ra[i]).compressed_size == rb[i].compressed_size
            &&& ra[i].original_size == rb[i].original_size
            &&& ra[i].crc32 == rb[i].crc32
        },
    ensures
        ra == rb,
{
    assert forall|i: int| 0 <= i < ra.len() implies #[trigger] ra[i] == rb[i] by {
        lemma_offsets_agree(ra, rb, i);
        assert(ra[i].compressed_size == rb[i].compressed_size);
        assert(ra[i].original_size == rb[i].original_size);
        assert(ra[i].crc32 == rb[i].crc32);
    }
    assert(ra =~= rb);
}

/// Encoding is a function of the raster and the configuration: two files laid
/// out for the same raster and configuration are the same bytes, whatever
/// order their tiles were compressed in.
pub proof fn lemma_encoding_deterministic(
    img: TiffImage,
    cfg: CTIConfig,
    fa: Seq<u8>,
    ra: Seq<TileIndex>,
    pa: Seq<Seq<u8>>,
    fb: Seq<u8>,
    rb: Seq<TileIndex>,
    pb: Seq<Seq<u8>>,
)
    requires
        file_layout(fa, img, cfg, ra, pa),
        file_layout(fb, img, cfg, rb, pb),
    ensures
        fa == fb,
{
    lemma_payloads_agree(img, cfg, ra, pa, rb, pb);
    lemma_records_agree(ra, rb);
}

/// For every tile stored with a byte codec, decompressing its payload to its
/// uncompressed size gives bytes whose CRC-32 is the one in its index record, and
/// those bytes are the tile.
pub proof fn lemma_tile_checksum(f: Seq<u8>, img: TiffImage, cfg: CTIConfig, recs: Seq<TileIndex>, ps: Seq<Seq<u8>>, i: int)
    requires
        file_layout(f, img, cfg, recs, ps),
        0 <= i < recs.len(),
        effective_codec(img.color_type, cfg.compression).is_byte_codec(),
    ensures
        decompressed(effective_codec(img.color_type, cfg.compression).spec_id(), ps[i], recs[i].original_size as nat)
            == Some(plain_tile(img, cfg, i as nat)),
        crc32_of(plain_tile(img, cfg, i as nat)) == recs[i].crc32,
{
    let k = effective_codec(img.color_type, cfg.compression);
    let p = plain_tile(img, cfg, i as nat);
    assert(records_match(img, cfg, recs, ps));
    assert(recs[i].original_size == p.len());
    lemma_byte_codec_round_trip(k, p, cfg.zstd_level as int, ps[i]);
}

/// With a resolution and an ICC profile, the trailer lists `RES ` first and
/// `ICC ` second, and each record's offset is where its payload starts.
pub proof fn lemma_section_trailer(base: nat, res: Seq<u8>, icc: Seq<u8>)
    ensures
        ({
            let t = sections_bytes(base, seq![(SEC_TYPE_RES, res), (SEC_TYPE_ICC, icc)]);
            let first = base + 44;
            t == le_bytes(2, 4) + le_bytes(SEC_TYPE_RES as nat, 4) + le_bytes(first, 8) + le_bytes(res.len(), 8)
                + le_bytes(SEC_TYPE_ICC as nat, 4) + le_bytes(first + res.len(), 8) + le_bytes(icc.len(), 8) + res
                + icc
        }),
{
    let secs = seq![(SEC_TYPE_RES, res), (SEC_TYPE_ICC, icc)];
    let one = secs.drop_last();
    let none = one.drop_last();
    assert(none =~= Seq::<(u32, Seq<u8>)>::empty());
    assert(section_payloads(none) == Seq::<u8>::empty());
    assert(section_toc(base + 44, none) == Seq::<u8>::empty());
    assert(one.last() == (SEC_TYPE_RES, res));
    assert(secs.last() == (SEC_TYPE_ICC, icc));
    assert(section_payloads(one) =~= res);
    assert(section_payloads(secs) =~= res + icc);
    assert(section_toc(base + 44, one) =~= le_bytes(SEC_TYPE_RES as nat, 4) + le_bytes(base + 44, 8) + le_bytes(
        res.len(),
        8,
    ));
    assert(sections_bytes(base, secs) =~= le_bytes(2, 4) + le_bytes(SEC_TYPE_RES as nat, 4) + le_bytes(base + 44, 8)
        + le_bytes(res.len(), 8) + le_bytes(SEC_TYPE_ICC as nat, 4) + le_bytes(base + 44 + res.len(), 8) + le_bytes(
        icc.len(),
        8,
    ) + res + icc);
}

/// A raster with both resolutions and a profile gets exactly the sections
/// `RES ` (the two resolutions) and `ICC ` (the profile), in that order.
pub proof fn lemma_sections_order(img: TiffImage)
    requires
        img.xdpi is Some,
        img.ydpi is Some,
        img.icc is Some,
    ensures
        sections_of(img) == seq![
            (SEC_TYPE_RES, le_bytes(img.xdpi.unwrap() as nat, 4) + le_bytes(img.ydpi.unwrap() as nat, 4)),
            (SEC_TYPE_ICC, img.icc.unwrap()@),
        ],
{
    assert(sections_of(img) =~= seq![
        (SEC_TYPE_RES, le_bytes(img.xdpi.unwrap() as nat, 4) + le_bytes(img.ydpi.unwrap() as nat, 4)),
        (SEC_TYPE_ICC, img.icc.unwrap()@),
    ]);
}

/// The bytes of section `k`'s record in a table of contents.
pub open spec fn section_record(first: nat, secs: Seq<(u32, Seq<u8>)>, k: int) -> Seq<u8> {
    le_bytes(secs[k].0 as nat, 4) + le_bytes(first + section_payloads(secs.take(k)).len(), 8) + le_bytes(
        secs[k].1.len(),
        8,
    )
}

proof fn lemma_toc_at(first: nat, secs: Seq<(u32, Seq<u8>)>, k: int)
    requires
        0 <= k < secs.len(),
    ensures
        section_toc(first, secs).len() == 20 * secs.len(),
        section_toc(first, secs).subrange(20 * k, 20 * k + 20) == section_record(first, secs, k),
    decreases secs.len(),
{
    let prev = secs.drop_last();
    let last = secs.last();
    lemma_le_bytes_len(last.0 as nat, 4);
    lemma_le_bytes_len(first + section_payloads(prev).len(), 8);
    lemma_le_bytes_len(last.1.len(), 8);
    if k < secs.len() - 1 {
        lemma_toc_at(first, prev, k);
        assert(prev.take(k) =~= secs.take(k));
        assert(section_toc(first, secs).subrange(20 * k, 20 * k + 20) =~= section_toc(first, prev).subrange(
            20 * k,
            20 * k + 20,
        ));
    } else {
        if prev.len() > 0 {
            lemma_toc_at(first, prev, 0);
        }
        assert(secs.take(k) =~= prev);
        assert(section_toc(first, secs).subrange(20 * k, 20 * k + 20) =~= section_record(first, secs, k));
    }
}

proof fn lemma_payload_at(secs: Seq<(u32, Seq<u8>)>, k: int)
    requires
        0 <= k < secs.len(),
    ensures
        section_payloads(secs.take(k)).len() + secs[k].1.len() <= section_payloads(secs).len(),
        section_payloads(secs).subrange(
            section_payloads(secs.take(k)).len() as int,
            (section_payloads(secs.take(k)).len() + secs[k].1.len()) as int,
        ) == secs[k].1,
    decreases secs.len(),
{
    let prev = secs.drop_last();
    if k < secs.len() - 1 {
        lemma_payload_at(prev, k);
        assert(prev.take(k) =~= secs.take(k));
        assert(section_payloads(secs).subrange(
            section_payloads(secs.take(k)).len() as int,
            (section_payloads(secs.take(k)).len() + secs[k].1.len()) as int,
        ) =~= section_payloads(prev).subrange(
            section_payloads(secs.take(k)).len() as int,
            (section_payloads(secs.take(k)).len() + secs[k].1.len()) as int,
        ));
    } else {
        assert(secs.take(k) =~= prev);
    }
}

/// A section trailer written at offset `base` starts with the count; record
/// `k` names section `k`'s type, its absolute offset and its size, in list
/// order; and at that offset stand exactly that section's bytes.
pub proof fn lemma_sections_layout(base: nat, secs: Seq<(u32, Seq<u8>)>, k: int)
    requires
        0 <= k < secs.len(),
    ensures
        ({
            let t = sections_bytes(base, secs);
            let first = base + 4 + 20 * secs.len();
            let off = first + section_payloads(secs.take(k)).len();
            &&& t.subrange(0, 4) == le_bytes(secs.len(), 4)
            &&& t.subrange(4 + 20 * k, 24 + 20 * k) == le_bytes(secs[k].0 as nat, 4) + le_bytes(off, 8) + le_bytes(
                secs[k].1.len(),
                8,
            )
            &&& t.subrange(off - base, off - base + secs[k].1.len()) == secs[k].1
        }),
{
    let n = secs.len();
    let first = base + 4 + 20 * n;
    let t = sections_bytes(base, secs);
    lemma_le_bytes_len(n, 4);
    lemma_toc_at(first, secs, k);
    lemma_payload_at(secs, k);
    let toc = section_toc(first, secs);
    let pay = section_payloads(secs);
    assert(t.subrange(0, 4) =~= le_bytes(n, 4));
    assert(t.subrange(4 + 20 * k, 24 + 20 * k) =~= toc.subrange(20 * k, 20 * k + 20));
    let p = section_payloads(secs.take(k)).len();
    assert(t.subrange((4 + 20 * n + p) as int, (4 + 20 * n + p + secs[k].1.len()) as int) =~= pay.subrange(p as int, (p + secs[k].1.len()) as int));
}

} // verus!
