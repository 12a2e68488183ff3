//! The container's data model and its on-disk layout: header, tile index and
//! section table, all little-endian.
use vstd::prelude::*;
use crate::bytes::{le_bytes, le_value, pow256, lemma_le_bytes_len, lemma_le_value_bound, push_le, read_le};
use crate::error::CtiError;

verus! {

pub const CTI_HEADER_SIZE: usize = 64;
pub const TILE_INDEX_ONDISK_SIZE: usize = 20;
pub const DEFAULT_TILE_SIZE: u32 = 256;
pub const CTI_VERSION: u16 = 1;
/// `RES `: two little-endian f32, horizontal then vertical dots per inch.
pub const SEC_TYPE_RES: u32 = 0x2053_4552;
/// `ICC `: an opaque ICC profile.
pub const SEC_TYPE_ICC: u32 = 0x2043_4349;

/// The tile codecs; the header stores `id()`.
#[derive(Debug, Clone, Copy, PartialEq, Eq, Structural)]
pub enum CompressionType {
    Uncompressed,
    RLE,
    LZ77,
    Delta,
    Predictive,
    Zstd,
    Lz4,
}

impl CompressionType {
    pub open spec fn spec_id(self) -> u8 {
        match self {
            CompressionType::Uncompressed => 0,
            CompressionType::RLE => 1,
            CompressionType::LZ77 => 2,
            CompressionType::Delta => 3,
            CompressionType::Predictive => 4,
            CompressionType::Zstd => 10,
            CompressionType::Lz4 => 11,
        }
    }

    /// The id stored in the header.
    pub fn id(&self) -> (r: u8)
        ensures
            r == self.spec_id(),
    {
        match self {
            CompressionType::Uncompressed => 0,
            CompressionType::RLE => 1,
            CompressionType::LZ77 => 2,
            CompressionType::Delta => 3,
            CompressionType::Predictive => 4,
            CompressionType::Zstd => 10,
            CompressionType::Lz4 => 11,
        }
    }

    /// Whether this is one of the byte codecs tuned for 8-bit data.
    pub open spec fn is_byte_codec(self) -> bool {
        !(self is Zstd || self is Lz4)
    }
}

/// The pixel layout of a raster; `Other` stands for any layout the format
/// cannot hold.
#[derive(Debug, Clone, Copy, PartialEq, Eq, Structural)]
pub enum ColorKind {
    L8,
    L16,
    Rgb8,
    Rgba8,
    Rgb16,
    Other,
}

impl ColorKind {
    /// The colour id stored in the header (0 for none).
    pub open spec fn spec_id(self) -> u8 {
        match self {
            ColorKind::L8 => 1,
            ColorKind::L16 => 2,
            ColorKind::Rgb8 => 3,
            ColorKind::Rgba8 => 4,
            ColorKind::Rgb16 => 5,
            ColorKind::Other => 0,
        }
    }

    pub open spec fn is_16bit(self) -> bool {
        self is L16 || self is Rgb16
    }
}

/// Bytes per pixel of a header colour id, or 0 for an unknown id.
pub open spec fn bpp_of_id(id: u8) -> nat {
    if id == 1 {
        1
    } else if id == 2 {
        2
    } else if id == 3 {
        3
    } else if id == 4 {
        4
    } else if id == 5 {
        6
    } else {
        0
    }
}

/// Bytes per pixel of a colour id; unknown ids are refused.
pub fn bytes_per_pixel_of_id(id: u8) -> (r: Result<u32, CtiError>)
    ensures
        bpp_of_id(id) == 0 <==> r is Err,
        r matches Ok(b) ==> b == bpp_of_id(id),
        r matches Err(e) ==> e == CtiError::UnsupportedColorKind,
{
    if id == 1 {
        Ok(1)
    } else if id == 2 {
        Ok(2)
    } else if id == 3 {
        Ok(3)
    } else if id == 4 {
        Ok(4)
    } else if id == 5 {
        Ok(6)
    } else {
        Err(CtiError::UnsupportedColorKind)
    }
}

/// Bytes per pixel of a colour kind; `Other` is refused.
pub fn bytes_per_pixel(ct: &ColorKind) -> (r: Result<u32, CtiError>)
    ensures
        *ct is Other <==> r is Err,
        r matches Ok(b) ==> b == bpp_of_id(ct.spec_id()),
        r matches Err(e) ==> e == CtiError::UnsupportedColorKind,
{
    match ct {
        ColorKind::L8 => Ok(1),
        ColorKind::L16 => Ok(2),
        ColorKind::Rgb8 => Ok(3),
        ColorKind::Rgba8 => Ok(4),
        ColorKind::Rgb16 => Ok(6),
        ColorKind::Other => Err(CtiError::UnsupportedColorKind),
    }
}

/// The colour id of a kind; `Other` is refused.
pub fn color_type_id(ct: &ColorKind) -> (r: Result<u8, CtiError>)
    ensures
        *ct is Other <==> r is Err,
        r matches Ok(b) ==> b == ct.spec_id(),
        r matches Err(e) ==> e == CtiError::UnsupportedColorKind,
{
    match ct {
        ColorKind::L8 => Ok(1),
        ColorKind::L16 => Ok(2),
        ColorKind::Rgb8 => Ok(3),
        ColorKind::Rgba8 => Ok(4),
        ColorKind::Rgb16 => Ok(5),
        ColorKind::Other => Err(CtiError::UnsupportedColorKind),
    }
}

/// Encoder options.
#[derive(Debug, Clone, Copy)]
pub struct CTIConfig {
    /// Edge of a tile in pixels; must be positive.
    pub tile_size: u32,
    pub compression: CompressionType,
    /// Stored in the header as it is; the lossless codecs ignore it.
    pub quality_level: u8,
    /// Apply the reversible colour transform to RGB rasters.
    pub color_transform: bool,
    /// Zstandard level, 1 to 15.
    pub zstd_level: i32,
}

impl Default for CTIConfig {
    fn default() -> (r: Self)
        ensures
            r.tile_size == DEFAULT_TILE_SIZE,
            r.compression == CompressionType::Zstd,
            r.quality_level == 100,
            !r.color_transform,
            r.zstd_level == 6,
    {
        CTIConfig {
            tile_size: DEFAULT_TILE_SIZE,
            compression: CompressionType::Zstd,
            quality_level: 100,
            color_transform: false,
            zstd_level: 6,
        }
    }
}

/// A decoded raster with its optional metadata. The resolution is kept as
/// the bit patterns of two f32 values in dots per inch, as the `RES ` section
/// stores them.
#[derive(Debug, Clone)]
pub struct TiffImage {
    pub width: u32,
    pub height: u32,
    pub color_type: ColorKind,
    /// Row-major pixels, `width * height * bpp` bytes, no row padding.
    pub data: Vec<u8>,
    pub xdpi: Option<u32>,
    pub ydpi: Option<u32>,
    pub icc: Option<Vec<u8>>,
}

/// The fixed 64-byte header.
#[derive(Debug, Clone, Copy)]
pub struct CTIHeader {
    pub magic: [u8; 4],
    pub version: u16,
    /// Bit 0: the colour transform was applied.
    pub flags: u16,
    pub width: u32,
    pub height: u32,
    pub tile_size: u32,
    pub tiles_x: u32,
    pub tiles_y: u32,
    pub color_type: u8,
    pub compression: u8,
    pub quality: u8,
    /// Zero in the files this library writes.
    pub reserved: [u8; 33],
}

/// `CTI1`.
pub open spec fn cti_magic() -> Seq<u8> {
    seq![0x43u8, 0x54u8, 0x49u8, 0x31u8]
}

impl CTIHeader {
    /// A header with the magic and version of this format.
    pub fn new(
        width: u32,
        height: u32,
        tile_size: u32,
        tiles_x: u32,
        tiles_y: u32,
        color_type: u8,
        compression: u8,
        quality: u8,
        flags: u16,
    ) -> (r: Self)
        ensures
            r.magic@ == cti_magic(),
            r.version == CTI_VERSION,
            r.flags == flags,
            r.width == width,
            r.height == height,
            r.tile_size == tile_size,
            r.tiles_x == tiles_x,
            r.tiles_y == tiles_y,
            r.color_type == color_type,
            r.compression == compression,
            r.quality == quality,
            r.reserved@ == zeros(33),
    {
        let magic: [u8; 4] = [0x43u8, 0x54u8, 0x49u8, 0x31u8];
        assert(magic@ =~= cti_magic());
        let reserved: [u8; 33] = [0u8; 33];
        assert(reserved@ =~= zeros(33));
        CTIHeader {
            magic,
            version: CTI_VERSION,
            flags,
            width,
            height,
            tile_size,
            tiles_x,
            tiles_y,
            color_type,
            compression,
            quality,
            reserved,
        }
    }
}

/// The 64 bytes of a header on disk.
pub open spec fn header_bytes(h: CTIHeader) -> Seq<u8> {
    h.magic@ + le_bytes(h.version as nat, 2) + le_bytes(h.flags as nat, 2) + le_bytes(h.width as nat, 4)
        + le_bytes(h.height as nat, 4) + le_bytes(h.tile_size as nat, 4) + le_bytes(h.tiles_x as nat, 4)
        + le_bytes(h.tiles_y as nat, 4) + seq![h.color_type, h.compression, h.quality] + h.reserved@
}

/// `n` zero bytes.
pub open spec fn zeros(n: nat) -> Seq<u8> {
    Seq::new(n, |i: int| 0u8)
}

/// Whether `h` holds the fields that the first 64 bytes of `s` spell.
pub open spec fn header_read_from(h: CTIHeader, s: Seq<u8>) -> bool {
    &&& h.magic@ == s.subrange(0, 4)
    &&& h.version as nat == le_value(s.subrange(4, 6))
    &&& h.flags as nat == le_value(s.subrange(6, 8))
    &&& h.width as nat == le_value(s.subrange(8, 12))
    &&& h.height as nat == le_value(s.subrange(12, 16))
    &&& h.tile_size as nat == le_value(s.subrange(16, 20))
    &&& h.tiles_x as nat == le_value(s.subrange(20, 24))
    &&& h.tiles_y as nat == le_value(s.subrange(24, 28))
    &&& h.color_type == s[28]
    &&& h.compression == s[29]
    &&& h.quality == s[30]
    &&& h.reserved@ == s.subrange(31, 64)
}

/// Serialises a header.
pub fn write_header(h: &CTIHeader) -> (r: Vec<u8>)
    ensures
        r@ == header_bytes(*h),
        r@.len() == CTI_HEADER_SIZE,
{
    let mut out: Vec<u8> = Vec::new();
    out.push(h.magic[0]);
    out.push(h.magic[1]);
    out.push(h.magic[2]);
    out.push(h.magic[3]);
    assert(out@ =~= h.magic@);
    push_le(&mut out, h.version as u64, 2);
    push_le(&mut out, h.flags as u64, 2);
    push_le(&mut out, h.width as u64, 4);
    push_le(&mut out, h.height as u64, 4);
    push_le(&mut out, h.tile_size as u64, 4);
    push_le(&mut out, h.tiles_x as u64, 4);
    push_le(&mut out, h.tiles_y as u64, 4);
    out.push(h.color_type);
    out.push(h.compression);
    out.push(h.quality);
    let ghost before = out@;
    let mut k: usize = 0;
    assert(h.reserved@.take(0) =~= Seq::<u8>::empty());
    while k < 33
        invariant
            k <= 33,
            out@ == before + h.reserved@.take(k as int),
        decreases 33 - k,
    {
        out.push(h.reserved[k]);
        k += 1;
        assert(out@ =~= before + h.reserved@.take(k as int));
    }
    assert(h.reserved@.take(33) =~= h.reserved@);
    proof {
        lemma_le_bytes_len(h.version as nat, 2);
        lemma_le_bytes_len(h.flags as nat, 2);
        lemma_le_bytes_len(h.width as nat, 4);
        lemma_le_bytes_len(h.height as nat, 4);
        lemma_le_bytes_len(h.tile_size as nat, 4);
        lemma_le_bytes_len(h.tiles_x as nat, 4);
        lemma_le_bytes_len(h.tiles_y as nat, 4);
    }
    assert(out@ =~= header_bytes(*h));
    out
}

/// Reads the header at the start of `s`: it needs 64 bytes, the magic
/// `CTI1` and version 1.
pub fn read_header(s: &[u8]) -> (r: Result<CTIHeader, CtiError>)
    ensures
        s@.len() < CTI_HEADER_SIZE <==> r == Err::<CTIHeader, CtiError>(CtiError::TruncatedStream),
        s@.len() >= CTI_HEADER_SIZE && s@.subrange(0, 4) != cti_magic() <==> r == Err::<
            CTIHeader,
            CtiError,
        >(CtiError::BadMagic),
        s@.len() >= CTI_HEADER_SIZE && s@.subrange(0, 4) == cti_magic() && le_value(s@.subrange(4, 6))
            != 1 <==> r == Err::<CTIHeader, CtiError>(CtiError::BadVersion),
        r is Ok <==> s@.len() >= CTI_HEADER_SIZE && s@.subrange(0, 4) == cti_magic() && le_value(s@.subrange(4, 6)) == 1,
        r matches Ok(h) ==> header_read_from(h, s@) && h.version == CTI_VERSION,
{
    if s.len() < CTI_HEADER_SIZE {
        return Err(CtiError::TruncatedStream);
    }
    let magic: [u8; 4] = [s[0], s[1], s[2], s[3]];
    assert(magic@ =~= s@.subrange(0, 4));
    if !(s[0] == 0x43 && s[1] == 0x54 && s[2] == 0x49 && s[3] == 0x31) {
        assert(s@.subrange(0, 4) != cti_magic()) by {
            assert(s@.subrange(0, 4)[0] == s@[0]);
            assert(s@.subrange(0, 4)[1] == s@[1]);
            assert(s@.subrange(0, 4)[2] == s@[2]);
            assert(s@.subrange(0, 4)[3] == s@[3]);
        }
        return Err(CtiError::BadMagic);
    }
    assert(s@.subrange(0, 4) =~= cti_magic());
    let version = read_le(s, 4, 2) as u16;
    if version != CTI_VERSION {
        return Err(CtiError::BadVersion);
    }
    proof {
        lemma_le_value_bound(s@.subrange(4, 6));
        lemma_le_value_bound(s@.subrange(6, 8));
        lemma_le_value_bound(s@.subrange(8, 12));
        lemma_le_value_bound(s@.subrange(12, 16));
        lemma_le_value_bound(s@.subrange(16, 20));
        lemma_le_value_bound(s@.subrange(20, 24));
        lemma_le_value_bound(s@.subrange(24, 28));
        reveal_with_fuel(pow256, 5);
    }
    let reserved: [u8; 33] = [s[31], s[32], s[33], s[34], s[35], s[36], s[37], s[38], s[39], s[40], s[41], s[42], s[43], s[44], s[45], s[46], s[47], s[48], s[49], s[50], s[51], s[52], s[53], s[54], s[55], s[56], s[57], s[58], s[59], s[60], s[61], s[62], s[63]];
    assert(reserved@ =~= s@.subrange(31, 64));
    Ok(CTIHeader {
        magic,
        version,
        flags: read_le(s, 6, 2) as u16,
        width: read_le(s, 8, 4) as u32,
        height: read_le(s, 12, 4) as u32,
        tile_size: read_le(s, 16, 4) as u32,
        tiles_x: read_le(s, 20, 4) as u32,
        tiles_y: read_le(s, 24, 4) as u32,
        color_type: s[28],
        compression: s[29],
        quality: s[30],
        reserved,
    })
}

/// One tile's record in the index.
#[derive(Debug, Clone, Copy, PartialEq, Eq, Structural)]
pub struct TileIndex {
    /// Absolute offset of the compressed payload in the file.
    pub offset: u64,
    pub compressed_size: u32,
    /// Length of the uncompressed tile.
    pub original_size: u32,
    /// CRC-32 of the uncompressed tile.
    pub crc32: u32,
}

/// The 20 bytes of an index record on disk.
pub open spec fn index_bytes(t: TileIndex) -> Seq<u8> {
    le_bytes(t.offset as nat, 8) + le_bytes(t.compressed_size as nat, 4) + le_bytes(t.original_size as nat, 4)
        + le_bytes(t.crc32 as nat, 4)
}

/// The index table: each record's bytes in order.
pub open spec fn index_table_bytes(ts: Seq<TileIndex>) -> Seq<u8>
    decreases ts.len(),
{
    if ts.len() == 0 {
        Seq::empty()
    } else {
        index_table_bytes(ts.drop_last()) + index_bytes(ts.last())
    }
}

/// Whether `t` holds the fields of the record at `pos` in `s`.
pub open spec fn index_read_from(t: TileIndex, s: Seq<u8>, pos: int) -> bool {
    &&& t.offset as nat == le_value(s.subrange(pos, pos + 8))
    &&& t.compressed_size as nat == le_value(s.subrange(pos + 8, pos + 12))
    &&& t.original_size as nat == le_value(s.subrange(pos + 12, pos + 16))
    &&& t.crc32 as nat == le_value(s.subrange(pos + 16, pos + 20))
}

/// Appends an index record.
pub fn write_tile_index(out: &mut Vec<u8>, t: &TileIndex)
    ensures
        final(out)@ == old(out)@ + index_bytes(*t),
{
    let ghost start = out@;
    push_le(out, t.offset, 8);
    push_le(out, t.compressed_size as u64, 4);
    push_le(out, t.original_size as u64, 4);
    push_le(out, t.crc32 as u64, 4);
    assert(out@ =~= start + index_bytes(*t));
}

/// Reads the record at `pos`.
fn read_tile_index(s: &[u8], pos: usize) -> (r: TileIndex)
    requires
        pos + TILE_INDEX_ONDISK_SIZE <= s@.len(),
    ensures
        index_read_from(r, s@, pos as int),
{
    let len = s.len();
    assert(pos + 20 <= len);
    proof {
        lemma_le_value_bound(s@.subrange(pos + 8, pos + 12));
        lemma_le_value_bound(s@.subrange(pos + 12, pos + 16));
        lemma_le_value_bound(s@.subrange(pos + 16, pos + 20));
        reveal_with_fuel(pow256, 5);
    }
    TileIndex {
        offset: read_le(s, pos, 8),
        compressed_size: read_le(s, pos + 8, 4) as u32,
        original_size: read_le(s, pos + 12, 4) as u32,
        crc32: read_le(s, pos + 16, 4) as u32,
    }
}

/// Reads `n` index records starting at byte `pos` of `s`.
pub fn read_indices(s: &[u8], pos: usize, n: usize) -> (r: Result<Vec<TileIndex>, CtiError>)
    ensures
        pos + TILE_INDEX_ONDISK_SIZE * n > s@.len() <==> r is Err,
        r matches Err(e) ==> e == CtiError::TruncatedStream,
        r matches Ok(v) ==> v@.len() == n && forall|i: int|
            0 <= i < n ==> index_read_from(#[trigger] v@[i], s@, pos + TILE_INDEX_ONDISK_SIZE * i),
{
    let len = s.len();
    if pos > len || n > (len - pos) / TILE_INDEX_ONDISK_SIZE {
        return Err(CtiError::TruncatedStream);
    }
    let mut v: Vec<TileIndex> = Vec::new();
    let mut i: usize = 0;
    while i < n
        invariant
            len == s@.len(),
            pos + TILE_INDEX_ONDISK_SIZE * n <= len,
            i <= n,
            v@.len() == i,
            forall|j: int| 0 <= j < i ==> index_read_from(#[trigger] v@[j], s@, pos + TILE_INDEX_ONDISK_SIZE * j),
        decreases n - i,
    {
        let t = read_tile_index(s, pos + TILE_INDEX_ONDISK_SIZE * i);
        v.push(t);
        i += 1;
    }
    Ok(v)
}

/// A section's record in the table of contents.
#[derive(Debug, Clone, Copy, PartialEq, Eq, Structural)]
pub struct SectionDesc {
    pub ty: u32,
    pub offset: u64,
    pub size: u64,
}

/// The payloads of `secs`, concatenated.
pub open spec fn section_payloads(secs: Seq<(u32, Seq<u8>)>) -> Seq<u8>
    decreases secs.len(),
{
    if secs.len() == 0 {
        Seq::empty()
    } else {
        section_payloads(secs.drop_last()) + secs.last().1
    }
}

/// The table of contents of `secs` whose payloads start at `first`.
pub open spec fn section_toc(first: nat, secs: Seq<(u32, Seq<u8>)>) -> Seq<u8>
    decreases secs.len(),
{
    if secs.len() == 0 {
        Seq::empty()
    } else {
        let prev = secs.drop_last();
        section_toc(first, prev) + le_bytes(secs.last().0 as nat, 4) + le_bytes(
            first + section_payloads(prev).len(),
            8,
        ) + le_bytes(secs.last().1.len(), 8)
    }
}

/// The section trailer written at offset `base`: a count, then (where there
/// are sections) their records, then their payloads.
pub open spec fn sections_bytes(base: nat, secs: Seq<(u32, Seq<u8>)>) -> Seq<u8> {
    if secs.len() == 0 {
        le_bytes(0, 4)
    } else {
        le_bytes(secs.len(), 4) + section_toc(base + 4 + 20 * secs.len(), secs) + section_payloads(secs)
    }
}

/// The sections of a list, as plain values.
pub open spec fn sections_view(secs: Seq<(u32, Vec<u8>)>) -> Seq<(u32, Seq<u8>)> {
    secs.map_values(|p: (u32, Vec<u8>)| (p.0, p.1@))
}

/// The bytes of the sections' payloads, in total.
pub open spec fn sections_size(secs: Seq<(u32, Vec<u8>)>) -> nat {
    section_payloads(sections_view(secs)).len()
}

pub proof fn lemma_payloads_len_mono(secs: Seq<(u32, Seq<u8>)>, k: int)
    requires
        0 <= k <= secs.len(),
    ensures
        section_payloads(secs.take(k)).len() <= section_payloads(secs).len(),
    decreases secs.len(),
{
    if k < secs.len() {
        assert(secs.drop_last().take(k) =~= secs.take(k));
        lemma_payloads_len_mono(secs.drop_last(), k);
    } else {
        assert(secs.take(k) =~= secs);
    }
}

/// Writes the section trailer that starts at absolute offset `base`.
pub fn write_sections(base: u64, sections: &Vec<(u32, Vec<u8>)>) -> (r: Vec<u8>)
    requires
        base + 4 + 20 * sections@.len() + sections_size(sections@) <= u64::MAX,
    ensures
        r@ == sections_bytes(base as nat, sections_view(sections@)),
{
    let ghost secs = sections_view(sections@);
    let mut out: Vec<u8> = Vec::new();
    let count = sections.len();
    if count == 0 {
        push_le(&mut out, 0, 4);
        return out;
    }
    push_le(&mut out, count as u64, 4);
    let first: u64 = base + 4 + 20 * (count as u64);
    let ghost head = out@;
    let mut toc: Vec<u8> = Vec::new();
    let mut payloads: Vec<u8> = Vec::new();
    let mut cursor: u64 = first;
    let mut i: usize = 0;
    assert(secs.take(0) =~= Seq::<(u32, Seq<u8>)>::empty());
    while i < count
        invariant
            count == sections@.len() == secs.len(),
            secs == sections_view(sections@),
            first == base + 4 + 20 * count,
            first + sections_size(sections@) <= u64::MAX,
            i <= count,
            toc@ == section_toc(first as nat, secs.take(i as int)),
            payloads@ == section_payloads(secs.take(i as int)),
            cursor == first + payloads@.len(),
        decreases count - i,
    {
        let ty = sections[i].0;
        let p = &sections[i].1;
        proof {
            lemma_payloads_len_mono(secs, i + 1);
            assert(secs.take(i + 1).drop_last() =~= secs.take(i as int));
        }
        push_le(&mut toc, ty as u64, 4);
        push_le(&mut toc, cursor, 8);
        push_le(&mut toc, p.len() as u64, 8);
        let mut k: usize = 0;
        let ghost before = payloads@;
        while k < p.len()
            invariant
                k <= p@.len(),
                payloads@ == before + p@.take(k as int),
            decreases p@.len() - k,
        {
            payloads.push(p[k]);
            k += 1;
            assert(payloads@ =~= before + p@.take(k as int));
        }
        assert(p@.take(p@.len() as int) =~= p@);
        cursor = cursor + p.len() as u64;
        i += 1;
    }
    assert(secs.take(count as int) =~= secs);
    out.append(&mut toc);
    out.append(&mut payloads);
    out
}

} // verus!
