use cti::codec::{
    delta_forward, delta_inverse, lz77_compress, lz77_decompress, predictive_forward, predictive_inverse,
    rle_compress, rle_decompress,
};
use cti::rct::{rct_forward_rgb16, rct_forward_rgb8, rct_inverse_rgb16, rct_inverse_rgb8};
use cti::tile::{blit_tile, extract_tile};
use cti::tile_codec::{compress_tile, decompress_tile_with_size, effective_compression};
use cti::{
    crc32, read_header, read_indices, write_header, write_sections, CTIConfig, CTIDecoder, CTIEncoder, CTIHeader,
    ColorKind, CompressionType, CtiError, TiffImage,
};

fn pseudo_random(n: usize, seed: u32) -> Vec<u8> {
    let mut x = seed;
    (0..n)
        .map(|_| {
            x = x.wrapping_mul(1_103_515_245).wrapping_add(12_345);
            (x >> 16) as u8
        })
        .collect()
}

fn image(w: u32, h: u32, color: ColorKind, data: Vec<u8>) -> TiffImage {
    TiffImage { width: w, height: h, color_type: color, data, xdpi: None, ydpi: None, icc: None }
}

fn config(tile: u32, compression: CompressionType, rct: bool) -> CTIConfig {
    CTIConfig { tile_size: tile, compression, quality_level: 100, color_transform: rct, zstd_level: 6 }
}

fn le32(b: &[u8], at: usize) -> u32 {
    u32::from_le_bytes([b[at], b[at + 1], b[at + 2], b[at + 3]])
}

fn le64(b: &[u8], at: usize) -> u64 {
    let mut a = [0u8; 8];
    a.copy_from_slice(&b[at..at + 8]);
    u64::from_le_bytes(a)
}

/// A smooth RGB raster whose chroma differences stay within a signed byte.
fn smooth_rgb8(w: u32, h: u32) -> Vec<u8> {
    let mut v = Vec::new();
    for y in 0..h {
        for x in 0..w {
            v.push(((x * 3 + y) % 100 + 50) as u8);
            v.push(((x + y * 2) % 100 + 50) as u8);
            v.push(((x * 5 + y * 7) % 100 + 50) as u8);
        }
    }
    v
}

#[test]
fn tiny_l8_identity() {
    let img = image(1, 1, ColorKind::L8, vec![0x42]);
    let enc = CTIEncoder::new(config(16, CompressionType::Uncompressed, false));
    let file = enc.encode_to_cti(&img).unwrap();
    assert_eq!(file.len(), 89);
    let idx = read_indices(&file, 64, 1).unwrap();
    assert_eq!(idx[0].offset, 84);
    assert_eq!(idx[0].compressed_size, 1);
    assert_eq!(idx[0].original_size, 1);
    assert_eq!(idx[0].crc32, crc32fast::hash(&[0x42]));
    assert_eq!(&file[85..89], &[0, 0, 0, 0]);
    let (h, raster) = CTIDecoder::decode(&file).unwrap();
    assert_eq!(h.width, 1);
    assert_eq!(raster, vec![0x42]);
}

#[test]
fn edge_tiles() {
    let data = pseudo_random(300 * 200 * 3, 7);
    let img = image(300, 200, ColorKind::Rgb8, data.clone());
    let enc = CTIEncoder::new(CTIConfig::default());
    let file = enc.encode_to_cti(&img).unwrap();
    let h = read_header(&file).unwrap();
    assert_eq!(h.tiles_x, 2);
    assert_eq!(h.tiles_y, 1);
    let idx = read_indices(&file, 64, 2).unwrap();
    assert_eq!(idx[0].original_size, 256 * 200 * 3);
    assert_eq!(idx[1].original_size, 44 * 200 * 3);
    let (_, raster) = CTIDecoder::decode(&file).unwrap();
    assert_eq!(raster, data);
}

#[test]
fn rle_run() {
    assert_eq!(rle_compress(&[0u8; 100]), vec![0xFF, 0x01, 0x64, 0x00]);
    assert_eq!(rle_compress(&[0u8; 3]), vec![0, 0, 0]);
}

#[test]
fn rle_ff_escaping() {
    assert_eq!(rle_compress(&[0xFF]), vec![0xFF, 0x00]);
    assert_eq!(rle_compress(&[0xFF; 4]), vec![0xFF, 0x01, 0x04, 0xFF]);
}

#[test]
fn rle_run_capped_at_255() {
    let out = rle_compress(&[7u8; 300]);
    assert_eq!(out, vec![0xFF, 0x01, 0xFF, 7, 0xFF, 0x01, 45, 7]);
    assert_eq!(rle_decompress(&out).unwrap(), vec![7u8; 300]);
}

#[test]
fn lz77_overlap() {
    let out = lz77_decompress(&[0x41, 0xFF, 0x02, 0x00, 0x01, 0x05]).unwrap();
    assert_eq!(out, b"AAAAAA".to_vec());
}

#[test]
fn sixteen_bit_override() {
    let data = pseudo_random(64 * 64 * 6, 3);
    let img = image(64, 64, ColorKind::Rgb16, data.clone());
    let enc = CTIEncoder::new(config(256, CompressionType::RLE, false));
    let file = enc.encode_to_cti(&img).unwrap();
    // the compression id is the header's byte 29 in the 64-byte layout
    assert_eq!(file[29], 10);
    let (h, raster) = CTIDecoder::decode(&file).unwrap();
    assert_eq!(h.compression, 10);
    assert_eq!(raster, data);
}

#[test]
fn sixteen_bit_override_keeps_lz4() {
    assert_eq!(effective_compression(&ColorKind::L16, &CompressionType::Lz4), CompressionType::Lz4);
    assert_eq!(effective_compression(&ColorKind::L16, &CompressionType::Delta), CompressionType::Zstd);
    assert_eq!(effective_compression(&ColorKind::Rgb8, &CompressionType::Delta), CompressionType::Delta);
}

#[test]
fn rct_flag_propagation() {
    let data = smooth_rgb8(32, 32);
    let img = image(32, 32, ColorKind::Rgb8, data.clone());
    let enc = CTIEncoder::new(config(16, CompressionType::Predictive, true));
    let file = enc.encode_to_cti(&img).unwrap();
    assert_eq!(file[6] & 1, 1);
    let (h, raster) = CTIDecoder::decode(&file).unwrap();
    assert_eq!(h.flags & 1, 1);
    assert_eq!(raster, data);
}

#[test]
fn rct_flag_not_set_on_grey() {
    let img = image(4, 4, ColorKind::L8, vec![9; 16]);
    let enc = CTIEncoder::new(config(4, CompressionType::RLE, true));
    let file = enc.encode_to_cti(&img).unwrap();
    assert_eq!(file[6] & 1, 0);
}

#[test]
fn round_trip_every_codec_and_kind() {
    let kinds = [
        (ColorKind::L8, 1usize),
        (ColorKind::L16, 2),
        (ColorKind::Rgb8, 3),
        (ColorKind::Rgba8, 4),
        (ColorKind::Rgb16, 6),
    ];
    let codecs = [
        CompressionType::Uncompressed,
        CompressionType::RLE,
        CompressionType::LZ77,
        CompressionType::Delta,
        CompressionType::Predictive,
        CompressionType::Zstd,
        CompressionType::Lz4,
    ];
    for (kind, bpp) in kinds.iter() {
        for codec in codecs.iter() {
            let (w, h) = (37u32, 21u32);
            let data = pseudo_random(w as usize * h as usize * bpp, 11);
            let img = image(w, h, *kind, data.clone());
            let enc = CTIEncoder::new(config(16, *codec, false));
            let file = enc.encode_to_cti(&img).unwrap();
            let (_, raster) = CTIDecoder::decode(&file).unwrap();
            assert_eq!(raster, data);
        }
    }
}

#[test]
fn index_contiguity() {
    let data = pseudo_random(70 * 40, 5);
    let img = image(70, 40, ColorKind::L8, data);
    let enc = CTIEncoder::new(config(16, CompressionType::LZ77, false));
    let file = enc.encode_to_cti(&img).unwrap();
    let n = 5 * 3;
    let idx = read_indices(&file, 64, n).unwrap();
    assert_eq!(idx[0].offset, 64 + 20 * n as u64);
    for i in 0..n - 1 {
        assert_eq!(idx[i].offset + idx[i].compressed_size as u64, idx[i + 1].offset);
    }
    assert_eq!(idx[n - 1].offset as usize + idx[n - 1].compressed_size as usize + 4, file.len());
}

#[test]
fn tile_crc_matches_decompressed_payload() {
    let data = pseudo_random(40 * 40, 9);
    let img = image(40, 40, ColorKind::L8, data);
    let enc = CTIEncoder::new(config(16, CompressionType::Delta, false));
    let file = enc.encode_to_cti(&img).unwrap();
    let idx = read_indices(&file, 64, 9).unwrap();
    for t in idx.iter() {
        let payload = &file[t.offset as usize..t.offset as usize + t.compressed_size as usize];
        let plain = decompress_tile_with_size(3, payload, t.original_size as usize).unwrap();
        assert_eq!(crc32(&plain), t.crc32);
    }
}

#[test]
fn encoding_is_deterministic() {
    let data = pseudo_random(100 * 90 * 3, 21);
    let img = image(100, 90, ColorKind::Rgb8, data);
    let enc = CTIEncoder::new(config(32, CompressionType::Zstd, true));
    assert_eq!(enc.encode_to_cti(&img).unwrap(), enc.encode_to_cti(&img).unwrap());
}

#[test]
fn codec_round_trips_on_random_bytes() {
    for (n, seed) in [(0usize, 1u32), (1, 2), (2, 3), (3, 4), (1000, 5), (70_000, 6)] {
        let mut data = pseudo_random(n, seed);
        for k in (0..n).step_by(97) {
            data[k] = 0xFF;
        }
        assert_eq!(rle_decompress(&rle_compress(&data)).unwrap(), data);
        assert_eq!(lz77_decompress(&lz77_compress(&data)).unwrap(), data);
        assert_eq!(delta_inverse(&delta_forward(&data)), data);
        assert_eq!(predictive_inverse(&predictive_forward(&data)), data);
        for codec in [CompressionType::Zstd, CompressionType::Lz4] {
            let c = compress_tile(codec, &data, 6).unwrap();
            let id = codec.id();
            assert_eq!(decompress_tile_with_size(id, &c, n).unwrap(), data);
        }
    }
}

#[test]
fn lz77_back_reference_is_emitted() {
    let pattern: Vec<u8> = (0..50u8).collect();
    let data: Vec<u8> = pattern.iter().cycle().take(200).cloned().collect();
    let c = lz77_compress(&data);
    assert!(c.len() < data.len());
    assert!(c.windows(2).any(|w| w == [0xFF, 0x02]));
    assert_eq!(lz77_decompress(&c).unwrap(), data);
}

#[test]
fn delta_and_predictive_values() {
    assert_eq!(delta_forward(&[10, 12, 11, 0]), vec![10, 2, 255, 245]);
    assert_eq!(delta_inverse(&[10, 2, 255, 245]), vec![10, 12, 11, 0]);
    assert_eq!(predictive_forward(&[1, 2]), vec![1, 2]);
    // p = 2 + (2 - 1) = 3, 7 - 3 = 4; p = 7 + 5 = 12, 5 - 12 = 249
    assert_eq!(predictive_forward(&[1, 2, 7, 5]), vec![1, 2, 4, 249]);
    assert_eq!(predictive_inverse(&[1, 2, 4, 249]), vec![1, 2, 7, 5]);
}

#[test]
fn rle_rejects_lz77_tag_and_lz77_accepts_rle_tag() {
    assert_eq!(rle_decompress(&[0x41, 0xFF, 0x02, 0x00, 0x01, 0x05]), Err(CtiError::CodecFraming));
    assert_eq!(lz77_decompress(&[0xFF, 0x01, 0x03, 0x09]).unwrap(), vec![9, 9, 9]);
}

#[test]
fn codec_framing_errors() {
    assert_eq!(rle_decompress(&[0x01, 0xFF]), Err(CtiError::TruncatedStream));
    assert_eq!(rle_decompress(&[0xFF, 0x01, 0x05]), Err(CtiError::TruncatedStream));
    assert_eq!(rle_decompress(&[0xFF, 0x07]), Err(CtiError::CodecFraming));
    assert_eq!(lz77_decompress(&[0x41, 0xFF, 0x02, 0x00, 0x00, 0x05]), Err(CtiError::CodecFraming));
    assert_eq!(lz77_decompress(&[0x41, 0xFF, 0x02, 0x00, 0x01, 0x02]), Err(CtiError::CodecFraming));
    assert_eq!(lz77_decompress(&[0x41, 0xFF, 0x02, 0x00, 0x02, 0x05]), Err(CtiError::CodecFraming));
    assert_eq!(lz77_decompress(&[0x41, 0xFF, 0x02, 0x00]), Err(CtiError::TruncatedStream));
}

#[test]
fn rct_pixel_round_trip() {
    let mut p = vec![100u8, 120, 90, 10, 20, 30, 7];
    rct_forward_rgb8(&mut p);
    // y = (100 + 240 + 90) >> 2 = 107, cb = 90 - 120 = -30, cr = 100 - 120 = -20
    assert_eq!(&p[0..3], &[107, 226, 236]);
    assert_eq!(p[6], 7);
    rct_inverse_rgb8(&mut p);
    assert_eq!(p, vec![100u8, 120, 90, 10, 20, 30, 7]);

    let px: Vec<u8> = [1000u16, 1200, 900].iter().flat_map(|v| v.to_le_bytes()).collect();
    let mut q = px.clone();
    rct_forward_rgb16(&mut q);
    assert_eq!(u16::from_le_bytes([q[0], q[1]]), 1075);
    assert_eq!(u16::from_le_bytes([q[2], q[3]]), (65536 - 300) as u16);
    rct_inverse_rgb16(&mut q);
    assert_eq!(q, px);
}

#[test]
fn header_write_read() {
    let h = CTIHeader::new(300, 200, 256, 2, 1, 3, 10, 100, 1);
    let b = write_header(&h);
    assert_eq!(b.len(), 64);
    assert_eq!(&b[0..4], b"CTI1");
    assert_eq!(le32(&b, 8), 300);
    assert_eq!(b[28], 3);
    assert_eq!(b[29], 10);
    let r = read_header(&b).unwrap();
    assert_eq!((r.width, r.height, r.tile_size, r.tiles_x, r.tiles_y), (300, 200, 256, 2, 1));
    assert_eq!((r.color_type, r.compression, r.quality, r.flags, r.version), (3, 10, 100, 1, 1));
}

#[test]
fn header_errors() {
    let h = CTIHeader::new(1, 1, 16, 1, 1, 1, 0, 100, 0);
    let good = write_header(&h);
    assert_eq!(read_header(&good[..63]).unwrap_err(), CtiError::TruncatedStream);
    let mut bad = good.clone();
    bad[0] = b'X';
    assert_eq!(read_header(&bad).unwrap_err(), CtiError::BadMagic);
    let mut v2 = good.clone();
    v2[4] = 2;
    assert_eq!(read_header(&v2).unwrap_err(), CtiError::BadVersion);
    assert_eq!(CTIDecoder::info(&v2).unwrap_err(), CtiError::BadVersion);
    assert_eq!(CTIDecoder::info(&good).unwrap().tile_size, 16);
}

#[test]
fn decode_errors() {
    let img = image(8, 8, ColorKind::L8, pseudo_random(64, 4));
    let enc = CTIEncoder::new(config(8, CompressionType::Uncompressed, false));
    let file = enc.encode_to_cti(&img).unwrap();
    let mut corrupt = file.clone();
    corrupt[84 + 3] ^= 0x55;
    assert_eq!(CTIDecoder::decode(&corrupt).unwrap_err(), CtiError::CrcMismatch(0));
    let mut unknown = file.clone();
    unknown[29] = 7;
    assert_eq!(CTIDecoder::decode(&unknown).unwrap_err(), CtiError::UnknownCompression);
    let mut colour = file.clone();
    colour[28] = 9;
    assert_eq!(CTIDecoder::decode(&colour).unwrap_err(), CtiError::UnsupportedColorKind);
    assert_eq!(CTIDecoder::decode(&file[..70]).unwrap_err(), CtiError::TruncatedStream);
    let mut zstd = file.clone();
    zstd[29] = 10;
    assert_eq!(CTIDecoder::decode(&zstd).unwrap_err(), CtiError::LibraryDecode);
}

#[test]
fn encode_errors() {
    let enc = CTIEncoder::new(CTIConfig::default());
    let other = image(2, 2, ColorKind::Other, vec![0; 4]);
    assert_eq!(enc.encode_to_cti(&other).unwrap_err(), CtiError::UnsupportedColorKind);
    let short = image(2, 2, ColorKind::Rgb8, vec![0; 11]);
    assert_eq!(enc.encode_to_cti(&short).unwrap_err(), CtiError::BadGeometry);
    let zero = CTIEncoder::new(config(0, CompressionType::RLE, false));
    assert_eq!(zero.encode_to_cti(&image(1, 1, ColorKind::L8, vec![1])).unwrap_err(), CtiError::BadGeometry);
}

#[test]
fn section_trailer_order_and_offsets() {
    let mut img = image(2, 2, ColorKind::L8, vec![1, 2, 3, 4]);
    img.xdpi = Some(300.0f32.to_bits());
    img.ydpi = Some(150.0f32.to_bits());
    img.icc = Some(vec![0xAA, 0xBB, 0xCC]);
    let enc = CTIEncoder::new(config(2, CompressionType::Uncompressed, false));
    let file = enc.encode_to_cti(&img).unwrap();
    let base = 64 + 20 + 4;
    assert_eq!(le32(&file, base), 2);
    assert_eq!(le32(&file, base + 4), 0x2053_4552);
    assert_eq!(le32(&file, base + 24), 0x2043_4349);
    let res_off = le64(&file, base + 8) as usize;
    let res_len = le64(&file, base + 16) as usize;
    let icc_off = le64(&file, base + 28) as usize;
    let icc_len = le64(&file, base + 36) as usize;
    assert_eq!(res_off, base + 4 + 40);
    assert_eq!(res_len, 8);
    assert_eq!(&file[res_off..res_off + 4], &300.0f32.to_le_bytes());
    assert_eq!(&file[res_off + 4..res_off + 8], &150.0f32.to_le_bytes());
    assert_eq!(&file[icc_off..icc_off + icc_len], &[0xAA, 0xBB, 0xCC]);
    assert_eq!(icc_off + icc_len, file.len());
}

#[test]
fn write_sections_empty_and_offsets() {
    assert_eq!(write_sections(1000, &vec![]), vec![0, 0, 0, 0]);
    let t = write_sections(10, &vec![(7u32, vec![1u8, 2]), (8u32, vec![3u8])]);
    assert_eq!(le32(&t, 0), 2);
    assert_eq!(le64(&t, 8), 10 + 44);
    assert_eq!(le64(&t, 28), 10 + 46);
    assert_eq!(&t[44..], &[1, 2, 3]);
}

#[test]
fn crc32_known_value() {
    assert_eq!(crc32(b"123456789"), 0xCBF4_3926);
    assert_eq!(crc32(b""), 0);
}

#[test]
fn compress_tile_uses_the_libraries() {
    let data = vec![5u8; 1000];
    let z = compress_tile(CompressionType::Zstd, &data, 3).unwrap();
    assert_ne!(z, data);
    assert_eq!(&z[0..4], &[0x28, 0xB5, 0x2F, 0xFD]);
    let l = compress_tile(CompressionType::Lz4, &data, 3).unwrap();
    assert_eq!(le32(&l, 0), 1000);
    assert!(l.len() < data.len());
    assert_eq!(compress_tile(CompressionType::Uncompressed, &data, 3).unwrap(), data);
}

#[test]
fn extract_and_blit_tiles() {
    let data: Vec<u8> = (0..5 * 3 * 2).map(|v| v as u8).collect();
    let img = image(5, 3, ColorKind::L16, data.clone());
    let t = extract_tile(&img, 1, 0, 4).unwrap();
    assert_eq!(t, vec![8, 9, 18, 19, 28, 29]);
    assert_eq!(extract_tile(&img, 2, 0, 4).unwrap_err(), CtiError::BadGeometry);
    let mut out = vec![0u8; 30];
    blit_tile(&mut out, &t, 5, 3, 4, 2, 1, 0).unwrap();
    assert_eq!(out[8], 8);
    assert_eq!(out[29], 29);
    assert_eq!(out[7], 0);
    assert_eq!(blit_tile(&mut out, &t[..5], 5, 3, 4, 2, 1, 0).unwrap_err(), CtiError::BadGeometry);
}

#[test]
fn rct_wide_chroma_is_not_reversible() {
    // r - g = 255 does not fit a signed byte, so the stored chroma wraps
    let mut p = vec![255u8, 0, 0];
    rct_forward_rgb8(&mut p);
    assert_eq!(p, vec![63, 0, 255]);
    rct_inverse_rgb8(&mut p);
    assert_eq!(p, vec![63, 64, 64]);
}

#[test]
fn rct_16bit_wide_chroma_round_trip_in_range() {
    let px: Vec<u8> = [40000u16, 30000, 20000].iter().flat_map(|v| v.to_le_bytes()).collect();
    let mut q = px.clone();
    rct_forward_rgb16(&mut q);
    rct_inverse_rgb16(&mut q);
    assert_eq!(q, px);
}

#[test]
fn header_reserved_bytes_round_trip() {
    let h = CTIHeader::new(2, 2, 16, 1, 1, 1, 0, 100, 0);
    assert_eq!(h.reserved, [0u8; 33]);
    let mut b = write_header(&h);
    assert!(b[31..64].iter().all(|&v| v == 0));
    b[40] = 7;
    let r = read_header(&b).unwrap();
    assert_eq!(r.reserved[9], 7);
    assert_eq!(write_header(&r), b);
}

#[test]
fn lz4_payload_starts_with_length() {
    let data = pseudo_random(777, 13);
    let c = compress_tile(CompressionType::Lz4, &data, 0).unwrap();
    assert_eq!(le32(&c, 0), 777);
}
