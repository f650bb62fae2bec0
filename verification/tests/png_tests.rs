use pngdec::codecs::png::{parse_png, parse_ztxt, Chunk};
use pngdec::codecs::ppm::PpmImage;
use pngdec::error::{ErrorKind, ImageError};
use pngdec::hashs::adler32::Adler32;
use pngdec::hashs::crc32::chunk_crc;
use pngdec::image::GenericImage;

fn make_chunk(name: &[u8; 4], payload: &[u8]) -> Vec<u8> {
    let mut v = Vec::new();
    v.extend_from_slice(&(payload.len() as u32).to_be_bytes());
    v.extend_from_slice(name);
    v.extend_from_slice(payload);
    let crc = chunk_crc(name, payload);
    v.extend_from_slice(&crc.to_be_bytes());
    v
}

fn wrap_stored_block(d: &[u8]) -> Vec<u8> {
    assert!(d.len() <= 0xFFFF);
    let mut v = vec![0x78u8, 0x01, 0x01];
    let lo = (d.len() % 256) as u8;
    let hi = (d.len() / 256) as u8;
    v.push(lo);
    v.push(hi);
    v.push(255 - lo);
    v.push(255 - hi);
    v.extend_from_slice(d);
    let mut h = Adler32::new();
    h.update(d);
    v.extend_from_slice(&h.finalise().to_be_bytes());
    v
}

fn ihdr_payload(width: u32, height: u32, color_type: u8) -> Vec<u8> {
    let mut v = Vec::new();
    v.extend_from_slice(&width.to_be_bytes());
    v.extend_from_slice(&height.to_be_bytes());
    v.push(8); // bit depth
    v.push(color_type);
    v.push(0); // compression
    v.push(0); // filter
    v.push(0); // interlace
    v
}

fn build_png(width: u32, height: u32, color_type: u8, plte: Option<&[u8]>, scanlines: &[u8]) -> Vec<u8> {
    let mut v = vec![0x89u8, 0x50, 0x4E, 0x47, 0x0D, 0x0A, 0x1A, 0x0A];
    v.extend_from_slice(&make_chunk(b"IHDR", &ihdr_payload(width, height, color_type)));
    if let Some(p) = plte {
        v.extend_from_slice(&make_chunk(b"PLTE", p));
    }
    v.extend_from_slice(&make_chunk(b"IDAT", &wrap_stored_block(scanlines)));
    v.extend_from_slice(&make_chunk(b"IEND", b""));
    v
}

fn decode_rgb(png: &[u8]) -> Result<GenericImage, ErrorKind> {
    let img = parse_png(png)?;
    match img.to_rgb() {
        Ok(g) => Ok(g),
        Err(ImageError::Decoding(d)) => Err(d.kind),
    }
}

#[test]
fn crc_of_ihdr_and_zeros() {
    assert_eq!(chunk_crc(b"IHDR", &[0u8; 13]), 0x2E90680F);
}

#[test]
fn one_by_one_gray_decodes_to_three_bytes() {
    let png = build_png(1, 1, 0, None, &[0, 77]);
    let g = decode_rgb(&png).unwrap();
    assert_eq!(g.data, vec![77u8, 77, 77]);
}

#[test]
fn one_by_one_truecolor_decodes_to_three_bytes() {
    let png = build_png(1, 1, 2, None, &[0, 10, 20, 30]);
    let g = decode_rgb(&png).unwrap();
    assert_eq!(g.data, vec![10u8, 20, 30]);
}

#[test]
fn one_by_one_indexed_decodes_to_three_bytes() {
    let png = build_png(1, 1, 3, Some(&[9, 8, 7, 1, 2, 3]), &[0, 1]);
    let g = decode_rgb(&png).unwrap();
    assert_eq!(g.data, vec![1u8, 2, 3]);
}

#[test]
fn one_by_one_gray_alpha_decodes_to_three_bytes() {
    let png = build_png(1, 1, 4, None, &[0, 44, 255]);
    let g = decode_rgb(&png).unwrap();
    assert_eq!(g.data, vec![44u8, 44, 44]);
}

#[test]
fn one_by_one_truecolor_alpha_decodes_to_three_bytes() {
    let png = build_png(1, 1, 6, None, &[0, 1, 2, 3, 255]);
    let g = decode_rgb(&png).unwrap();
    assert_eq!(g.data, vec![1u8, 2, 3]);
}

#[test]
fn two_by_one_truecolor_roundtrip() {
    let png = build_png(2, 1, 2, None, &[0, 255, 0, 0, 0, 255, 0]);
    let g = decode_rgb(&png).unwrap();
    assert_eq!((g.width, g.height), (2, 1));
    assert_eq!(g.data, vec![255u8, 0, 0, 0, 255, 0]);
}

#[test]
fn two_by_one_truecolor_alpha_composites_on_white() {
    // (255,0,0,128) over white: floor((a*fg + (255-a)*bg)/255) per channel;
    // (0,255,0,255) is fully opaque
    let png = build_png(2, 1, 6, None, &[0, 255, 0, 0, 128, 0, 255, 0, 255]);
    let g = decode_rgb(&png).unwrap();
    let r = ((128 * 255 + 127 * 255) / 255) as u8;
    let gb = ((128 * 0 + 127 * 255) / 255) as u8;
    assert_eq!(g.data, vec![r, gb, gb, 0, 255, 0]);
}

#[test]
fn sub_filter_reconstructs() {
    // row of two gray pixels filtered with Sub: second byte is a delta
    let png = build_png(2, 1, 0, None, &[1, 10, 5]);
    let g = decode_rgb(&png).unwrap();
    assert_eq!(g.data, vec![10u8, 10, 10, 15, 15, 15]);
}

#[test]
fn up_filter_reconstructs() {
    let png = build_png(1, 2, 0, None, &[0, 9, 2, 1]);
    let g = decode_rgb(&png).unwrap();
    assert_eq!(g.data, vec![9u8, 9, 9, 10, 10, 10]);
}

#[test]
fn average_filter_reconstructs() {
    // second row: raw + floor((left + up)/2)
    let png = build_png(2, 2, 0, None, &[0, 8, 4, 3, 1, 1]);
    let g = decode_rgb(&png).unwrap();
    // row 1: 8, 4; row 2: 1 + (0+8)/2 = 5, 1 + (5+4)/2 = 5
    assert_eq!(g.data, vec![8u8, 8, 8, 4, 4, 4, 5, 5, 5, 5, 5, 5]);
}

#[test]
fn paeth_filter_reconstructs() {
    let png = build_png(2, 2, 0, None, &[0, 7, 3, 4, 1, 1]);
    let g = decode_rgb(&png).unwrap();
    // row 2, byte 1: paeth(0, 7, 0) = 7 -> 1 + 7 = 8
    // row 2, byte 2: paeth(8, 3, 7): p = 4, pa=4, pb=1, pc=3 -> b=3 -> 1+3 = 4
    assert_eq!(g.data, vec![7u8, 7, 7, 3, 3, 3, 8, 8, 8, 4, 4, 4]);
}

#[test]
fn none_filter_is_identity() {
    let png = build_png(3, 1, 0, None, &[0, 1, 2, 3]);
    let g = decode_rgb(&png).unwrap();
    assert_eq!(g.data, vec![1u8, 1, 1, 2, 2, 2, 3, 3, 3]);
}

#[test]
fn bad_signature_is_rejected() {
    let mut png = build_png(1, 1, 0, None, &[0, 1]);
    png[0] = 0x88;
    assert_eq!(parse_png(&png).err(), Some(ErrorKind::BadSignature));
}

#[test]
fn bad_crc_is_rejected() {
    let mut png = build_png(1, 1, 0, None, &[0, 1]);
    let n = png.len();
    png[n - 1] ^= 0xFF; // corrupt the IEND CRC
    assert_eq!(parse_png(&png).err(), Some(ErrorKind::ChunkCrcMismatch));
}

#[test]
fn unknown_critical_chunk_is_rejected() {
    let mut png = vec![0x89u8, 0x50, 0x4E, 0x47, 0x0D, 0x0A, 0x1A, 0x0A];
    png.extend_from_slice(&make_chunk(b"IHDR", &ihdr_payload(1, 1, 0)));
    png.extend_from_slice(&make_chunk(b"ZZZZ", b"x"));
    assert_eq!(parse_png(&png).err(), Some(ErrorKind::UnknownCriticalChunk));
}

#[test]
fn unknown_ancillary_chunk_is_skipped() {
    let mut png = vec![0x89u8, 0x50, 0x4E, 0x47, 0x0D, 0x0A, 0x1A, 0x0A];
    png.extend_from_slice(&make_chunk(b"IHDR", &ihdr_payload(1, 1, 0)));
    png.extend_from_slice(&make_chunk(b"zZZZ", b"x"));
    png.extend_from_slice(&make_chunk(b"IDAT", &wrap_stored_block(&[0, 3])));
    png.extend_from_slice(&make_chunk(b"IEND", b""));
    let g = decode_rgb(&png).unwrap();
    assert_eq!(g.data, vec![3u8, 3, 3]);
}

#[test]
fn bad_bit_depth_is_malformed() {
    let mut payload = ihdr_payload(1, 1, 0);
    payload[8] = 3;
    let mut png = vec![0x89u8, 0x50, 0x4E, 0x47, 0x0D, 0x0A, 0x1A, 0x0A];
    png.extend_from_slice(&make_chunk(b"IHDR", &payload));
    assert_eq!(parse_png(&png).err(), Some(ErrorKind::MalformedHeader));
}

#[test]
fn sixteen_bit_depth_is_unsupported() {
    let mut payload = ihdr_payload(1, 1, 0);
    payload[8] = 16;
    let mut png = vec![0x89u8, 0x50, 0x4E, 0x47, 0x0D, 0x0A, 0x1A, 0x0A];
    png.extend_from_slice(&make_chunk(b"IHDR", &payload));
    assert_eq!(parse_png(&png).err(), Some(ErrorKind::Unsupported));
}

#[test]
fn interlaced_is_unsupported() {
    let mut payload = ihdr_payload(1, 1, 0);
    payload[12] = 1;
    let mut png = vec![0x89u8, 0x50, 0x4E, 0x47, 0x0D, 0x0A, 0x1A, 0x0A];
    png.extend_from_slice(&make_chunk(b"IHDR", &payload));
    assert_eq!(parse_png(&png).err(), Some(ErrorKind::Unsupported));
}

#[test]
fn invalid_filter_byte_is_rejected() {
    let png = build_png(1, 1, 0, None, &[9, 1]);
    assert_eq!(decode_rgb(&png).err(), Some(ErrorKind::InvalidFilter));
}

#[test]
fn missing_iend_is_truncated() {
    let mut png = vec![0x89u8, 0x50, 0x4E, 0x47, 0x0D, 0x0A, 0x1A, 0x0A];
    png.extend_from_slice(&make_chunk(b"IHDR", &ihdr_payload(1, 1, 0)));
    png.extend_from_slice(&make_chunk(b"IDAT", &wrap_stored_block(&[0, 3])));
    let img = parse_png(&png).unwrap();
    match img.to_rgb() {
        Err(ImageError::Decoding(d)) => assert_eq!(d.kind, ErrorKind::InputTruncated),
        _ => panic!("expected a truncation error"),
    }
}

#[test]
fn bkgd_governs_composite() {
    // half-transparent white pixel over a black background
    let mut png = vec![0x89u8, 0x50, 0x4E, 0x47, 0x0D, 0x0A, 0x1A, 0x0A];
    png.extend_from_slice(&make_chunk(b"IHDR", &ihdr_payload(1, 1, 6)));
    png.extend_from_slice(&make_chunk(b"bKGD", &[0, 0, 0]));
    png.extend_from_slice(&make_chunk(b"IDAT", &wrap_stored_block(&[0, 255, 255, 255, 128])));
    png.extend_from_slice(&make_chunk(b"IEND", b""));
    let g = decode_rgb(&png).unwrap();
    let v = ((128 * 255) / 255) as u8;
    assert_eq!(g.data, vec![v, v, v]);
}

#[test]
fn parse_ztxt_inflates_text() {
    let mut payload = b"keyword".to_vec();
    payload.push(0); // keyword terminator
    payload.push(0); // compression method
    payload.extend_from_slice(&wrap_stored_block(b"hello text"));
    let chunk = Chunk { len: payload.len() as u32, name: b"zTXt".to_vec(), data: payload, crc: 0 };
    let (kw, txt) = parse_ztxt(&chunk).unwrap();
    assert_eq!(kw, b"keyword");
    assert_eq!(txt, b"hello text");
}

#[test]
fn parse_ztxt_rejects_garbage() {
    let chunk = Chunk { len: 3, name: b"zTXt".to_vec(), data: vec![1, 2, 3], crc: 0 };
    assert_eq!(parse_ztxt(&chunk).err(), Some(ErrorKind::MalformedHeader));
}

#[test]
fn ppm_serializes_header_and_data() {
    let img = GenericImage {
        width: 2,
        height: 1,
        colors: pngdec::image::GenericImageColors::RGB,
        data: vec![1, 2, 3, 4, 5, 6],
    };
    let bytes = PpmImage::ppm_bytes(&img);
    let mut expected = b"P6\n2 1\n255\n".to_vec();
    expected.extend_from_slice(&[1, 2, 3, 4, 5, 6]);
    assert_eq!(bytes, expected);
}

#[test]
fn indexed_without_palette_is_rejected() {
    let png = build_png(1, 1, 3, None, &[0, 0]);
    assert_eq!(decode_rgb(&png).err(), Some(ErrorKind::MalformedHeader));
}

#[test]
fn palette_on_grayscale_is_rejected() {
    let png = build_png(1, 1, 0, Some(&[1, 2, 3]), &[0, 0]);
    assert_eq!(parse_png(&png).err(), Some(ErrorKind::MalformedHeader));
}

#[test]
fn indexed_sample_outside_palette_is_rejected() {
    let png = build_png(1, 1, 3, Some(&[1, 2, 3]), &[0, 7]);
    assert_eq!(decode_rgb(&png).err(), Some(ErrorKind::MalformedHeader));
}

#[test]
fn wrong_pixel_stream_length_is_truncated() {
    // one scanline byte too many for a 1x1 grayscale image
    let png = build_png(1, 1, 0, None, &[0, 1, 2]);
    assert_eq!(decode_rgb(&png).err(), Some(ErrorKind::InputTruncated));
}
