use pngdec::compress::deflate::decode_zlib;
use pngdec::error::ErrorKind;
use pngdec::hashs::adler32::Adler32;

#[test]
fn test_decode_no_compress() {
    let code = vec![
        120, 1, 1, 21, 0, 234, 255, 72, 101, 108, 108, 111, 32, 98, 108, 97, 104, 32, 98, 108,
        97, 104, 32, 98, 108, 97, 104, 33, 81, 157, 7, 59,
    ];
    let res = decode_zlib(&code[..]).unwrap();
    assert_eq!(res, b"Hello blah blah blah!");
}

#[test]
fn test_decode_simple() {
    let code = vec![
        120, 156, 243, 72, 205, 201, 201, 87, 40, 73, 45, 46, 81, 48, 52, 50, 6, 0, 37, 76, 4,
        139,
    ];
    let res = decode_zlib(&code[..]).unwrap();
    assert_eq!(res, b"Hello test 123");
}

#[test]
fn test_decode_repeating() {
    let code = vec![
        120, 156, 243, 72, 205, 201, 201, 87, 72, 202, 73, 204, 64, 16, 138, 0, 81, 157, 7, 59,
    ];
    let res = decode_zlib(&code[..]).unwrap();
    assert_eq!(res, b"Hello blah blah blah!");
}

#[test]
fn test_decode_repeating2() {
    let code = vec![
        120, 156, 243, 72, 205, 201, 201, 87, 72, 202, 73, 204, 64, 16, 138, 10, 41, 249, 5, 48,
        92, 2, 0, 205, 203, 11, 216,
    ];
    let _res = decode_zlib(&code[..]).unwrap();
}

#[test]
fn test_decode_repeating3() {
    let message = b"Hello blah blah blah! Hello blah! dop dop";
    let code = vec![
        120, 156, 243, 72, 205, 201, 201, 87, 72, 202, 73, 204, 64, 16, 138, 10, 30, 112, 81, 69,
        133, 148, 252, 2, 16, 6, 0, 38, 85, 13, 237,
    ];
    let res = decode_zlib(&code[..]).unwrap();
    println!(
        "expected: {}\ndecoded:  {}",
        String::from_utf8_lossy(message),
        String::from_utf8_lossy(&res)
    );
    assert_eq!(res, message);
}

#[test]
fn test_decode_repeating4() {
    let message = b"Hello blah blah blah! Hello blah blah! dop dop";
    let code = vec![
        120, 156, 243, 72, 205, 201, 201, 87, 72, 202, 73, 204, 64, 16, 138, 10, 30, 168, 162,
        138, 10, 41, 249, 5, 32, 12, 0, 113, 120, 15, 164,
    ];
    let res = decode_zlib(&code[..]).unwrap();
    println!(
        "expected: {}\ndecoded:  {}",
        String::from_utf8_lossy(message),
        String::from_utf8_lossy(&res)
    );
    assert_eq!(res, message);
}

#[test]
fn test_decode_repeating5() {
    let message = b"Hello blah blah blah! Hello blah blah blah blah! dop dop";
    let code = vec![
        120, 156, 243, 72, 205, 201, 201, 87, 72, 202, 73, 204, 64, 16, 138, 10, 30, 88, 68, 161,
        82, 41, 249, 5, 32, 12, 0, 33, 134, 19, 18,
    ];
    let res = decode_zlib(&code[..]).unwrap();
    println!(
        "expected: {}\ndecoded:  {}",
        String::from_utf8_lossy(message),
        String::from_utf8_lossy(&res)
    );
    assert_eq!(res, message);
}

#[test]
fn test_decode_lorem() {
    let code = vec![
        120, 156, 77, 81, 75, 78, 229, 64, 12, 188, 138, 15, 16, 229, 20, 35, 86, 192, 192, 98,
        216, 155, 110, 19, 44, 245, 39, 207, 109, 71, 28, 159, 234, 188, 199, 240, 22, 145, 28,
        187, 186, 92, 85, 126, 236, 38, 149, 116, 31, 81, 41, 247, 210, 141, 134, 58, 113, 21,
        95, 40, 245, 54, 36, 185, 120, 24, 113, 214, 93, 71, 210, 182, 145, 20, 245, 149, 222,
        244, 224, 26, 131, 62, 56, 105, 209, 161, 131, 220, 116, 184, 94, 66, 104, 47, 156, 196,
        24, 168, 135, 24, 73, 232, 18, 24, 163, 7, 56, 55, 151, 149, 158, 163, 20, 174, 84, 192,
        142, 94, 207, 218, 23, 114, 169, 59, 214, 135, 83, 155, 83, 154, 10, 240, 184, 8, 104,
        39, 105, 97, 72, 149, 219, 244, 70, 241, 127, 251, 252, 111, 137, 120, 106, 206, 90, 165,
        57, 252, 20, 125, 23, 235, 43, 253, 233, 77, 18, 29, 81, 246, 112, 118, 249, 225, 15, 26,
        188, 169, 187, 222, 153, 248, 1, 67, 69, 229, 173, 1, 181, 97, 101, 57, 67, 58, 227, 184,
        4, 251, 111, 181, 210, 107, 92, 213, 93, 45, 158, 184, 155, 208, 229, 46, 144, 15, 100,
        6, 239, 11, 138, 216, 20, 12, 211, 242, 74, 47, 159, 60, 164, 20, 68, 48, 36, 211, 102,
        124, 104, 102, 170, 112, 243, 215, 146, 210, 193, 166, 152, 53, 246, 126, 166, 42, 168,
        244, 29, 29, 185, 170, 3, 101, 198, 183, 179, 225, 66, 10, 207, 84, 59, 226, 29, 11, 158,
        32, 185, 121, 54, 211, 172, 41, 230, 6, 220, 106, 165, 127, 78, 103, 242, 169, 219, 46,
        134, 8, 116, 212, 158, 239, 173, 42, 8, 44, 71, 93, 233, 137, 65, 138, 119, 252, 165,
        243, 206, 135, 58, 203, 45, 210, 25, 143, 133, 27, 96, 223, 193, 160, 213, 41,
    ];
    let res = decode_zlib(&code[..]).unwrap();
    let s = String::from_utf8_lossy(&res);
    println!("decoded: {}", s);
    assert_eq!(res, b"Lorem ipsum dolor sit amet, consectetur adipiscing elit. Vivamus facilisis tristique placerat. Fusce quis lacus ante. Nullam lectus odio, tempor ut nulla et, scelerisque laoreet nulla. Nulla facilisi. Nunc a condimentum libero. Donec vulputate nulla eu sagittis facilisis. Donec ut magna eget lorem consequat consequat. Quisque quis lorem laoreet, tristique felis a, feugiat odio. Phasellus sed gravida mi. Orci varius natoque penatibus et magnis dis parturient montes, nascetur ridiculus mus. Ut ullamcorper euismod magna eget interdum. Mauris maximus vitae libero ut rutrum." as &[u8]);
}

#[test]
fn test_decode_lorem1() {
    let code = vec![
        120, 1, 77, 81, 73, 78, 196, 48, 16, 252, 74, 61, 96, 148, 87, 32, 78, 172, 7, 184, 55,
        118, 79, 104, 201, 75, 198, 110, 71, 60, 159, 114, 24, 6, 14, 145, 156, 94, 170, 107,
        121, 168, 77, 51, 108, 235, 35, 35, 214, 84, 27, 186, 57, 36, 171, 159, 16, 106, 233, 26,
        92, 125, 52, 72, 180, 205, 122, 176, 178, 66, 147, 249, 130, 119, 219, 37, 143, 142, 179,
        4, 75, 214, 173, 195, 155, 117, 183, 203, 80, 108, 73, 130, 54, 225, 212, 253, 232, 65,
        113, 25, 108, 179, 198, 113, 41, 174, 11, 158, 70, 74, 146, 145, 136, 206, 90, 141, 86,
        79, 112, 205, 27, 207, 15, 71, 153, 93, 76, 6, 92, 78, 74, 216, 9, 154, 132, 84, 245,
        218, 189, 66, 220, 174, 207, 255, 18, 32, 147, 115, 180, 172, 197, 169, 39, 217, 135,
        182, 186, 224, 174, 22, 13, 216, 71, 218, 134, 139, 235, 47, 254, 64, 151, 213, 220, 201,
        237, 38, 226, 119, 152, 44, 178, 172, 133, 44, 86, 158, 164, 45, 52, 233, 176, 227, 50,
        196, 255, 94, 11, 94, 41, 109, 178, 251, 145, 120, 204, 93, 137, 82, 209, 205, 144, 51,
        61, 163, 246, 19, 206, 58, 86, 35, 194, 148, 188, 224, 229, 83, 186, 166, 68, 11, 186,
        70, 172, 77, 118, 139, 130, 108, 11, 158, 91, 48, 236, 210, 140, 189, 34, 94, 15, 87,
        149, 47, 251, 96, 133, 148, 38, 59, 66, 70, 126, 155, 52, 38, 100, 212, 140, 92, 105,
        111, 63, 113, 133, 206, 205, 216, 154, 69, 11, 99, 94, 96, 86, 11, 222, 28, 135, 243,
        161, 182, 77, 27, 148, 228, 115, 141, 255, 165, 26, 1, 90, 28, 121, 193, 163, 16, 148,
        123, 242, 101, 51, 231, 221, 92, 24, 194, 97, 233, 12, 169, 13, 111, 28, 251, 6, 193,
        160, 213, 41,
    ];
    let res = decode_zlib(&code[..]).unwrap();
    let s = String::from_utf8_lossy(&res);
    println!("decoded: {}", s);
    assert_eq!(res, b"Lorem ipsum dolor sit amet, consectetur adipiscing elit. Vivamus facilisis tristique placerat. Fusce quis lacus ante. Nullam lectus odio, tempor ut nulla et, scelerisque laoreet nulla. Nulla facilisi. Nunc a condimentum libero. Donec vulputate nulla eu sagittis facilisis. Donec ut magna eget lorem consequat consequat. Quisque quis lorem laoreet, tristique felis a, feugiat odio. Phasellus sed gravida mi. Orci varius natoque penatibus et magnis dis parturient montes, nascetur ridiculus mus. Ut ullamcorper euismod magna eget interdum. Mauris maximus vitae libero ut rutrum." as &[u8]);
}

#[test]
fn test_decode_lorem9() {
    let code = vec![
        120, 218, 77, 81, 75, 78, 229, 64, 12, 188, 138, 15, 16, 229, 20, 35, 86, 192, 192, 98,
        216, 155, 110, 19, 44, 245, 39, 207, 109, 71, 28, 159, 234, 188, 199, 240, 22, 145, 28,
        187, 186, 92, 85, 126, 236, 38, 149, 116, 31, 81, 41, 247, 210, 141, 134, 58, 113, 21,
        95, 40, 245, 54, 36, 185, 120, 24, 113, 214, 93, 71, 210, 182, 145, 20, 245, 149, 222,
        244, 224, 26, 131, 62, 56, 105, 209, 161, 131, 220, 116, 184, 94, 66, 104, 47, 156, 196,
        24, 168, 135, 24, 73, 232, 18, 24, 163, 7, 56, 55, 151, 149, 158, 163, 20, 174, 84, 192,
        142, 94, 207, 218, 23, 114, 169, 59, 214, 135, 83, 155, 83, 154, 10, 240, 184, 8, 104,
        39, 105, 97, 72, 149, 219, 244, 70, 241, 127, 251, 252, 111, 137, 120, 106, 206, 90, 165,
        57, 252, 20, 125, 23, 235, 43, 253, 233, 77, 18, 29, 81, 246, 112, 118, 249, 225, 15, 26,
        188, 169, 187, 222, 153, 248, 1, 67, 69, 229, 173, 1, 181, 97, 101, 57, 67, 58, 227, 184,
        4, 251, 111, 181, 210, 107, 92, 213, 93, 45, 158, 184, 155, 208, 229, 46, 144, 15, 100,
        6, 239, 11, 138, 216, 20, 12, 211, 242, 74, 47, 159, 60, 164, 20, 68, 48, 36, 211, 102,
        124, 104, 102, 170, 112, 243, 215, 146, 210, 193, 166, 152, 53, 246, 126, 166, 42, 168,
        244, 29, 29, 185, 170, 3, 101, 198, 183, 179, 225, 66, 10, 207, 84, 59, 226, 29, 11, 158,
        32, 185, 121, 54, 211, 172, 41, 230, 6, 220, 106, 165, 127, 78, 103, 242, 169, 219, 46,
        134, 8, 116, 212, 158, 239, 173, 42, 8, 44, 71, 93, 233, 137, 65, 138, 119, 252, 165,
        243, 206, 135, 58, 203, 45, 210, 25, 143, 133, 27, 96, 223, 193, 160, 213, 41,
    ];
    let res = decode_zlib(&code[..]).unwrap();
    let s = String::from_utf8_lossy(&res);
    println!("decoded: {}", s);
    assert_eq!(res, b"Lorem ipsum dolor sit amet, consectetur adipiscing elit. Vivamus facilisis tristique placerat. Fusce quis lacus ante. Nullam lectus odio, tempor ut nulla et, scelerisque laoreet nulla. Nulla facilisi. Nunc a condimentum libero. Donec vulputate nulla eu sagittis facilisis. Donec ut magna eget lorem consequat consequat. Quisque quis lorem laoreet, tristique felis a, feugiat odio. Phasellus sed gravida mi. Orci varius natoque penatibus et magnis dis parturient montes, nascetur ridiculus mus. Ut ullamcorper euismod magna eget interdum. Mauris maximus vitae libero ut rutrum." as &[u8]);
}

/// Wraps a payload in a single stored block with a zlib header and an
/// Adler-32 trailer.
fn wrap_stored_block(d: &[u8]) -> Vec<u8> {
    assert!(d.len() <= 0xFFFF);
    let mut v = vec![0x78u8, 0x01];
    v.push(0x01);
    let lo = (d.len() % 256) as u8;
    let hi = (d.len() / 256) as u8;
    v.push(lo);
    v.push(hi);
    v.push(255 - lo);
    v.push(255 - hi);
    v.extend_from_slice(d);
    let mut h = Adler32::new();
    h.update(d);
    let a = h.finalise();
    v.extend_from_slice(&a.to_be_bytes());
    v
}

#[test]
fn stored_wrap_roundtrip() {
    let payloads: Vec<&[u8]> = vec![b"", b"x", b"stored block payload", &[0u8; 300]];
    for d in payloads {
        let wrapped = wrap_stored_block(d);
        let res = decode_zlib(&wrapped).unwrap();
        assert_eq!(res, d);
    }
}

#[test]
fn zlib_bad_header_is_framing_error() {
    // check bits broken: (CMF<<8 | FLG) % 31 != 0
    let code = vec![0x78u8, 0x02, 0x01, 0x00, 0x00, 0xFF, 0xFF, 0x00, 0x00, 0x00, 0x01];
    assert_eq!(decode_zlib(&code), Err(ErrorKind::ZlibFraming));
}

#[test]
fn zlib_bad_adler_is_mismatch() {
    let mut wrapped = wrap_stored_block(b"abc");
    let n = wrapped.len();
    wrapped[n - 1] ^= 0xFF;
    assert_eq!(decode_zlib(&wrapped), Err(ErrorKind::AdlerMismatch));
}

#[test]
fn zlib_reserved_block_type_is_rejected() {
    // BFINAL=1, BTYPE=3 -> header bits 111
    let code = vec![0x78u8, 0x01, 0x07, 0x00, 0x00, 0x00, 0x01];
    assert_eq!(decode_zlib(&code), Err(ErrorKind::InvalidBlockType));
}

#[test]
fn zlib_bad_stored_length_is_rejected() {
    // NLEN is not the complement of LEN
    let code = vec![0x78u8, 0x01, 0x01, 0x01, 0x00, 0x00, 0x00, 0x41, 0x00, 0x00, 0x00, 0x01];
    assert_eq!(decode_zlib(&code), Err(ErrorKind::InvalidStoredLength));
}

#[test]
fn zlib_truncated_input_is_rejected() {
    assert_eq!(decode_zlib(b"\x78"), Err(ErrorKind::InputTruncated));
}


#[test]
fn unassigned_distance_code_is_invalid() {
    // a fixed-Huffman block: literal/length symbol 257, then the five-bit
    // distance code 30, which the fixed distance alphabet does not assign
    let code = vec![0x78u8, 0x01, 0x03, 0x3E, 0x00, 0x00, 0x00, 0x00];
    assert_eq!(decode_zlib(&code), Err(ErrorKind::InvalidCode));
}

#[test]
fn dynamic_block_with_long_codes_decodes() {
    // the dynamic table assigns ten- and eleven-bit codes (a chain of
    // lengths 2..=11); the full RFC 1951 range up to 15 must be accepted
    let code = vec![
        120u8, 1, 5, 224, 73, 146, 36, 73, 146, 4, 65, 188, 141, 88, 212, 60, 178, 186, 255, 255,
        31, 132, 255, 254, 247, 255, 6, 4, 63, 1, 98,
    ];
    let res = decode_zlib(&code[..]).unwrap();
    assert_eq!(res, b"IJKAB");
}

#[test]
fn bad_header_reported_before_short_length() {
    // five bytes only, but the CMF/FLG check already fails: the header
    // verdict comes first
    let code = vec![0x78u8, 0x02, 0x00, 0x00, 0x00];
    assert_eq!(decode_zlib(&code), Err(ErrorKind::ZlibFraming));
}

#[test]
fn good_header_but_short_stream_is_truncated() {
    let code = vec![0x78u8, 0x01, 0x00, 0x00, 0x00];
    assert_eq!(decode_zlib(&code), Err(ErrorKind::InputTruncated));
}

#[test]
fn multi_block_stored_stream_roundtrip() {
    // two stored blocks under another valid CMF/FLG pair: only the last
    // block carries BFINAL, and the Adler trailer covers both payloads
    let part1: &[u8] = b"first block ";
    let part2: &[u8] = b"second block";
    let mut v = vec![0x78u8, 0x9C];
    for (last, part) in [(false, part1), (true, part2)] {
        v.push(if last { 0x01 } else { 0x00 });
        let lo = (part.len() % 256) as u8;
        let hi = (part.len() / 256) as u8;
        v.push(lo);
        v.push(hi);
        v.push(255 - lo);
        v.push(255 - hi);
        v.extend_from_slice(part);
    }
    let mut whole = part1.to_vec();
    whole.extend_from_slice(part2);
    let mut h = Adler32::new();
    h.update(&whole);
    v.extend_from_slice(&h.finalise().to_be_bytes());
    assert_eq!(decode_zlib(&v).unwrap(), whole);
}
