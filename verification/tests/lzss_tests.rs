use pngdec::compress::lzss::{lzss_decode, LzssCode};
use pngdec::error::ErrorKind;

#[test]
fn overlapping_back_reference_expands() {
    // length greater than distance: the copy reads from the buffer as it
    // grows
    let codes = vec![
        LzssCode::Val { code: 0x41 },
        LzssCode::Block { lenght: 5, distance: 1 },
    ];
    let out = lzss_decode(&codes).unwrap();
    assert_eq!(out, vec![0x41u8; 6]);
}

#[test]
fn long_back_reference_repeats_pattern() {
    let codes = vec![
        LzssCode::Val { code: b'a' },
        LzssCode::Val { code: b'b' },
        LzssCode::Block { lenght: 5, distance: 2 },
    ];
    let out = lzss_decode(&codes).unwrap();
    assert_eq!(out, b"abababa".to_vec());
}

#[test]
fn max_distance_succeeds_and_beyond_fails() {
    let mut codes: Vec<LzssCode> = Vec::with_capacity(32770);
    for i in 0..32768u32 {
        codes.push(LzssCode::Val { code: (i % 251) as u8 });
    }
    codes.push(LzssCode::Block { lenght: 3, distance: 32768 });
    let out = lzss_decode(&codes).unwrap();
    assert_eq!(out.len(), 32771);
    assert_eq!(out[32768], out[0]);

    let mut bad: Vec<LzssCode> = Vec::with_capacity(32770);
    for i in 0..32769u32 {
        bad.push(LzssCode::Val { code: (i % 251) as u8 });
    }
    bad.push(LzssCode::Block { lenght: 3, distance: 32769 });
    assert_eq!(lzss_decode(&bad), Err(ErrorKind::InvalidDistance));
}

#[test]
fn distance_past_output_fails() {
    let codes = vec![
        LzssCode::Val { code: 1 },
        LzssCode::Block { lenght: 3, distance: 2 },
    ];
    assert_eq!(lzss_decode(&codes), Err(ErrorKind::InvalidDistance));
}
