use pngdec::hashs::adler32::Adler32;

#[test]
fn test_alder32_simple() {
    let mut h = Adler32::new();
    h.update(b"Hello");
    assert_eq!(h.finalise(), 0x058c01f5);
}

#[test]
fn test_alder32_double_finalise() {
    let mut h = Adler32::new();
    h.update(b"Hello");
    assert_eq!(h.finalise(), 0x058c01f5);
    assert_eq!(h.finalise(), 0x058c01f5);
}

#[test]
fn test_alder32_multi_update() {
    let mut h = Adler32::new();
    h.update(b"Hello");
    h.update(b" ");
    h.update(b"World!");
    assert_eq!(h.finalise(), 0x1c49043e);
}

#[test]
fn test_alder32_no_update() {
    let mut h = Adler32::new();
    assert_eq!(h.finalise(), 0x1);
}

#[test]
fn test_alder32_empty_update() {
    let mut h = Adler32::new();
    h.update(b"");
    assert_eq!(h.finalise(), 0x1);
}

#[test]
fn test_alder32_big_update() {
    let mut h = Adler32::new();
    h.update(&[b'a'; 255]);
    assert_eq!(h.finalise(), 0x534f60a0);
}

#[test]
fn test_alder32_big_update_rollover() {
    let mut h = Adler32::new();
    h.update(&[0xff; 255]);
    assert_eq!(h.finalise(), 0x08f0fe02);
}

#[test]
fn test_alder32_concat_matches_parts() {
    // running the checksum over a concatenation equals resuming it from
    // the state after the first part
    let mut whole = Adler32::new();
    whole.update(b"Hello World!");
    let mut parts = Adler32::new();
    parts.update(b"Hello ");
    parts.update(b"World!");
    assert_eq!(whole.finalise(), parts.finalise());
}
