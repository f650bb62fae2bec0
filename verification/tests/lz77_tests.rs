use pngdec::compress::lz77::{compress, decompress, posl_substr_overlap};

#[test]
fn test_compress_decompress() {
    assert_eq!(decompress(compress(b"", 10), 10), b"");
    assert_eq!(decompress(compress(b"AABCBBABC", 10), 10), b"AABCBBABC");
    assert_eq!(decompress(compress(b"AABCBBABC", 3), 3), b"AABCBBABC");
    assert_eq!(
        decompress(compress(b"Hello friend, Hello world!", 5), 5),
        b"Hello friend, Hello world!"
    );
    assert_eq!(
        decompress(compress(b"Hello friend, Hello world!", 100), 100),
        b"Hello friend, Hello world!"
    );
    assert_eq!(
        decompress(compress(b"Blah blah blah blah blah!", 100), 100),
        b"Blah blah blah blah blah!"
    );
    assert_eq!(
        decompress(compress(b"Blah blah blah blah blah!", 5), 5),
        b"Blah blah blah blah blah!"
    );
}

#[test]
fn test_compress_simple() {
    assert_eq!(
        compress(b"AABCBBABC", 50),
        vec![(0, 0, 65), (0, 1, 66), (0, 0, 67), (2, 1, 66), (1, 2, 67)]
    );
    assert_eq!(
        compress(b"Hello friend, Hello world!", 50),
        vec![
            (0, 0, 72),
            (0, 0, 101),
            (0, 0, 108),
            (2, 1, 111),
            (0, 0, 32),
            (0, 0, 102),
            (0, 0, 114),
            (0, 0, 105),
            (1, 1, 110),
            (0, 0, 100),
            (0, 0, 44),
            (5, 1, 72),
            (1, 5, 119),
            (4, 1, 114),
            (2, 1, 100),
            (0, 0, 33)
        ]
    );
}

#[test]
fn test_compress_overlapping() {
    let c = compress(b"Blah blah blah blah blah!", 6);
    assert_eq!(
        c,
        vec![(0, 0, 66), (0, 0, 108), (0, 0, 97), (0, 0, 104), (0, 0, 32), (0, 0, 98), (1, 18, 33)]
    );
    let c = compress(b"Blah blah blah blah blah!", 5);
    assert_eq!(
        c,
        vec![(0, 0, 66), (0, 0, 108), (0, 0, 97), (0, 0, 104), (0, 0, 32), (0, 0, 98), (0, 18, 33)]
    );
}

#[test]
fn test_posl_substr_overlap() {
    assert_eq!(posl_substr_overlap(&[1, 2], &[3, 1, 3, 1, 2]), Some((3, 2)));

    assert_eq!(posl_substr_overlap(&[0, 1, 2], &[3, 1, 3, 1, 2]), None);

    assert_eq!(posl_substr_overlap(&[1, 2, 4], &[3, 1, 3, 1, 2]), Some((3, 2)));

    assert_eq!(posl_substr_overlap(&[3, 1], &[3, 1, 3, 1, 2]), Some((0, 2)));

    assert_eq!(posl_substr_overlap(&[1, 1], &[3, 1, 3, 1, 2]), Some((1, 1)));

    assert_eq!(posl_substr_overlap(&[], &[3, 1, 3, 1, 2]), None);

    assert_eq!(posl_substr_overlap(&[1, 2], &[]), None);

    assert_eq!(posl_substr_overlap(&[1, 2, 1, 2], &[0, 1, 2]), Some((1, 4)));
}
