use rustfs::utf8::is_valid_utf8;

#[test]
fn ascii_and_empty_are_valid() {
    assert!(is_valid_utf8(b""));
    assert!(is_valid_utf8(b"plain ascii / with separators.txt"));
    assert!(is_valid_utf8(&[0x00, 0x7f]));
}

#[test]
fn multibyte_sequences_are_valid() {
    assert!(is_valid_utf8("caf\u{e9}".as_bytes()));
    assert!(is_valid_utf8("\u{7ff}\u{800}\u{ffff}".as_bytes()));
    assert!(is_valid_utf8("\u{10000}\u{10ffff}".as_bytes()));
    assert!(is_valid_utf8("\u{20ac}\u{1f600}".as_bytes()));
    assert!(is_valid_utf8(&[0xdf, 0xbf, 0xe0, 0xa0, 0x80, 0xf0, 0x90, 0x80, 0x80]));
}

#[test]
fn malformed_sequences_are_invalid() {
    // a stray continuation byte
    assert!(!is_valid_utf8(&[0x80]));
    // a leading byte with its continuation missing or wrong
    assert!(!is_valid_utf8(&[0xc2]));
    assert!(!is_valid_utf8(&[0xc2, 0x20]));
    assert!(!is_valid_utf8(&[0xe2, 0x82]));
    assert!(!is_valid_utf8(&[0xf0, 0x9f, 0x98]));
    // bytes no encoding uses at all
    assert!(!is_valid_utf8(&[0xf8, 0x80, 0x80, 0x80, 0x80]));
    assert!(!is_valid_utf8(&[0xff]));
}

#[test]
fn overlong_encodings_are_invalid() {
    assert!(!is_valid_utf8(&[0xc0, 0xaf]));
    assert!(!is_valid_utf8(&[0xc1, 0xbf]));
    assert!(!is_valid_utf8(&[0xe0, 0x80, 0xaf]));
    assert!(!is_valid_utf8(&[0xe0, 0x9f, 0xbf]));
    assert!(!is_valid_utf8(&[0xf0, 0x80, 0x80, 0x80]));
    assert!(!is_valid_utf8(&[0xf0, 0x8f, 0xbf, 0xbf]));
}

#[test]
fn surrogates_and_out_of_range_are_invalid() {
    // the surrogate range, U+D800 through U+DFFF
    assert!(!is_valid_utf8(&[0xed, 0xa0, 0x80]));
    assert!(!is_valid_utf8(&[0xed, 0xbf, 0xbf]));
    // just below the range is fine
    assert!(is_valid_utf8(&[0xed, 0x9f, 0xbf]));
    // just past U+10FFFF
    assert!(!is_valid_utf8(&[0xf4, 0x90, 0x80, 0x80]));
    assert!(!is_valid_utf8(&[0xf5, 0x80, 0x80, 0x80]));
}

#[test]
fn agrees_with_the_standard_library() {
    let samples: Vec<Vec<u8>> = vec![
        b"".to_vec(),
        b"abc/def".to_vec(),
        "\u{e9}\u{20ac}\u{1f600}".as_bytes().to_vec(),
        vec![0x80],
        vec![0xc0, 0xaf],
        vec![0xc2, 0xa9],
        vec![0xe0, 0x9f, 0xbf],
        vec![0xe0, 0xa0, 0x80],
        vec![0xed, 0xa0, 0x80],
        vec![0xed, 0x9f, 0xbf],
        vec![0xf0, 0x8f, 0xbf, 0xbf],
        vec![0xf0, 0x90, 0x80, 0x80],
        vec![0xf4, 0x8f, 0xbf, 0xbf],
        vec![0xf4, 0x90, 0x80, 0x80],
        vec![0x61, 0xc2],
        vec![0x61, 0xc2, 0xa9, 0x62],
        vec![0xfe, 0xff],
    ];
    for bytes in samples {
        assert_eq!(is_valid_utf8(&bytes), std::str::from_utf8(&bytes).is_ok());
    }
}
