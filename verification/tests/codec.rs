use hexcrypt::{decrypt, decrypt_bytes, default_size, encrypt, parse_size, HexCryptError, PixelBuffer};

fn pixels(raw: Vec<u8>, w: u32, h: u32) -> PixelBuffer {
    PixelBuffer { image: image::RgbImage::from_raw(w, h, raw).unwrap() }
}

#[test]
fn parse_size_valid() {
    assert_eq!(parse_size("16x32").unwrap(), (16, 32));
}

#[test]
fn parse_size_no_separator() {
    match parse_size("16") {
        Err(HexCryptError::InvalidImageSize(s)) => assert_eq!(s, "16"),
        other => panic!("expected InvalidImageSize, got {:?}", other),
    }
}

#[test]
fn parse_size_bad_number() {
    match parse_size("16xA") {
        Err(HexCryptError::InvalidImageSize(s)) => assert_eq!(s, "16xA"),
        other => panic!("expected InvalidImageSize, got {:?}", other),
    }
}

#[test]
fn parse_size_missing_width() {
    assert!(matches!(parse_size("x32"), Err(HexCryptError::InvalidImageSize(_))));
}

#[test]
fn parse_size_empty() {
    assert!(matches!(parse_size(""), Err(HexCryptError::InvalidImageSize(_))));
}

#[test]
fn parse_size_plus_and_leading_zeros() {
    // unsigned decimal parsing accepts one leading `+` and leading zeros
    assert_eq!(parse_size("+16x032").unwrap(), (16, 32));
    assert!(matches!(parse_size("++16x32"), Err(HexCryptError::InvalidImageSize(_))));
}

#[test]
fn parse_size_overflow() {
    assert_eq!(parse_size("4294967295x1").unwrap(), (4294967295, 1));
    assert!(matches!(parse_size("4294967296x1"), Err(HexCryptError::InvalidImageSize(_))));
}

#[test]
fn parse_size_second_separator() {
    // the split happens at the first `x`; the rest is no numeral
    assert!(matches!(parse_size("1x2x3"), Err(HexCryptError::InvalidImageSize(_))));
}

#[test]
fn default_size_values() {
    assert_eq!(default_size(0), (0, 0));
    assert_eq!(default_size(2), (0, 0));
    assert_eq!(default_size(3), (1, 1));
    assert_eq!(default_size(27), (3, 3));
    assert_eq!(default_size(30), (4, 4));
}

#[test]
fn encrypt_single_pixel() {
    let buf = encrypt(b"Hi!".to_vec(), None).unwrap();
    assert_eq!(buf.image.dimensions(), (1, 1));
    assert_eq!(buf.image.get_pixel(0, 0).0, [72, 105, 33]);
}

#[test]
fn encrypt_partial_group() {
    // 2 bytes hold no whole 3-byte group: the default size is (0, 0) and the
    // non-empty buffer does not fit a zero-area image
    match encrypt(b"AB".to_vec(), None) {
        Err(HexCryptError::CannotCreateImage(w, h)) => assert_eq!((w, h), (0, 0)),
        other => panic!("expected CannotCreateImage, got {:?}", other),
    }
}

#[test]
fn encrypt_capacity_rejection() {
    match encrypt(b"123456".to_vec(), Some("1x1".to_string())) {
        Err(HexCryptError::CannotCreateImage(w, h)) => assert_eq!((w, h), (1, 1)),
        other => panic!("expected CannotCreateImage, got {:?}", other),
    }
}

#[test]
fn encrypt_zero_area() {
    match encrypt(b"Hi!".to_vec(), Some("0x0".to_string())) {
        Err(HexCryptError::CannotCreateImage(w, h)) => assert_eq!((w, h), (0, 0)),
        other => panic!("expected CannotCreateImage, got {:?}", other),
    }
}

#[test]
fn encrypt_invalid_size_flag() {
    match encrypt(b"Hi!".to_vec(), Some("16".to_string())) {
        Err(HexCryptError::InvalidImageSize(s)) => assert_eq!(s, "16"),
        other => panic!("expected InvalidImageSize, got {:?}", other),
    }
}

#[test]
fn encrypt_explicit_padding() {
    let buf = encrypt(b"Hi!".to_vec(), Some("2x2".to_string())).unwrap();
    assert_eq!(buf.image.dimensions(), (2, 2));
    assert_eq!(buf.image.as_raw(), &vec![72, 105, 33, 0, 0, 0, 0, 0, 0, 0, 0, 0]);
    assert_eq!(decrypt(&buf).unwrap(), b"Hi!".to_vec());
}

#[test]
fn encrypt_empty_default() {
    let buf = encrypt(Vec::new(), None).unwrap();
    assert_eq!(buf.image.dimensions(), (0, 0));
    assert_eq!(decrypt(&buf).unwrap(), Vec::<u8>::new());
}

#[test]
fn decrypt_black_pixel() {
    let buf = pixels(vec![0, 0, 0], 1, 1);
    assert_eq!(decrypt(&buf).unwrap(), Vec::<u8>::new());
}

#[test]
fn decrypt_trims_trailing_keeps_interior() {
    let buf = pixels(vec![65, 0, 66, 0, 0, 0], 2, 1);
    assert_eq!(decrypt(&buf).unwrap(), vec![65, 0, 66]);
}

#[test]
fn decrypt_invalid_utf8() {
    let buf = pixels(vec![0xFF, 0, 0], 1, 1);
    assert!(matches!(decrypt(&buf), Err(HexCryptError::BytesToString)));
}

#[test]
fn decrypt_bytes_direct() {
    assert_eq!(decrypt_bytes(vec![72, 105, 33, 0, 0, 0]).unwrap(), b"Hi!".to_vec());
    assert!(matches!(decrypt_bytes(vec![0xC3]), Err(HexCryptError::BytesToString)));
}

#[test]
fn round_trip_default_size() {
    let text = b"abcdef".to_vec();
    let buf = encrypt(text.clone(), None).unwrap();
    assert_eq!(buf.image.dimensions(), (2, 2));
    assert_eq!(decrypt(&buf).unwrap(), text);
}

#[test]
fn round_trip_multibyte() {
    // 3 bytes of UTF-8: a two-byte scalar and one ASCII byte
    let text = "é!".as_bytes().to_vec();
    let buf = encrypt(text.clone(), Some("3x1".to_string())).unwrap();
    assert_eq!(decrypt(&buf).unwrap(), text);
}
