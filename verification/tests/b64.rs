//! base64url.
use minesweeper::b64::{decode, encode};

#[test]
fn known_vectors() {
    assert_eq!(encode(b""), "");
    assert_eq!(encode(b"f"), "Zg");
    assert_eq!(encode(b"fo"), "Zm8");
    assert_eq!(encode(b"foo"), "Zm9v");
    assert_eq!(encode(b"foob"), "Zm9vYg");
    assert_eq!(encode(b"fooba"), "Zm9vYmE");
    assert_eq!(encode(b"foobar"), "Zm9vYmFy");
}

#[test]
fn alphabet_is_url_safe() {
    // 0xFB 0xFF encodes to the two characters that differ from standard
    // base64; if these ever come out as + or /, a URL will mangle them.
    let s = encode(&[0xFB, 0xFF, 0xBF]);
    assert!(
        !s.contains('+') && !s.contains('/') && !s.contains('='),
        "{s}"
    );
    assert_eq!(decode(&s).unwrap(), vec![0xFB, 0xFF, 0xBF]);
}

#[test]
fn rejects_junk() {
    assert!(decode("Zm9v!").is_none(), "accepted an illegal character");
    assert!(decode("Zm9vYg=").is_none(), "accepted padding");
    assert!(decode("Z").is_none(), "accepted a lone character");
}

#[test]
fn round_trips_every_length() {
    let data: Vec<u8> = (0..=255u8).collect();
    for n in 0..data.len() {
        let slice = &data[..n];
        assert_eq!(decode(&encode(slice)).as_deref(), Some(slice), "len {n}");
    }
}
