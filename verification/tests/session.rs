//! Pastes and the handshake.
use minesweeper::b64;
use minesweeper::session::{shape_of, Pasted, MAX_PACKED};

/// The decompression itself needs a browser, so what is checked here is
/// the part that decides *what a paste is* — every shape a person might
/// hand us has to come out as the same payload.
#[test]
fn input_accepts_every_shape_a_user_might_paste() {
    let sdp_text = "v=0\r\no=- 1 2 IN IP4 127.0.0.1\r\n";
    let packed = b"not really deflate, but opaque bytes either way";
    let b64_text = b64::encode(packed);
    let want = Pasted::Packed(packed.to_vec());

    // The SDP itself is passed through untouched, terminator and all.
    assert_eq!(shape_of(sdp_text), Some(Pasted::Sdp(sdp_text.to_string())));
    assert_eq!(shape_of(&b64_text), Some(want.clone()));
    assert_eq!(shape_of(&format!("#a={b64_text}")), Some(want.clone()));
    assert_eq!(
        shape_of(&format!("  https://x.dev/mine/#o={b64_text}  ")),
        Some(want)
    );
}

#[test]
fn input_rejects_junk() {
    assert!(shape_of("").is_none());
    assert!(shape_of("hello world").is_none());
}

/// A paste too big to be a link is a decompression bomb's delivery, and
/// it has to be refused before its bytes are decoded, let alone inflated.
#[test]
fn a_paste_past_the_cap_is_refused() {
    let big = "A".repeat(MAX_PACKED * 2);
    assert!(shape_of(&big).is_none());
    assert!(shape_of(&format!("#o={big}")).is_none());
    // ...while the biggest link the cap allows still decodes.
    let fits = "A".repeat(MAX_PACKED / 4 * 4);
    assert!(shape_of(&fits).is_some());
}
