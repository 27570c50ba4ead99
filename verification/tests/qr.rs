//! QR codes.
use minesweeper::qr::render;

/// The encoder is the part that can refuse; canvas drawing needs a browser.
/// This pins down that a realistically sized link still encodes, and how
/// big it gets.
#[test]
fn a_full_size_link_still_encodes() {
    let link = format!(
        "https://example.github.io/minesweeper/#o={}",
        "A".repeat(1330)
    );
    let code = match render(&link) {
        Ok(sheet) => sheet,
        Err(fault) => panic!("1370-char link must fit in a QR: {fault:?}"),
    };
    // Version 40 is the largest QR there is: 177 modules.
    assert!(code.modules <= 177, "width {}", code.modules);
}

#[test]
fn oversized_input_is_an_error_not_a_panic() {
    assert!(render(&"A".repeat(8000)).is_err());
}
