use pico_proxy::bytes::{clear_first, copy_into, same_bytes, to_big_endian};
use pico_proxy::shared::Status;
use pico_proxy::text::Text;
use pico_proxy::utf8::{decode, same_text};

#[test]
fn a_new_text_is_empty() {
    let text = Text::new::<4>();
    assert!(text.is_empty());
    assert_eq!(text.as_str(), "");
}

#[test]
fn characters_are_appended_while_they_fit() {
    let mut text = Text::new::<3>();
    assert!(text.push('a'));
    assert!(!text.is_empty());
    // Two bytes in UTF-8.
    assert!(text.push('\u{e9}'));
    assert!(!text.push('b'));
    assert_eq!(text.as_str(), "a\u{e9}");
}

#[test]
fn what_does_not_fit_is_left_out_and_later_pieces_are_not() {
    let mut text = Text::new::<4>();
    assert!(text.push_str("abc"));
    assert!(!text.push_str("de"));
    assert!(!text.push('\u{20ac}'));
    assert!(text.push_str("f"));
    assert_eq!(text.as_str(), "abcf");
    assert!(text.push_str(""));
    assert!(!text.push('g'));
}

#[test]
fn a_text_without_room_stays_empty() {
    let mut text = Text::new::<0>();
    assert!(!text.push('a'));
    assert!(text.push_str(""));
    assert_eq!(text.as_str(), "");
}

#[test]
fn bytes_are_written_in_place() {
    let mut buf = [1u8, 2, 3, 4, 5];
    copy_into(&mut buf, 1, &[9, 8]);
    assert_eq!(buf, [1, 9, 8, 4, 5]);
    clear_first(&mut buf, 2);
    assert_eq!(buf, [0, 0, 8, 4, 5]);
}

#[test]
fn numbers_are_split_most_significant_byte_first() {
    assert_eq!(to_big_endian(3600), [0, 0, 14, 16]);
    assert_eq!(to_big_endian(0x0102_0304), [1, 2, 3, 4]);
    assert_eq!(to_big_endian(u32::MAX), [255; 4]);
}

#[test]
fn byte_strings_and_texts_are_compared() {
    assert!(same_bytes(b"", b""));
    assert!(same_bytes(b"ab", b"ab"));
    assert!(!same_bytes(b"ab", b"ac"));
    assert!(!same_bytes(b"ab", b"abc"));
    assert!(same_text("h\u{e9}", "h\u{e9}"));
    assert!(!same_text("he", "h\u{e9}"));
}

#[test]
fn only_valid_utf8_is_decoded() {
    assert_eq!(decode(b"h\xc3\xa9"), Some("h\u{e9}"));
    assert_eq!(decode(b""), Some(""));
    assert_eq!(decode(b"h\xc3"), None);
    assert_eq!(decode(b"\xff"), None);
    // A surrogate, and an overlong form.
    assert_eq!(decode(b"\xed\xa0\x80"), None);
    assert_eq!(decode(b"\xc0\x80"), None);
}

#[test]
fn every_status_has_its_token() {
    assert_eq!(Status::Portal.as_str(), "portal");
    assert_eq!(Status::Scanning.as_str(), "scanning");
    assert_eq!(Status::Connecting.as_str(), "connecting");
    assert_eq!(Status::Connected.as_str(), "connected");
    assert_eq!(Status::Failed.as_str(), "failed");
}
