use atomic_dbg::decimal::{decimal_parts, digit_str};
use atomic_dbg::scalar::scalar_at;
use atomic_dbg::utf16::encode;

fn units(v: u32) -> Vec<u16> {
    let encoded = encode(v);
    let mut out = vec![encoded.first];
    out.extend(encoded.second);
    out
}

#[test]
fn a_character_of_the_basic_plane_is_one_unit() {
    assert_eq!(units(0x41), vec![0x41]);
    assert_eq!(units(0), vec![0]);
    assert_eq!(units(0xD7FF), vec![0xD7FF]);
    assert_eq!(units(0xE000), vec![0xE000]);
    assert_eq!(units(0xFFFF), vec![0xFFFF]);
}

#[test]
fn a_character_above_the_basic_plane_is_a_pair() {
    assert_eq!(units(0x10000), vec![0xD800, 0xDC00]);
    assert_eq!(units(0x1F600), vec![0xD83D, 0xDE00]);
    assert_eq!(units(0x10FFFF), vec![0xDBFF, 0xDFFF]);
}

#[test]
fn encoding_agrees_with_the_standard_library() {
    for c in ['a', '\u{7F}', '\u{80}', '\u{7FF}', '\u{800}', '\u{FFFD}', '\u{10000}', '\u{10FFFF}'] {
        let mut buf = [0u16; 2];
        assert_eq!(units(c as u32), c.encode_utf16(&mut buf).to_vec());
    }
}

#[test]
fn characters_are_read_at_their_place() {
    let text = "a\u{E9}\u{20AC}\u{1F600}";
    let bytes = text.as_bytes();
    assert_eq!(scalar_at(bytes, 0), (0x61, 1));
    assert_eq!(scalar_at(bytes, 1), (0xE9, 2));
    assert_eq!(scalar_at(bytes, 3), (0x20AC, 3));
    assert_eq!(scalar_at(bytes, 6), (0x1F600, 4));
}

#[test]
fn the_ends_of_each_width_are_read() {
    for c in ['\0', '\u{7F}', '\u{80}', '\u{7FF}', '\u{800}', '\u{FFFF}', '\u{10000}', '\u{10FFFF}'] {
        let mut buf = [0u8; 4];
        let bytes = c.encode_utf8(&mut buf).as_bytes();
        assert_eq!(scalar_at(bytes, 0), (c as u32, c.len_utf8()));
    }
}

#[test]
fn digits_are_their_characters() {
    assert_eq!(digit_str(0), "0");
    assert_eq!(digit_str(5), "5");
    assert_eq!(digit_str(9), "9");
}

#[test]
fn a_number_is_its_digits_behind_empty_slots() {
    assert_eq!(decimal_parts(0), ["", "", "", "", "", "", "", "", "", "0"]);
    assert_eq!(decimal_parts(7), ["", "", "", "", "", "", "", "", "", "7"]);
    assert_eq!(decimal_parts(10), ["", "", "", "", "", "", "", "", "1", "0"]);
    assert_eq!(decimal_parts(1905), ["", "", "", "", "", "", "1", "9", "0", "5"]);
    assert_eq!(decimal_parts(u32::MAX), ["4", "2", "9", "4", "9", "6", "7", "2", "9", "5"]);
    assert_eq!(decimal_parts(1_000_000_000).concat(), "1000000000");
}
