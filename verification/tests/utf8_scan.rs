use fmtbuf::{rfind_utf8_end, utf8_char_width};

#[test]
fn rfind_utf8_end_examples() {
    assert_eq!(rfind_utf8_end("1234".as_bytes()), 4);
    assert_eq!(rfind_utf8_end("🚀".as_bytes()), 4);
    assert_eq!(rfind_utf8_end(b"\xf0\x9f\x9a\x80"), 4); // "🚀" with the bytes written out
    assert_eq!(rfind_utf8_end(b"\xf0\x9f\x9a"), 0); // "🚀" but missing the last byte
}

#[test]
fn rfind_utf8_end_empty() {
    assert_eq!(rfind_utf8_end(b""), 0);
}

#[test]
fn utf8_char_width_classifies_all_ranges() {
    // ASCII starts a 1-byte character
    assert_eq!(utf8_char_width(0x00), Some(1));
    assert_eq!(utf8_char_width(b'a'), Some(1));
    assert_eq!(utf8_char_width(0x7f), Some(1));
    // continuation bytes start nothing
    assert_eq!(utf8_char_width(0x80), None);
    assert_eq!(utf8_char_width(0xbf), None);
    // 0xc0/0xc1 could only start overlong encodings
    assert_eq!(utf8_char_width(0xc0), None);
    assert_eq!(utf8_char_width(0xc1), None);
    assert_eq!(utf8_char_width(0xc2), Some(2));
    assert_eq!(utf8_char_width(0xdf), Some(2));
    assert_eq!(utf8_char_width(0xe0), Some(3));
    assert_eq!(utf8_char_width(0xef), Some(3));
    assert_eq!(utf8_char_width(0xf0), Some(4));
    assert_eq!(utf8_char_width(0xf4), Some(4));
    // beyond the last Unicode codepoint
    assert_eq!(utf8_char_width(0xf5), None);
    assert_eq!(utf8_char_width(0xff), None);
}

#[test]
fn rfind_utf8_end_each_width() {
    // one complete character of each width, then the same missing one byte
    assert_eq!(rfind_utf8_end("a".as_bytes()), 1);
    assert_eq!(rfind_utf8_end("ø".as_bytes()), 2);
    assert_eq!(rfind_utf8_end(b"\xc3"), 0);
    assert_eq!(rfind_utf8_end("€".as_bytes()), 3);
    assert_eq!(rfind_utf8_end(b"\xe2\x82"), 0);
    assert_eq!(rfind_utf8_end(b"ab\xe2\x82"), 2);
}
