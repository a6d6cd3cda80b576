use schemgen::text::trim;

#[test]
fn trimming_strips_exactly_unicode_white_space() {
    for u in 0..=0x10ffffu32 {
        if let Some(c) = char::from_u32(u) {
            let s = format!("{c}x{c}");
            let expected = if c.is_whitespace() { "x".to_string() } else { s.clone() };
            assert_eq!(trim(&s), expected, "U+{u:04X}");
        }
    }
    assert_eq!(trim("\u{3000}\u{85} a b\u{2029}"), "a b");
}
