use hanji::encoding::{byte_offset_to_utf16, utf16_offset_to_byte, utf16_range_to_byte};

#[test]
fn converts_utf8_and_utf16_offsets_for_korean_and_emoji() {
    let text = "A한🇰🇷B";

    assert_eq!(byte_offset_to_utf16(text, 0), 0);
    assert_eq!(byte_offset_to_utf16(text, "A".len()), 1);
    assert_eq!(byte_offset_to_utf16(text, "A한".len()), 2);
    assert_eq!(byte_offset_to_utf16(text, "A한🇰🇷".len()), 6);

    assert_eq!(utf16_offset_to_byte(text, 0), 0);
    assert_eq!(utf16_offset_to_byte(text, 1), "A".len());
    assert_eq!(utf16_offset_to_byte(text, 2), "A한".len());
    assert_eq!(utf16_offset_to_byte(text, 6), "A한🇰🇷".len());
}

#[test]
fn converts_utf16_ranges_to_byte_ranges() {
    let text = "A한🇰🇷B";

    assert_eq!(utf16_range_to_byte(text, &(1..6)), "A".len().."A한🇰🇷".len());
}


#[test]
fn every_utf16_offset_lands_on_a_character_boundary() {
    let text = "A한🇰🇷B";
    assert_eq!(utf16_offset_to_byte(text, 3), 8);
    assert_eq!(utf16_offset_to_byte(text, 6), 12);
    for offset in 0..20 {
        let byte = utf16_offset_to_byte(text, offset);
        assert!(byte <= text.len());
        assert!(text.is_char_boundary(byte));
    }
    assert_eq!(utf16_offset_to_byte(text, 99), text.len());
}
