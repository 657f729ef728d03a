use hanji::text::{EditError, TextBuffer, TextEdit, TextPosition, TextRange};

#[test]
fn reports_line_ranges_without_newlines() {
    let buffer = TextBuffer::new("one\ntwo\nthree");

    assert_eq!(buffer.line_count(), 3);
    assert_eq!(buffer.line_range(0), Some(TextRange::new(0, 3)));
    assert_eq!(buffer.line_range(1), Some(TextRange::new(4, 7)));
    assert_eq!(buffer.line_range(2), Some(TextRange::new(8, 13)));
    assert_eq!(buffer.line_range(3), None);
}

#[test]
fn reports_empty_trailing_line() {
    let buffer = TextBuffer::new("one\n");

    assert_eq!(buffer.line_count(), 2);
    assert_eq!(buffer.line_range(0), Some(TextRange::new(0, 3)));
    assert_eq!(buffer.line_range(1), Some(TextRange::new(4, 4)));
    assert_eq!(buffer.line_index_at_offset(4), Ok(1));
}

#[test]
fn finds_line_index_for_mixed_utf8_offsets() {
    let buffer = TextBuffer::new("안녕 abc\n\ndfg");

    assert_eq!(buffer.line_index_at_offset(0), Ok(0));
    assert_eq!(buffer.line_index_at_offset("안녕 abc".len()), Ok(0));
    assert_eq!(buffer.line_index_at_offset("안녕 abc\n".len()), Ok(1));
    assert_eq!(buffer.line_index_at_offset("안녕 abc\n\n".len()), Ok(2));
    assert_eq!(buffer.line_index_at_offset("안녕 abc\n\ndfg".len()), Ok(2));
}

#[test]
fn rejects_line_index_lookup_inside_utf8_character() {
    let buffer = TextBuffer::new("한지");

    assert_eq!(
        buffer.line_index_at_offset(1),
        Err(EditError::InvalidBoundary)
    );
}

#[test]
fn rebuilds_line_index_after_edits() {
    let mut buffer = TextBuffer::new("one");

    buffer.apply_edits(&[TextEdit::insert(3, "\ntwo")]).unwrap();

    assert_eq!(buffer.line_count(), 2);
    assert_eq!(buffer.line_range(1), Some(TextRange::new(4, 7)));
}

#[test]
fn converts_offsets_to_char_positions() {
    let buffer = TextBuffer::new("안녕 abc\n\ndfg");

    assert_eq!(buffer.position_at_offset(0), Ok(TextPosition::new(0, 0)));
    assert_eq!(
        buffer.position_at_offset("안".len()),
        Ok(TextPosition::new(0, 1))
    );
    assert_eq!(
        buffer.position_at_offset("안녕 abc".len()),
        Ok(TextPosition::new(0, 6))
    );
    assert_eq!(
        buffer.position_at_offset("안녕 abc\n".len()),
        Ok(TextPosition::new(1, 0))
    );
    assert_eq!(
        buffer.position_at_offset("안녕 abc\n\nd".len()),
        Ok(TextPosition::new(2, 1))
    );
}

#[test]
fn converts_char_positions_to_offsets() {
    let buffer = TextBuffer::new("안녕 abc\n\ndfg");

    assert_eq!(buffer.offset_at_position(TextPosition::new(0, 0)), Ok(0));
    assert_eq!(
        buffer.offset_at_position(TextPosition::new(0, 1)),
        Ok("안".len())
    );
    assert_eq!(
        buffer.offset_at_position(TextPosition::new(0, 6)),
        Ok("안녕 abc".len())
    );
    assert_eq!(
        buffer.offset_at_position(TextPosition::new(1, 0)),
        Ok("안녕 abc\n".len())
    );
    assert_eq!(
        buffer.offset_at_position(TextPosition::new(2, 3)),
        Ok("안녕 abc\n\ndfg".len())
    );
}

#[test]
fn rejects_positions_outside_existing_lines() {
    let buffer = TextBuffer::new("Hanji");

    assert_eq!(
        buffer.offset_at_position(TextPosition::new(1, 0)),
        Err(EditError::InvalidRange)
    );
    assert_eq!(
        buffer.offset_at_position(TextPosition::new(0, 6)),
        Err(EditError::InvalidRange)
    );
}

#[test]
fn rejects_position_lookup_inside_utf8_character() {
    let buffer = TextBuffer::new("한지");

    assert_eq!(
        buffer.position_at_offset(1),
        Err(EditError::InvalidBoundary)
    );
}

#[test]
fn applies_multiple_edits_against_original_offsets() {
    let mut buffer = TextBuffer::new("alpha beta gamma");

    buffer
        .apply_edits(&[
            TextEdit::replace(TextRange::new(0, 5), "one"),
            TextEdit::replace(TextRange::new(11, 16), "three"),
        ])
        .unwrap();

    assert_eq!(buffer.as_str(), "one beta three");
}

#[test]
fn rejects_overlapping_edits() {
    let mut buffer = TextBuffer::new("Hanji");

    let error = buffer
        .apply_edits(&[
            TextEdit::replace(TextRange::new(0, 3), "A"),
            TextEdit::replace(TextRange::new(2, 5), "B"),
        ])
        .unwrap_err();

    assert_eq!(error, EditError::OverlappingEdits);
    assert_eq!(buffer.as_str(), "Hanji");
}


#[test]
fn positions_convert_back_to_their_offsets() {
    let text = "안녕 abc\n\nd🇰🇷e\n";
    let buffer = TextBuffer::new(text);
    for offset in 0..=text.len() {
        if text.is_char_boundary(offset) {
            let position = buffer.position_at_offset(offset).unwrap();
            assert_eq!(buffer.offset_at_position(position), Ok(offset));
        } else {
            assert_eq!(buffer.position_at_offset(offset), Err(EditError::InvalidBoundary));
        }
    }
}
