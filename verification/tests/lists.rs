use hanji::list_editing::{
    blockquote_newline_edit_for_line, list_indent_edit, list_newline_edit_for_line,
    next_list_marker_text, ListIndentDirection,
};
use hanji::lists::{
    blockquote_content_start, list_item, ListItem, MarkdownListMarker, MarkdownTaskState,
    OrderedListDelimiter,
};
use hanji::decimal::decimal_text;
use hanji::text::{TextEdit, TextRange};

#[test]
fn editing_blockquote_newline_continues_marker() {
    assert_eq!(
        blockquote_newline_edit_for_line("> Quote", TextRange::new(0, 7), &(7..7)),
        Some((7..7, "\n> ".to_string(), 10..10))
    );
}

#[test]
fn editing_blockquote_newline_preserves_indented_marker() {
    assert_eq!(
        blockquote_newline_edit_for_line("   > Quote", TextRange::new(0, 10), &(10..10)),
        Some((10..10, "\n   > ".to_string(), 16..16))
    );
}

#[test]
fn editing_blockquote_newline_exits_empty_quote_line() {
    assert_eq!(
        blockquote_newline_edit_for_line("> ", TextRange::new(8, 10), &(10..10)),
        Some((8..10, String::new(), 8..8))
    );
    assert_eq!(
        blockquote_newline_edit_for_line(">    ", TextRange::new(0, 5), &(5..5)),
        Some((0..5, String::new(), 0..0))
    );
}

#[test]
fn editing_blockquote_newline_ignores_plain_lines_and_selections() {
    assert_eq!(
        blockquote_newline_edit_for_line("Quote", TextRange::new(0, 5), &(5..5)),
        None
    );
    assert_eq!(
        blockquote_newline_edit_for_line("> Quote", TextRange::new(0, 7), &(2..7)),
        None
    );
}

#[test]
fn editing_unordered_list_newline_continues_marker() {
    assert_eq!(
        list_newline_edit_for_line("- Item", TextRange::new(0, 6), &(6..6)),
        Some((6..6, "\n- ".to_string(), 9..9))
    );
    assert_eq!(
        list_newline_edit_for_line("  + Item", TextRange::new(0, 8), &(8..8)),
        Some((8..8, "\n  + ".to_string(), 13..13))
    );
}

#[test]
fn editing_ordered_list_newline_increments_marker() {
    assert_eq!(
        list_newline_edit_for_line("1. Item", TextRange::new(0, 7), &(7..7)),
        Some((7..7, "\n2. ".to_string(), 11..11))
    );
    assert_eq!(
        list_newline_edit_for_line("9) Item", TextRange::new(0, 7), &(7..7)),
        Some((7..7, "\n10) ".to_string(), 12..12))
    );
}

#[test]
fn editing_task_list_newline_continues_unchecked_marker() {
    assert_eq!(
        list_newline_edit_for_line("- [ ] Task", TextRange::new(0, 10), &(10..10)),
        Some((10..10, "\n- [ ] ".to_string(), 17..17))
    );
    assert_eq!(
        list_newline_edit_for_line("- [x] Done", TextRange::new(0, 10), &(10..10)),
        Some((10..10, "\n- [ ] ".to_string(), 17..17))
    );
    assert_eq!(
        list_newline_edit_for_line("1. [X] Done", TextRange::new(0, 11), &(11..11)),
        Some((11..11, "\n2. [ ] ".to_string(), 19..19))
    );
}

#[test]
fn editing_list_newline_exits_empty_item() {
    assert_eq!(
        list_newline_edit_for_line("- ", TextRange::new(8, 10), &(10..10)),
        Some((8..10, String::new(), 8..8))
    );
    assert_eq!(
        list_newline_edit_for_line("2.    ", TextRange::new(0, 6), &(6..6)),
        Some((0..6, String::new(), 0..0))
    );
    assert_eq!(
        list_newline_edit_for_line("- [ ] ", TextRange::new(0, 6), &(6..6)),
        Some((0..6, String::new(), 0..0))
    );
}

#[test]
fn editing_list_newline_outdents_empty_nested_item() {
    assert_eq!(
        list_newline_edit_for_line("  - ", TextRange::new(0, 4), &(4..4)),
        Some((0..2, String::new(), 2..2))
    );
    assert_eq!(
        list_newline_edit_for_line("    - [ ] ", TextRange::new(0, 10), &(10..10)),
        Some((0..2, String::new(), 8..8))
    );
}

#[test]
fn editing_list_newline_preserves_full_nested_indent() {
    assert_eq!(
        list_newline_edit_for_line("      - Item", TextRange::new(0, 12), &(12..12)),
        Some((12..12, "\n      - ".to_string(), 21..21))
    );
}

#[test]
fn editing_list_newline_ignores_plain_lines_and_selections() {
    assert_eq!(
        list_newline_edit_for_line("Item", TextRange::new(0, 4), &(4..4)),
        None
    );
    assert_eq!(
        list_newline_edit_for_line("- Item", TextRange::new(0, 6), &(2..6)),
        None
    );
}

#[test]
fn editing_list_indent_increases_current_list_item_indent() {
    assert_eq!(
        list_indent_edit("- Item", &(3..3), ListIndentDirection::Increase),
        Some((vec![TextEdit::insert(0, "  ")], 5..5))
    );
}

#[test]
fn editing_list_indent_decreases_current_list_item_indent() {
    assert_eq!(
        list_indent_edit("  - Item", &(4..4), ListIndentDirection::Decrease),
        Some((vec![TextEdit::replace(TextRange::new(0, 2), "")], 2..2))
    );
    assert_eq!(
        list_indent_edit("- Item", &(2..2), ListIndentDirection::Decrease),
        None
    );
}

#[test]
fn editing_list_indent_targets_only_selected_list_lines() {
    let text = "- One\nplain\n- Two";
    assert_eq!(
        list_indent_edit(text, &(0..text.len()), ListIndentDirection::Increase),
        Some((
            vec![TextEdit::insert(0, "  "), TextEdit::insert(12, "  ")],
            2..21
        ))
    );
}

#[test]
fn editing_list_indent_selection_ending_at_next_line_start_excludes_that_line() {
    let text = "- One\n- Two";
    assert_eq!(
        list_indent_edit(text, &(0..6), ListIndentDirection::Increase),
        Some((vec![TextEdit::insert(0, "  ")], 2..8))
    );
}

#[test]
fn list_outdent_pulls_a_selection_inside_removed_spaces_to_the_line_start() {
    let text = "- One\n  - Two";
    assert_eq!(
        list_indent_edit(text, &(7..13), ListIndentDirection::Decrease),
        Some((vec![TextEdit::replace(TextRange::new(6, 8), "")], 6..11))
    );
}

#[test]
fn list_item_recognizes_markers_tasks_and_content() {
    assert_eq!(
        list_item("  - [x] Done"),
        Some(ListItem {
            marker: MarkdownListMarker::Unordered { marker: '-' },
            task: Some(MarkdownTaskState::Checked),
            content_start: 8,
        })
    );
    assert_eq!(
        list_item("12) Item"),
        Some(ListItem {
            marker: MarkdownListMarker::Ordered {
                number: 12,
                delimiter: OrderedListDelimiter::Paren,
            },
            task: None,
            content_start: 4,
        })
    );
    assert_eq!(list_item("-item"), None);
    assert_eq!(list_item("1234567890. Item"), None);
    assert_eq!(list_item("**bold**"), None);
}

#[test]
fn blockquote_content_starts_after_marker_and_one_space() {
    assert_eq!(blockquote_content_start("> Quote"), Some(2));
    assert_eq!(blockquote_content_start(">Quote"), Some(1));
    assert_eq!(blockquote_content_start("    > Code"), None);
}

#[test]
fn next_list_marker_counts_up_and_keeps_bullets() {
    assert_eq!(
        next_list_marker_text(MarkdownListMarker::Unordered { marker: '*' }),
        "*"
    );
    assert_eq!(
        next_list_marker_text(MarkdownListMarker::Ordered {
            number: 99,
            delimiter: OrderedListDelimiter::Dot,
        }),
        "100."
    );
    assert_eq!(
        next_list_marker_text(MarkdownListMarker::Ordered {
            number: u64::MAX,
            delimiter: OrderedListDelimiter::Dot,
        }),
        "18446744073709551615."
    );
}

#[test]
fn decimal_text_writes_digits_without_leading_zeros() {
    assert_eq!(decimal_text(0), "0");
    assert_eq!(decimal_text(7), "7");
    assert_eq!(decimal_text(2026), "2026");
}

#[test]
fn continued_list_line_is_the_next_list_item() {
    let (_, replacement, _) =
        list_newline_edit_for_line("3) [x] Done", TextRange::new(0, 11), &(11..11)).unwrap();
    assert_eq!(replacement, "\n4) [ ] ");
    assert_eq!(
        list_item(&replacement[1..]),
        Some(ListItem {
            marker: MarkdownListMarker::Ordered {
                number: 4,
                delimiter: OrderedListDelimiter::Paren,
            },
            task: Some(MarkdownTaskState::Unchecked),
            content_start: 7,
        })
    );
}
