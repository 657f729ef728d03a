use hanji::editing::{
    clipboard_paste_edit, document_selection_range, empty_marker_pair_delete_backward_edit,
    extension_points_for_selection, horizontal_offset_within_line, marker_autocomplete_edit,
    marker_skip_offset, selected_source_text, selection_is_reversed,
    selection_range_from_anchor_and_head, task_marker_state_char_range,
};
use hanji::text::TextRange;

#[test]
fn editing_selection_helpers_keep_anchor_direction_separate_from_range_order() {
    assert_eq!(
        selection_range_from_anchor_and_head(16, 8),
        TextRange::new(8, 16)
    );
    assert!(selection_is_reversed(16, 8));
    assert_eq!(
        extension_points_for_selection(TextRange::new(8, 16), -1),
        (16, 8)
    );
    assert_eq!(
        extension_points_for_selection(TextRange::new(8, 16), 1),
        (8, 16)
    );
}

#[test]
fn editing_document_selection_range_covers_entire_source() {
    assert_eq!(document_selection_range(0), TextRange::new(0, 0));
    assert_eq!(document_selection_range(12), TextRange::new(0, 12));
}

#[test]
fn editing_selected_source_text_copies_raw_markdown_source() {
    assert_eq!(
        selected_source_text("A **bold** word", &(2..10)),
        Some("**bold**".to_string())
    );
}

#[test]
fn editing_selected_source_text_ignores_empty_and_invalid_ranges() {
    assert_eq!(selected_source_text("A **bold** word", &(2..2)), None);
    assert_eq!(selected_source_text("A **bold** word", &(1..99)), None);
}

#[test]
fn clipboard_paste_edit_preserves_text_without_autocomplete() {
    assert_eq!(
        clipboard_paste_edit(&(4..4), "**"),
        (4..4, "**".to_string(), 6..6)
    );
    assert_eq!(
        clipboard_paste_edit(&(4..4), "```"),
        (4..4, "```".to_string(), 7..7)
    );
}

#[test]
fn clipboard_paste_edit_replaces_selection_and_keeps_newlines() {
    assert_eq!(
        clipboard_paste_edit(&(2..6), "a\nb"),
        (2..6, "a\nb".to_string(), 5..5)
    );
}

#[test]
fn editing_horizontal_offsets_do_not_cross_line_boundaries() {
    let first_line = TextRange::new(0, 5);
    let second_line = TextRange::new(6, 10);

    assert_eq!(horizontal_offset_within_line(first_line, 4, 5, 1), Some(5));
    assert_eq!(horizontal_offset_within_line(first_line, 5, 6, 1), None);
    assert_eq!(horizontal_offset_within_line(first_line, 4, 8, 1), Some(5));

    assert_eq!(
        horizontal_offset_within_line(second_line, 7, 6, -1),
        Some(6)
    );
    assert_eq!(horizontal_offset_within_line(second_line, 6, 5, -1), None);
    assert_eq!(
        horizontal_offset_within_line(second_line, 7, 3, -1),
        Some(6)
    );
}

#[test]
fn editing_third_backtick_autocompletes_fenced_code_block() {
    assert_eq!(
        marker_autocomplete_edit("``", &(2..2), "`"),
        Some((2..2, "`\n\n```".to_string(), 4..4))
    );
}

#[test]
fn editing_direct_backtick_fence_input_autocompletes_fenced_code_block() {
    assert_eq!(
        marker_autocomplete_edit("", &(0..0), "```"),
        Some((0..0, "```\n\n```".to_string(), 4..4))
    );
}

#[test]
fn editing_third_tilde_autocompletes_fenced_code_block() {
    assert_eq!(
        marker_autocomplete_edit("~~", &(2..2), "~"),
        Some((2..2, "~\n\n~~~".to_string(), 4..4))
    );
}

#[test]
fn editing_direct_tilde_fence_input_autocompletes_fenced_code_block() {
    assert_eq!(
        marker_autocomplete_edit("", &(0..0), "~~~"),
        Some((0..0, "~~~\n\n~~~".to_string(), 4..4))
    );
}

#[test]
fn editing_code_fence_autocomplete_preserves_closing_fence_indent() {
    assert_eq!(
        marker_autocomplete_edit("  ``", &(4..4), "`"),
        Some((4..4, "`\n\n  ```".to_string(), 6..6))
    );
    assert_eq!(
        marker_autocomplete_edit("  ~~", &(4..4), "~"),
        Some((4..4, "~\n\n  ~~~".to_string(), 6..6))
    );
}

#[test]
fn editing_code_fence_autocomplete_requires_line_start_marker() {
    assert_eq!(marker_autocomplete_edit("Note ``", &(7..7), "`"), None);
    assert_eq!(marker_autocomplete_edit("``rust", &(2..2), "`"), None);
    assert_eq!(marker_autocomplete_edit("    ``", &(6..6), "`"), None);
    assert_eq!(marker_autocomplete_edit("Note ~~", &(7..7), "~"), None);
    assert_eq!(marker_autocomplete_edit("~~rust", &(2..2), "~"), None);
    assert_eq!(marker_autocomplete_edit("    ~~", &(6..6), "~"), None);
}

#[test]
fn editing_code_fence_autocomplete_does_not_interfere_with_closing_unclosed_fence() {
    assert_eq!(
        marker_autocomplete_edit(
            "```\ncode\n``",
            &("```\ncode\n``".len().."```\ncode\n``".len()),
            "`"
        ),
        None
    );
    assert_eq!(
        marker_autocomplete_edit(
            "```\ncode\n",
            &("```\ncode\n".len().."```\ncode\n".len()),
            "```"
        ),
        None
    );
    assert_eq!(
        marker_autocomplete_edit(
            "~~~\ncode\n~~",
            &("~~~\ncode\n~~".len().."~~~\ncode\n~~".len()),
            "~"
        ),
        None
    );
    assert_eq!(
        marker_autocomplete_edit(
            "```\ncode\n",
            &("```\ncode\n".len().."```\ncode\n".len()),
            "~~~"
        ),
        None
    );
    assert_eq!(
        marker_autocomplete_edit(
            "~~~\ncode\n",
            &("~~~\ncode\n".len().."~~~\ncode\n".len()),
            "```"
        ),
        None
    );
}

#[test]
fn editing_second_asterisk_autocompletes_strong_markers() {
    assert_eq!(
        marker_autocomplete_edit("*", &(1..1), "*"),
        Some((1..1, "***".to_string(), 2..2))
    );
    assert_eq!(
        marker_autocomplete_edit("", &(0..0), "**"),
        Some((0..0, "****".to_string(), 2..2))
    );
}

#[test]
fn editing_strong_autocomplete_ignores_existing_marker_runs() {
    assert_eq!(marker_autocomplete_edit("**", &(2..2), "*"), None);
    assert_eq!(marker_autocomplete_edit("*", &(1..1), "**"), None);
    assert_eq!(marker_autocomplete_edit("**", &(1..1), "*"), None);
}

#[test]
fn editing_strong_autocomplete_does_not_interfere_with_closing_unclosed_strong() {
    assert_eq!(
        marker_autocomplete_edit("**qwe*", &("**qwe*".len().."**qwe*".len()), "*"),
        None
    );
    assert_eq!(
        marker_autocomplete_edit("**qwe", &("**qwe".len().."**qwe".len()), "**"),
        None
    );
}

#[test]
fn editing_strong_autocomplete_starts_after_broken_strong_at_text_boundaries() {
    let after_space = "**qwe* ";
    assert_eq!(
        marker_autocomplete_edit(after_space, &(after_space.len()..after_space.len()), "**"),
        Some((
            after_space.len()..after_space.len(),
            "****".to_string(),
            after_space.len() + 2..after_space.len() + 2
        ))
    );

    let after_newline = "**qwe*\n";
    assert_eq!(
        marker_autocomplete_edit(
            after_newline,
            &(after_newline.len()..after_newline.len()),
            "**"
        ),
        Some((
            after_newline.len()..after_newline.len(),
            "****".to_string(),
            after_newline.len() + 2..after_newline.len() + 2
        ))
    );

    let typed_first_marker_after_space = "**qwe* *";
    assert_eq!(
        marker_autocomplete_edit(
            typed_first_marker_after_space,
            &(typed_first_marker_after_space.len()..typed_first_marker_after_space.len()),
            "*"
        ),
        Some((
            typed_first_marker_after_space.len()..typed_first_marker_after_space.len(),
            "***".to_string(),
            typed_first_marker_after_space.len() + 1..typed_first_marker_after_space.len() + 1
        ))
    );
}

#[test]
fn editing_marker_input_wraps_selected_text() {
    assert_eq!(
        marker_autocomplete_edit("Hanji notes", &(6..11), "**"),
        Some((6..11, "**notes**".to_string(), 8..13))
    );
    assert_eq!(
        marker_autocomplete_edit("let value = 1;", &(0..14), "```"),
        Some((0..14, "```\nlet value = 1;\n```".to_string(), 4..18))
    );
    assert_eq!(
        marker_autocomplete_edit("let value = 1;", &(0..14), "~~~"),
        Some((0..14, "~~~\nlet value = 1;\n~~~".to_string(), 4..18))
    );
}

#[test]
fn marker_input_does_not_wrap_selection_with_partial_markers() {
    assert_eq!(marker_autocomplete_edit("Hanji notes", &(6..11), "*"), None);
    assert_eq!(marker_autocomplete_edit("Hanji notes", &(6..11), "`"), None);
}

#[test]
fn editing_strong_closing_marker_input_skips_existing_closing_marker() {
    assert_eq!(
        marker_skip_offset("**bold**", &("**bold".len().."**bold".len()), "*"),
        Some("**bold**".len())
    );
    assert_eq!(
        marker_skip_offset("**bold**", &("**bold".len().."**bold".len()), "**"),
        Some("**bold**".len())
    );
}

#[test]
fn editing_marker_skip_requires_open_strong_span() {
    assert_eq!(marker_skip_offset("plain **", &(6..6), "*"), None);
    assert_eq!(marker_skip_offset("**bold**", &(0..0), "*"), None);
    assert_eq!(marker_skip_offset("**bold**", &(2..6), "*"), None);
}

#[test]
fn editing_backspace_inside_empty_strong_pair_deletes_both_markers() {
    assert_eq!(
        empty_marker_pair_delete_backward_edit("****", &(2..2)),
        Some((0..4, String::new(), 0..0))
    );
    assert_eq!(
        empty_marker_pair_delete_backward_edit("Say **** now", &(6..6)),
        Some((4..8, String::new(), 4..4))
    );
}

#[test]
fn editing_empty_pair_delete_does_not_cross_non_empty_strong_pairs() {
    assert_eq!(
        empty_marker_pair_delete_backward_edit("**a****b**", &(5..5)),
        None
    );
    assert_eq!(
        empty_marker_pair_delete_backward_edit("****", &(1..1)),
        None
    );
}

#[test]
fn editing_task_marker_state_char_range_targets_checkbox_state() {
    assert_eq!(
        task_marker_state_char_range("- [ ] Task", TextRange::new(0, 6)),
        Some(3..4)
    );
    assert_eq!(
        task_marker_state_char_range("- [x] Task", TextRange::new(0, 6)),
        Some(3..4)
    );
    assert_eq!(
        task_marker_state_char_range("1. [X] Task", TextRange::new(0, 7)),
        Some(4..5)
    );
    assert_eq!(
        task_marker_state_char_range("- Item", TextRange::new(0, 2)),
        None
    );
}
