use hanji::lists::{MarkdownListMarker, MarkdownTaskState, OrderedListDelimiter};
use hanji::preview::{
    hidden_list_content_marker_source, link_destination_from_source, list_marker_indent_len, list_marker_preview_text,
    task_list_base_marker_end, task_marker_preview_text,
};
use hanji::text::TextRange;

#[test]
fn extracts_link_destination_from_source_range() {
    let source = "Read [Hanji](https://hanji.local) now";

    assert_eq!(
        link_destination_from_source(source, 0, TextRange::new(5, 33)),
        Some("https://hanji.local")
    );
    assert_eq!(
        link_destination_from_source(source, 0, TextRange::new(0, source.len())),
        None
    );
}

#[test]
fn link_destination_needs_a_destination_and_the_line() {
    let source = "[Hanji]()";
    assert_eq!(link_destination_from_source(source, 10, TextRange::new(10, 19)), None);
    let source = "x [a](b)";
    assert_eq!(link_destination_from_source(source, 4, TextRange::new(6, 12)), Some("b"));
    assert_eq!(link_destination_from_source(source, 4, TextRange::new(3, 12)), None);
    assert_eq!(link_destination_from_source(source, 4, TextRange::new(6, 13)), None);
}

#[test]
fn list_marker_preview_text_uses_visual_markers() {
    assert_eq!(
        list_marker_preview_text(MarkdownListMarker::Unordered { marker: '-' }, None),
        "\u{2022}"
    );
    assert_eq!(
        list_marker_preview_text(
            MarkdownListMarker::Ordered {
                number: 3,
                delimiter: OrderedListDelimiter::Dot,
            },
            None
        ),
        "3."
    );
    assert_eq!(
        list_marker_preview_text(
            MarkdownListMarker::Ordered {
                number: 3,
                delimiter: OrderedListDelimiter::Paren,
            },
            None
        ),
        "3)"
    );
}

#[test]
fn task_list_marker_preview_text_uses_checkbox_markers() {
    assert_eq!(
        list_marker_preview_text(
            MarkdownListMarker::Unordered { marker: '-' },
            Some(MarkdownTaskState::Unchecked)
        ),
        "\u{2610}"
    );
    assert_eq!(
        list_marker_preview_text(
            MarkdownListMarker::Unordered { marker: '-' },
            Some(MarkdownTaskState::Checked)
        ),
        "\u{2611}"
    );
    assert_eq!(task_marker_preview_text(MarkdownTaskState::Checked), "\u{2611}");
}

#[test]
fn task_list_base_marker_ends_after_marker_padding() {
    assert_eq!(task_list_base_marker_end("- [ ] "), 2);
    assert_eq!(task_list_base_marker_end("  -   [x] "), 6);
    assert_eq!(task_list_base_marker_end("12. [ ] "), 4);
    assert_eq!(task_list_base_marker_end("  x"), 2);
    assert_eq!(task_list_base_marker_end("-\t[ ]"), 2);
    assert_eq!(list_marker_indent_len("    - item"), 4);
}

#[test]
fn hidden_task_list_content_uses_base_marker_width() {
    assert_eq!(hidden_list_content_marker_source("- [ ] ", true), "- ");
    assert_eq!(hidden_list_content_marker_source("  -   [x] ", true), "  -   ");
    assert_eq!(hidden_list_content_marker_source("12. [ ] ", true), "12. ");
}

#[test]
fn hidden_marker_source_of_other_lines_is_the_whole_line() {
    assert_eq!(hidden_list_content_marker_source("- item", false), "- item");
}
