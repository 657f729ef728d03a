use hanji::snapshot::{
    source_to_visible_offset_in_segments, table_cell_for_source_offset,
    table_cell_line_index_for_source_offset, visible_segments_to_source_caret_offset,
    LineSegmentSnapshot, TableCellHit, TableCellSelection,
};
use hanji::text::TextRange;

// "a **bold** c" rendered as "a bold c": plain "a ", strong "bold", plain " c".
fn segments() -> Vec<LineSegmentSnapshot> {
    vec![
        LineSegmentSnapshot {
            visible_range: TextRange::new(0, 2),
            source_range: TextRange::new(0, 2),
            source_outer_range: TextRange::new(0, 2),
            uses_outer_caret_edges: false,
        },
        LineSegmentSnapshot {
            visible_range: TextRange::new(2, 6),
            source_range: TextRange::new(4, 8),
            source_outer_range: TextRange::new(2, 10),
            uses_outer_caret_edges: true,
        },
        LineSegmentSnapshot {
            visible_range: TextRange::new(6, 8),
            source_range: TextRange::new(10, 12),
            source_outer_range: TextRange::new(10, 12),
            uses_outer_caret_edges: false,
        },
    ]
}

#[test]
fn source_offsets_map_into_rendered_text() {
    let segments = segments();
    let line = TextRange::new(0, 12);
    assert_eq!(source_to_visible_offset_in_segments(&segments, line, 8, 1), 1);
    assert_eq!(source_to_visible_offset_in_segments(&segments, line, 8, 3), 2);
    assert_eq!(source_to_visible_offset_in_segments(&segments, line, 8, 5), 3);
    assert_eq!(source_to_visible_offset_in_segments(&segments, line, 8, 9), 6);
    assert_eq!(source_to_visible_offset_in_segments(&segments, line, 8, 11), 7);
    assert_eq!(source_to_visible_offset_in_segments(&segments, line, 8, 99), 8);
}

#[test]
fn rendered_offsets_map_to_source_carets_outside_hidden_markers() {
    let segments = segments();
    let line = TextRange::new(0, 12);
    assert_eq!(visible_segments_to_source_caret_offset(&segments, line, 8, 1), 1);
    assert_eq!(visible_segments_to_source_caret_offset(&segments, line, 8, 2), 2);
    assert_eq!(visible_segments_to_source_caret_offset(&segments, line, 8, 3), 5);
    assert_eq!(visible_segments_to_source_caret_offset(&segments, line, 8, 6), 10);
    assert_eq!(visible_segments_to_source_caret_offset(&segments, line, 8, 8), 12);
    assert_eq!(visible_segments_to_source_caret_offset(&segments, line, 8, 50), 12);
    assert_eq!(visible_segments_to_source_caret_offset(&[], line, 0, 0), 12);
}

#[test]
fn table_cell_lookup_prefers_containing_then_following_then_last_cell() {
    let cells = [TextRange::new(2, 7), TextRange::new(10, 15)];
    assert_eq!(table_cell_for_source_offset(&cells, 7), Some(0));
    assert_eq!(table_cell_for_source_offset(&cells, 8), Some(1));
    assert_eq!(table_cell_for_source_offset(&cells, 0), Some(0));
    assert_eq!(table_cell_for_source_offset(&cells, 20), Some(1));
    assert_eq!(table_cell_for_source_offset(&[], 3), None);
    let lines = [TextRange::new(2, 7), TextRange::new(11, 18)];
    assert_eq!(table_cell_line_index_for_source_offset(&lines, 9), Some(1));
}

#[test]
fn table_drag_selection_uses_a_rectangular_row_and_column_range() {
    let table_range = TextRange::new(0, 80);
    let origin = TableCellHit {
        table_range,
        row_range: TextRange::new(40, 50),
        column: 2,
        source_range: TextRange::new(44, 46),
        source_outer_range: TextRange::new(43, 47),
    };
    let target = TableCellHit {
        table_range,
        row_range: TextRange::new(20, 30),
        column: 1,
        source_range: TextRange::new(23, 25),
        source_outer_range: TextRange::new(22, 26),
    };

    assert_eq!(
        TableCellSelection::between(origin, target),
        Some(TableCellSelection {
            table_range,
            row_start: 20,
            row_end: 40,
            column_start: 1,
            column_end: 2,
        })
    );
}

#[test]
fn table_cell_selection_needs_both_hits_in_one_table() {
    let hit = |table: TextRange, row: TextRange, column: usize| TableCellHit {
        table_range: table,
        row_range: row,
        column,
        source_range: row,
        source_outer_range: row,
    };
    let origin = hit(TextRange::new(0, 40), TextRange::new(20, 30), 2);
    let same = hit(TextRange::new(0, 40), TextRange::new(0, 10), 3);
    assert_eq!(
        TableCellSelection::between(origin, same),
        Some(TableCellSelection {
            table_range: TextRange::new(0, 40),
            row_start: 0,
            row_end: 20,
            column_start: 2,
            column_end: 3,
        })
    );
    let other = hit(TextRange::new(50, 60), TextRange::new(50, 55), 0);
    assert_eq!(TableCellSelection::between(origin, other), None);
}
