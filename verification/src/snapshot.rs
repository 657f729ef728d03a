//! Mapping carets between a line's Markdown source and its rendered text, segment by
//! segment.
use vstd::prelude::*;
use crate::text::TextRange;

verus! {

/// One piece of a rendered line: the rendered range, the source range it shows, the
/// source range with its hidden markers, and whether a caret at its edges belongs
/// outside those markers.
#[derive(Debug, Clone, Copy, PartialEq, Eq, Structural)]
pub struct LineSegmentSnapshot {
    pub visible_range: TextRange,
    pub source_range: TextRange,
    pub source_outer_range: TextRange,
    pub uses_outer_caret_edges: bool,
}

/// Offsets inside a segment can be moved between source and rendered text without
/// leaving `usize`.
pub open spec fn segments_fit(segments: Seq<LineSegmentSnapshot>) -> bool {
    forall|i: int|
        0 <= i < segments.len() ==> {
            &&& (#[trigger] segments[i]).visible_range.start + segments[i].source_range.end <= usize::MAX
            &&& segments[i].source_range.start + segments[i].visible_range.end <= usize::MAX
        }
}

/// The rendered offset for a source offset already clamped to the line, looking at the
/// segments from `i` on: before a segment's markers it is the segment's start; inside
/// its source it moves with the source; past its source but within its markers it is
/// the segment's end; after every segment it is the rendered length.
pub open spec fn visible_from(segments: Seq<LineSegmentSnapshot>, i: int, offset: int, visible_len: int) -> int
    decreases segments.len() - i,
{
    if i < 0 || i >= segments.len() {
        visible_len
    } else {
        let s = segments[i];
        if offset < s.source_outer_range.start {
            s.visible_range.start as int
        } else if offset <= s.source_outer_range.end {
            if offset < s.source_range.start {
                s.visible_range.start as int
            } else if offset <= s.source_range.end {
                s.visible_range.start + offset - s.source_range.start
            } else {
                s.visible_range.end as int
            }
        } else {
            visible_from(segments, i + 1, offset, visible_len)
        }
    }
}

pub open spec fn clamp(x: int, lo: int, hi: int) -> int {
    if x < lo {
        lo
    } else if x > hi {
        hi
    } else {
        x
    }
}

pub fn source_to_visible_offset_in_segments(
    segments: &[LineSegmentSnapshot],
    line_range: TextRange,
    visible_len: usize,
    source_offset: usize,
) -> (r: usize)
    requires
        line_range.start <= line_range.end,
        segments_fit(segments@),
    ensures
        r == visible_from(
            segments@,
            0,
            clamp(source_offset as int, line_range.start as int, line_range.end as int),
            visible_len as int,
        ),
{
    let offset = if source_offset < line_range.start {
        line_range.start
    } else if source_offset > line_range.end {
        line_range.end
    } else {
        source_offset
    };
    let n = segments.len();
    let mut i: usize = 0;
    while i < n
        invariant
            n == segments@.len(),
            i <= n,
            segments_fit(segments@),
            offset == clamp(source_offset as int, line_range.start as int, line_range.end as int),
            visible_from(segments@, 0, offset as int, visible_len as int) == visible_from(
                segments@,
                i as int,
                offset as int,
                visible_len as int,
            ),
        decreases n - i,
    {
        let segment = segments[i];
        proof {
            assert(segments_fit(segments@) ==> segments@[i as int].visible_range.start + segments@[i as int].source_range.end
                <= usize::MAX);
        }
        if offset < segment.source_outer_range.start {
            return segment.visible_range.start;
        }
        if offset <= segment.source_outer_range.end {
            if offset < segment.source_range.start {
                return segment.visible_range.start;
            }
            if offset <= segment.source_range.end {
                return segment.visible_range.start + offset - segment.source_range.start;
            }
            return segment.visible_range.end;
        }
        i += 1;
    }
    visible_len
}

/// The source caret for a rendered offset already clamped to the rendered length,
/// looking at the segments from `i` on: before a segment it is the start of the
/// segment's markers; at a segment's start, or at its end where the next segment
/// starts, it is the start of that segment's source or markers; at a segment's end
/// otherwise, the end of its source or markers; inside, it moves with the source;
/// after every segment it is the end of the line.
pub open spec fn source_from(segments: Seq<LineSegmentSnapshot>, i: int, offset: int, line_end: int) -> int
    decreases segments.len() - i,
{
    if i < 0 || i >= segments.len() {
        line_end
    } else {
        let s = segments[i];
        if offset < s.visible_range.start {
            s.source_outer_range.start as int
        } else if offset > s.visible_range.end {
            source_from(segments, i + 1, offset, line_end)
        } else if offset == s.visible_range.start {
            if s.uses_outer_caret_edges {
                s.source_outer_range.start as int
            } else {
                s.source_range.start as int
            }
        } else if offset == s.visible_range.end {
            if i + 1 < segments.len() && segments[i + 1].visible_range.start == offset {
                if segments[i + 1].uses_outer_caret_edges {
                    segments[i + 1].source_outer_range.start as int
                } else {
                    segments[i + 1].source_range.start as int
                }
            } else if s.uses_outer_caret_edges {
                s.source_outer_range.end as int
            } else {
                s.source_range.end as int
            }
        } else {
            s.source_range.start + offset - s.visible_range.start
        }
    }
}

pub fn visible_segments_to_source_caret_offset(
    segments: &[LineSegmentSnapshot],
    line_range: TextRange,
    visible_len: usize,
    visible_offset: usize,
) -> (r: usize)
    requires
        segments_fit(segments@),
    ensures
        r == source_from(
            segments@,
            0,
            if visible_offset < visible_len { visible_offset as int } else { visible_len as int },
            line_range.end as int,
        ),
{
    let offset = if visible_offset < visible_len {
        visible_offset
    } else {
        visible_len
    };
    let n = segments.len();
    let mut index: usize = 0;
    while index < n
        invariant
            n == segments@.len(),
            index <= n,
            segments_fit(segments@),
            offset == (if visible_offset < visible_len { visible_offset as int } else { visible_len as int }),
            source_from(segments@, 0, offset as int, line_range.end as int) == source_from(
                segments@,
                index as int,
                offset as int,
                line_range.end as int,
            ),
        decreases n - index,
    {
        let segment = segments[index];
        proof {
            assert(segments_fit(segments@) ==> segments@[index as int].source_range.start
                + segments@[index as int].visible_range.end <= usize::MAX);
        }
        if offset < segment.visible_range.start {
            return segment.source_outer_range.start;
        }
        if offset > segment.visible_range.end {
            index += 1;
            continue;
        }
        if offset == segment.visible_range.start {
            if segment.uses_outer_caret_edges {
                return segment.source_outer_range.start;
            }
            return segment.source_range.start;
        }
        if offset == segment.visible_range.end {
            if index + 1 < n {
                let next_segment = segments[index + 1];
                if next_segment.visible_range.start == offset {
                    if next_segment.uses_outer_caret_edges {
                        return next_segment.source_outer_range.start;
                    }
                    return next_segment.source_range.start;
                }
            }
            if segment.uses_outer_caret_edges {
                return segment.source_outer_range.end;
            }
            return segment.source_range.end;
        }
        return segment.source_range.start + offset - segment.visible_range.start;
    }
    line_range.end
}

/// The first index from `i` on whose range contains `offset` (when `containing`), or
/// starts after it (otherwise).
pub open spec fn first_from(ranges: Seq<TextRange>, offset: int, containing: bool, i: int) -> Option<int>
    decreases ranges.len() - i,
{
    if i < 0 || i >= ranges.len() {
        None
    } else if (containing && ranges[i].start <= offset <= ranges[i].end) || (!containing && offset < ranges[i].start) {
        Some(i)
    } else {
        first_from(ranges, offset, containing, i + 1)
    }
}

/// The piece (a table cell, or a line of one) that holds a source offset, among pieces
/// with these source ranges: the first that contains it, else the first after it,
/// else the last one.
pub open spec fn piece_for_offset(ranges: Seq<TextRange>, offset: int) -> Option<int> {
    match first_from(ranges, offset, true, 0) {
        Some(i) => Some(i),
        None => match first_from(ranges, offset, false, 0) {
            Some(i) => Some(i),
            None => if ranges.len() > 0 {
                Some(ranges.len() - 1)
            } else {
                None
            },
        },
    }
}

fn first_matching(ranges: &[TextRange], offset: usize, containing: bool) -> (r: Option<usize>)
    ensures
        match first_from(ranges@, offset as int, containing, 0) {
            Some(i) => r == Some(i as usize),
            None => r is None,
        },
{
    let n = ranges.len();
    let mut i: usize = 0;
    while i < n
        invariant
            n == ranges@.len(),
            i <= n,
            first_from(ranges@, offset as int, containing, 0) == first_from(ranges@, offset as int, containing, i as int),
        decreases n - i,
    {
        let r = ranges[i];
        let hit = if containing {
            r.start <= offset && offset <= r.end
        } else {
            offset < r.start
        };
        if hit {
            return Some(i);
        }
        i += 1;
    }
    None
}

fn piece_index_for_offset(ranges: &[TextRange], offset: usize) -> (r: Option<usize>)
    ensures
        match piece_for_offset(ranges@, offset as int) {
            Some(i) => r == Some(i as usize),
            None => r is None,
        },
{
    if let Some(i) = first_matching(ranges, offset, true) {
        return Some(i);
    }
    if let Some(i) = first_matching(ranges, offset, false) {
        return Some(i);
    }
    if ranges.len() > 0 {
        Some(ranges.len() - 1)
    } else {
        None
    }
}

/// The index of the table cell, given the cells' source ranges, that holds a source
/// offset.
pub fn table_cell_for_source_offset(cell_source_ranges: &[TextRange], source_offset: usize) -> (r: Option<usize>)
    ensures
        match piece_for_offset(cell_source_ranges@, source_offset as int) {
            Some(i) => r == Some(i as usize),
            None => r is None,
        },
{
    piece_index_for_offset(cell_source_ranges, source_offset)
}

/// The index of the line of a table cell, given the lines' source ranges, that holds a
/// source offset.
pub fn table_cell_line_index_for_source_offset(line_source_ranges: &[TextRange], source_offset: usize) -> (r: Option<usize>)
    ensures
        match piece_for_offset(line_source_ranges@, source_offset as int) {
            Some(i) => r == Some(i as usize),
            None => r is None,
        },
{
    piece_index_for_offset(line_source_ranges, source_offset)
}

/// Where a pointer hit a table: the table's source range, the row's, the column, and
/// the cell's source with and without its pipes.
#[derive(Debug, Clone, Copy, PartialEq, Eq, Structural)]
pub struct TableCellHit {
    pub table_range: TextRange,
    pub row_range: TextRange,
    pub column: usize,
    pub source_range: TextRange,
    pub source_outer_range: TextRange,
}

/// A rectangle of table cells: rows by their start offsets, and columns.
#[derive(Debug, Clone, Copy, PartialEq, Eq, Structural)]
pub struct TableCellSelection {
    pub table_range: TextRange,
    pub row_start: usize,
    pub row_end: usize,
    pub column_start: usize,
    pub column_end: usize,
}

pub open spec fn min(a: usize, b: usize) -> usize {
    if a < b { a } else { b }
}

pub open spec fn max(a: usize, b: usize) -> usize {
    if a > b { a } else { b }
}

impl TableCellSelection {
    /// The rectangle spanned by two hits in the same table.
    pub fn between(origin: TableCellHit, target: TableCellHit) -> (r: Option<Self>)
        ensures
            origin.table_range != target.table_range ==> r is None,
            origin.table_range == target.table_range ==> r == Some(
                TableCellSelection {
                    table_range: origin.table_range,
                    row_start: min(origin.row_range.start, target.row_range.start),
                    row_end: max(origin.row_range.start, target.row_range.start),
                    column_start: min(origin.column, target.column),
                    column_end: max(origin.column, target.column),
                },
            ),
    {
        if origin.table_range != target.table_range {
            return None;
        }
        Some(TableCellSelection {
            table_range: origin.table_range,
            row_start: if origin.row_range.start < target.row_range.start { origin.row_range.start } else { target.row_range.start },
            row_end: if origin.row_range.start > target.row_range.start { origin.row_range.start } else { target.row_range.start },
            column_start: if origin.column < target.column { origin.column } else { target.column },
            column_end: if origin.column > target.column { origin.column } else { target.column },
        })
    }
}

/// The caret's search passes over segments that end before it.
proof fn lemma_source_from_passes(segments: Seq<LineSegmentSnapshot>, i: int, offset: int, line_end: int)
    requires
        0 <= i <= segments.len(),
        forall|j: int|
            0 <= j < i ==> (#[trigger] segments[j]).visible_range.start <= segments[j].visible_range.end < offset,
    ensures
        source_from(segments, 0, offset, line_end) == source_from(segments, i, offset, line_end),
    decreases i,
{
    if i > 0 {
        lemma_source_from_passes(segments, i - 1, offset, line_end);
        assert(segments[i - 1].visible_range.start <= segments[i - 1].visible_range.end < offset);
    }
}

/// A rendered caret within segment `i` (every earlier segment ending before it) maps
/// to the source like this: at the segment's start, before its opening markers when
/// the segment uses outer caret edges and after them otherwise; inside, the same
/// distance into the segment's source; at its end, after its closing markers when it
/// uses outer caret edges and before them otherwise, unless the next segment starts
/// right there, in which case the caret goes to that segment's start.
pub proof fn law_source_caret_in_segment(segments: Seq<LineSegmentSnapshot>, i: int, offset: int, line_end: int)
    requires
        0 <= i < segments.len(),
        forall|j: int|
            0 <= j < i ==> (#[trigger] segments[j]).visible_range.start <= segments[j].visible_range.end < offset,
        segments[i].visible_range.start <= offset <= segments[i].visible_range.end,
    ensures
        ({
            let s = segments[i];
            let r = source_from(segments, 0, offset, line_end);
            let next_adjacent = i + 1 < segments.len() && segments[i + 1].visible_range.start == offset;
            &&& offset == s.visible_range.start && s.uses_outer_caret_edges ==> r == s.source_outer_range.start
            &&& offset == s.visible_range.start && !s.uses_outer_caret_edges ==> r == s.source_range.start
            &&& s.visible_range.start < offset < s.visible_range.end ==> r == s.source_range.start + (offset
                - s.visible_range.start)
            &&& s.visible_range.start < offset == s.visible_range.end && !next_adjacent && s.uses_outer_caret_edges
                ==> r == s.source_outer_range.end
            &&& s.visible_range.start < offset == s.visible_range.end && !next_adjacent && !s.uses_outer_caret_edges
                ==> r == s.source_range.end
            &&& s.visible_range.start < offset == s.visible_range.end && next_adjacent
                && segments[i + 1].uses_outer_caret_edges ==> r == segments[i + 1].source_outer_range.start
            &&& s.visible_range.start < offset == s.visible_range.end && next_adjacent
                && !segments[i + 1].uses_outer_caret_edges ==> r == segments[i + 1].source_range.start
        }),
{
    lemma_source_from_passes(segments, i, offset, line_end);
}

/// A rendered caret before segment `i`, after every earlier segment, lands before that
/// segment's opening markers; a caret after every segment lands at the end of the line.
pub proof fn law_source_caret_between_segments(segments: Seq<LineSegmentSnapshot>, i: int, offset: int, line_end: int)
    requires
        0 <= i <= segments.len(),
        forall|j: int|
            0 <= j < i ==> (#[trigger] segments[j]).visible_range.start <= segments[j].visible_range.end < offset,
        i < segments.len() ==> offset < segments[i].visible_range.start,
    ensures
        i < segments.len() ==> source_from(segments, 0, offset, line_end) == segments[i].source_outer_range.start,
        i == segments.len() ==> source_from(segments, 0, offset, line_end) == line_end,
{
    lemma_source_from_passes(segments, i, offset, line_end);
}

/// The rendered-offset search passes over segments whose markers end before it.
proof fn lemma_visible_from_passes(segments: Seq<LineSegmentSnapshot>, i: int, offset: int, visible_len: int)
    requires
        0 <= i <= segments.len(),
        forall|j: int|
            0 <= j < i ==> (#[trigger] segments[j]).source_outer_range.start <= segments[j].source_outer_range.end
                < offset,
    ensures
        visible_from(segments, 0, offset, visible_len) == visible_from(segments, i, offset, visible_len),
    decreases i,
{
    if i > 0 {
        lemma_visible_from_passes(segments, i - 1, offset, visible_len);
        assert(segments[i - 1].source_outer_range.start <= segments[i - 1].source_outer_range.end < offset);
    }
}

/// A source offset maps to the rendered text through the first segment whose markers
/// do not end before it: before that segment or within its opening markers, to the
/// segment's rendered start; within its source, the same distance into its rendered
/// text; within its closing markers, to its rendered end (its source lying within its
/// markers). Past every segment it maps to the end of the rendered text.
pub proof fn law_visible_offset_in_segment(segments: Seq<LineSegmentSnapshot>, i: int, offset: int, visible_len: int)
    requires
        0 <= i <= segments.len(),
        forall|j: int|
            0 <= j < i ==> (#[trigger] segments[j]).source_outer_range.start <= segments[j].source_outer_range.end
                < offset,
        i < segments.len() ==> offset <= segments[i].source_outer_range.end,
        i < segments.len() ==> segments[i].source_outer_range.start <= segments[i].source_range.start
            <= segments[i].source_range.end <= segments[i].source_outer_range.end,
    ensures
        ({
            let r = visible_from(segments, 0, offset, visible_len);
            let s = segments[i];
            &&& i == segments.len() ==> r == visible_len
            &&& i < segments.len() && offset < s.source_range.start ==> r == s.visible_range.start
            &&& i < segments.len() && s.source_range.start <= offset <= s.source_range.end ==> r
                == s.visible_range.start + (offset - s.source_range.start)
            &&& i < segments.len() && s.source_range.end < offset ==> r == s.visible_range.end
        }),
{
    lemma_visible_from_passes(segments, i, offset, visible_len);
}

/// Whether `range` holds `offset`, both ends included.
pub open spec fn holds(range: TextRange, offset: int) -> bool {
    range.start <= offset && offset <= range.end
}

proof fn lemma_first_from_at(ranges: Seq<TextRange>, offset: int, containing: bool, i: int, k: int)
    requires
        0 <= i <= k < ranges.len(),
        containing ==> holds(ranges[k], offset),
        !containing ==> offset < ranges[k].start,
        forall|j: int| i <= j < k ==> containing ==> !holds(#[trigger] ranges[j], offset),
        forall|j: int| i <= j < k ==> !containing ==> offset >= (#[trigger] ranges[j]).start,
    ensures
        first_from(ranges, offset, containing, i) == Some(k),
    decreases k - i,
{
    if i < k {
        lemma_first_from_at(ranges, offset, containing, i + 1, k);
    }
}

proof fn lemma_first_from_none(ranges: Seq<TextRange>, offset: int, containing: bool, i: int)
    requires
        0 <= i <= ranges.len(),
        forall|j: int| i <= j < ranges.len() ==> containing ==> !holds(#[trigger] ranges[j], offset),
        forall|j: int| i <= j < ranges.len() ==> !containing ==> offset >= (#[trigger] ranges[j]).start,
    ensures
        first_from(ranges, offset, containing, i) is None,
    decreases ranges.len() - i,
{
    if i < ranges.len() {
        lemma_first_from_none(ranges, offset, containing, i + 1);
    }
}

/// The piece that holds a source offset is the first whose range contains it, both
/// ends included.
pub proof fn law_piece_is_first_holding(ranges: Seq<TextRange>, offset: int, k: int)
    requires
        0 <= k < ranges.len(),
        holds(ranges[k], offset),
        forall|j: int| 0 <= j < k ==> !holds(#[trigger] ranges[j], offset),
    ensures
        piece_for_offset(ranges, offset) == Some(k),
{
    lemma_first_from_at(ranges, offset, true, 0, k);
}

/// When no piece contains the offset, it is the first piece that starts after it, or
/// else the last piece; there is none only when there are no pieces.
pub proof fn law_piece_when_none_holds(ranges: Seq<TextRange>, offset: int, k: int)
    requires
        forall|j: int| 0 <= j < ranges.len() ==> !holds(#[trigger] ranges[j], offset),
    ensures
        0 <= k < ranges.len() && offset < ranges[k].start && (forall|j: int|
            0 <= j < k ==> offset >= (#[trigger] ranges[j]).start) ==> piece_for_offset(ranges, offset) == Some(k),
        (forall|j: int| 0 <= j < ranges.len() ==> offset >= (#[trigger] ranges[j]).start) ==> piece_for_offset(
            ranges,
            offset,
        ) == (if ranges.len() > 0 {
            Some(ranges.len() - 1)
        } else {
            None
        }),
{
    lemma_first_from_none(ranges, offset, true, 0);
    if 0 <= k < ranges.len() && offset < ranges[k].start && (forall|j: int|
        0 <= j < k ==> offset >= (#[trigger] ranges[j]).start) {
        lemma_first_from_at(ranges, offset, false, 0, k);
    }
    if forall|j: int| 0 <= j < ranges.len() ==> offset >= (#[trigger] ranges[j]).start {
        lemma_first_from_none(ranges, offset, false, 0);
    }
}

} // verus!
