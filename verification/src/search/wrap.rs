//! Rows that are broken over several lines of the screen.
use vstd::prelude::*;

verus! {

/// One line of the screen: the row that it is a part of, and the bytes of the
/// row's texts that it shows, in each column.
#[derive(Clone, Copy, Debug, PartialEq, Eq, Structural)]
pub struct DiffWrapVisualRow {
    pub source_visible_ix: usize,
    pub primary_start: usize,
    pub primary_end: usize,
    pub secondary_start: usize,
    pub secondary_end: usize,
}

impl DiffWrapVisualRow {
    pub open spec fn start(&self, column: int) -> usize {
        if column == 0 {
            self.primary_start
        } else {
            self.secondary_start
        }
    }

    pub open spec fn end(&self, column: int) -> usize {
        if column == 0 {
            self.primary_end
        } else {
            self.secondary_end
        }
    }

    /// The line shows a byte of the row, or is empty there.
    pub open spec fn shows(&self, column: int, offset: int) -> bool {
        (self.start(column) <= offset && offset < self.end(column)) || (self.start(column)
            == self.end(column) && offset == self.start(column))
    }
}

/// The lines of the screen follow the rows.
pub open spec fn lines_follow_rows(lines: Seq<DiffWrapVisualRow>) -> bool {
    forall|i: int, j: int|
        0 <= i <= j < lines.len() ==> (#[trigger] lines[i]).source_visible_ix <= (
        #[trigger] lines[j]).source_visible_ix
}

pub open spec fn line_holds(
    lines: Seq<DiffWrapVisualRow>,
    source: int,
    column: int,
    offset: int,
    ix: int,
) -> bool {
    0 <= ix < lines.len() && lines[ix].source_visible_ix == source && lines[ix].shows(
        column,
        offset,
    )
}

pub open spec fn line_ends(
    lines: Seq<DiffWrapVisualRow>,
    source: int,
    column: int,
    offset: int,
    ix: int,
) -> bool {
    0 <= ix < lines.len() && lines[ix].source_visible_ix == source && lines[ix].end(column)
        == offset
}

pub open spec fn line_of(lines: Seq<DiffWrapVisualRow>, source: int, ix: int) -> bool {
    0 <= ix < lines.len() && lines[ix].source_visible_ix == source
}

/// The line of the screen for a byte of a row: the first line that shows it, else
/// the last one that ends there, else the row's first line. A row without lines
/// is a line itself.
pub open spec fn is_visual_row(
    lines: Seq<DiffWrapVisualRow>,
    source: int,
    column: int,
    offset: int,
    ix: int,
) -> bool {
    if exists|k: int| #[trigger] line_holds(lines, source, column, offset, k) {
        line_holds(lines, source, column, offset, ix) && forall|k: int|
            #[trigger] line_holds(lines, source, column, offset, k) ==> ix <= k
    } else if exists|k: int| #[trigger] line_ends(lines, source, column, offset, k) {
        line_ends(lines, source, column, offset, ix) && forall|k: int|
            #[trigger] line_ends(lines, source, column, offset, k) ==> k <= ix
    } else if exists|k: int| #[trigger] line_of(lines, source, k) {
        line_of(lines, source, ix) && forall|k: int|
            #[trigger] line_of(lines, source, k) ==> ix <= k
    } else {
        ix == source
    }
}

/// The first line of the screen that is not above a row.
fn first_line(lines: &[DiffWrapVisualRow], source: usize) -> (first: usize)
    requires
        lines_follow_rows(lines@),
    ensures
        first <= lines@.len(),
        forall|i: int| 0 <= i < first ==> (#[trigger] lines@[i]).source_visible_ix < source,
        forall|i: int|
            first <= i < lines@.len() ==> (#[trigger] lines@[i]).source_visible_ix >= source,
{
    let mut low: usize = 0;
    let mut high: usize = lines.len();
    while low < high
        invariant
            0 <= low <= high <= lines@.len(),
            lines_follow_rows(lines@),
            forall|i: int| 0 <= i < low ==> (#[trigger] lines@[i]).source_visible_ix < source,
            forall|i: int|
                high <= i < lines@.len() ==> (#[trigger] lines@[i]).source_visible_ix >= source,
        decreases high - low,
    {
        let middle = low + (high - low) / 2;
        if lines[middle].source_visible_ix < source {
            assert forall|i: int| 0 <= i < middle + 1 implies (
            #[trigger] lines@[i]).source_visible_ix < source by {
                assert(lines@[i].source_visible_ix <= lines@[middle as int].source_visible_ix);
            }
            low = middle + 1;
        } else {
            assert forall|i: int| middle <= i < lines@.len() implies (
            #[trigger] lines@[i]).source_visible_ix >= source by {
                assert(lines@[middle as int].source_visible_ix <= lines@[i].source_visible_ix);
            }
            high = middle;
        }
    }
    low
}

/// The line of the screen for a byte of a row.
pub fn visual_row(lines: &[DiffWrapVisualRow], source: usize, column: usize, offset: usize) -> (ix:
    usize)
    requires
        lines_follow_rows(lines@),
    ensures
        is_visual_row(lines@, source as int, column as int, offset as int, ix as int),
{
    let first = first_line(lines, source);
    let len = lines.len();
    let mut boundary: Option<usize> = None;
    let mut ix = first;
    while ix < len && lines[ix].source_visible_ix == source
        invariant
            lines_follow_rows(lines@),
            len == lines@.len(),
            first <= ix <= len,
            forall|i: int| 0 <= i < first ==> (#[trigger] lines@[i]).source_visible_ix < source,
            forall|i: int| first <= i < ix ==> (#[trigger] lines@[i]).source_visible_ix == source,
            forall|k: int|
                k < ix ==> !#[trigger] line_holds(
                    lines@,
                    source as int,
                    column as int,
                    offset as int,
                    k,
                ),
            match boundary {
                Some(at) => at < ix && line_ends(
                    lines@,
                    source as int,
                    column as int,
                    offset as int,
                    at as int,
                ) && forall|k: int|
                    at < k < ix ==> !#[trigger] line_ends(
                        lines@,
                        source as int,
                        column as int,
                        offset as int,
                        k,
                    ),
                None => forall|k: int|
                    k < ix ==> !#[trigger] line_ends(
                        lines@,
                        source as int,
                        column as int,
                        offset as int,
                        k,
                    ),
            },
        decreases len - ix,
    {
        let line = lines[ix];
        let (start, end) = if column == 0 {
            (line.primary_start, line.primary_end)
        } else {
            (line.secondary_start, line.secondary_end)
        };
        assert(start == lines@[ix as int].start(column as int));
        assert(end == lines@[ix as int].end(column as int));
        if (start <= offset && offset < end) || (start == end && offset == start) {
            assert(line_holds(lines@, source as int, column as int, offset as int, ix as int));
            return ix;
        }
        if offset == end {
            boundary = Some(ix);
            assert(line_ends(lines@, source as int, column as int, offset as int, ix as int));
        }
        ix += 1;
    }
    proof {
        assert forall|k: int| ix <= k implies !#[trigger] line_of(lines@, source as int, k) by {
            if line_of(lines@, source as int, k) {
                assert(lines@[ix as int].source_visible_ix <= lines@[k].source_visible_ix);
                assert(lines@[ix as int].source_visible_ix >= source);
            }
        }
        assert forall|k: int| !#[trigger] line_holds(
            lines@,
            source as int,
            column as int,
            offset as int,
            k,
        ) by {
            if ix <= k && line_holds(lines@, source as int, column as int, offset as int, k) {
                assert(line_of(lines@, source as int, k));
            }
        }
        assert forall|k: int| ix <= k implies !#[trigger] line_ends(
            lines@,
            source as int,
            column as int,
            offset as int,
            k,
        ) by {
            if line_ends(lines@, source as int, column as int, offset as int, k) {
                assert(line_of(lines@, source as int, k));
            }
        }
    }
    match boundary {
        Some(at) => at,
        None => {
            if first < ix {
                assert(line_of(lines@, source as int, first as int));
                first
            } else {
                assert forall|k: int| !#[trigger] line_of(lines@, source as int, k) by {
                    if line_of(lines@, source as int, k) {
                        assert(lines@[k].source_visible_ix == source);
                    }
                }
                source
            }
        },
    }
}

/// The line of the screen for a match in a row; the row itself where rows are
/// not broken.
pub fn diff_search_visual_ix_for_source_match(
    wrapped: bool,
    lines: &[DiffWrapVisualRow],
    source_visible_ix: usize,
    column: usize,
    offset: usize,
) -> (ix: usize)
    requires
        lines_follow_rows(lines@),
    ensures
        !wrapped ==> ix == source_visible_ix,
        wrapped ==> is_visual_row(
            lines@,
            source_visible_ix as int,
            column as int,
            offset as int,
            ix as int,
        ),
{
    if !wrapped {
        return source_visible_ix;
    }
    visual_row(lines, source_visible_ix, column, offset)
}

/// Every byte of a row has one line of the screen.
pub proof fn law_one_visual_row(
    lines: Seq<DiffWrapVisualRow>,
    source: int,
    column: int,
    offset: int,
    a: int,
    b: int,
)
    requires
        is_visual_row(lines, source, column, offset, a),
        is_visual_row(lines, source, column, offset, b),
    ensures
        a == b,
{
}

} // verus!
