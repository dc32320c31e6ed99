//! What a folded diff is for: which rows it shows, and what revealing does.
use super::collapsed::expansion_kind;
use super::collapsed::file_rows;
use super::collapsed::gap_bottom;
use super::collapsed::gap_top;
use super::collapsed::hidden_down;
use super::collapsed::hidden_up;
use super::collapsed::hunk_body_end;
use super::collapsed::hunk_has;
use super::collapsed::hunk_rows;
use super::collapsed::initial_hunks;
use super::collapsed::joined;
use super::collapsed::line_bounds;
use super::collapsed::persisted;
use super::collapsed::range_rows;
use super::collapsed::revealed_down;
use super::collapsed::revealed_up;
use super::collapsed::rows_above_hunk;
use super::collapsed::rows_before_hunk;
use super::collapsed::rows_of_hunk;
use super::collapsed::same_identity;
use super::collapsed::trailing_end;
use super::collapsed::visible_rows;
use super::collapsed::CollapsedDiffExpansionKind;
use super::collapsed::CollapsedDiffHunk;
use super::collapsed::CollapsedDiffProjectionIdentity;
use super::collapsed::CollapsedDiffReveal;
use super::collapsed::CollapsedDiffSource;
use super::collapsed::CollapsedDiffVisibleRow;
use super::collapsed::ParsedHunkHeader;
use super::collapsed_laws::ordered_hunks;
use super::patch_rows::DiffLineKind;
use super::split_rows::DiffClickKind;
use vstd::prelude::*;

verus! {

/// Later lines of a file are on later rows.
pub open spec fn rows_grow_with_lines(map: Seq<Option<usize>>) -> bool {
    forall|i: int, j: int|
        0 <= i < j < map.len() && (#[trigger] map[i]) is Some && (#[trigger] map[j]) is Some
            ==> map[i]->Some_0 < map[j]->Some_0
}

/// Lines of a file, counted from 1, that are all on rows.
pub open spec fn lines_have_rows(map: Seq<Option<usize>>, start: int, count: int) -> bool {
    count > 0 ==> 1 <= start && start + count - 1 <= map.len() && start + count <= u32::MAX
        && forall|line: int|
        start <= line < start + count ==> (#[trigger] map[line - 1]) is Some && map[line
            - 1]->Some_0 < usize::MAX
}

/// A row holds one of the lines of a file.
pub open spec fn row_holds_line(map: Seq<Option<usize>>, start: int, count: int, row: int) -> bool {
    exists|line: int|
        start <= line < start + count && #[trigger] map[line - 1] == Some(row as usize) && row
            <= usize::MAX
}

/// The rows of a hunk are the least stretch with every row that one of its lines is
/// on, on either side: every such row lies within, and the first and the last row
/// within are such rows.
pub proof fn law_hunk_covers_its_lines(
    old_map: Seq<Option<usize>>,
    new_map: Seq<Option<usize>>,
    parsed: ParsedHunkHeader,
)
    requires
        rows_grow_with_lines(old_map),
        rows_grow_with_lines(new_map),
        lines_have_rows(old_map, parsed.old_start_line as int, parsed.old_line_count as int),
        lines_have_rows(new_map, parsed.new_start_line as int, parsed.new_line_count as int),
    ensures
        match hunk_rows(old_map, new_map, parsed) {
            Some((start, end)) => {
                &&& start < end
                &&& forall|line: int|
                    parsed.old_start_line <= line < parsed.old_start_line + parsed.old_line_count
                        ==> start <= (#[trigger] old_map[line - 1])->Some_0 < end
                &&& forall|line: int|
                    parsed.new_start_line <= line < parsed.new_start_line + parsed.new_line_count
                        ==> start <= (#[trigger] new_map[line - 1])->Some_0 < end
                &&& row_holds_line(
                    old_map,
                    parsed.old_start_line as int,
                    parsed.old_line_count as int,
                    start as int,
                ) || row_holds_line(
                    new_map,
                    parsed.new_start_line as int,
                    parsed.new_line_count as int,
                    start as int,
                )
                &&& row_holds_line(
                    old_map,
                    parsed.old_start_line as int,
                    parsed.old_line_count as int,
                    end - 1,
                ) || row_holds_line(
                    new_map,
                    parsed.new_start_line as int,
                    parsed.new_line_count as int,
                    end - 1,
                )
            },
            None => parsed.old_line_count == 0 && parsed.new_line_count == 0,
        },
{
    let old_first = parsed.old_start_line as int;
    let old_last = parsed.old_start_line + parsed.old_line_count - 1;
    let new_first = parsed.new_start_line as int;
    let new_last = parsed.new_start_line + parsed.new_line_count - 1;
    if parsed.old_line_count > 0 {
        assert(old_map[old_first - 1] is Some);
        assert(old_map[old_last - 1] is Some);
        assert(old_map[old_first - 1]->Some_0 <= old_map[old_last - 1]->Some_0);
    }
    if parsed.new_line_count > 0 {
        assert(new_map[new_first - 1] is Some);
        assert(new_map[new_last - 1] is Some);
        assert(new_map[new_first - 1]->Some_0 <= new_map[new_last - 1]->Some_0);
    }
}

proof fn lemma_contains_add(
    a: Seq<CollapsedDiffVisibleRow>,
    b: Seq<CollapsedDiffVisibleRow>,
    row: CollapsedDiffVisibleRow,
)
    ensures
        (a + b).contains(row) == (a.contains(row) || b.contains(row)),
{
    let both = a + b;
    if a.contains(row) {
        let i = choose|i: int| 0 <= i < a.len() && a[i] == row;
        assert(both[i] == row);
    }
    if b.contains(row) {
        let i = choose|i: int| 0 <= i < b.len() && b[i] == row;
        assert(both[a.len() + i] == row);
    }
    if both.contains(row) {
        let i = choose|i: int| 0 <= i < both.len() && both[i] == row;
        if i < a.len() {
            assert(a[i] == row);
        } else {
            assert(b[i - a.len()] == row);
        }
    }
}

proof fn lemma_contains_file_row(from: int, to: int, row_ix: usize)
    requires
        0 <= from,
        to <= usize::MAX,
    ensures
        file_rows(from, to).contains(CollapsedDiffVisibleRow::FileRow { row_ix }) == (from <= row_ix
            < to),
{
    let rows = file_rows(from, to);
    if from <= row_ix < to {
        assert(rows[row_ix - from] == CollapsedDiffVisibleRow::FileRow { row_ix });
    }
    if rows.contains(CollapsedDiffVisibleRow::FileRow { row_ix }) {
        let i = choose|i: int|
            0 <= i < rows.len() && rows[i] == (CollapsedDiffVisibleRow::FileRow { row_ix });
        assert(rows[i] == CollapsedDiffVisibleRow::FileRow { row_ix: (from + i) as usize });
    }
}

/// A row of the file belongs to a hunk, or is revealed in the gap above it: from below
/// by the hunk, or from above by the hunk before it.
pub open spec fn shown_with(hunks: Seq<CollapsedDiffHunk>, i: int, row: int) -> bool {
    let hunk = hunks[i];
    let gap_start: int = if i == 0 {
        0
    } else {
        hunks[i - 1].base_row_end_exclusive as int
    };
    ||| hunk.base_row_start <= row < hunk.base_row_end_exclusive
    ||| gap_start <= row < hunk.base_row_start && row + hunk.reveal_up_lines >= hunk.base_row_start
    ||| i > 0 && gap_start <= row < hunk.base_row_start && row < gap_start + hunks[i
        - 1].reveal_down_lines
}

proof fn lemma_shown_above(
    hunks: Seq<CollapsedDiffHunk>,
    total_rows: int,
    n: int,
    row_ix: usize,
)
    requires
        ordered_hunks(hunks, total_rows),
        0 <= n <= hunks.len(),
    ensures
        rows_above_hunk(hunks, n).contains(CollapsedDiffVisibleRow::FileRow { row_ix }) == (exists|
            i: int,
        |
            0 <= i < n && #[trigger] shown_with(hunks, i, row_ix as int)),
    decreases n,
{
    let row = CollapsedDiffVisibleRow::FileRow { row_ix };
    if n > 0 {
        let i = n - 1;
        lemma_shown_above(hunks, total_rows, i, row_ix);
        let above = rows_above_hunk(hunks, i);
        let before = rows_before_hunk(hunks, i);
        let own = rows_of_hunk(hunks, i);
        lemma_contains_add(above + before, own, row);
        lemma_contains_add(above, before, row);
        let hunk = hunks[i];
        let top = gap_top(hunks, i);
        let bottom = gap_bottom(hunks, i);
        if i > 0 {
            assert(hunks[i - 1].base_row_end_exclusive <= hunks[i].base_row_start);
        }
        let body = file_rows(hunk.base_row_start as int, hunk.base_row_end_exclusive as int);
        lemma_contains_file_row(top.0, top.1, row_ix);
        lemma_contains_file_row(bottom.0, bottom.1, row_ix);
        lemma_contains_file_row(
            hunk.base_row_start as int,
            hunk.base_row_end_exclusive as int,
            row_ix,
        );
        lemma_contains_add(range_rows(top), range_rows(bottom), row);
        if expansion_kind(hunks, i) != CollapsedDiffExpansionKind::Nothing {
            let header = own[0];
            let headed = seq![header];
            assert(header is HunkHeader);
            assert(!headed.contains(row)) by {
                if headed.contains(row) {
                    let k = choose|k: int| 0 <= k < headed.len() && headed[k] == row;
                    assert(headed[k] == header);
                }
            }
            lemma_contains_add(headed, range_rows(bottom), row);
            lemma_contains_add(headed + range_rows(bottom), body, row);
            assert(own =~= headed + range_rows(bottom) + body);
        }
        assert((before + own).contains(row) == shown_with(hunks, i, row_ix as int)) by {
            lemma_contains_add(before, own, row);
        }
        if exists|k: int| 0 <= k < n && #[trigger] shown_with(hunks, k, row_ix as int) {
            let k = choose|k: int| 0 <= k < n && #[trigger] shown_with(hunks, k, row_ix as int);
            if k < i {
                assert(above.contains(row));
            }
        }
    }
}

/// A row of the file is shown just where it lies in a hunk, or not further from one
/// than what was revealed there, with no other hunk in between.
pub proof fn law_shown_rows_are_near_hunks(
    hunks: Seq<CollapsedDiffHunk>,
    total_rows: int,
    row_ix: usize,
)
    requires
        ordered_hunks(hunks, total_rows),
        hunks.len() > 0,
        row_ix < total_rows,
    ensures
        visible_rows(hunks, total_rows).contains(CollapsedDiffVisibleRow::FileRow { row_ix }) == ((
        exists|i: int| 0 <= i < hunks.len() && #[trigger] shown_with(hunks, i, row_ix as int)) || (
        hunks.last().base_row_end_exclusive <= row_ix < hunks.last().base_row_end_exclusive
            + hunks.last().reveal_down_lines)),
{
    let row = CollapsedDiffVisibleRow::FileRow { row_ix };
    let n = hunks.len() as int;
    let last = hunks[n - 1];
    let above = rows_above_hunk(hunks, n);
    let end = last.base_row_end_exclusive as int;
    let trailing = file_rows(end, trailing_end(last, total_rows));
    lemma_shown_above(hunks, total_rows, n, row_ix);
    lemma_contains_file_row(end, trailing_end(last, total_rows), row_ix);
    lemma_contains_add(above, trailing, row);
    let rows = visible_rows(hunks, total_rows);
    let hidden = hidden_down(hunks, n - 1, total_rows);
    if hidden > 0 {
        let header = rows.last();
        let headed = seq![header];
        assert(header is HunkHeader);
        assert(!headed.contains(row)) by {
            if headed.contains(row) {
                let k = choose|k: int| 0 <= k < headed.len() && headed[k] == row;
                assert(headed[k] == header);
            }
        }
        lemma_contains_add(above + trailing, headed, row);
        assert(rows =~= above + trailing + headed);
    } else {
        assert(rows =~= above + trailing);
    }
}

/// The rows that are hidden above a hunk are those of the gap that neither neighbour
/// reveals, and those hidden below the last hunk are the rest of the file.
pub proof fn law_hidden_rows_are_the_unrevealed(
    hunks: Seq<CollapsedDiffHunk>,
    total_rows: int,
    i: int,
)
    requires
        ordered_hunks(hunks, total_rows),
        0 <= i < hunks.len(),
    ensures
        ({
            let gap_start: int = if i == 0 {
                0
            } else {
                hunks[i - 1].base_row_end_exclusive as int
            };
            let from_above: int = if i == 0 {
                0
            } else {
                hunks[i - 1].reveal_down_lines as int
            };
            let left = hunks[i].base_row_start - gap_start - from_above - hunks[i].reveal_up_lines;
            let rest = total_rows - hunks[i].base_row_end_exclusive - hunks[i].reveal_down_lines;
            &&& left > 0 ==> hidden_up(hunks, i) == left
            &&& left <= 0 ==> hidden_up(hunks, i) == 0
            &&& i + 1 == hunks.len() && rest > 0 ==> hidden_down(hunks, i, total_rows) == rest
            &&& i + 1 == hunks.len() && rest <= 0 ==> hidden_down(hunks, i, total_rows) == 0
            &&& i + 1 < hunks.len() ==> hidden_down(hunks, i, total_rows) == hidden_up(hunks, i + 1)
        }),
{
    if i > 0 {
        assert(hunks[i - 1].base_row_end_exclusive <= hunks[i].base_row_start);
    }
}

/// A hunk has a header above it just where rows are hidden there. It offers what can
/// be done: reveal from below at the top of the file, all at once where that takes no
/// more than one step, and from either end otherwise.
pub proof fn law_header_offers_what_is_hidden(hunks: Seq<CollapsedDiffHunk>, i: int)
    requires
        0 <= i < hunks.len(),
        hidden_up(hunks, i) <= usize::MAX,
    ensures
        ({
            let hidden = hidden_up(hunks, i);
            let rows = rows_of_hunk(hunks, i);
            &&& hidden == 0 ==> forall|k: int| 0 <= k < rows.len() ==> (#[trigger] rows[k]) is FileRow
            &&& hidden > 0 ==> rows.len() > 0 && rows[0] == (CollapsedDiffVisibleRow::HunkHeader {
                src_ix: hunks[i].src_ix,
                expansion_kind: if i == 0 {
                    CollapsedDiffExpansionKind::Up
                } else if hidden <= 20 {
                    CollapsedDiffExpansionKind::Short
                } else {
                    CollapsedDiffExpansionKind::Both
                },
                display_src_ix: Some(hunks[i].src_ix),
                hidden_rows: hidden as usize,
            })
        }),
{
}

/// Where rows are hidden below the last hunk, a header at the very end says how many
/// and offers to reveal them.
pub proof fn law_hidden_end_has_a_header(hunks: Seq<CollapsedDiffHunk>, total_rows: int)
    requires
        ordered_hunks(hunks, total_rows),
        hunks.len() > 0,
    ensures
        ({
            let last = hunks.last();
            let rest = total_rows - last.base_row_end_exclusive - last.reveal_down_lines;
            let rows = visible_rows(hunks, total_rows);
            &&& rows.len() > 0
            &&& rest > 0 ==> rows.last() == (CollapsedDiffVisibleRow::HunkHeader {
                src_ix: last.src_ix,
                expansion_kind: CollapsedDiffExpansionKind::Down,
                display_src_ix: None,
                hidden_rows: rest as usize,
            })
            &&& rest <= 0 ==> rows.last() == (CollapsedDiffVisibleRow::FileRow {
                row_ix: (total_rows - 1) as usize,
            })
        }),
{
    let n = hunks.len() as int;
    let last = hunks[n - 1];
    law_hidden_rows_are_the_unrevealed(hunks, total_rows, n - 1);
    let own = rows_of_hunk(hunks, n - 1);
    let body = file_rows(last.base_row_start as int, last.base_row_end_exclusive as int);
    assert(body.len() > 0);
    assert(own.last() == body.last());
    assert(rows_above_hunk(hunks, n).last() == own.last());
}

/// Revealing above a hunk shows up to so many rows more there, as many as there are,
/// and leaves every other hunk as it is; a gap that is shown whole makes one hunk of
/// its two.
pub proof fn law_revealing_up_moves_the_edge(
    hunks: Seq<CollapsedDiffHunk>,
    total_rows: int,
    i: int,
    limit: int,
)
    requires
        ordered_hunks(hunks, total_rows),
        0 <= i < hunks.len(),
        0 < limit <= usize::MAX,
        hidden_up(hunks, i) > 0,
    ensures
        ({
            let hidden = hidden_up(hunks, i);
            let after = revealed_up(hunks, i, limit);
            if i > 0 && hidden <= limit {
                &&& after.len() == hunks.len() - 1
                &&& after[i - 1].base_row_start == hunks[i - 1].base_row_start
                &&& after[i - 1].base_row_end_exclusive == hunks[i].base_row_end_exclusive
                &&& after[i - 1].src_ix == hunks[i - 1].src_ix
                &&& after[i - 1].reveal_up_lines == hunks[i - 1].reveal_up_lines
                &&& after[i - 1].reveal_down_lines == hunks[i].reveal_down_lines
                &&& forall|k: int| 0 <= k < i - 1 ==> #[trigger] after[k] == hunks[k]
                &&& forall|k: int| i <= k < after.len() ==> #[trigger] after[k] == hunks[k + 1]
            } else {
                &&& after.len() == hunks.len()
                &&& after[i] == CollapsedDiffHunk {
                    reveal_up_lines: (hunks[i].reveal_up_lines + (if hidden <= limit {
                        hidden
                    } else {
                        limit
                    })) as usize,
                    ..hunks[i]
                }
                &&& hunks[i].reveal_up_lines + (if hidden <= limit {
                    hidden
                } else {
                    limit
                }) <= usize::MAX
                &&& forall|k: int| 0 <= k < after.len() && k != i ==> #[trigger] after[k] == hunks[k]
            }
        }),
{
    if i > 0 {
        assert(hunks[i - 1].base_row_end_exclusive <= hunks[i].base_row_start);
    }
}

/// Revealing below a hunk shows up to one step of rows more there.
pub proof fn law_revealing_down_moves_the_edge(
    hunks: Seq<CollapsedDiffHunk>,
    total_rows: int,
    i: int,
)
    requires
        ordered_hunks(hunks, total_rows),
        0 <= i < hunks.len(),
        hidden_down(hunks, i, total_rows) > 0,
    ensures
        ({
            let hidden = hidden_down(hunks, i, total_rows);
            let after = revealed_down(hunks, i, total_rows);
            if i + 1 < hunks.len() && hidden <= 20 {
                &&& after.len() == hunks.len() - 1
                &&& after[i].base_row_start == hunks[i].base_row_start
                &&& after[i].base_row_end_exclusive == hunks[i + 1].base_row_end_exclusive
                &&& after[i].src_ix == hunks[i].src_ix
                &&& after[i].reveal_up_lines == hunks[i].reveal_up_lines
                &&& after[i].reveal_down_lines == hunks[i + 1].reveal_down_lines
                &&& forall|k: int| 0 <= k < i ==> #[trigger] after[k] == hunks[k]
                &&& forall|k: int| i < k < after.len() ==> #[trigger] after[k] == hunks[k + 1]
            } else {
                &&& after.len() == hunks.len()
                &&& after[i] == CollapsedDiffHunk {
                    reveal_down_lines: (hunks[i].reveal_down_lines + (if hidden <= 20 {
                        hidden
                    } else {
                        20
                    })) as usize,
                    ..hunks[i]
                }
                &&& hunks[i].reveal_down_lines + (if hidden <= 20 {
                    hidden
                } else {
                    20
                }) <= usize::MAX
                &&& forall|k: int| 0 <= k < after.len() && k != i ==> #[trigger] after[k] == hunks[k]
            }
        }),
{
    if i + 1 < hunks.len() {
        assert(hunks[i].base_row_end_exclusive <= hunks[i + 1].base_row_start);
    }
}

/// A joined hunk adds lines where either part does, and removes some where either does.
pub proof fn law_joined_hunk_has_both_parts_changes(
    upper: CollapsedDiffHunk,
    lower: CollapsedDiffHunk,
)
    ensures
        joined(upper, lower).has_additions == (upper.has_additions || lower.has_additions),
        joined(upper, lower).has_removals == (upper.has_removals || lower.has_removals),
        joined(upper, lower).base_row_start == upper.base_row_start,
        joined(upper, lower).base_row_end_exclusive == lower.base_row_end_exclusive,
{
}

/// The body of a hunk reaches from its header to the next header or the end of the
/// patch.
pub proof fn law_hunk_reaches_to_the_next_header(source: CollapsedDiffSource, from: int, end: int)
    requires
        0 <= from <= end <= source.patch_len <= source.click_kinds@.len(),
        forall|k: int|
            from <= k < end ==> #[trigger] source.click_kinds@[k] == DiffClickKind::Line,
        end < source.patch_len ==> source.click_kinds@[end] != DiffClickKind::Line,
    ensures
        hunk_body_end(source, from) == end,
    decreases end - from,
{
    if from < end {
        assert(source.click_kinds@[from] == DiffClickKind::Line);
        law_hunk_reaches_to_the_next_header(source, from + 1, end);
    }
}

/// A hunk changes something of a kind just where one of its lines is shown so.
pub proof fn law_hunk_summary_is_of_its_lines(
    source: CollapsedDiffSource,
    src_ix: int,
    end: int,
    kind: DiffLineKind,
)
    requires
        0 <= src_ix < end <= source.patch_len <= source.click_kinds@.len(),
        source.patch_len <= source.visual_line_kinds@.len(),
        forall|k: int|
            src_ix < k < end ==> #[trigger] source.click_kinds@[k] == DiffClickKind::Line,
        end < source.patch_len ==> source.click_kinds@[end] != DiffClickKind::Line,
    ensures
        hunk_has(source, src_ix, kind) == (exists|k: int|
            src_ix < k < end && #[trigger] source.visual_line_kinds@[k] == kind),
{
    law_hunk_reaches_to_the_next_header(source, src_ix + 1, end);
    if exists|k: int| src_ix < k < end && #[trigger] source.visual_line_kinds@[k] == kind {
        let k = choose|k: int| src_ix < k < end && #[trigger] source.visual_line_kinds@[k] == kind;
        assert(super::collapsed::visual_kind_at(source, k) == kind);
    }
}

/// The hunks come in the order of the patch, each opened by a line that is a header of
/// one with a range, and each with what was revealed of it before.
pub proof fn law_hunks_are_those_of_the_patch(
    source: CollapsedDiffSource,
    reveals: Map<usize, CollapsedDiffReveal>,
    n: int,
)
    requires
        0 <= n <= source.patch_len,
        source.patch_len <= source.click_kinds@.len(),
    ensures
        ({
            let hunks = initial_hunks(source, reveals, n);
            &&& forall|i: int| 0 <= i < hunks.len() ==> (#[trigger] hunks[i]).src_ix < n
            &&& forall|i: int, j: int|
                0 <= i < j < hunks.len() ==> (#[trigger] hunks[i]).src_ix < (
                #[trigger] hunks[j]).src_ix
            &&& forall|i: int|
                0 <= i < hunks.len() ==> {
                    let hunk = #[trigger] hunks[i];
                    let src = hunk.src_ix as int;
                    &&& source.click_kinds@[src] == DiffClickKind::HunkHeader
                    &&& src < source.headers@.len()
                    &&& source.headers@[src] is Some
                    &&& hunk_rows(
                        source.old_line_to_row@,
                        source.new_line_to_row@,
                        source.headers@[src]->Some_0,
                    ) == Some((hunk.base_row_start, hunk.base_row_end_exclusive))
                    &&& hunk.has_additions == hunk_has(source, src, DiffLineKind::Add)
                    &&& hunk.has_removals == hunk_has(source, src, DiffLineKind::Remove)
                    &&& hunk.reveal_up_lines == (if reveals.dom().contains(hunk.src_ix) {
                        reveals[hunk.src_ix].up_lines
                    } else {
                        0
                    })
                    &&& hunk.reveal_down_lines == (if reveals.dom().contains(hunk.src_ix) {
                        reveals[hunk.src_ix].down_lines
                    } else {
                        0
                    })
                }
            &&& forall|src: int|
                0 <= src < n && src < source.headers@.len() && #[trigger] source.click_kinds@[src]
                    == DiffClickKind::HunkHeader && source.headers@[src] is Some && hunk_rows(
                    source.old_line_to_row@,
                    source.new_line_to_row@,
                    source.headers@[src]->Some_0,
                ) is Some ==> exists|i: int| 0 <= i < hunks.len() && #[trigger] hunks[i].src_ix == src
        }),
    decreases n,
{
    if n > 0 {
        law_hunks_are_those_of_the_patch(source, reveals, n - 1);
        let before = initial_hunks(source, reveals, n - 1);
        let hunks = initial_hunks(source, reveals, n);
        assert forall|src: int|
            0 <= src < n && src < source.headers@.len() && #[trigger] source.click_kinds@[src]
                == DiffClickKind::HunkHeader && source.headers@[src] is Some && hunk_rows(
                source.old_line_to_row@,
                source.new_line_to_row@,
                source.headers@[src]->Some_0,
            ) is Some implies exists|i: int|
            0 <= i < hunks.len() && #[trigger] hunks[i].src_ix == src by {
            if src == n - 1 {
                assert(hunks[hunks.len() - 1].src_ix == src);
            } else {
                let i = choose|i: int| 0 <= i < before.len() && #[trigger] before[i].src_ix == src;
                assert(hunks[i] == before[i]);
            }
        }
    }
}

/// What was revealed around a hunk is what is remembered of it, and nothing else that
/// is remembered changes.
pub proof fn law_reveals_are_remembered(
    reveals: Map<usize, CollapsedDiffReveal>,
    hunk: CollapsedDiffHunk,
    other: usize,
)
    ensures
        ({
            let after = persisted(reveals, hunk);
            let up: usize = if after.dom().contains(hunk.src_ix) {
                after[hunk.src_ix].up_lines
            } else {
                0
            };
            let down: usize = if after.dom().contains(hunk.src_ix) {
                after[hunk.src_ix].down_lines
            } else {
                0
            };
            &&& up == hunk.reveal_up_lines
            &&& down == hunk.reveal_down_lines
            &&& other != hunk.src_ix ==> after.dom().contains(other) == reveals.dom().contains(other)
                && after[other] == reveals[other]
        }),
{
}

/// What is remembered belongs to one diff: any other repository, target, file, setting
/// or content is another one.
pub proof fn law_another_diff_is_another_projection(
    a: CollapsedDiffProjectionIdentity,
    b: CollapsedDiffProjectionIdentity,
)
    ensures
        same_identity(a, b) == (a.repo_id == b.repo_id && a.diff_target@ == b.diff_target@
            && a.file_path@ == b.file_path@ && a.diff_whitespace_mode == b.diff_whitespace_mode
            && a.patch_content_signature == b.patch_content_signature && a.file_content_signature
            == b.file_content_signature),
{
}

/// The line numbers of rows on one side lie between the bounds of the rows, and both
/// bounds are line numbers of rows.
pub proof fn law_line_bounds_are_the_least(
    lines: Seq<(Option<u32>, Option<u32>)>,
    old_side: bool,
    from: int,
    to: int,
)
    requires
        0 <= from <= to <= lines.len(),
    ensures
        ({
            let side = |row: int|
                if old_side {
                    lines[row].0
                } else {
                    lines[row].1
                };
            match line_bounds(lines, old_side, None, from, to) {
                Some((low, high)) => {
                    &&& forall|row: int|
                        from <= row < to && (#[trigger] side(row)) is Some ==> low <= side(row)->Some_0
                            <= high
                    &&& exists|row: int| from <= row < to && #[trigger] side(row) == Some(low)
                    &&& exists|row: int| from <= row < to && #[trigger] side(row) == Some(high)
                },
                None => forall|row: int| from <= row < to ==> (#[trigger] side(row)) is None,
            }
        }),
    decreases to - from,
{
    let side = |row: int|
        if old_side {
            lines[row].0
        } else {
            lines[row].1
        };
    if from < to {
        law_line_bounds_are_the_least(lines, old_side, from, to - 1);
        let last = side(to - 1);
        match line_bounds(lines, old_side, None, from, to - 1) {
            Some((low, high)) => {
                let a = choose|row: int| from <= row < to - 1 && #[trigger] side(row) == Some(low);
                let b = choose|row: int| from <= row < to - 1 && #[trigger] side(row) == Some(high);
                assert(side(a) == Some(low) && side(b) == Some(high));
                assert(last == side(to - 1));
            },
            None => {
                assert(last == side(to - 1));
            },
        }
    }
}

} // verus!
