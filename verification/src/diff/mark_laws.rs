//! What marks on rows say, and which rows there are.
use super::change_flags::flag_from;
use super::change_flags::flagged_ranges;
use super::change_flags::hunk_bounds;
use super::change_flags::hunk_bounds_from;
use super::change_flags::hunk_flag;
use super::change_flags::line_flag;
use super::change_flags::row_kind_flag;
use super::change_flags::visual_row_kind;
use super::collapsed::visual_kind_at;
use super::collapsed::CollapsedDiffHunk;
use super::collapsed::CollapsedDiffProjection;
use super::collapsed::CollapsedDiffSource;
use super::collapsed::CollapsedDiffVisibleRow;
use super::collapsed::DiffViewMode;
use super::patch_rows::DiffLineKind;
use super::split_rows::FileDiffRowKind;
use super::split_rows::PatchSplitRow;
use super::visible_rows::shown_split_rows;
use super::visible_rows::DiffVisibleScene;
use vstd::prelude::*;

verus! {

/// A mark tells whether something is added, and whether something is removed.
pub open spec fn tells(flag: u8, adds: bool, removes: bool) -> bool {
    flag == (if adds {
        1int
    } else {
        0
    }) + (if removes {
        2int
    } else {
        0
    })
}

/// A mark tells of a line, a row or a hunk what it adds and what it removes.
pub proof fn law_marks_tell_what_changes(
    kind: DiffLineKind,
    row_kind: FileDiffRowKind,
    hunk: CollapsedDiffHunk,
)
    ensures
        tells(line_flag(kind), kind == DiffLineKind::Add, kind == DiffLineKind::Remove),
        tells(
            row_kind_flag(row_kind),
            row_kind == FileDiffRowKind::Add || row_kind == FileDiffRowKind::Modify,
            row_kind == FileDiffRowKind::Remove || row_kind == FileDiffRowKind::Modify,
        ),
        tells(hunk_flag(hunk), hunk.has_additions, hunk.has_removals),
{
}

/// A line is shown as what the whitespace setting makes of it, where that is known.
pub proof fn law_line_is_shown_as_the_setting_has_it(source: CollapsedDiffSource, ix: int)
    requires
        0 <= ix,
    ensures
        ix < source.visual_line_kinds@.len() ==> visual_kind_at(source, ix)
            == source.visual_line_kinds@[ix],
        source.visual_line_kinds@.len() <= ix < source.line_kinds@.len() ==> visual_kind_at(
            source,
            ix,
        ) == source.line_kinds@[ix],
{
}

/// A row in two columns removes something just where its left line is shown as removed,
/// and adds something just where its right line is shown as added.
pub proof fn law_row_changes_what_its_lines_change(
    source: CollapsedDiffSource,
    row: PatchSplitRow,
)
    ensures
        ({
            let kind = visual_row_kind(source, row);
            let removes = row matches PatchSplitRow::Aligned { old_src_ix: Some(ix), .. }
                && visual_kind_at(source, ix as int) == DiffLineKind::Remove;
            let adds = row matches PatchSplitRow::Aligned { new_src_ix: Some(ix), .. }
                && visual_kind_at(source, ix as int) == DiffLineKind::Add;
            &&& (kind == FileDiffRowKind::Modify) == (removes && adds)
            &&& (kind == FileDiffRowKind::Remove) == (removes && !adds)
            &&& (kind == FileDiffRowKind::Add) == (!removes && adds)
        }),
{
}

/// A hunk is marked from its first row on, over as many rows as it has, within what is
/// shown; it is not marked where its first row is not the next file row from it on.
pub proof fn law_hunk_is_marked_on_its_rows(
    rows: Seq<CollapsedDiffVisibleRow>,
    hunk: CollapsedDiffHunk,
    from: int,
)
    requires
        0 <= from <= rows.len() <= usize::MAX,
        hunk.base_row_start < hunk.base_row_end_exclusive,
    ensures
        hunk_bounds_from(rows, hunk, from) matches Some((start, end)) ==> {
            let len = hunk.base_row_end_exclusive - hunk.base_row_start;
            &&& from <= start < end <= rows.len()
            &&& rows[start] == (CollapsedDiffVisibleRow::FileRow { row_ix: hunk.base_row_start })
            &&& end == (if start + len <= rows.len() {
                start + len
            } else {
                rows.len() as int
            })
            &&& forall|k: int|
                from <= k < start ==> (#[trigger] rows[k] matches CollapsedDiffVisibleRow::FileRow {
                    row_ix,
                } ==> row_ix < hunk.base_row_start)
        },
        forall|at: int|
            from <= at < rows.len() && #[trigger] rows[at] == (CollapsedDiffVisibleRow::FileRow {
                row_ix: hunk.base_row_start,
            }) && (forall|k: int|
                from <= k < at ==> (#[trigger] rows[k] matches CollapsedDiffVisibleRow::FileRow {
                    row_ix,
                } ==> row_ix < hunk.base_row_start)) ==> hunk_bounds_from(rows, hunk, from) is Some
                && hunk_bounds_from(rows, hunk, from)->Some_0.0 == at,
    decreases rows.len() - from,
{
    if from < rows.len() {
        let goes_on = match rows[from] {
            CollapsedDiffVisibleRow::HunkHeader { .. } => true,
            CollapsedDiffVisibleRow::FileRow { row_ix } => row_ix < hunk.base_row_start,
        };
        if goes_on {
            law_hunk_is_marked_on_its_rows(rows, hunk, from + 1);
        }
        assert forall|at: int|
            from <= at < rows.len() && #[trigger] rows[at] == (CollapsedDiffVisibleRow::FileRow {
                row_ix: hunk.base_row_start,
            }) && (forall|k: int|
                from <= k < at ==> (#[trigger] rows[k] matches CollapsedDiffVisibleRow::FileRow {
                    row_ix,
                } ==> row_ix < hunk.base_row_start)) implies hunk_bounds_from(rows, hunk, from) is Some
            && hunk_bounds_from(rows, hunk, from)->Some_0.0 == at by {
            if at > from {
                assert(rows[from] matches CollapsedDiffVisibleRow::FileRow { row_ix } ==> row_ix
                    < hunk.base_row_start);
            }
        }
    }
}

/// Every hunk that has a place among the rows is marked there, with its own mark, and
/// nothing else is.
pub proof fn law_marked_ranges_are_the_hunks(projection: CollapsedDiffProjection, n: int)
    requires
        0 <= n <= projection.hunks@.len(),
    ensures
        ({
            let ranges = flagged_ranges(projection, n);
            &&& forall|k: int|
                0 <= k < n && (#[trigger] hunk_bounds(projection, k, projection.hunks@[k])) is Some
                    ==> ranges.contains(
                    (
                        hunk_bounds(projection, k, projection.hunks@[k])->Some_0.0,
                        hunk_bounds(projection, k, projection.hunks@[k])->Some_0.1,
                        hunk_flag(projection.hunks@[k]),
                    ),
                )
            &&& ranges.len() <= n
        }),
    decreases n,
{
    if n > 0 {
        law_marked_ranges_are_the_hunks(projection, n - 1);
        let before = flagged_ranges(projection, n - 1);
        let ranges = flagged_ranges(projection, n);
        assert forall|k: int|
            0 <= k < n && (#[trigger] hunk_bounds(
                projection,
                k,
                projection.hunks@[k],
            )) is Some implies ranges.contains(
            (
                hunk_bounds(projection, k, projection.hunks@[k])->Some_0.0,
                hunk_bounds(projection, k, projection.hunks@[k])->Some_0.1,
                hunk_flag(projection.hunks@[k]),
            ),
        ) by {
            let wanted = (
                hunk_bounds(projection, k, projection.hunks@[k])->Some_0.0,
                hunk_bounds(projection, k, projection.hunks@[k])->Some_0.1,
                hunk_flag(projection.hunks@[k]),
            );
            if k == n - 1 {
                assert(ranges[ranges.len() - 1] == wanted);
            } else {
                let i = choose|i: int| 0 <= i < before.len() && before[i] == wanted;
                assert(ranges[i] == wanted);
            }
        }
    }
}

/// A row has the mark of the first range that it is in, and none where it is in none.
pub proof fn law_row_has_the_mark_of_its_range(ranges: Seq<(int, int, u8)>, row: int, i: int)
    requires
        0 <= i <= ranges.len(),
    ensures
        (forall|k: int|
            i <= k < ranges.len() ==> !((#[trigger] ranges[k]).0 <= row < ranges[k].1))
            ==> flag_from(ranges, row, i) == 0,
        forall|k: int|
            i <= k < ranges.len() && (#[trigger] ranges[k]).0 <= row < ranges[k].1 && (forall|j: int|
                i <= j < k ==> !((#[trigger] ranges[j]).0 <= row < ranges[j].1)) ==> flag_from(
                ranges,
                row,
                i,
            ) == ranges[k].2,
    decreases ranges.len() - i,
{
    if i < ranges.len() && !(ranges[i].0 <= row < ranges[i].1) {
        law_row_has_the_mark_of_its_range(ranges, row, i + 1);
    }
}

/// A pane has the rows of what it shows: those of the folded diff, or of the file or
/// the patch, in one column or in two.
pub proof fn law_pane_has_the_rows_of_what_it_shows(scene: DiffVisibleScene)
    ensures
        scene.layout().len == scene.row_count(),
        scene.layout().view == scene.view,
        scene.layout().is_file_view == scene.is_file_view,
        scene.collapsed_projection_active ==> scene.row_count() == scene.collapsed_len
            && scene.layout().projection_rev == scene.projection_rev,
        !scene.collapsed_projection_active ==> scene.layout().projection_rev == 0,
        !scene.collapsed_projection_active && scene.is_file_view && scene.view
            == DiffViewMode::Inline ==> scene.row_count() == scene.file_inline_len,
        !scene.collapsed_projection_active && scene.is_file_view && scene.view
            == DiffViewMode::Split ==> scene.row_count() == scene.file_split_len,
        !scene.collapsed_projection_active && !scene.is_file_view && scene.view
            == DiffViewMode::Inline ==> scene.row_count() == scene.patch_len,
        !scene.collapsed_projection_active && !scene.is_file_view && scene.view
            == DiffViewMode::Split ==> scene.row_count() == scene.patch_split_len,
{
}

/// The rows of a patch in two columns that are shown are all but the hidden headers, in
/// order.
pub proof fn law_only_hidden_headers_are_left_out(
    rows: Seq<PatchSplitRow>,
    hidden: Seq<bool>,
    n: int,
)
    requires
        0 <= n <= rows.len(),
    ensures
        ({
            let shown = shown_split_rows(rows, hidden, n);
            &&& forall|i: int, j: int|
                0 <= i < j < shown.len() ==> #[trigger] shown[i] < #[trigger] shown[j]
            &&& forall|row: int| #[trigger] shown.contains(row) == (0 <= row < n && (
            rows[row] matches PatchSplitRow::Raw { src_ix, .. } ==> src_ix < hidden.len()
                && !hidden[src_ix as int]))
        }),
    decreases n,
{
    if n > 0 {
        law_only_hidden_headers_are_left_out(rows, hidden, n - 1);
        let before = shown_split_rows(rows, hidden, n - 1);
        let shown = shown_split_rows(rows, hidden, n);
        assert forall|row: int| #[trigger] shown.contains(row) == (0 <= row < n && (
        rows[row] matches PatchSplitRow::Raw { src_ix, .. } ==> src_ix < hidden.len()
            && !hidden[src_ix as int])) by {
            if before.contains(row) {
                let i = choose|i: int| 0 <= i < before.len() && before[i] == row;
                assert(shown[i] == row);
            }
            if shown.contains(row) && row != n - 1 {
                let i = choose|i: int| 0 <= i < shown.len() && shown[i] == row;
                assert(before[i] == row);
            }
            if row == n - 1 && shown.len() > before.len() {
                assert(shown[before.len() as int] == row);
            }
        }
        assert forall|i: int, j: int| 0 <= i < j < shown.len() implies #[trigger] shown[i]
            < #[trigger] shown[j] by {
            assert(shown[i] == before[i]);
            assert(before.contains(before[i]));
        }
    }
}

} // verus!
