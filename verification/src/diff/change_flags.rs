//! What each visible row changes, as the scrollbar marks it: 1 for an addition,
//! 2 for a removal, 3 for both, 0 for neither.
use super::collapsed::visual_kind_at;
use super::collapsed::patch_visual_line_kind;
use super::collapsed::CollapsedDiffHunk;
use super::collapsed::CollapsedDiffProjection;
use super::collapsed::CollapsedDiffSource;
use super::collapsed::CollapsedDiffVisibleRow;
use super::collapsed::DiffViewMode;
use super::patch_rows::DiffLineKind;
use super::split_rows::FileDiffRowKind;
use super::split_rows::PatchSplitRow;
use crate::num::less;
use crate::num::less_usize;
use crate::num::min;
use crate::num::min_usize;
use crate::num::plus;
use crate::num::plus_usize;
use vstd::prelude::*;

verus! {

pub open spec fn line_flag(kind: DiffLineKind) -> u8 {
    match kind {
        DiffLineKind::Add => 1,
        DiffLineKind::Remove => 2,
        _ => 0,
    }
}

pub open spec fn row_kind_flag(kind: FileDiffRowKind) -> u8 {
    match kind {
        FileDiffRowKind::Add => 1,
        FileDiffRowKind::Remove => 2,
        FileDiffRowKind::Modify => 3,
        FileDiffRowKind::Context => 0,
    }
}

pub fn inline_line_flag(kind: DiffLineKind) -> (flag: u8)
    ensures
        flag == line_flag(kind),
{
    match kind {
        DiffLineKind::Add => 1,
        DiffLineKind::Remove => 2,
        _ => 0,
    }
}

pub fn split_row_flag(kind: FileDiffRowKind) -> (flag: u8)
    ensures
        flag == row_kind_flag(kind),
{
    match kind {
        FileDiffRowKind::Add => 1,
        FileDiffRowKind::Remove => 2,
        FileDiffRowKind::Modify => 3,
        FileDiffRowKind::Context => 0,
    }
}

/// A side of a two-column row still counts as changed.
pub open spec fn side_changed(
    source: CollapsedDiffSource,
    src_ix: Option<usize>,
    kind: DiffLineKind,
) -> bool {
    src_ix matches Some(ix) && visual_kind_at(source, ix as int) == kind
}

/// The kind that a two-column row is shown as: what its two lines are shown as
/// together, and context where neither is a change any more.
pub open spec fn visual_row_kind(
    source: CollapsedDiffSource,
    row: PatchSplitRow,
) -> FileDiffRowKind {
    match row {
        PatchSplitRow::Raw { .. } => FileDiffRowKind::Context,
        PatchSplitRow::Aligned { row, old_src_ix, new_src_ix } => {
            let old_changed = side_changed(source, old_src_ix, DiffLineKind::Remove);
            let new_changed = side_changed(source, new_src_ix, DiffLineKind::Add);
            if old_changed && new_changed {
                FileDiffRowKind::Modify
            } else if old_changed {
                FileDiffRowKind::Remove
            } else if new_changed {
                FileDiffRowKind::Add
            } else {
                FileDiffRowKind::Context
            }
        },
    }
}

pub fn patch_split_visual_row_kind(
    source: &CollapsedDiffSource,
    row: &PatchSplitRow,
) -> (kind: FileDiffRowKind)
    ensures
        kind == visual_row_kind(*source, *row),
{
    match row {
        PatchSplitRow::Raw { .. } => FileDiffRowKind::Context,
        PatchSplitRow::Aligned { row, old_src_ix, new_src_ix } => {
            let old_changed = match old_src_ix {
                Some(ix) => patch_visual_line_kind(source, *ix) == DiffLineKind::Remove,
                None => false,
            };
            let new_changed = match new_src_ix {
                Some(ix) => patch_visual_line_kind(source, *ix) == DiffLineKind::Add,
                None => false,
            };
            match (old_changed, new_changed) {
                (true, true) => FileDiffRowKind::Modify,
                (true, false) => FileDiffRowKind::Remove,
                (false, true) => FileDiffRowKind::Add,
                (false, false) => {
                    match row.kind {
                        FileDiffRowKind::Add
                        | FileDiffRowKind::Remove
                        | FileDiffRowKind::Modify => FileDiffRowKind::Context,
                        FileDiffRowKind::Context => row.kind,
                    }
                },
            }
        },
    }
}

/// The flags of an inline patch: of each visible row, that of the line it shows.
pub fn diff_scrollbar_flags_patch_inline(
    source: &CollapsedDiffSource,
    shown_lines: &[Option<usize>],
) -> (flags: Vec<u8>)
    ensures
        flags@.len() == shown_lines@.len(),
        forall|i: int|
            0 <= i < flags@.len() ==> #[trigger] flags@[i] == (match shown_lines@[i] {
                Some(ix) => line_flag(visual_kind_at(*source, ix as int)),
                None => 0,
            }),
{
    let mut flags: Vec<u8> = Vec::new();
    let mut i: usize = 0;
    while i < shown_lines.len()
        invariant
            0 <= i <= shown_lines@.len(),
            flags@.len() == i,
            forall|k: int|
                0 <= k < i ==> #[trigger] flags@[k] == (match shown_lines@[k] {
                    Some(ix) => line_flag(visual_kind_at(*source, ix as int)),
                    None => 0,
                }),
        decreases shown_lines@.len() - i,
    {
        let flag: u8 = match shown_lines[i] {
            Some(ix) => inline_line_flag(patch_visual_line_kind(source, ix)),
            None => 0,
        };
        flags.push(flag);
        i += 1;
    }
    flags
}

/// The flags of a patch in two columns.
pub fn diff_scrollbar_flags_patch_split(
    source: &CollapsedDiffSource,
    shown_rows: &[Option<PatchSplitRow>],
) -> (flags: Vec<u8>)
    ensures
        flags@.len() == shown_rows@.len(),
        forall|i: int|
            0 <= i < flags@.len() ==> #[trigger] flags@[i] == (match shown_rows@[i] {
                Some(row) => row_kind_flag(visual_row_kind(*source, row)),
                None => 0,
            }),
{
    let mut flags: Vec<u8> = Vec::new();
    let mut i: usize = 0;
    while i < shown_rows.len()
        invariant
            0 <= i <= shown_rows@.len(),
            flags@.len() == i,
            forall|k: int|
                0 <= k < i ==> #[trigger] flags@[k] == (match shown_rows@[k] {
                    Some(row) => row_kind_flag(visual_row_kind(*source, row)),
                    None => 0,
                }),
        decreases shown_rows@.len() - i,
    {
        let flag: u8 = match &shown_rows[i] {
            Some(row) => split_row_flag(patch_split_visual_row_kind(source, row)),
            None => 0,
        };
        flags.push(flag);
        i += 1;
    }
    flags
}

pub open spec fn hunk_flag(hunk: CollapsedDiffHunk) -> u8 {
    match (hunk.has_additions, hunk.has_removals) {
        (true, true) => 3,
        (true, false) => 1,
        (false, true) => 2,
        (false, false) => 0,
    }
}

pub fn collapsed_diff_hunk_marker_flag(hunk: CollapsedDiffHunk) -> (flag: u8)
    ensures
        flag == hunk_flag(hunk),
{
    match (hunk.has_additions, hunk.has_removals) {
        (true, true) => 3,
        (true, false) => 1,
        (false, true) => 2,
        (false, false) => 0,
    }
}

/// Where the rows of a hunk stand among the visible rows, looked for from
/// `visible_ix` on: at the first file row that is not above the hunk, which has
/// to be the hunk's first.
pub open spec fn hunk_bounds_from(
    rows: Seq<CollapsedDiffVisibleRow>,
    hunk: CollapsedDiffHunk,
    visible_ix: int,
) -> Option<(int, int)>
    decreases rows.len() - visible_ix,
{
    if !(0 <= visible_ix < rows.len()) {
        None
    } else {
        match rows[visible_ix] {
            CollapsedDiffVisibleRow::HunkHeader { .. } => hunk_bounds_from(
                rows,
                hunk,
                visible_ix + 1,
            ),
            CollapsedDiffVisibleRow::FileRow { row_ix } => if row_ix < hunk.base_row_start {
                hunk_bounds_from(rows, hunk, visible_ix + 1)
            } else if row_ix == hunk.base_row_start {
                let end = min(
                    plus(
                        visible_ix,
                        less(
                            hunk.base_row_end_exclusive as int,
                            hunk.base_row_start as int,
                        ),
                    ),
                    rows.len() as int,
                );
                if visible_ix < end {
                    Some((visible_ix, end))
                } else {
                    None
                }
            } else {
                None
            },
        }
    }
}

pub open spec fn hunk_bounds(
    projection: CollapsedDiffProjection,
    hunk_ix: int,
    hunk: CollapsedDiffHunk,
) -> Option<(int, int)> {
    if 0 <= hunk_ix < projection.hunk_visible_indices@.len() {
        hunk_bounds_from(
            projection.visible_rows@,
            hunk,
            projection.hunk_visible_indices@[hunk_ix] as int,
        )
    } else {
        None
    }
}

pub fn collapsed_diff_hunk_visible_file_bounds(
    projection: &CollapsedDiffProjection,
    hunk_ix: usize,
    hunk: CollapsedDiffHunk,
) -> (bounds: Option<(usize, usize)>)
    ensures
        match (bounds, hunk_bounds(*projection, hunk_ix as int, hunk)) {
            (Some((a, b)), Some((x, y))) => a == x && b == y,
            (None, None) => true,
            _ => false,
        },
{
    if hunk_ix >= projection.hunk_visible_indices.len() {
        return None;
    }
    let rows = &projection.visible_rows;
    let first = projection.hunk_visible_indices[hunk_ix];
    let mut visible_ix: usize = first;
    while visible_ix < rows.len()
        invariant
            rows@ == projection.visible_rows@,
            first <= visible_ix,
            hunk_bounds_from(rows@, hunk, visible_ix as int) == hunk_bounds_from(
                rows@,
                hunk,
                first as int,
            ),
            hunk_ix < projection.hunk_visible_indices@.len(),
            first == projection.hunk_visible_indices@[hunk_ix as int],
        decreases rows@.len() - visible_ix,
    {
        match rows[visible_ix] {
            CollapsedDiffVisibleRow::HunkHeader { .. } => {
                visible_ix += 1;
            },
            CollapsedDiffVisibleRow::FileRow { row_ix } => {
                if row_ix < hunk.base_row_start {
                    visible_ix += 1;
                } else if row_ix == hunk.base_row_start {
                    let len = less_usize(hunk.base_row_end_exclusive, hunk.base_row_start);
                    let end_ix = min_usize(plus_usize(visible_ix, len), rows.len());
                    return if visible_ix < end_ix {
                        Some((visible_ix, end_ix))
                    } else {
                        None
                    };
                } else {
                    return None;
                }
            },
        }
    }
    None
}

/// The visible rows of a hunk with its flag.
pub struct FlaggedRange {
    pub start: usize,
    pub end: usize,
    pub flag: u8,
}

/// The ranges that belong to the hunks below `n`; hunks without visible rows
/// have none.
pub open spec fn flagged_ranges(projection: CollapsedDiffProjection, n: int) -> Seq<
    (int, int, u8),
>
    decreases n,
{
    if n <= 0 {
        Seq::empty()
    } else {
        let hunk = projection.hunks@[n - 1];
        let before = flagged_ranges(projection, n - 1);
        match hunk_bounds(projection, n - 1, hunk) {
            Some((start, end)) => before.push((start, end, hunk_flag(hunk))),
            None => before,
        }
    }
}

pub open spec fn ranges_view(ranges: Seq<FlaggedRange>) -> Seq<(int, int, u8)> {
    Seq::new(
        ranges.len(),
        |i: int| (ranges[i].start as int, ranges[i].end as int, ranges[i].flag),
    )
}

/// Where the hunks of a folded diff are marked.
pub fn diff_scrollbar_ranges_collapsed(projection: &CollapsedDiffProjection) -> (ranges: Vec<
    FlaggedRange,
>)
    ensures
        ranges_view(ranges@) == flagged_ranges(*projection, projection.hunks@.len() as int),
{
    let mut ranges: Vec<FlaggedRange> = Vec::new();
    let mut hunk_ix: usize = 0;
    assert(ranges_view(ranges@) =~= Seq::empty());
    while hunk_ix < projection.hunks.len()
        invariant
            0 <= hunk_ix <= projection.hunks@.len(),
            ranges_view(ranges@) == flagged_ranges(*projection, hunk_ix as int),
        decreases projection.hunks@.len() - hunk_ix,
    {
        let hunk = projection.hunks[hunk_ix];
        let flag = collapsed_diff_hunk_marker_flag(hunk);
        let ghost before = ranges_view(ranges@);
        if let Some((start, end)) = collapsed_diff_hunk_visible_file_bounds(
            projection,
            hunk_ix,
            hunk,
        ) {
            ranges.push(FlaggedRange { start, end, flag });
            assert(ranges_view(ranges@) =~= before.push((start as int, end as int, flag)));
        }
        hunk_ix += 1;
    }
    ranges
}

/// The flag of the first range that holds a row, from range `i` on.
pub open spec fn flag_from(ranges: Seq<(int, int, u8)>, row: int, i: int) -> u8
    decreases ranges.len() - i,
{
    if !(0 <= i < ranges.len()) {
        0
    } else if ranges[i].0 <= row < ranges[i].1 {
        ranges[i].2
    } else {
        flag_from(ranges, row, i + 1)
    }
}

/// The flags of a folded diff whose rows are wrapped: `source_rows` gives the
/// row that each line on screen belongs to.
pub fn diff_scrollbar_flags_collapsed_wrapped(
    ranges: &[FlaggedRange],
    source_rows: &[usize],
) -> (flags: Vec<u8>)
    ensures
        flags@.len() == source_rows@.len(),
        forall|i: int|
            0 <= i < flags@.len() ==> #[trigger] flags@[i] == flag_from(
                ranges_view(ranges@),
                source_rows@[i] as int,
                0,
            ),
{
    let mut flags: Vec<u8> = Vec::new();
    let ghost view = ranges_view(ranges@);
    let mut i: usize = 0;
    while i < source_rows.len()
        invariant
            0 <= i <= source_rows@.len(),
            view == ranges_view(ranges@),
            flags@.len() == i,
            forall|k: int|
                0 <= k < i ==> #[trigger] flags@[k] == flag_from(view, source_rows@[k] as int, 0),
        decreases source_rows@.len() - i,
    {
        let row = source_rows[i];
        let mut flag: u8 = 0;
        let mut k: usize = 0;
        let mut found = false;
        while k < ranges.len() && !found
            invariant
                0 <= k <= ranges@.len(),
                view == ranges_view(ranges@),
                !found ==> flag == 0 && flag_from(view, row as int, k as int) == flag_from(
                    view,
                    row as int,
                    0,
                ),
                found ==> flag == flag_from(view, row as int, 0),
            decreases ranges@.len() - k, if found { 0int } else { 1int },
        {
            let range = &ranges[k];
            if range.start <= row && row < range.end {
                flag = range.flag;
                found = true;
            } else {
                k += 1;
            }
        }
        flags.push(flag);
        i += 1;
    }
    flags
}

/// The flags of a file diff in one column: of each visible row, that of the line
/// it shows.
pub fn diff_scrollbar_flags_file_inline(shown: &[Option<DiffLineKind>]) -> (flags: Vec<u8>)
    ensures
        flags@.len() == shown@.len(),
        forall|i: int|
            0 <= i < flags@.len() ==> #[trigger] flags@[i] == (match shown@[i] {
                Some(kind) => line_flag(kind),
                None => 0,
            }),
{
    let mut flags: Vec<u8> = Vec::new();
    let mut i: usize = 0;
    while i < shown.len()
        invariant
            0 <= i <= shown@.len(),
            flags@.len() == i,
            forall|k: int|
                0 <= k < i ==> #[trigger] flags@[k] == (match shown@[k] {
                    Some(kind) => line_flag(kind),
                    None => 0,
                }),
        decreases shown@.len() - i,
    {
        let flag: u8 = match shown[i] {
            Some(kind) => inline_line_flag(kind),
            None => 0,
        };
        flags.push(flag);
        i += 1;
    }
    flags
}

/// The flags of a file diff in two columns.
pub fn diff_scrollbar_flags_file_split(shown: &[Option<FileDiffRowKind>]) -> (flags: Vec<u8>)
    ensures
        flags@.len() == shown@.len(),
        forall|i: int|
            0 <= i < flags@.len() ==> #[trigger] flags@[i] == (match shown@[i] {
                Some(kind) => row_kind_flag(kind),
                None => 0,
            }),
{
    let mut flags: Vec<u8> = Vec::new();
    let mut i: usize = 0;
    while i < shown.len()
        invariant
            0 <= i <= shown@.len(),
            flags@.len() == i,
            forall|k: int|
                0 <= k < i ==> #[trigger] flags@[k] == (match shown@[k] {
                    Some(kind) => row_kind_flag(kind),
                    None => 0,
                }),
        decreases shown@.len() - i,
    {
        let flag: u8 = match shown[i] {
            Some(kind) => split_row_flag(kind),
            None => 0,
        };
        flags.push(flag);
        i += 1;
    }
    flags
}

/// Where the marks of a scrollbar come from.
#[derive(Clone, Copy, Debug, PartialEq, Eq, Structural)]
pub enum MarkerSource {
    CollapsedRanges,
    CollapsedLines,
    PatchInline,
    /// The flags that were gathered with the visible rows.
    PatchSplitMeta,
    PatchSplit,
    /// Whatever holds the rows has the marks.
    FileProvider,
    FileInline,
    FileSplit,
}

/// Where the marks of a scrollbar come from: marks that were gathered with the
/// rows serve only where no row is broken.
pub fn compute_diff_scrollbar_markers(
    collapsed: bool,
    file_view: bool,
    view: DiffViewMode,
    has_provider: bool,
    word_wrap: bool,
) -> (source: MarkerSource)
    ensures
        source == (if collapsed {
            if word_wrap {
                MarkerSource::CollapsedLines
            } else {
                MarkerSource::CollapsedRanges
            }
        } else if !file_view {
            if view is Inline {
                MarkerSource::PatchInline
            } else if has_provider && !word_wrap {
                MarkerSource::PatchSplitMeta
            } else {
                MarkerSource::PatchSplit
            }
        } else if has_provider && !word_wrap {
            MarkerSource::FileProvider
        } else if view is Inline {
            MarkerSource::FileInline
        } else {
            MarkerSource::FileSplit
        }),
{
    if collapsed {
        return if word_wrap {
            MarkerSource::CollapsedLines
        } else {
            MarkerSource::CollapsedRanges
        };
    }
    if file_view && has_provider && !word_wrap {
        return MarkerSource::FileProvider;
    }
    match view {
        DiffViewMode::Inline => if file_view {
            MarkerSource::FileInline
        } else {
            MarkerSource::PatchInline
        },
        DiffViewMode::Split => if file_view {
            MarkerSource::FileSplit
        } else if has_provider && !word_wrap {
            MarkerSource::PatchSplitMeta
        } else {
            MarkerSource::PatchSplit
        },
    }
}

/// The rows of a patch in two columns have to be built again: no one else holds
/// them, and those there are are none or of another patch.
pub fn ensure_diff_split_cache(
    has_provider: bool,
    built_from_len: usize,
    patch_len: usize,
    built_is_empty: bool,
) -> (rebuild: bool)
    ensures
        rebuild == (!has_provider && (built_from_len != patch_len || built_is_empty)),
{
    if has_provider {
        return false;
    }
    !(built_from_len == patch_len && !built_is_empty)
}

} // verus!
