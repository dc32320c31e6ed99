//! A file diff with the unchanged stretches between its hunks folded away.
//!
//! Each hunk covers a range of file rows. The rows of a gap between two hunks
//! are hidden until they are revealed, some at a time, from its upper or its
//! lower end; a gap that is revealed in full joins its two hunks.
use super::patch_rows::DiffLineKind;
use super::split_rows::DiffClickKind;
use crate::num::less;
use crate::num::less_usize;
use crate::num::max;
use crate::num::max_usize;
use crate::num::min;
use crate::num::min_usize;
use crate::num::plus;
use crate::num::plus_usize;
use crate::outside::fx_get;
use crate::outside::fx_insert;
use crate::outside::fx_len;
use crate::outside::fx_remove;
use crate::text::decimal_text;
use crate::text::is_same_number;
use crate::text::push_decimal;
use rustc_hash::FxHashMap;
use vstd::prelude::*;

verus! {

broadcast use vstd::std_specs::hash::group_hash_axioms;

/// How many rows one click reveals at most.
pub const COLLAPSED_DIFF_REVEAL_STEP: usize = 20;

#[derive(Clone, Copy, Debug, PartialEq, Eq, Structural)]
pub enum DiffViewMode {
    Inline,
    Split,
}

/// What the header above a gap offers to reveal.
#[derive(Clone, Copy, Debug, PartialEq, Eq, Structural)]
pub enum CollapsedDiffExpansionKind {
    Nothing,
    Up,
    Down,
    Both,
    Short,
}

impl Default for CollapsedDiffExpansionKind {
    fn default() -> (kind: Self)
        ensures
            kind == CollapsedDiffExpansionKind::Nothing,
    {
        CollapsedDiffExpansionKind::Nothing
    }
}

/// A hunk: the line of the patch it opens with, the file rows it covers, and
/// how many rows are revealed above and below it.
#[derive(Clone, Copy, Debug, PartialEq, Eq, Structural)]
pub struct CollapsedDiffHunk {
    pub src_ix: usize,
    pub base_row_start: usize,
    pub base_row_end_exclusive: usize,
    pub has_additions: bool,
    pub has_removals: bool,
    pub reveal_up_lines: usize,
    pub reveal_down_lines: usize,
}

#[derive(Clone, Copy, Debug, PartialEq, Eq, Structural)]
pub struct CollapsedDiffReveal {
    pub up_lines: usize,
    pub down_lines: usize,
}

#[derive(Clone, Copy, Debug, PartialEq, Eq, Structural)]
pub enum CollapsedDiffVisibleRow {
    HunkHeader {
        src_ix: usize,
        expansion_kind: CollapsedDiffExpansionKind,
        display_src_ix: Option<usize>,
        hidden_rows: usize,
    },
    FileRow { row_ix: usize },
}

impl CollapsedDiffVisibleRow {
    pub fn row_ix(self) -> (ix: Option<usize>)
        ensures
            ix == (match self {
                CollapsedDiffVisibleRow::FileRow { row_ix } => Some(row_ix),
                CollapsedDiffVisibleRow::HunkHeader { .. } => None,
            }),
    {
        match self {
            CollapsedDiffVisibleRow::FileRow { row_ix } => Some(row_ix),
            CollapsedDiffVisibleRow::HunkHeader { .. } => None,
        }
    }

    pub fn header_display_src_ix(self) -> (ix: Option<usize>)
        ensures
            ix == (match self {
                CollapsedDiffVisibleRow::HunkHeader { display_src_ix, .. } => display_src_ix,
                CollapsedDiffVisibleRow::FileRow { .. } => None,
            }),
    {
        match self {
            CollapsedDiffVisibleRow::HunkHeader { display_src_ix, .. } => display_src_ix,
            CollapsedDiffVisibleRow::FileRow { .. } => None,
        }
    }

    pub fn header_action_src_ix(self) -> (ix: Option<usize>)
        ensures
            ix == (match self {
                CollapsedDiffVisibleRow::HunkHeader { src_ix, .. } => Some(src_ix),
                CollapsedDiffVisibleRow::FileRow { .. } => None,
            }),
    {
        match self {
            CollapsedDiffVisibleRow::HunkHeader { src_ix, .. } => Some(src_ix),
            CollapsedDiffVisibleRow::FileRow { .. } => None,
        }
    }
}

/// What a hunk header says: where the hunk starts on each side (counted from 1)
/// and how many lines it has there.
#[derive(Clone, Copy, Debug, PartialEq, Eq, Structural)]
pub struct ParsedHunkHeader {
    pub old_start_line: u32,
    pub old_line_count: u32,
    pub new_start_line: u32,
    pub new_line_count: u32,
}

/// The row of each line of a file, for the two ways to lay a file diff out.
#[derive(Debug)]
pub struct FileDiffLineMaps {
    pub old_line_to_inline_row: Vec<Option<usize>>,
    pub new_line_to_inline_row: Vec<Option<usize>>,
    pub inline_row_len: usize,
    pub old_line_to_row: Vec<Option<usize>>,
    pub new_line_to_row: Vec<Option<usize>>,
    pub split_row_len: usize,
}

/// The maps that belong to a layout, and how many rows it has.
pub fn current_file_diff_line_to_row_maps(
    maps: &FileDiffLineMaps,
    view: DiffViewMode,
) -> (current: (&Vec<Option<usize>>, &Vec<Option<usize>>, usize))
    ensures
        view == DiffViewMode::Inline ==> *current.0 == maps.old_line_to_inline_row && *current.1
            == maps.new_line_to_inline_row && current.2 == maps.inline_row_len,
        view == DiffViewMode::Split ==> *current.0 == maps.old_line_to_row && *current.1
            == maps.new_line_to_row && current.2 == maps.split_row_len,
{
    match view {
        DiffViewMode::Inline => (
            &maps.old_line_to_inline_row,
            &maps.new_line_to_inline_row,
            maps.inline_row_len,
        ),
        DiffViewMode::Split => (&maps.old_line_to_row, &maps.new_line_to_row, maps.split_row_len),
    }
}

/// What the projection reads of the patch and of the file diff. Lists are
/// indexed by patch line, except for the maps (by file line) and `row_lines`
/// (the line numbers of each file row).
#[derive(Debug)]
pub struct CollapsedDiffSource {
    pub patch_len: usize,
    pub click_kinds: Vec<DiffClickKind>,
    pub visual_line_kinds: Vec<DiffLineKind>,
    pub line_kinds: Vec<DiffLineKind>,
    pub headers: Vec<Option<ParsedHunkHeader>>,
    pub old_line_to_row: Vec<Option<usize>>,
    pub new_line_to_row: Vec<Option<usize>>,
    pub total_rows: usize,
    pub row_lines: Vec<(Option<u32>, Option<u32>)>,
}

/// The line of a file that a range starts on, as a row.
pub open spec fn range_first_row(map: Seq<Option<usize>>, start: u32, count: u32) -> Option<usize> {
    if count > 0 && start > 0 && start - 1 < map.len() {
        map[start - 1]
    } else {
        None
    }
}

/// The last line of a range, saturating at the largest `u32`.
pub open spec fn range_last_line(start: u32, count: u32) -> int {
    less(
        if start + count <= u32::MAX {
            start + count
        } else {
            u32::MAX as int
        },
        1,
    )
}

/// The row after the one that the last line of a range is on.
pub open spec fn range_row_end(map: Seq<Option<usize>>, start: u32, count: u32) -> Option<usize> {
    let last = range_last_line(start, count);
    if count > 0 && last > 0 && last - 1 < map.len() {
        match map[last - 1] {
            Some(row) => Some(plus(row as int, 1) as usize),
            None => None,
        }
    } else {
        None
    }
}

pub open spec fn least(a: Option<usize>, b: Option<usize>) -> Option<usize> {
    match (a, b) {
        (Some(a), Some(b)) => Some(min(a as int, b as int) as usize),
        (Some(a), None) => Some(a),
        (None, b) => b,
    }
}

pub open spec fn greatest(a: Option<usize>, b: Option<usize>) -> Option<usize> {
    match (a, b) {
        (Some(a), Some(b)) => Some(max(a as int, b as int) as usize),
        (Some(a), None) => Some(a),
        (None, b) => b,
    }
}

/// The file rows that a hunk covers, on either side; `None` where there are none.
pub open spec fn hunk_rows(
    old_map: Seq<Option<usize>>,
    new_map: Seq<Option<usize>>,
    parsed: ParsedHunkHeader,
) -> Option<(usize, usize)> {
    let start = least(
        range_first_row(old_map, parsed.old_start_line, parsed.old_line_count),
        range_first_row(new_map, parsed.new_start_line, parsed.new_line_count),
    );
    let end = greatest(
        range_row_end(old_map, parsed.old_start_line, parsed.old_line_count),
        range_row_end(new_map, parsed.new_start_line, parsed.new_line_count),
    );
    match (start, end) {
        (Some(start), Some(end)) => if start < end {
            Some((start, end))
        } else {
            None
        },
        _ => None,
    }
}

fn map_range_start(map: &Vec<Option<usize>>, start: u32, count: u32) -> (row: Option<usize>)
    ensures
        row == range_first_row(map@, start, count),
{
    if count == 0 || start == 0 {
        return None;
    }
    let ix = (start - 1) as usize;
    if ix < map.len() {
        map[ix]
    } else {
        None
    }
}

fn map_range_end(map: &Vec<Option<usize>>, start: u32, count: u32) -> (row: Option<usize>)
    ensures
        row == range_row_end(map@, start, count),
{
    if count == 0 {
        return None;
    }
    let past: u32 = if start <= u32::MAX - count {
        start + count
    } else {
        u32::MAX
    };
    let last: u32 = past - 1;
    if last == 0 {
        return None;
    }
    let ix = (last - 1) as usize;
    if ix < map.len() {
        match map[ix] {
            Some(row) => Some(plus_usize(row, 1)),
            None => None,
        }
    } else {
        None
    }
}

pub fn collapsed_hunk_row_range_for_parsed(
    source: &CollapsedDiffSource,
    parsed: ParsedHunkHeader,
) -> (range: Option<(usize, usize)>)
    ensures
        range == hunk_rows(source.old_line_to_row@, source.new_line_to_row@, parsed),
{
    let old_map = &source.old_line_to_row;
    let new_map = &source.new_line_to_row;
    let old_start = map_range_start(old_map, parsed.old_start_line, parsed.old_line_count);
    let new_start = map_range_start(new_map, parsed.new_start_line, parsed.new_line_count);
    let start = match (old_start, new_start) {
        (Some(a), Some(b)) => min_usize(a, b),
        (Some(a), None) => a,
        (None, Some(b)) => b,
        (None, None) => {
            return None;
        },
    };
    let old_end = map_range_end(old_map, parsed.old_start_line, parsed.old_line_count);
    let new_end = map_range_end(new_map, parsed.new_start_line, parsed.new_line_count);
    let end = match (old_end, new_end) {
        (Some(a), Some(b)) => max_usize(a, b),
        (Some(a), None) => a,
        (None, Some(b)) => b,
        (None, None) => {
            return None;
        },
    };
    if start < end {
        Some((start, end))
    } else {
        None
    }
}

pub open spec fn click_at(source: CollapsedDiffSource, ix: int) -> DiffClickKind {
    if 0 <= ix < source.click_kinds@.len() {
        source.click_kinds@[ix]
    } else {
        DiffClickKind::Line
    }
}

/// The kind a line is shown as: what the whitespace setting makes of it, else
/// its own kind, else context.
pub open spec fn visual_kind_at(source: CollapsedDiffSource, ix: int) -> DiffLineKind {
    if 0 <= ix < source.visual_line_kinds@.len() {
        source.visual_line_kinds@[ix]
    } else if 0 <= ix < source.line_kinds@.len() {
        source.line_kinds@[ix]
    } else {
        DiffLineKind::Context
    }
}

fn click_kind_at(source: &CollapsedDiffSource, ix: usize) -> (kind: DiffClickKind)
    ensures
        kind == click_at(*source, ix as int),
{
    if ix < source.click_kinds.len() {
        source.click_kinds[ix]
    } else {
        DiffClickKind::Line
    }
}

pub fn patch_visual_line_kind(source: &CollapsedDiffSource, src_ix: usize) -> (kind: DiffLineKind)
    ensures
        kind == visual_kind_at(*source, src_ix as int),
{
    if src_ix < source.visual_line_kinds.len() {
        source.visual_line_kinds[src_ix]
    } else if src_ix < source.line_kinds.len() {
        source.line_kinds[src_ix]
    } else {
        DiffLineKind::Context
    }
}

/// The end of the lines that belong to the hunk whose body holds line `ix`.
pub open spec fn hunk_body_end(source: CollapsedDiffSource, ix: int) -> int
    decreases source.patch_len - ix,
{
    if ix < source.patch_len && click_at(source, ix) == DiffClickKind::Line {
        hunk_body_end(source, ix + 1)
    } else {
        ix
    }
}

/// Some line of the hunk opened at `src_ix` is shown as `kind`.
pub open spec fn hunk_has(source: CollapsedDiffSource, src_ix: int, kind: DiffLineKind) -> bool {
    exists|ix: int|
        src_ix < ix < hunk_body_end(source, src_ix + 1) && #[trigger] visual_kind_at(source, ix)
            == kind
}

proof fn lemma_hunk_body_end(source: CollapsedDiffSource, from: int, ix: int)
    requires
        from <= ix <= hunk_body_end(source, from),
    ensures
        hunk_body_end(source, ix) == hunk_body_end(source, from),
    decreases ix - from,
{
    if from < ix {
        lemma_hunk_body_end(source, from + 1, ix);
    }
}

/// Whether a hunk adds and whether it removes lines.
pub fn collapsed_hunk_change_summary(source: &CollapsedDiffSource, src_ix: usize) -> (summary: (
    bool,
    bool,
))
    ensures
        summary.0 == hunk_has(*source, src_ix as int, DiffLineKind::Add),
        summary.1 == hunk_has(*source, src_ix as int, DiffLineKind::Remove),
{
    let mut has_additions = false;
    let mut has_removals = false;
    if src_ix >= source.patch_len {
        return (false, false);
    }
    let mut ix: usize = src_ix + 1;
    let ghost end = hunk_body_end(*source, src_ix + 1);
    while ix < source.patch_len && click_kind_at(source, ix) == DiffClickKind::Line && !(
    has_additions && has_removals)
        invariant
            src_ix < ix <= source.patch_len,
            end == hunk_body_end(*source, src_ix + 1),
            hunk_body_end(*source, ix as int) == end,
            has_additions == (exists|k: int|
                src_ix < k < ix && #[trigger] visual_kind_at(*source, k) == DiffLineKind::Add),
            has_removals == (exists|k: int|
                src_ix < k < ix && #[trigger] visual_kind_at(*source, k) == DiffLineKind::Remove),
        decreases source.patch_len - ix,
    {
        match patch_visual_line_kind(source, ix) {
            DiffLineKind::Add => {
                has_additions = true;
            },
            DiffLineKind::Remove => {
                has_removals = true;
            },
            DiffLineKind::Context | DiffLineKind::Header | DiffLineKind::Hunk => {},
        }
        ix += 1;
        proof {
            assert(visual_kind_at(*source, ix - 1) == visual_kind_at(*source, ix - 1));
        }
    }
    proof {
        lemma_body_end_at_least(*source, ix as int);
    }
    (has_additions, has_removals)
}

proof fn lemma_body_end_at_least(source: CollapsedDiffSource, ix: int)
    ensures
        ix <= hunk_body_end(source, ix),
    decreases source.patch_len - ix,
{
    if ix < source.patch_len && click_at(source, ix) == DiffClickKind::Line {
        lemma_body_end_at_least(source, ix + 1);
    }
}

/// The rows hidden above a hunk: those between it and the hunk before it, or
/// the top of the file, that neither reveals.
pub open spec fn hidden_up(hunks: Seq<CollapsedDiffHunk>, i: int) -> int {
    let hunk = hunks[i];
    if i == 0 {
        hunk.base_row_start - min(hunk.reveal_up_lines as int, hunk.base_row_start as int)
    } else {
        let gap = less(hunk.base_row_start as int, hunks[i - 1].base_row_end_exclusive as int);
        gap - min(
            min(hunks[i - 1].reveal_down_lines as int, gap) + min(hunk.reveal_up_lines as int, gap),
            gap,
        )
    }
}

/// The rows hidden below a hunk.
pub open spec fn hidden_down(hunks: Seq<CollapsedDiffHunk>, i: int, total_rows: int) -> int {
    if i + 1 >= hunks.len() {
        let rest = less(total_rows, hunks[i].base_row_end_exclusive as int);
        rest - min(hunks[i].reveal_down_lines as int, rest)
    } else {
        hidden_up(hunks, i + 1)
    }
}

/// What the header above a hunk offers.
pub open spec fn expansion_kind(
    hunks: Seq<CollapsedDiffHunk>,
    i: int,
) -> CollapsedDiffExpansionKind {
    let hidden = hidden_up(hunks, i);
    if hidden == 0 {
        CollapsedDiffExpansionKind::Nothing
    } else if i == 0 {
        CollapsedDiffExpansionKind::Up
    } else if hidden <= COLLAPSED_DIFF_REVEAL_STEP {
        CollapsedDiffExpansionKind::Short
    } else {
        CollapsedDiffExpansionKind::Both
    }
}

/// Two hunks joined: the gap between them belongs to the hunk now.
pub open spec fn joined(upper: CollapsedDiffHunk, lower: CollapsedDiffHunk) -> CollapsedDiffHunk {
    CollapsedDiffHunk {
        src_ix: upper.src_ix,
        base_row_start: upper.base_row_start,
        base_row_end_exclusive: lower.base_row_end_exclusive,
        has_additions: upper.has_additions || lower.has_additions,
        has_removals: upper.has_removals || lower.has_removals,
        reveal_up_lines: upper.reveal_up_lines,
        reveal_down_lines: lower.reveal_down_lines,
    }
}

/// The hunks with hunk `i` and the one below it joined.
pub open spec fn joined_at(hunks: Seq<CollapsedDiffHunk>, i: int) -> Seq<CollapsedDiffHunk> {
    hunks.update(i, joined(hunks[i], hunks[i + 1])).remove(i + 1)
}

/// A gap that is there and revealed in full.
pub open spec fn gap_revealed(upper: CollapsedDiffHunk, lower: CollapsedDiffHunk) -> bool {
    let gap = less(lower.base_row_start as int, upper.base_row_end_exclusive as int);
    gap > 0 && min(upper.reveal_down_lines as int, gap) + min(lower.reveal_up_lines as int, gap)
        >= gap
}

/// The hunks with every revealed gap from hunk `i` on closed.
pub open spec fn normalized(hunks: Seq<CollapsedDiffHunk>, i: int) -> Seq<CollapsedDiffHunk>
    decreases hunks.len() - i,
{
    if !(0 <= i && i + 1 < hunks.len()) {
        hunks
    } else if gap_revealed(hunks[i], hunks[i + 1]) {
        normalized(joined_at(hunks, i), i)
    } else {
        normalized(hunks, i + 1)
    }
}

/// The hunks that a patch has above line `n`, with what was revealed of them.
pub open spec fn initial_hunks(
    source: CollapsedDiffSource,
    reveals: Map<usize, CollapsedDiffReveal>,
    n: int,
) -> Seq<CollapsedDiffHunk>
    decreases n,
{
    if n <= 0 {
        Seq::empty()
    } else {
        let before = initial_hunks(source, reveals, n - 1);
        let src_ix = n - 1;
        let rows = if click_at(source, src_ix) == DiffClickKind::HunkHeader && src_ix
            < source.headers@.len() {
            match source.headers@[src_ix] {
                Some(parsed) => hunk_rows(
                    source.old_line_to_row@,
                    source.new_line_to_row@,
                    parsed,
                ),
                None => None,
            }
        } else {
            None
        };
        match rows {
            Some((start, end)) => before.push(
                CollapsedDiffHunk {
                    src_ix: src_ix as usize,
                    base_row_start: start,
                    base_row_end_exclusive: end,
                    has_additions: hunk_has(source, src_ix, DiffLineKind::Add),
                    has_removals: hunk_has(source, src_ix, DiffLineKind::Remove),
                    reveal_up_lines: if reveals.dom().contains(src_ix as usize) {
                        reveals[src_ix as usize].up_lines
                    } else {
                        0
                    },
                    reveal_down_lines: if reveals.dom().contains(src_ix as usize) {
                        reveals[src_ix as usize].down_lines
                    } else {
                        0
                    },
                },
            ),
            None => before,
        }
    }
}

/// No two hunks open with the same line.
pub open spec fn distinct_hunks(hunks: Seq<CollapsedDiffHunk>) -> bool {
    forall|i: int, j: int|
        0 <= i < j < hunks.len() ==> #[trigger] hunks[i].src_ix != #[trigger] hunks[j].src_ix
}

/// The index of each hunk by the line it opens with.
pub open spec fn hunk_index(hunks: Seq<CollapsedDiffHunk>) -> Map<usize, usize>
    decreases hunks.len(),
{
    if hunks.len() == 0 {
        Map::empty()
    } else {
        hunk_index(hunks.drop_last()).insert(hunks.last().src_ix, (hunks.len() - 1) as usize)
    }
}

proof fn lemma_hunk_index(hunks: Seq<CollapsedDiffHunk>)
    requires
        distinct_hunks(hunks),
        hunks.len() <= usize::MAX,
    ensures
        forall|i: int|
            0 <= i < hunks.len() ==> #[trigger] hunk_index(hunks).dom().contains(hunks[i].src_ix)
                && hunk_index(hunks)[hunks[i].src_ix] == i,
        forall|src: usize| #[trigger]
            hunk_index(hunks).dom().contains(src) ==> hunk_index(hunks)[src] < hunks.len()
                && hunks[hunk_index(hunks)[src] as int].src_ix == src,
    decreases hunks.len(),
{
    if hunks.len() > 0 {
        let shorter = hunks.drop_last();
        assert forall|i: int, j: int| 0 <= i < j < shorter.len() implies #[trigger] shorter[i].src_ix
            != #[trigger] shorter[j].src_ix by {
            assert(hunks[i].src_ix != hunks[j].src_ix);
        }
        lemma_hunk_index(shorter);
        assert forall|i: int| 0 <= i < hunks.len() implies #[trigger] hunk_index(
            hunks,
        ).dom().contains(hunks[i].src_ix) && hunk_index(hunks)[hunks[i].src_ix] == i by {
            if i < shorter.len() {
                assert(shorter[i] == hunks[i]);
                assert(hunk_index(shorter).dom().contains(shorter[i].src_ix));
                assert(hunks[i].src_ix != hunks[hunks.len() - 1].src_ix);
            }
        }
        assert forall|src: usize| #[trigger]
            hunk_index(hunks).dom().contains(src) implies hunk_index(hunks)[src] < hunks.len()
            && hunks[hunk_index(hunks)[src] as int].src_ix == src by {
            if src != hunks.last().src_ix {
                assert(hunk_index(shorter).dom().contains(src));
                assert(shorter[hunk_index(shorter)[src] as int] == hunks[hunk_index(
                    shorter,
                )[src] as int]);
            }
        }
    }
}

/// The file rows from `from` up to `to`.
pub open spec fn file_rows(from: int, to: int) -> Seq<CollapsedDiffVisibleRow> {
    Seq::new(
        less(to, from) as nat,
        |k: int| CollapsedDiffVisibleRow::FileRow { row_ix: (from + k) as usize },
    )
}

/// The rows that the hunk above reveals of the gap above hunk `i`.
pub open spec fn gap_top(hunks: Seq<CollapsedDiffHunk>, i: int) -> (int, int) {
    if i == 0 {
        (0, 0)
    } else {
        let start = hunks[i - 1].base_row_end_exclusive as int;
        let gap = less(hunks[i].base_row_start as int, start);
        (start, start + min(hunks[i - 1].reveal_down_lines as int, gap))
    }
}

/// The rows that hunk `i` reveals above itself and the hunk above it does not.
pub open spec fn gap_bottom(hunks: Seq<CollapsedDiffHunk>, i: int) -> (int, int) {
    let hunk = hunks[i];
    let start = hunk.base_row_start as int;
    if i == 0 {
        (start - min(hunk.reveal_up_lines as int, start), start)
    } else {
        let gap_start = hunks[i - 1].base_row_end_exclusive as int;
        let gap_end = max(start, gap_start);
        let gap = gap_end - gap_start;
        (max(gap_end - min(hunk.reveal_up_lines as int, gap), gap_top(hunks, i).1), gap_end)
    }
}

pub open spec fn range_rows(range: (int, int)) -> Seq<CollapsedDiffVisibleRow> {
    file_rows(range.0, range.1)
}

/// The rows above the place that hunk `i` is jumped to.
pub open spec fn rows_before_hunk(
    hunks: Seq<CollapsedDiffHunk>,
    i: int,
) -> Seq<CollapsedDiffVisibleRow> {
    if expansion_kind(hunks, i) == CollapsedDiffExpansionKind::Nothing {
        range_rows(gap_top(hunks, i)) + range_rows(gap_bottom(hunks, i))
    } else {
        range_rows(gap_top(hunks, i))
    }
}

/// A hunk's own rows, under a header where something above it is hidden.
pub open spec fn rows_of_hunk(
    hunks: Seq<CollapsedDiffHunk>,
    i: int,
) -> Seq<CollapsedDiffVisibleRow> {
    let hunk = hunks[i];
    let body = file_rows(hunk.base_row_start as int, hunk.base_row_end_exclusive as int);
    if expansion_kind(hunks, i) == CollapsedDiffExpansionKind::Nothing {
        body
    } else {
        seq![CollapsedDiffVisibleRow::HunkHeader {
            src_ix: hunk.src_ix,
            expansion_kind: expansion_kind(hunks, i),
            display_src_ix: Some(hunk.src_ix),
            hidden_rows: hidden_up(hunks, i) as usize,
        }] + range_rows(gap_bottom(hunks, i)) + body
    }
}

/// The rows of the hunks above hunk `n`.
pub open spec fn rows_above_hunk(
    hunks: Seq<CollapsedDiffHunk>,
    n: int,
) -> Seq<CollapsedDiffVisibleRow>
    decreases n,
{
    if n <= 0 {
        Seq::empty()
    } else {
        rows_above_hunk(hunks, n - 1) + rows_before_hunk(hunks, n - 1) + rows_of_hunk(hunks, n - 1)
    }
}

/// The row after the last one revealed below the last hunk.
pub open spec fn trailing_end(hunk: CollapsedDiffHunk, total_rows: int) -> int {
    let end = hunk.base_row_end_exclusive as int;
    min(end + min(hunk.reveal_down_lines as int, less(total_rows, end)), total_rows)
}

/// All rows that are shown: the hunks with what is revealed around them, and a
/// header at the end where rows are hidden there.
pub open spec fn visible_rows(
    hunks: Seq<CollapsedDiffHunk>,
    total_rows: int,
) -> Seq<CollapsedDiffVisibleRow> {
    let last = hunks.len() - 1;
    let hidden = hidden_down(hunks, last, total_rows);
    rows_above_hunk(hunks, hunks.len() as int) + file_rows(
        hunks[last].base_row_end_exclusive as int,
        trailing_end(hunks[last], total_rows),
    ) + (if hidden > 0 {
        seq![CollapsedDiffVisibleRow::HunkHeader {
            src_ix: hunks[last].src_ix,
            expansion_kind: CollapsedDiffExpansionKind::Down,
            display_src_ix: None,
            hidden_rows: hidden as usize,
        }]
    } else {
        Seq::empty()
    })
}

/// The row that hunk `i` is jumped to.
pub open spec fn hunk_position(hunks: Seq<CollapsedDiffHunk>, i: int) -> int {
    (rows_above_hunk(hunks, i).len() + rows_before_hunk(hunks, i).len()) as int
}

pub open spec fn widened(bounds: Option<(u32, u32)>, line: Option<u32>) -> Option<(u32, u32)> {
    match (bounds, line) {
        (Some((low, high)), Some(line)) => Some(
            (
                if line < low {
                    line
                } else {
                    low
                },
                if line > high {
                    line
                } else {
                    high
                },
            ),
        ),
        (None, Some(line)) => Some((line, line)),
        (bounds, None) => bounds,
    }
}

/// The least and the greatest line number on one side of the rows from `from`
/// up to `to`, taken together with `bounds`.
pub open spec fn line_bounds(
    lines: Seq<(Option<u32>, Option<u32>)>,
    old_side: bool,
    bounds: Option<(u32, u32)>,
    from: int,
    to: int,
) -> Option<(u32, u32)>
    decreases to - from,
{
    if to <= from {
        bounds
    } else {
        let before = line_bounds(lines, old_side, bounds, from, to - 1);
        let row = to - 1;
        widened(
            before,
            if 0 <= row < lines.len() {
                if old_side {
                    lines[row].0
                } else {
                    lines[row].1
                }
            } else {
                None
            },
        )
    }
}

/// The rows revealed below hunk `i`.
pub open spec fn below(hunks: Seq<CollapsedDiffHunk>, i: int, total_rows: int) -> (int, int) {
    let end = hunks[i].base_row_end_exclusive as int;
    if i + 1 < hunks.len() {
        let gap = less(hunks[i + 1].base_row_start as int, end);
        (end, plus(end, min(hunks[i].reveal_down_lines as int, gap)))
    } else {
        (end, trailing_end(hunks[i], total_rows))
    }
}

/// The line numbers on one side of a hunk with everything revealed around it.
pub open spec fn hunk_line_bounds(
    source: CollapsedDiffSource,
    hunks: Seq<CollapsedDiffHunk>,
    i: int,
    old_side: bool,
) -> Option<(u32, u32)> {
    let lines = source.row_lines@;
    let top = gap_top(hunks, i);
    let bottom = gap_bottom(hunks, i);
    let after = below(hunks, i, source.total_rows as int);
    let a = line_bounds(lines, old_side, None, top.0, top.1);
    let b = line_bounds(lines, old_side, a, bottom.0, bottom.1);
    let c = line_bounds(
        lines,
        old_side,
        b,
        hunks[i].base_row_start as int,
        hunks[i].base_row_end_exclusive as int,
    );
    line_bounds(lines, old_side, c, after.0, after.1)
}

/// A line range in a header: `-12,4`, or `-12` for a single line.
pub open spec fn range_text(sign: Seq<char>, fallback: u32, bounds: Option<(u32, u32)>) -> Seq<
    char,
> {
    let (start, count) = match bounds {
        Some((low, high)) => (low as int, high - low + 1),
        None => (fallback as int, 0),
    };
    if count == 1 {
        sign + decimal_text(start as nat)
    } else {
        sign + decimal_text(start as nat) + ","@ + decimal_text(count as nat)
    }
}

/// Something is revealed right above or right below hunk `i`.
pub open spec fn reveals_context(
    hunks: Seq<CollapsedDiffHunk>,
    i: int,
    total_rows: int,
) -> bool {
    let hunk = hunks[i];
    let above = if i == 0 {
        min(hunk.reveal_up_lines as int, hunk.base_row_start as int) > 0
    } else {
        let gap = less(hunk.base_row_start as int, hunks[i - 1].base_row_end_exclusive as int);
        min(hunks[i - 1].reveal_down_lines as int, gap) > 0 || min(
            hunk.reveal_up_lines as int,
            gap,
        ) > 0
    };
    let rest = if i + 1 < hunks.len() {
        less(hunks[i + 1].base_row_start as int, hunk.base_row_end_exclusive as int)
    } else {
        less(total_rows, hunk.base_row_end_exclusive as int)
    };
    above || min(hunk.reveal_down_lines as int, rest) > 0
}

/// The header text of a hunk that shows more than the patch gave it: the line
/// ranges that it covers now.
pub open spec fn range_display(
    source: CollapsedDiffSource,
    hunks: Seq<CollapsedDiffHunk>,
    i: int,
) -> Option<Seq<char>> {
    let src = hunks[i].src_ix as int;
    if !reveals_context(hunks, i, source.total_rows as int) || src >= source.headers@.len() {
        None
    } else {
        match source.headers@[src] {
            Some(parsed) => Some(
                range_text("-"@, parsed.old_start_line, hunk_line_bounds(source, hunks, i, true))
                    + " "@ + range_text(
                    "+"@,
                    parsed.new_start_line,
                    hunk_line_bounds(source, hunks, i, false),
                ),
            ),
            None => None,
        }
    }
}

/// The line number on one side of a row.
pub open spec fn side_line(line: (Option<u32>, Option<u32>), old_side: bool) -> Option<u32> {
    if old_side {
        line.0
    } else {
        line.1
    }
}

/// No row has the least line number on one side.
pub open spec fn none_is_least(lines: Seq<(Option<u32>, Option<u32>)>, old_side: bool) -> bool {
    forall|row: int|
        0 <= row < lines.len() ==> (side_line(#[trigger] lines[row], old_side) matches Some(line)
            ==> line > 0)
}

/// No row has the greatest line number on one side.
pub open spec fn none_is_greatest(lines: Seq<(Option<u32>, Option<u32>)>, old_side: bool) -> bool {
    forall|row: int|
        0 <= row < lines.len() ==> (side_line(#[trigger] lines[row], old_side) matches Some(line)
            ==> line < u32::MAX)
}

/// On neither side do the least and the greatest line number meet, so that ranges
/// can be counted.
pub open spec fn row_lines_fit(source: CollapsedDiffSource) -> bool {
    forall|old_side: bool| #[trigger]
        none_is_least(source.row_lines@, old_side) || none_is_greatest(source.row_lines@, old_side)
}

/// A range is as wide as the numbers of the rows allow.
spec fn bounds_fit(
    lines: Seq<(Option<u32>, Option<u32>)>,
    old_side: bool,
    bounds: Option<(u32, u32)>,
) -> bool {
    bounds matches Some((low, high)) ==> {
        &&& low <= high
        &&& none_is_least(lines, old_side) ==> low > 0
        &&& none_is_greatest(lines, old_side) ==> high < u32::MAX
    }
}

/// Which diff a projection belongs to.
#[derive(Debug)]
pub struct CollapsedDiffProjectionIdentity {
    pub repo_id: u64,
    pub diff_target: String,
    pub file_path: String,
    pub diff_whitespace_mode: u8,
    pub patch_content_signature: Option<u64>,
    pub file_content_signature: Option<u64>,
}

pub open spec fn same_identity(
    a: CollapsedDiffProjectionIdentity,
    b: CollapsedDiffProjectionIdentity,
) -> bool {
    &&& a.repo_id == b.repo_id
    &&& a.diff_target@ == b.diff_target@
    &&& a.file_path@ == b.file_path@
    &&& a.diff_whitespace_mode == b.diff_whitespace_mode
    &&& a.patch_content_signature == b.patch_content_signature
    &&& a.file_content_signature == b.file_content_signature
}

pub open spec fn same_projection(
    a: Option<CollapsedDiffProjectionIdentity>,
    b: Option<CollapsedDiffProjectionIdentity>,
) -> bool {
    match (a, b) {
        (Some(a), Some(b)) => same_identity(a, b),
        (None, None) => true,
        _ => false,
    }
}

fn is_same_projection(
    a: &Option<CollapsedDiffProjectionIdentity>,
    b: &Option<CollapsedDiffProjectionIdentity>,
) -> (answer: bool)
    ensures
        answer == same_projection(*a, *b),
{
    match (a, b) {
        (Some(a), Some(b)) => a.repo_id == b.repo_id && a.diff_target == b.diff_target
            && a.file_path == b.file_path && a.diff_whitespace_mode == b.diff_whitespace_mode
            && is_same_number(a.patch_content_signature, b.patch_content_signature)
            && is_same_number(a.file_content_signature, b.file_content_signature),
        (None, None) => true,
        _ => false,
    }
}

fn push_file_rows(rows: &mut Vec<CollapsedDiffVisibleRow>, from: usize, to: usize)
    ensures
        final(rows)@ == old(rows)@ + file_rows(from as int, to as int),
{
    let mut row_ix: usize = from;
    assert(rows@ =~= old(rows)@ + file_rows(from as int, from as int));
    if from >= to {
        assert(file_rows(from as int, to as int) =~= file_rows(from as int, from as int));
        return;
    }
    while row_ix < to
        invariant
            from <= row_ix <= to,
            rows@ == old(rows)@ + file_rows(from as int, row_ix as int),
        decreases to - row_ix,
    {
        rows.push(CollapsedDiffVisibleRow::FileRow { row_ix });
        row_ix += 1;
        assert(rows@ =~= old(rows)@ + file_rows(from as int, row_ix as int));
    }
}

fn visit_rows(
    lines: &Vec<(Option<u32>, Option<u32>)>,
    old_side: bool,
    bounds: Option<(u32, u32)>,
    from: usize,
    to: usize,
) -> (after: Option<(u32, u32)>)
    requires
        bounds_fit(lines@, old_side, bounds),
    ensures
        after == line_bounds(lines@, old_side, bounds, from as int, to as int),
        bounds_fit(lines@, old_side, after),
{
    let mut after = bounds;
    let mut row: usize = from;
    while row < to
        invariant
            from <= row,
            row <= to || row == from,
            after == line_bounds(lines@, old_side, bounds, from as int, row as int),
            bounds_fit(lines@, old_side, after),
        decreases to - row,
    {
        let line = if row < lines.len() {
            let pair = lines[row];
            if old_side {
                pair.0
            } else {
                pair.1
            }
        } else {
            None
        };
        if let Some(line) = line {
            after = match after {
                Some((low, high)) => Some(
                    (
                        if line < low {
                            line
                        } else {
                            low
                        },
                        if line > high {
                            line
                        } else {
                            high
                        },
                    ),
                ),
                None => Some((line, line)),
            };
        }
        row += 1;
    }
    after
}

fn push_range(out: &mut String, sign: &str, fallback: u32, bounds: Option<(u32, u32)>)
    requires
        bounds matches Some((low, high)) ==> low <= high && high - low < u32::MAX,
    ensures
        final(out)@ == old(out)@ + range_text(sign@, fallback, bounds),
{
    let (start, count) = match bounds {
        Some((low, high)) => (low, high - low + 1),
        None => (fallback, 0),
    };
    out.append(sign);
    push_decimal(out, start as u64);
    if count != 1 {
        out.append(",");
        push_decimal(out, count as u64);
    }
    assert(out@ =~= old(out)@ + range_text(sign@, fallback, bounds));
}

/// The folded view of a file diff.
#[derive(Debug)]
pub struct CollapsedDiffProjection {
    pub hunks: Vec<CollapsedDiffHunk>,
    pub hunk_ix_by_src_ix: FxHashMap<usize, usize>,
    pub reveals: FxHashMap<usize, CollapsedDiffReveal>,
    pub visible_rows: Vec<CollapsedDiffVisibleRow>,
    pub hunk_visible_indices: Vec<usize>,
    pub header_display_cache: FxHashMap<usize, String>,
    pub identity: Option<CollapsedDiffProjectionIdentity>,
}

/// What is remembered of a hunk: how much of it is revealed, if anything.
pub open spec fn persisted(
    reveals: Map<usize, CollapsedDiffReveal>,
    hunk: CollapsedDiffHunk,
) -> Map<usize, CollapsedDiffReveal> {
    if hunk.reveal_up_lines == 0 && hunk.reveal_down_lines == 0 {
        reveals.remove(hunk.src_ix)
    } else {
        reveals.insert(
            hunk.src_ix,
            CollapsedDiffReveal {
                up_lines: hunk.reveal_up_lines,
                down_lines: hunk.reveal_down_lines,
            },
        )
    }
}

pub open spec fn with_more_up(
    hunks: Seq<CollapsedDiffHunk>,
    i: int,
    delta: int,
) -> Seq<CollapsedDiffHunk> {
    hunks.update(
        i,
        CollapsedDiffHunk {
            reveal_up_lines: plus(hunks[i].reveal_up_lines as int, delta) as usize,
            ..hunks[i]
        },
    )
}

pub open spec fn with_more_down(
    hunks: Seq<CollapsedDiffHunk>,
    i: int,
    delta: int,
) -> Seq<CollapsedDiffHunk> {
    hunks.update(
        i,
        CollapsedDiffHunk {
            reveal_down_lines: plus(hunks[i].reveal_down_lines as int, delta) as usize,
            ..hunks[i]
        },
    )
}

/// The hunks once up to `limit` rows more are revealed right above hunk `i`.
pub open spec fn revealed_up(hunks: Seq<CollapsedDiffHunk>, i: int, limit: int) -> Seq<
    CollapsedDiffHunk,
> {
    let more = with_more_up(hunks, i, min(hidden_up(hunks, i), limit));
    if hidden_up(more, i) == 0 && i > 0 {
        joined_at(more, i - 1)
    } else {
        more
    }
}

/// The hunks once up to a step of rows more are revealed right below hunk `i`.
pub open spec fn revealed_down(
    hunks: Seq<CollapsedDiffHunk>,
    i: int,
    total_rows: int,
) -> Seq<CollapsedDiffHunk> {
    let more = with_more_down(
        hunks,
        i,
        min(hidden_down(hunks, i, total_rows), COLLAPSED_DIFF_REVEAL_STEP as int),
    );
    if i + 1 < hunks.len() && hidden_down(more, i, total_rows) == 0 {
        joined_at(more, i)
    } else {
        more
    }
}

proof fn lemma_joined_distinct(hunks: Seq<CollapsedDiffHunk>, i: int)
    requires
        distinct_hunks(hunks),
        0 <= i,
        i + 1 < hunks.len(),
    ensures
        distinct_hunks(joined_at(hunks, i)),
        joined_at(hunks, i).len() == hunks.len() - 1,
{
    let after = joined_at(hunks, i);
    assert forall|a: int, b: int| 0 <= a < b < after.len() implies #[trigger] after[a].src_ix
        != #[trigger] after[b].src_ix by {
        let x = if a <= i {
            a
        } else {
            a + 1
        };
        let y = if b <= i {
            b
        } else {
            b + 1
        };
        assert(after[a].src_ix == hunks[x].src_ix);
        assert(after[b].src_ix == hunks[y].src_ix);
    }
}

impl CollapsedDiffProjection {
    /// The hunks open with different lines, and the index finds each of them.
    pub open spec fn wf(&self) -> bool {
        &&& distinct_hunks(self.hunks@)
        &&& self.hunk_ix_by_src_ix@ == hunk_index(self.hunks@)
    }

    /// Where the index finds a hunk.
    pub open spec fn found(&self, src_ix: usize) -> Option<usize> {
        if self.hunk_ix_by_src_ix@.dom().contains(src_ix) {
            Some(self.hunk_ix_by_src_ix@[src_ix])
        } else {
            None
        }
    }

    pub fn new() -> (projection: Self)
        ensures
            projection.wf(),
            projection.hunks@.len() == 0,
            projection.visible_rows@.len() == 0,
            projection.hunk_visible_indices@.len() == 0,
            projection.reveals@ == Map::<usize, CollapsedDiffReveal>::empty(),
            projection.header_display_cache@ == Map::<usize, String>::empty(),
            projection.identity is None,
    {
        CollapsedDiffProjection {
            hunks: Vec::new(),
            hunk_ix_by_src_ix: FxHashMap::default(),
            reveals: FxHashMap::default(),
            visible_rows: Vec::new(),
            hunk_visible_indices: Vec::new(),
            header_display_cache: FxHashMap::default(),
            identity: None,
        }
    }

    /// The rows on screen are those of another state, and so is what they are of.
    pub open spec fn shows_as(&self, other: CollapsedDiffProjection) -> bool {
        &&& self.visible_rows == other.visible_rows
        &&& self.hunk_visible_indices == other.hunk_visible_indices
        &&& self.identity == other.identity
    }

    pub fn reindex_collapsed_diff_hunks(&mut self)
        ensures
            *final(self) == (CollapsedDiffProjection {
                hunk_ix_by_src_ix: final(self).hunk_ix_by_src_ix,
                ..*old(self)
            }),
            final(self).hunk_ix_by_src_ix@ == hunk_index(old(self).hunks@),
    {
        self.hunk_ix_by_src_ix.clear();
        let mut hunk_ix: usize = 0;
        assert(self.hunks@.take(0) =~= Seq::empty());
        while hunk_ix < self.hunks.len()
            invariant
                0 <= hunk_ix <= self.hunks@.len(),
                *self == (CollapsedDiffProjection {
                    hunk_ix_by_src_ix: self.hunk_ix_by_src_ix,
                    ..*old(self)
                }),
                self.hunk_ix_by_src_ix@ == hunk_index(self.hunks@.take(hunk_ix as int)),
            decreases self.hunks@.len() - hunk_ix,
        {
            let src_ix = self.hunks[hunk_ix].src_ix;
            fx_insert(&mut self.hunk_ix_by_src_ix, src_ix, hunk_ix);
            hunk_ix += 1;
            proof {
                let part = self.hunks@.take(hunk_ix as int);
                assert(part.drop_last() =~= self.hunks@.take(hunk_ix - 1));
                assert(part.last() == self.hunks@[hunk_ix - 1]);
            }
        }
        assert(self.hunks@.take(hunk_ix as int) =~= self.hunks@);
    }

    /// Indexes the hunks again where their number and that of the index differ.
    pub fn ensure_collapsed_diff_hunk_index(&mut self)
        ensures
            *final(self) == (CollapsedDiffProjection {
                hunk_ix_by_src_ix: final(self).hunk_ix_by_src_ix,
                ..*old(self)
            }),
            final(self).hunk_ix_by_src_ix@ == (if old(self).hunk_ix_by_src_ix@.dom().len()
                != old(self).hunks@.len() {
                hunk_index(old(self).hunks@)
            } else {
                old(self).hunk_ix_by_src_ix@
            }),
    {
        if fx_len(&self.hunk_ix_by_src_ix) != self.hunks.len() {
            self.reindex_collapsed_diff_hunks();
        }
    }

    /// Finds the hunks of the patch, unless they are known already.
    pub fn ensure_collapsed_diff_hunks_initialized(&mut self, source: &CollapsedDiffSource)
        requires
            old(self).wf(),
        ensures
            final(self).wf(),
            *final(self) == (CollapsedDiffProjection {
                hunks: final(self).hunks,
                hunk_ix_by_src_ix: final(self).hunk_ix_by_src_ix,
                ..*old(self)
            }),
            final(self).hunks@ == (if old(self).hunks@.len() > 0 {
                old(self).hunks@
            } else {
                initial_hunks(*source, old(self).reveals@, source.patch_len as int)
            }),
    {
        if self.hunks.len() > 0 {
            return;
        }
        let mut src_ix: usize = 0;
        while src_ix < source.patch_len
            invariant
                0 <= src_ix <= source.patch_len,
                *self == (CollapsedDiffProjection { hunks: self.hunks, ..*old(self) }),
                self.hunks@ == initial_hunks(*source, old(self).reveals@, src_ix as int),
                distinct_hunks(self.hunks@),
                forall|k: int| 0 <= k < self.hunks@.len() ==> #[trigger] self.hunks@[k].src_ix < src_ix,
            decreases source.patch_len - src_ix,
        {
            if click_kind_at(source, src_ix) == DiffClickKind::HunkHeader && src_ix
                < source.headers.len() {
                if let Some(parsed) = source.headers[src_ix] {
                    if let Some((start, end)) = collapsed_hunk_row_range_for_parsed(
                        source,
                        parsed,
                    ) {
                        let (has_additions, has_removals) = collapsed_hunk_change_summary(
                            source,
                            src_ix,
                        );
                        let reveal = match fx_get(&self.reveals, &src_ix) {
                            Some(reveal) => *reveal,
                            None => CollapsedDiffReveal { up_lines: 0, down_lines: 0 },
                        };
                        self.hunks.push(
                            CollapsedDiffHunk {
                                src_ix,
                                base_row_start: start,
                                base_row_end_exclusive: end,
                                has_additions,
                                has_removals,
                                reveal_up_lines: reveal.up_lines,
                                reveal_down_lines: reveal.down_lines,
                            },
                        );
                    }
                }
            }
            src_ix += 1;
        }
        self.reindex_collapsed_diff_hunks();
    }

    /// Remembers how much is revealed around a hunk.
    pub fn persist_collapsed_diff_hunk_reveal(&mut self, hunk_ix: usize)
        ensures
            *final(self) == (CollapsedDiffProjection {
                reveals: final(self).reveals,
                ..*old(self)
            }),
            final(self).reveals@ == (if hunk_ix < old(self).hunks@.len() {
                persisted(old(self).reveals@, old(self).hunks@[hunk_ix as int])
            } else {
                old(self).reveals@
            }),
    {
        if hunk_ix >= self.hunks.len() {
            return;
        }
        let hunk = self.hunks[hunk_ix];
        if hunk.reveal_up_lines == 0 && hunk.reveal_down_lines == 0 {
            fx_remove(&mut self.reveals, &hunk.src_ix);
        } else {
            fx_insert(
                &mut self.reveals,
                hunk.src_ix,
                CollapsedDiffReveal {
                    up_lines: hunk.reveal_up_lines,
                    down_lines: hunk.reveal_down_lines,
                },
            );
        }
    }

    fn hidden_above(&self, hunk_ix: usize) -> (hidden: usize)
        requires
            hunk_ix < self.hunks@.len(),
        ensures
            hidden == hidden_up(self.hunks@, hunk_ix as int),
    {
        let hunk = self.hunks[hunk_ix];
        if hunk_ix == 0 {
            return hunk.base_row_start - min_usize(hunk.reveal_up_lines, hunk.base_row_start);
        }
        let prev = self.hunks[hunk_ix - 1];
        let gap_len = less_usize(hunk.base_row_start, prev.base_row_end_exclusive);
        let visible = plus_usize(
            min_usize(prev.reveal_down_lines, gap_len),
            min_usize(hunk.reveal_up_lines, gap_len),
        );
        gap_len - min_usize(visible, gap_len)
    }

    fn hidden_below(&self, hunk_ix: usize, total_rows: usize) -> (hidden: usize)
        requires
            hunk_ix < self.hunks@.len(),
        ensures
            hidden == hidden_down(self.hunks@, hunk_ix as int, total_rows as int),
    {
        let hunk = self.hunks[hunk_ix];
        if hunk_ix >= self.hunks.len() - 1 {
            let rest = less_usize(total_rows, hunk.base_row_end_exclusive);
            return rest - min_usize(hunk.reveal_down_lines, rest);
        }
        self.hidden_above(hunk_ix + 1)
    }

    /// What the header above a hunk offers; nothing where there is no such hunk.
    pub fn collapsed_diff_expansion_kind(&self, hunk_ix: usize) -> (kind:
        CollapsedDiffExpansionKind)
        ensures
            kind == (if hunk_ix < self.hunks@.len() {
                expansion_kind(self.hunks@, hunk_ix as int)
            } else {
                CollapsedDiffExpansionKind::Nothing
            }),
    {
        if hunk_ix >= self.hunks.len() {
            return CollapsedDiffExpansionKind::Nothing;
        }
        let hidden_up = self.hidden_above(hunk_ix);
        if hidden_up == 0 {
            CollapsedDiffExpansionKind::Nothing
        } else if hunk_ix == 0 {
            CollapsedDiffExpansionKind::Up
        } else if hidden_up <= COLLAPSED_DIFF_REVEAL_STEP {
            CollapsedDiffExpansionKind::Short
        } else {
            CollapsedDiffExpansionKind::Both
        }
    }

    /// How many rows a header of some kind stands for.
    pub fn collapsed_diff_hidden_rows_for_expansion_kind(
        &self,
        src_ix: usize,
        kind: CollapsedDiffExpansionKind,
        total_rows: usize,
    ) -> (hidden: usize)
        requires
            self.wf(),
        ensures
            hidden == (match (self.found(src_ix), kind) {
                (None, _) => 0,
                (_, CollapsedDiffExpansionKind::Nothing) => 0,
                (Some(i), CollapsedDiffExpansionKind::Down) => hidden_down(
                    self.hunks@,
                    i as int,
                    total_rows as int,
                ),
                (Some(i), _) => hidden_up(self.hunks@, i as int),
            }),
    {
        match kind {
            CollapsedDiffExpansionKind::Down => self.collapsed_diff_hidden_down_rows(
                src_ix,
                total_rows,
            ),
            CollapsedDiffExpansionKind::Up
            | CollapsedDiffExpansionKind::Both
            | CollapsedDiffExpansionKind::Short => self.collapsed_diff_hidden_up_rows(src_ix),
            CollapsedDiffExpansionKind::Nothing => 0,
        }
    }

    pub fn collapsed_diff_hunk_index_for_src_ix(&self, src_ix: usize) -> (ix: Option<usize>)
        ensures
            ix == self.found(src_ix),
    {
        match fx_get(&self.hunk_ix_by_src_ix, &src_ix) {
            Some(ix) => Some(*ix),
            None => None,
        }
    }

    /// The hunk that opens with a line of the patch.
    pub fn collapsed_diff_hunk_for_src_ix(&self, src_ix: usize) -> (hunk: Option<
        CollapsedDiffHunk,
    >)
        requires
            self.wf(),
        ensures
            match hunk {
                Some(hunk) => self.hunks@.contains(hunk) && hunk.src_ix == src_ix,
                None => forall|i: int|
                    0 <= i < self.hunks@.len() ==> #[trigger] self.hunks@[i].src_ix != src_ix,
            },
    {
        let len = self.hunks.len();
        proof {
            lemma_hunk_index(self.hunks@);
        }
        match self.collapsed_diff_hunk_index_for_src_ix(src_ix) {
            Some(ix) => {
                let hunk = self.hunks[ix];
                assert(self.hunks@[ix as int] == hunk);
                Some(hunk)
            },
            None => {
                assert forall|i: int| 0 <= i < self.hunks@.len() implies #[trigger] self.hunks@[i].src_ix
                    != src_ix by {
                    assert(hunk_index(self.hunks@).dom().contains(self.hunks@[i].src_ix));
                }
                None
            },
        }
    }

    pub fn collapsed_diff_hidden_up_rows(&self, src_ix: usize) -> (hidden: usize)
        requires
            self.wf(),
        ensures
            hidden == (match self.found(src_ix) {
                Some(i) => hidden_up(self.hunks@, i as int),
                None => 0,
            }),
    {
        let len = self.hunks.len();
        proof {
            lemma_hunk_index(self.hunks@);
        }
        match self.collapsed_diff_hunk_index_for_src_ix(src_ix) {
            Some(hunk_ix) => self.hidden_above(hunk_ix),
            None => 0,
        }
    }

    pub fn collapsed_diff_hidden_down_rows(&self, src_ix: usize, total_rows: usize) -> (hidden:
        usize)
        requires
            self.wf(),
        ensures
            hidden == (match self.found(src_ix) {
                Some(i) => hidden_down(self.hunks@, i as int, total_rows as int),
                None => 0,
            }),
    {
        let len = self.hunks.len();
        proof {
            lemma_hunk_index(self.hunks@);
        }
        match self.collapsed_diff_hunk_index_for_src_ix(src_ix) {
            Some(hunk_ix) => self.hidden_below(hunk_ix, total_rows),
            None => 0,
        }
    }

    /// Joins a hunk with the one above it; does nothing for the first hunk and
    /// where there is no such hunk.
    pub fn merge_collapsed_diff_hunks_up(&mut self, hunk_ix: usize)
        requires
            old(self).wf(),
        ensures
            final(self).wf(),
            final(self).hunks@ == (if 0 < hunk_ix < old(self).hunks@.len() {
                joined_at(old(self).hunks@, hunk_ix - 1)
            } else {
                old(self).hunks@
            }),
            final(self).header_display_cache@ == (if 0 < hunk_ix < old(self).hunks@.len() {
                Map::<usize, String>::empty()
            } else {
                old(self).header_display_cache@
            }),
            final(self).reveals == old(self).reveals,
            final(self).visible_rows == old(self).visible_rows,
            final(self).hunk_visible_indices == old(self).hunk_visible_indices,
            final(self).identity == old(self).identity,
    {
        if hunk_ix == 0 || hunk_ix >= self.hunks.len() {
            return;
        }
        self.merge_collapsed_diff_hunks_down(hunk_ix - 1);
    }

    /// Joins a hunk with the one below it; does nothing for the last hunk and
    /// where there is no such hunk.
    pub fn merge_collapsed_diff_hunks_down(&mut self, hunk_ix: usize)
        requires
            old(self).wf(),
        ensures
            final(self).wf(),
            final(self).hunks@ == (if hunk_ix + 1 < old(self).hunks@.len() {
                joined_at(old(self).hunks@, hunk_ix as int)
            } else {
                old(self).hunks@
            }),
            final(self).header_display_cache@ == (if hunk_ix + 1 < old(self).hunks@.len() {
                Map::<usize, String>::empty()
            } else {
                old(self).header_display_cache@
            }),
            final(self).reveals == old(self).reveals,
            final(self).visible_rows == old(self).visible_rows,
            final(self).hunk_visible_indices == old(self).hunk_visible_indices,
            final(self).identity == old(self).identity,
    {
        if self.hunks.len() == 0 || hunk_ix >= self.hunks.len() - 1 {
            return;
        }
        let current = self.hunks[hunk_ix];
        let next = self.hunks[hunk_ix + 1];
        self.hunks.set(
            hunk_ix,
            CollapsedDiffHunk {
                src_ix: current.src_ix,
                base_row_start: current.base_row_start,
                base_row_end_exclusive: next.base_row_end_exclusive,
                has_additions: current.has_additions || next.has_additions,
                has_removals: current.has_removals || next.has_removals,
                reveal_up_lines: current.reveal_up_lines,
                reveal_down_lines: next.reveal_down_lines,
            },
        );
        self.hunks.remove(hunk_ix + 1);
        proof {
            lemma_joined_distinct(old(self).hunks@, hunk_ix as int);
            assert(self.hunks@ =~= joined_at(old(self).hunks@, hunk_ix as int));
        }
        self.reindex_collapsed_diff_hunks();
        self.header_display_cache.clear();
    }

    /// Whether the gap below a hunk is there and revealed in full.
    pub fn collapsed_diff_gap_fully_revealed_after_rebuild(&self, hunk_ix: usize) -> (revealed:
        bool)
        ensures
            revealed == (hunk_ix + 1 < self.hunks@.len() && gap_revealed(
                self.hunks@[hunk_ix as int],
                self.hunks@[hunk_ix + 1],
            )),
    {
        if self.hunks.len() == 0 || hunk_ix >= self.hunks.len() - 1 {
            return false;
        }
        let current = self.hunks[hunk_ix];
        let next = self.hunks[hunk_ix + 1];
        let gap_len = less_usize(next.base_row_start, current.base_row_end_exclusive);
        if gap_len == 0 {
            return false;
        }
        plus_usize(
            min_usize(current.reveal_down_lines, gap_len),
            min_usize(next.reveal_up_lines, gap_len),
        ) >= gap_len
    }

    /// Joins all hunks whose gap is revealed in full.
    pub fn normalize_collapsed_diff_hunks_after_rebuild(&mut self)
        requires
            old(self).wf(),
        ensures
            final(self).wf(),
            final(self).hunks@ == normalized(old(self).hunks@, 0),
            final(self).header_display_cache@ == (if normalized(old(self).hunks@, 0)
                == old(self).hunks@ {
                old(self).header_display_cache@
            } else {
                Map::<usize, String>::empty()
            }),
            final(self).reveals == old(self).reveals,
            final(self).visible_rows == old(self).visible_rows,
            final(self).hunk_visible_indices == old(self).hunk_visible_indices,
            final(self).identity == old(self).identity,
    {
        let mut hunk_ix: usize = 0;
        while self.hunks.len() > 0 && hunk_ix < self.hunks.len() - 1
            invariant
                self.wf(),
                hunk_ix <= self.hunks@.len(),
                normalized(self.hunks@, hunk_ix as int) == normalized(old(self).hunks@, 0),
                self.hunks@.len() <= old(self).hunks@.len(),
                self.hunks@.len() == old(self).hunks@.len() ==> self.hunks@ == old(self).hunks@
                    && self.header_display_cache@ == old(self).header_display_cache@,
                self.hunks@.len() < old(self).hunks@.len() ==> self.header_display_cache@ == Map::<
                    usize,
                    String,
                >::empty(),
                self.reveals == old(self).reveals,
                self.visible_rows == old(self).visible_rows,
                self.hunk_visible_indices == old(self).hunk_visible_indices,
                self.identity == old(self).identity,
            decreases self.hunks@.len() - hunk_ix,
        {
            if self.collapsed_diff_gap_fully_revealed_after_rebuild(hunk_ix) {
                proof {
                    lemma_joined_distinct(self.hunks@, hunk_ix as int);
                }
                self.merge_collapsed_diff_hunks_down(hunk_ix);
            } else {
                hunk_ix += 1;
            }
        }
    }

    /// The header text of a hunk that shows more than the patch gave it.
    pub fn collapsed_diff_dynamic_hunk_range_display(
        &self,
        source: &CollapsedDiffSource,
        src_ix: usize,
    ) -> (display: Option<String>)
        requires
            self.wf(),
            row_lines_fit(*source),
        ensures
            match (display, self.found(src_ix)) {
                (Some(text), Some(i)) => range_display(*source, self.hunks@, i as int) == Some(
                    text@,
                ),
                (Some(_), None) => false,
                (None, Some(i)) => range_display(*source, self.hunks@, i as int) is None,
                (None, None) => true,
            },
    {
        let len = self.hunks.len();
        proof {
            lemma_hunk_index(self.hunks@);
        }
        let hunk_ix = match self.collapsed_diff_hunk_index_for_src_ix(src_ix) {
            Some(ix) => ix,
            None => {
                return None;
            },
        };
        let total_rows = source.total_rows;
        let hunk = self.hunks[hunk_ix];
        let (top_start, top_end, bottom_start, bottom_end) = if hunk_ix == 0 {
            let start = hunk.base_row_start;
            (0, 0, start - min_usize(hunk.reveal_up_lines, start), start)
        } else {
            let previous = self.hunks[hunk_ix - 1];
            let gap_start = previous.base_row_end_exclusive;
            let gap_end = max_usize(hunk.base_row_start, gap_start);
            let gap_len = gap_end - gap_start;
            let top_end = gap_start + min_usize(previous.reveal_down_lines, gap_len);
            let bottom_start = gap_end - min_usize(hunk.reveal_up_lines, gap_len);
            (gap_start, top_end, max_usize(bottom_start, top_end), gap_end)
        };
        let has_revealed_above = top_start < top_end || bottom_start < bottom_end;
        let end = hunk.base_row_end_exclusive;
        let trailing_end = if hunk_ix < self.hunks.len() - 1 {
            let next = self.hunks[hunk_ix + 1];
            let gap_len = less_usize(next.base_row_start, end);
            plus_usize(end, min_usize(hunk.reveal_down_lines, gap_len))
        } else {
            min_usize(
                plus_usize(end, min_usize(hunk.reveal_down_lines, less_usize(total_rows, end))),
                total_rows,
            )
        };
        let has_revealed_below = end < trailing_end;
        assert((has_revealed_above || has_revealed_below) == reveals_context(
            self.hunks@,
            hunk_ix as int,
            total_rows as int,
        ));
        if !has_revealed_above && !has_revealed_below {
            return None;
        }
        if src_ix >= source.headers.len() {
            return None;
        }
        let parsed = match source.headers[src_ix] {
            Some(parsed) => parsed,
            None => {
                return None;
            },
        };
        let lines = &source.row_lines;
        let mut old_bounds = visit_rows(lines, true, None, top_start, top_end);
        old_bounds = visit_rows(lines, true, old_bounds, bottom_start, bottom_end);
        old_bounds = visit_rows(lines, true, old_bounds, hunk.base_row_start, end);
        old_bounds = visit_rows(lines, true, old_bounds, end, trailing_end);
        let mut new_bounds = visit_rows(lines, false, None, top_start, top_end);
        new_bounds = visit_rows(lines, false, new_bounds, bottom_start, bottom_end);
        new_bounds = visit_rows(lines, false, new_bounds, hunk.base_row_start, end);
        new_bounds = visit_rows(lines, false, new_bounds, end, trailing_end);
        proof {
            assert(none_is_least(source.row_lines@, true) || none_is_greatest(
                source.row_lines@,
                true,
            ));
            assert(none_is_least(source.row_lines@, false) || none_is_greatest(
                source.row_lines@,
                false,
            ));
        }
        let mut text = String::new();
        push_range(&mut text, "-", parsed.old_start_line, old_bounds);
        text.append(" ");
        push_range(&mut text, "+", parsed.new_start_line, new_bounds);
        proof {
            let i = hunk_ix as int;
            assert(old_bounds == hunk_line_bounds(*source, self.hunks@, i, true));
            assert(new_bounds == hunk_line_bounds(*source, self.hunks@, i, false));
            assert(text@ =~= range_text("-"@, parsed.old_start_line, old_bounds) + " "@
                + range_text("+"@, parsed.new_start_line, new_bounds));
        }
        Some(text)
    }

    /// Works out the header text of every hunk that needs one of its own.
    pub fn rebuild_collapsed_diff_header_display_cache(&mut self, source: &CollapsedDiffSource)
        requires
            old(self).wf(),
            row_lines_fit(*source),
        ensures
            *final(self) == (CollapsedDiffProjection {
                header_display_cache: final(self).header_display_cache,
                ..*old(self)
            }),
            final(self).headers_match(*source),
    {
        self.header_display_cache.clear();
        let mut hunk_ix: usize = 0;
        while hunk_ix < self.hunks.len()
            invariant
                0 <= hunk_ix <= self.hunks@.len(),
                self.wf(),
                row_lines_fit(*source),
                *self == (CollapsedDiffProjection {
                    header_display_cache: self.header_display_cache,
                    ..*old(self)
                }),
                forall|i: int|
                    0 <= i < hunk_ix ==> (match range_display(*source, self.hunks@, i) {
                        Some(text) => self.header_display_cache@.dom().contains(
                            #[trigger] self.hunks@[i].src_ix,
                        ) && self.header_display_cache@[self.hunks@[i].src_ix]@ == text,
                        None => !self.header_display_cache@.dom().contains(self.hunks@[i].src_ix),
                    }),
                forall|src: usize| #[trigger]
                    self.header_display_cache@.dom().contains(src) ==> exists|i: int|
                        0 <= i < hunk_ix && #[trigger] self.hunks@[i].src_ix == src,
            decreases self.hunks@.len() - hunk_ix,
        {
            let src_ix = self.hunks[hunk_ix].src_ix;
            let ghost before = self.header_display_cache@;
            let len = self.hunks.len();
            proof {
                lemma_hunk_index(self.hunks@);
                assert(hunk_index(self.hunks@).dom().contains(self.hunks@[hunk_ix as int].src_ix));
            }
            if let Some(display) = self.collapsed_diff_dynamic_hunk_range_display(source, src_ix) {
                fx_insert(&mut self.header_display_cache, src_ix, display);
            }
            hunk_ix += 1;
            proof {
                assert(self.hunks@[hunk_ix - 1].src_ix == src_ix);
                assert forall|i: int| 0 <= i < hunk_ix - 1 implies #[trigger] self.hunks@[i].src_ix
                    != src_ix by {
                    assert(self.hunks@[i].src_ix != self.hunks@[hunk_ix - 1].src_ix);
                }
                assert forall|src: usize| #[trigger]
                    self.header_display_cache@.dom().contains(src) implies exists|i: int|
                    0 <= i < hunk_ix && #[trigger] self.hunks@[i].src_ix == src by {
                    if src != src_ix {
                        assert(before.dom().contains(src));
                        let i = choose|i: int|
                            0 <= i < hunk_ix - 1 && #[trigger] self.hunks@[i].src_ix == src;
                        assert(self.hunks@[i].src_ix == src);
                    }
                }
            }
        }
    }

    /// The cached header texts are those of the hunks that need one.
    pub open spec fn headers_match(&self, source: CollapsedDiffSource) -> bool {
        &&& forall|i: int|
            0 <= i < self.hunks@.len() ==> (match range_display(source, self.hunks@, i) {
                Some(text) => self.header_display_cache@.dom().contains(
                    #[trigger] self.hunks@[i].src_ix,
                ) && self.header_display_cache@[self.hunks@[i].src_ix]@ == text,
                None => !self.header_display_cache@.dom().contains(self.hunks@[i].src_ix),
            })
        &&& forall|src: usize| #[trigger]
            self.header_display_cache@.dom().contains(src) ==> exists|i: int|
                0 <= i < self.hunks@.len() && #[trigger] self.hunks@[i].src_ix == src
    }

    /// Lays the hunks out as rows.
    fn build_visible_rows(&mut self, total_rows: usize)
        requires
            old(self).wf(),
            old(self).hunks@.len() > 0,
            old(self).visible_rows@.len() == 0,
            old(self).hunk_visible_indices@.len() == 0,
        ensures
            *final(self) == (CollapsedDiffProjection {
                visible_rows: final(self).visible_rows,
                hunk_visible_indices: final(self).hunk_visible_indices,
                ..*old(self)
            }),
            final(self).visible_rows@ == visible_rows(old(self).hunks@, total_rows as int),
            final(self).hunk_visible_indices@.len() == old(self).hunks@.len(),
            forall|i: int|
                0 <= i < old(self).hunks@.len() ==> #[trigger] final(self).hunk_visible_indices@[i]
                    == hunk_position(old(self).hunks@, i),
    {
        let mut rows: Vec<CollapsedDiffVisibleRow> = Vec::new();
        let mut hunk_ix: usize = 0;
        while hunk_ix < self.hunks.len()
            invariant
                0 <= hunk_ix <= self.hunks@.len(),
                self.wf(),
                *self == (CollapsedDiffProjection {
                    hunk_visible_indices: self.hunk_visible_indices,
                    ..*old(self)
                }),
                rows@ == rows_above_hunk(self.hunks@, hunk_ix as int),
                self.hunk_visible_indices@.len() == hunk_ix,
                forall|i: int|
                    0 <= i < hunk_ix ==> #[trigger] self.hunk_visible_indices@[i] == hunk_position(
                        self.hunks@,
                        i,
                    ),
            decreases self.hunks@.len() - hunk_ix,
        {
            let hunk = self.hunks[hunk_ix];
            let expansion = self.collapsed_diff_expansion_kind(hunk_ix);
            let has_header = expansion != CollapsedDiffExpansionKind::Nothing;
            let ghost above = rows@;
            let ghost i = hunk_ix as int;
            let (bottom_start, bottom_end) = if hunk_ix == 0 {
                let start = hunk.base_row_start;
                assert(rows@ =~= above + range_rows(gap_top(self.hunks@, i)));
                (start - min_usize(hunk.reveal_up_lines, start), start)
            } else {
                let previous = self.hunks[hunk_ix - 1];
                let gap_start = previous.base_row_end_exclusive;
                let gap_end = max_usize(hunk.base_row_start, gap_start);
                let gap_len = gap_end - gap_start;
                let top_end = gap_start + min_usize(previous.reveal_down_lines, gap_len);
                let bottom_start = gap_end - min_usize(hunk.reveal_up_lines, gap_len);
                push_file_rows(&mut rows, gap_start, top_end);
                (max_usize(bottom_start, top_end), gap_end)
            };
            if !has_header {
                push_file_rows(&mut rows, bottom_start, bottom_end);
            }
            assert(rows@ =~= above + rows_before_hunk(self.hunks@, i));
            self.hunk_visible_indices.push(rows.len());
            if has_header {
                let hidden_rows = self.hidden_above(hunk_ix);
                rows.push(
                    CollapsedDiffVisibleRow::HunkHeader {
                        src_ix: hunk.src_ix,
                        expansion_kind: expansion,
                        display_src_ix: Some(hunk.src_ix),
                        hidden_rows,
                    },
                );
                push_file_rows(&mut rows, bottom_start, bottom_end);
            }
            push_file_rows(&mut rows, hunk.base_row_start, hunk.base_row_end_exclusive);
            assert(rows@ =~= above + rows_before_hunk(self.hunks@, i) + rows_of_hunk(
                self.hunks@,
                i,
            ));
            hunk_ix += 1;
        }
        let last_ix = self.hunks.len() - 1;
        let last = self.hunks[last_ix];
        let end = last.base_row_end_exclusive;
        let stop = min_usize(
            plus_usize(end, min_usize(last.reveal_down_lines, less_usize(total_rows, end))),
            total_rows,
        );
        push_file_rows(&mut rows, end, stop);
        let hidden_rows = self.hidden_below(last_ix, total_rows);
        if hidden_rows > 0 {
            rows.push(
                CollapsedDiffVisibleRow::HunkHeader {
                    src_ix: last.src_ix,
                    expansion_kind: CollapsedDiffExpansionKind::Down,
                    display_src_ix: None,
                    hidden_rows,
                },
            );
        }
        assert(rows@ =~= visible_rows(self.hunks@, total_rows as int));
        self.visible_rows = rows;
    }

    /// Lays the folded diff out again. Hunks and what is revealed of them are
    /// kept while the diff stays the same; a different diff starts afresh, and
    /// with no diff, or a folded view that is not in use, nothing is shown.
    pub fn rebuild_collapsed_diff_projection(
        &mut self,
        active: bool,
        next_identity: Option<CollapsedDiffProjectionIdentity>,
        source: &CollapsedDiffSource,
    )
        requires
            old(self).wf(),
            row_lines_fit(*source),
        ensures
            final(self).wf(),
            !active ==> final(self).hunks == old(self).hunks && final(self).reveals == old(self).reveals && final(self).identity == old(self).identity,
            active ==> final(self).identity == next_identity,
            active ==> final(self).reveals@ == (if same_projection(
                old(self).identity,
                next_identity,
            ) {
                old(self).reveals@
            } else {
                Map::<usize, CollapsedDiffReveal>::empty()
            }),
            active ==> final(self).hunks@ == ({
                let kept = if same_projection(old(self).identity, next_identity) {
                    old(self).hunks@
                } else {
                    Seq::<CollapsedDiffHunk>::empty()
                };
                if next_identity is None || source.total_rows == 0 {
                    kept
                } else if kept.len() > 0 {
                    normalized(kept, 0)
                } else {
                    normalized(
                        initial_hunks(*source, final(self).reveals@, source.patch_len as int),
                        0,
                    )
                }
            }),
            ({
                let shown = active && next_identity is Some && source.total_rows > 0 && final(self).hunks@.len() > 0;
                if shown {
                    &&& final(self).visible_rows@ == visible_rows(
                        final(self).hunks@,
                        source.total_rows as int,
                    )
                    &&& final(self).hunk_visible_indices@.len() == final(self).hunks@.len()
                    &&& forall|i: int|
                        0 <= i < final(self).hunks@.len()
                            ==> #[trigger] final(self).hunk_visible_indices@[i] == hunk_position(
                            final(self).hunks@,
                            i,
                        )
                    &&& final(self).headers_match(*source)
                } else {
                    &&& final(self).visible_rows@.len() == 0
                    &&& final(self).hunk_visible_indices@.len() == 0
                    &&& final(self).header_display_cache@ == Map::<usize, String>::empty()
                }
            }),
    {
        self.visible_rows.clear();
        self.hunk_visible_indices.clear();
        self.header_display_cache.clear();
        if !active {
            return;
        }
        if !is_same_projection(&self.identity, &next_identity) {
            self.hunks.clear();
            self.hunk_ix_by_src_ix.clear();
            self.reveals.clear();
        }
        let known = next_identity.is_some();
        self.identity = next_identity;
        if !known || source.total_rows == 0 {
            return;
        }
        self.ensure_collapsed_diff_hunks_initialized(source);
        self.normalize_collapsed_diff_hunks_after_rebuild();
        self.reindex_collapsed_diff_hunks();
        if self.hunks.len() == 0 {
            return;
        }
        self.build_visible_rows(source.total_rows);
        self.rebuild_collapsed_diff_header_display_cache(source);
    }

    /// The text on a hunk's header: the one worked out for what is revealed,
    /// else the one of the patch, else the line itself.
    pub fn collapsed_diff_hunk_header_display(
        &self,
        diff_header_display: &FxHashMap<usize, String>,
        line_text: Option<&String>,
        src_ix: usize,
    ) -> (display: Option<String>)
        ensures
            display == (if self.header_display_cache@.dom().contains(src_ix) {
                Some(self.header_display_cache@[src_ix])
            } else if diff_header_display@.dom().contains(src_ix) {
                Some(diff_header_display@[src_ix])
            } else {
                match line_text {
                    Some(text) => Some(*text),
                    None => None,
                }
            }),
    {
        if let Some(text) = fx_get(&self.header_display_cache, &src_ix) {
            return Some(text.clone());
        }
        if let Some(text) = fx_get(diff_header_display, &src_ix) {
            return Some(text.clone());
        }
        match line_text {
            Some(text) => Some(text.clone()),
            None => None,
        }
    }

    /// Reveals up to `limit` rows above the hunk; says whether any were hidden.
    fn reveal_up(&mut self, hunk_ix: usize, limit: usize) -> (changed: bool)
        requires
            old(self).wf(),
            hunk_ix < old(self).hunks@.len(),
            limit > 0,
        ensures
            final(self).wf(),
            changed == (hidden_up(old(self).hunks@, hunk_ix as int) > 0),
            final(self).hunks@ == (if changed {
                revealed_up(old(self).hunks@, hunk_ix as int, limit as int)
            } else {
                old(self).hunks@
            }),
            final(self).reveals@ == (if changed {
                persisted(
                    old(self).reveals@,
                    with_more_up(
                        old(self).hunks@,
                        hunk_ix as int,
                        min(hidden_up(old(self).hunks@, hunk_ix as int), limit as int),
                    )[hunk_ix as int],
                )
            } else {
                old(self).reveals@
            }),
            final(self).shows_as(*old(self)),
    {
        let delta = min_usize(self.hidden_above(hunk_ix), limit);
        if delta == 0 {
            return false;
        }
        let mut hunk = self.hunks[hunk_ix];
        hunk.reveal_up_lines = plus_usize(hunk.reveal_up_lines, delta);
        self.hunks.set(hunk_ix, hunk);
        proof {
            lemma_same_sources(old(self).hunks@, self.hunks@);
        }
        self.persist_collapsed_diff_hunk_reveal(hunk_ix);
        if hunk_ix > 0 && self.hidden_above(hunk_ix) == 0 {
            self.merge_collapsed_diff_hunks_up(hunk_ix);
        }
        true
    }

    fn reveal_down(&mut self, hunk_ix: usize, total_rows: usize) -> (changed: bool)
        requires
            old(self).wf(),
            hunk_ix < old(self).hunks@.len(),
        ensures
            final(self).wf(),
            changed == (hidden_down(old(self).hunks@, hunk_ix as int, total_rows as int) > 0),
            final(self).hunks@ == (if changed {
                revealed_down(old(self).hunks@, hunk_ix as int, total_rows as int)
            } else {
                old(self).hunks@
            }),
            final(self).reveals@ == (if changed {
                persisted(
                    old(self).reveals@,
                    with_more_down(
                        old(self).hunks@,
                        hunk_ix as int,
                        min(
                            hidden_down(old(self).hunks@, hunk_ix as int, total_rows as int),
                            COLLAPSED_DIFF_REVEAL_STEP as int,
                        ),
                    )[hunk_ix as int],
                )
            } else {
                old(self).reveals@
            }),
            final(self).shows_as(*old(self)),
    {
        let delta = min_usize(self.hidden_below(hunk_ix, total_rows), COLLAPSED_DIFF_REVEAL_STEP);
        if delta == 0 {
            return false;
        }
        let mut hunk = self.hunks[hunk_ix];
        hunk.reveal_down_lines = plus_usize(hunk.reveal_down_lines, delta);
        self.hunks.set(hunk_ix, hunk);
        proof {
            lemma_same_sources(old(self).hunks@, self.hunks@);
        }
        self.persist_collapsed_diff_hunk_reveal(hunk_ix);
        if hunk_ix < self.hunks.len() - 1 && self.hidden_below(hunk_ix, total_rows) == 0 {
            self.merge_collapsed_diff_hunks_down(hunk_ix);
        }
        true
    }

    /// Reveals a step of rows above a hunk. Says whether anything changed, and
    /// the diff has to be laid out again.
    pub fn collapsed_diff_reveal_hunk_up(&mut self, src_ix: usize) -> (changed: bool)
        requires
            old(self).wf(),
        ensures
            final(self).wf(),
            final(self).shows_as(*old(self)),
            ({
                let hunks = old(self).hunks@;
                match old(self).found(src_ix) {
                    Some(i) => {
                        &&& changed == (hidden_up(hunks, i as int) > 0)
                        &&& final(self).hunks@ == (if changed {
                            revealed_up(hunks, i as int, COLLAPSED_DIFF_REVEAL_STEP as int)
                        } else {
                            hunks
                        })
                        &&& final(self).reveals@ == (if changed {
                            persisted(
                                old(self).reveals@,
                                with_more_up(
                                    hunks,
                                    i as int,
                                    min(
                                        hidden_up(hunks, i as int),
                                        COLLAPSED_DIFF_REVEAL_STEP as int,
                                    ),
                                )[i as int],
                            )
                        } else {
                            old(self).reveals@
                        })
                    },
                    None => !changed && *final(self) == *old(self),
                }
            }),
    {
        let len = self.hunks.len();
        proof {
            lemma_hunk_index(self.hunks@);
        }
        match self.collapsed_diff_hunk_index_for_src_ix(src_ix) {
            Some(hunk_ix) => self.reveal_up(hunk_ix, COLLAPSED_DIFF_REVEAL_STEP),
            None => false,
        }
    }

    /// Reveals a step of rows below a hunk.
    pub fn collapsed_diff_reveal_hunk_down(&mut self, src_ix: usize, total_rows: usize) -> (changed:
        bool)
        requires
            old(self).wf(),
        ensures
            final(self).wf(),
            final(self).shows_as(*old(self)),
            ({
                let hunks = old(self).hunks@;
                match old(self).found(src_ix) {
                    Some(i) => {
                        &&& changed == (hidden_down(hunks, i as int, total_rows as int) > 0)
                        &&& final(self).hunks@ == (if changed {
                            revealed_down(hunks, i as int, total_rows as int)
                        } else {
                            hunks
                        })
                        &&& final(self).reveals@ == (if changed {
                            persisted(
                                old(self).reveals@,
                                with_more_down(
                                    hunks,
                                    i as int,
                                    min(
                                        hidden_down(hunks, i as int, total_rows as int),
                                        COLLAPSED_DIFF_REVEAL_STEP as int,
                                    ),
                                )[i as int],
                            )
                        } else {
                            old(self).reveals@
                        })
                    },
                    None => !changed && *final(self) == *old(self),
                }
            }),
    {
        let len = self.hunks.len();
        proof {
            lemma_hunk_index(self.hunks@);
        }
        match self.collapsed_diff_hunk_index_for_src_ix(src_ix) {
            Some(hunk_ix) => self.reveal_down(hunk_ix, total_rows),
            None => false,
        }
    }

    /// Reveals a step of rows below the hunk above the given one: the upper end
    /// of the gap between the two.
    pub fn collapsed_diff_reveal_hunk_down_before(
        &mut self,
        src_ix: usize,
        total_rows: usize,
    ) -> (changed: bool)
        requires
            old(self).wf(),
        ensures
            final(self).wf(),
            final(self).shows_as(*old(self)),
            ({
                let hunks = old(self).hunks@;
                match old(self).found(src_ix) {
                    Some(i) => if i == 0 {
                        !changed && *final(self) == *old(self)
                    } else {
                        &&& changed == (hidden_up(hunks, i as int) > 0)
                        &&& final(self).hunks@ == (if changed {
                            revealed_down(hunks, i - 1, total_rows as int)
                        } else {
                            hunks
                        })
                        &&& final(self).reveals@ == (if changed {
                            persisted(
                                old(self).reveals@,
                                with_more_down(
                                    hunks,
                                    i - 1,
                                    min(
                                        hidden_up(hunks, i as int),
                                        COLLAPSED_DIFF_REVEAL_STEP as int,
                                    ),
                                )[i - 1],
                            )
                        } else {
                            old(self).reveals@
                        })
                    },
                    None => !changed && *final(self) == *old(self),
                }
            }),
    {
        let len = self.hunks.len();
        proof {
            lemma_hunk_index(self.hunks@);
        }
        match self.collapsed_diff_hunk_index_for_src_ix(src_ix) {
            Some(hunk_ix) => {
                if hunk_ix == 0 {
                    return false;
                }
                self.reveal_down(hunk_ix - 1, total_rows)
            },
            None => false,
        }
    }

    /// Reveals all that is hidden between a hunk and the one above it, which
    /// joins the two.
    pub fn collapsed_diff_reveal_hunk_short(&mut self, src_ix: usize) -> (changed: bool)
        requires
            old(self).wf(),
        ensures
            final(self).wf(),
            final(self).shows_as(*old(self)),
            ({
                let hunks = old(self).hunks@;
                match old(self).found(src_ix) {
                    Some(i) => if i == 0 {
                        !changed && *final(self) == *old(self)
                    } else {
                        let more = with_more_up(hunks, i as int, hidden_up(hunks, i as int));
                        &&& changed == (hidden_up(hunks, i as int) > 0)
                        &&& final(self).hunks@ == (if changed {
                            joined_at(more, i - 1)
                        } else {
                            hunks
                        })
                        &&& final(self).reveals@ == (if changed {
                            persisted(old(self).reveals@, more[i as int])
                        } else {
                            old(self).reveals@
                        })
                    },
                    None => !changed && *final(self) == *old(self),
                }
            }),
    {
        let len = self.hunks.len();
        proof {
            lemma_hunk_index(self.hunks@);
        }
        match self.collapsed_diff_hunk_index_for_src_ix(src_ix) {
            Some(hunk_ix) => {
                if hunk_ix == 0 {
                    return false;
                }
                let delta = self.hidden_above(hunk_ix);
                if delta == 0 {
                    return false;
                }
                proof {
                    law_revealing_up_uncovers(self.hunks@, hunk_ix as int, delta as int);
                }
                self.reveal_up(hunk_ix, delta)
            },
            None => false,
        }
    }
}

proof fn lemma_same_sources(a: Seq<CollapsedDiffHunk>, b: Seq<CollapsedDiffHunk>)
    requires
        a.len() == b.len(),
        forall|i: int| 0 <= i < a.len() ==> #[trigger] a[i].src_ix == b[i].src_ix,
        distinct_hunks(a),
    ensures
        distinct_hunks(b),
        hunk_index(a) == hunk_index(b),
    decreases a.len(),
{
    assert forall|i: int, j: int| 0 <= i < j < b.len() implies #[trigger] b[i].src_ix
        != #[trigger] b[j].src_ix by {
        assert(a[i].src_ix != a[j].src_ix);
    }
    if a.len() > 0 {
        let x = a.drop_last();
        let y = b.drop_last();
        assert forall|i: int, j: int| 0 <= i < j < x.len() implies #[trigger] x[i].src_ix
            != #[trigger] x[j].src_ix by {
            assert(a[i].src_ix != a[j].src_ix);
        }
        assert forall|i: int| 0 <= i < x.len() implies #[trigger] x[i].src_ix == y[i].src_ix by {
            assert(a[i].src_ix == b[i].src_ix);
        }
        lemma_same_sources(x, y);
        assert(a[a.len() - 1].src_ix == b[b.len() - 1].src_ix);
    }
}

/// Revealing up to `limit` rows above a hunk leaves exactly that many fewer
/// hidden there.
pub proof fn law_revealing_up_uncovers(hunks: Seq<CollapsedDiffHunk>, i: int, limit: int)
    requires
        0 <= i < hunks.len(),
        0 <= limit,
    ensures
        hidden_up(with_more_up(hunks, i, min(hidden_up(hunks, i), limit)), i) == hidden_up(hunks, i)
            - min(hidden_up(hunks, i), limit),
{
}

} // verus!
