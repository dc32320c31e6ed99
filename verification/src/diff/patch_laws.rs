//! What the rows of a patch show: every line of it once, on its own side, with its own
//! number.
use super::hunk_header::after_spaces;
use super::hunk_header::comma_position;
use super::hunk_header::decimal_u32;
use super::hunk_header::digits_value;
use super::hunk_header::hunk_start;
use super::hunk_header::marker_position;
use super::hunk_header::range_start;
use super::hunk_header::word_end;
use super::patch_rows::annotated_rows;
use super::patch_rows::numbers_before;
use super::patch_rows::AnnotatedDiffLine;
use super::patch_rows::DiffLine;
use super::patch_rows::DiffLineKind;
use super::split_meta::change_flag;
use super::split_meta::click_kind_of;
use super::split_meta::is_hidden_header;
use super::split_rows::finished_rows;
use super::split_rows::paired_row;
use super::split_rows::paired_rows;
use super::split_rows::plain_row;
use super::split_rows::progress;
use super::split_rows::split_rows;
use super::split_rows::DiffClickKind;
use super::split_rows::FileDiffRowKind;
use super::split_rows::PatchSplitRow;
use super::split_rows::SplitProgress;
use crate::outside::whitespace_char;
use crate::text::decimal_text;
use crate::diff::patch_rows::page_end;
use crate::diff::patch_rows::page_of;
use vstd::prelude::*;

verus! {

/// The line of the patch on the left of a row, or across it.
pub open spec fn left_line(row: PatchSplitRow) -> Option<int> {
    match row {
        PatchSplitRow::Raw { src_ix, .. } => Some(src_ix as int),
        PatchSplitRow::Aligned { old_src_ix: Some(ix), .. } => Some(ix as int),
        _ => None,
    }
}

/// The line of the patch on the right of a row, or across it.
pub open spec fn right_line(row: PatchSplitRow) -> Option<int> {
    match row {
        PatchSplitRow::Raw { src_ix, .. } => Some(src_ix as int),
        PatchSplitRow::Aligned { new_src_ix: Some(ix), .. } => Some(ix as int),
        _ => None,
    }
}

/// A row shows what its lines hold: on the left a removed line or one of context, on
/// the right an added line or one of context, each with its content and its number; a
/// side without a line is empty.
pub open spec fn shows_its_lines(lines: Seq<AnnotatedDiffLine>, row: PatchSplitRow) -> bool {
    match row {
        PatchSplitRow::Raw { src_ix, click_kind } => {
            &&& src_ix < lines.len()
            &&& lines[src_ix as int].kind == DiffLineKind::Header || lines[src_ix as int].kind
                == DiffLineKind::Hunk
            &&& (click_kind == DiffClickKind::HunkHeader) == (lines[src_ix as int].kind
                == DiffLineKind::Hunk)
        },
        PatchSplitRow::Aligned { row: cells, old_src_ix, new_src_ix } => {
            &&& old_src_ix is Some || new_src_ix is Some
            &&& match old_src_ix {
                Some(ix) => {
                    &&& ix < lines.len()
                    &&& lines[ix as int].kind == DiffLineKind::Remove || lines[ix as int].kind
                        == DiffLineKind::Context
                    &&& cells.old == Some(lines[ix as int].content)
                    &&& cells.old_line == lines[ix as int].old_line
                    &&& lines[ix as int].kind == DiffLineKind::Context ==> new_src_ix == Some(ix)
                },
                None => cells.old is None && cells.old_line is None,
            }
            &&& match new_src_ix {
                Some(ix) => {
                    &&& ix < lines.len()
                    &&& lines[ix as int].kind == DiffLineKind::Add || lines[ix as int].kind
                        == DiffLineKind::Context
                    &&& cells.new == Some(lines[ix as int].content)
                    &&& cells.new_line == lines[ix as int].new_line
                    &&& lines[ix as int].kind == DiffLineKind::Context ==> old_src_ix == Some(ix)
                },
                None => cells.new is None && cells.new_line is None,
            }
            &&& match cells.kind {
                FileDiffRowKind::Context => old_src_ix is Some && old_src_ix == new_src_ix,
                FileDiffRowKind::Modify => old_src_ix is Some && new_src_ix is Some && old_src_ix
                    != new_src_ix,
                FileDiffRowKind::Remove => old_src_ix is Some && new_src_ix is None,
                FileDiffRowKind::Add => old_src_ix is None && new_src_ix is Some,
            }
        },
    }
}

/// A row shows a change.
pub open spec fn is_change(row: PatchSplitRow) -> bool {
    row matches PatchSplitRow::Aligned { row, .. } && row.kind != FileDiffRowKind::Context
}

pub open spec fn kind_of(row: PatchSplitRow) -> FileDiffRowKind {
    match row {
        PatchSplitRow::Aligned { row, .. } => row.kind,
        PatchSplitRow::Raw { .. } => FileDiffRowKind::Context,
    }
}

/// Of two change rows one below the other, the lower one has both sides only where the
/// upper one does, and lines that are left over are all on one side.
pub open spec fn changes_pair_up(upper: PatchSplitRow, lower: PatchSplitRow) -> bool {
    is_change(upper) && is_change(lower) ==> {
        &&& kind_of(lower) == FileDiffRowKind::Modify ==> kind_of(upper) == FileDiffRowKind::Modify
        &&& kind_of(upper) != FileDiffRowKind::Modify ==> kind_of(lower) == kind_of(upper)
    }
}

/// Rows that show their lines, all above line `n`, in the order of the patch.
spec fn sound_rows(lines: Seq<AnnotatedDiffLine>, rows: Seq<PatchSplitRow>, n: int) -> bool {
    &&& forall|i: int| 0 <= i < rows.len() ==> shows_its_lines(lines, #[trigger] rows[i])
    &&& forall|i: int|
        0 <= i < rows.len() ==> (left_line(#[trigger] rows[i]) matches Some(ix) ==> ix < n) && (
        right_line(rows[i]) matches Some(ix) ==> ix < n)
    &&& forall|i: int, j: int|
        0 <= i < j < rows.len() ==> ordered_pair(#[trigger] rows[i], #[trigger] rows[j])
    &&& forall|i: int|
        0 <= i && i + 1 < rows.len() ==> changes_pair_up(#[trigger] rows[i], rows[i + 1])
}

/// What is on one row comes before what is on the same side of another.
pub open spec fn ordered_pair(upper: PatchSplitRow, lower: PatchSplitRow) -> bool {
    &&& left_line(upper) matches Some(a) ==> left_line(lower) matches Some(b) ==> a < b
    &&& right_line(upper) matches Some(a) ==> right_line(lower) matches Some(b) ==> a < b
}

/// A line is on a row.
pub open spec fn is_on(row: PatchSplitRow, ix: int) -> bool {
    left_line(row) == Some(ix) || right_line(row) == Some(ix)
}

/// A line is on one of the rows.
pub open spec fn on_rows(rows: Seq<PatchSplitRow>, ix: int) -> bool {
    exists|i: int| 0 <= i < rows.len() && is_on(#[trigger] rows[i], ix)
}

spec fn is_pending(pending: Seq<(usize, AnnotatedDiffLine)>, ix: int) -> bool {
    exists|k: int| 0 <= k < pending.len() && (#[trigger] pending[k]).0 == ix
}

spec fn sound_pending(
    lines: Seq<AnnotatedDiffLine>,
    pending: Seq<(usize, AnnotatedDiffLine)>,
    kind: DiffLineKind,
    n: int,
) -> bool {
    &&& forall|k: int|
        0 <= k < pending.len() ==> (#[trigger] pending[k]).0 < n && lines[pending[k].0 as int]
            == pending[k].1 && pending[k].1.kind == kind
    &&& forall|j: int, k: int|
        0 <= j < k < pending.len() ==> (#[trigger] pending[j]).0 < (#[trigger] pending[k]).0
}

spec fn rows_before_pending(
    rows: Seq<PatchSplitRow>,
    pending: Seq<(usize, AnnotatedDiffLine)>,
) -> bool {
    forall|i: int, k: int|
        0 <= i < rows.len() && 0 <= k < pending.len() ==> (left_line(#[trigger] rows[i]) matches Some(
            ix,
        ) ==> ix < (#[trigger] pending[k]).0) && (right_line(rows[i]) matches Some(ix) ==> ix
            < pending[k].0)
}

spec fn sound_progress(lines: Seq<AnnotatedDiffLine>, p: SplitProgress, n: int) -> bool {
    &&& sound_rows(lines, p.rows, n)
    &&& p.rows.len() > 0 ==> !is_change(p.rows.last())
    &&& sound_pending(lines, p.removes, DiffLineKind::Remove, n)
    &&& sound_pending(lines, p.adds, DiffLineKind::Add, n)
    &&& rows_before_pending(p.rows, p.removes)
    &&& rows_before_pending(p.rows, p.adds)
    &&& forall|ix: int|
        0 <= ix < n ==> #[trigger] on_rows(p.rows, ix) || is_pending(p.removes, ix) || is_pending(
            p.adds,
            ix,
        )
}

proof fn lemma_finished_sound(lines: Seq<AnnotatedDiffLine>, p: SplitProgress, n: int)
    requires
        sound_progress(lines, p, n),
        0 <= n <= lines.len() <= usize::MAX,
    ensures
        sound_rows(lines, finished_rows(p), n),
        forall|ix: int| 0 <= ix < n ==> #[trigger] on_rows(finished_rows(p), ix),
{
    let rows = finished_rows(p);
    let pairs = paired_rows(p.removes, p.adds);
    let base = p.rows.len() as int;
    assert(rows == p.rows + pairs);
    assert forall|i: int| 0 <= i < rows.len() implies shows_its_lines(lines, #[trigger] rows[i]) && (
    left_line(rows[i]) matches Some(ix) ==> ix < n) && (right_line(rows[i]) matches Some(ix) ==> ix
        < n) by {
        if i < base {
            assert(rows[i] == p.rows[i]);
        } else {
            let k = i - base;
            assert(rows[i] == paired_row(p.removes, p.adds, k));
            if k < p.removes.len() {
                assert(p.removes[k].0 < n);
            }
            if k < p.adds.len() {
                assert(p.adds[k].0 < n);
            }
        }
    }
    assert forall|i: int, j: int| 0 <= i < j < rows.len() implies ordered_pair(
        #[trigger] rows[i],
        #[trigger] rows[j],
    ) by {
        if j < base {
            assert(rows[i] == p.rows[i] && rows[j] == p.rows[j]);
        } else {
            let k = j - base;
            assert(rows[j] == paired_row(p.removes, p.adds, k));
            if i < base {
                assert(rows[i] == p.rows[i]);
                if k < p.removes.len() {
                    assert(p.removes[k].0 < n);
                }
                if k < p.adds.len() {
                    assert(p.adds[k].0 < n);
                }
            } else {
                let m = i - base;
                assert(rows[i] == paired_row(p.removes, p.adds, m));
                if k < p.removes.len() {
                    assert(p.removes[m].0 < p.removes[k].0);
                }
                if k < p.adds.len() {
                    assert(p.adds[m].0 < p.adds[k].0);
                }
            }
        }
    }
    assert forall|i: int| 0 <= i && i + 1 < rows.len() implies changes_pair_up(
        #[trigger] rows[i],
        rows[i + 1],
    ) by {
        if i + 1 < base {
            assert(rows[i] == p.rows[i] && rows[i + 1] == p.rows[i + 1]);
        } else if i + 1 == base {
            assert(rows[i] == p.rows.last());
        } else {
            assert(rows[i] == paired_row(p.removes, p.adds, i - base));
            assert(rows[i + 1] == paired_row(p.removes, p.adds, i + 1 - base));
        }
    }
    assert forall|ix: int| 0 <= ix < n implies #[trigger] on_rows(rows, ix) by {
        if on_rows(p.rows, ix) {
            let i = choose|i: int| 0 <= i < p.rows.len() && is_on(#[trigger] p.rows[i], ix);
            assert(rows[i] == p.rows[i]);
        } else if is_pending(p.removes, ix) {
            let k = choose|k: int| 0 <= k < p.removes.len() && (#[trigger] p.removes[k]).0 == ix;
            assert(rows[base + k] == paired_row(p.removes, p.adds, k));
            assert(is_on(rows[base + k], ix));
        } else {
            assert(is_pending(p.adds, ix));
            let k = choose|k: int| 0 <= k < p.adds.len() && (#[trigger] p.adds[k]).0 == ix;
            assert(rows[base + k] == paired_row(p.removes, p.adds, k));
            assert(is_on(rows[base + k], ix));
        }
    }
}

proof fn lemma_pending_pushed(
    lines: Seq<AnnotatedDiffLine>,
    pending: Seq<(usize, AnnotatedDiffLine)>,
    kind: DiffLineKind,
    n: int,
)
    requires
        sound_pending(lines, pending, kind, n),
        0 <= n < lines.len() <= usize::MAX,
    ensures
        sound_pending(lines, pending, kind, n + 1),
        lines[n].kind == kind ==> sound_pending(
            lines,
            pending.push((n as usize, lines[n])),
            kind,
            n + 1,
        ),
{
    let more = pending.push((n as usize, lines[n]));
    if lines[n].kind == kind {
        assert forall|j: int, k: int| 0 <= j < k < more.len() implies (#[trigger] more[j]).0 < (
        #[trigger] more[k]).0 by {
            assert(more[j] == pending[j]);
            if k < pending.len() {
                assert(more[k] == pending[k]);
            } else {
                assert(pending[j].0 < n);
            }
        }
    }
}

proof fn lemma_sound_progress(lines: Seq<AnnotatedDiffLine>, n: int)
    requires
        0 <= n <= lines.len() <= usize::MAX,
    ensures
        sound_progress(lines, progress(lines, 0, n), n),
    decreases n,
{
    if n > 0 {
        let m = n - 1;
        lemma_sound_progress(lines, m);
        let before = progress(lines, 0, m);
        let after = progress(lines, 0, n);
        let line = lines[m];
        lemma_pending_pushed(lines, before.removes, DiffLineKind::Remove, m);
        lemma_pending_pushed(lines, before.adds, DiffLineKind::Add, m);
        if line.kind == DiffLineKind::Remove || line.kind == DiffLineKind::Add {
            assert(after.rows == before.rows);
            assert forall|ix: int| 0 <= ix < n implies #[trigger] on_rows(after.rows, ix)
                || is_pending(after.removes, ix) || is_pending(after.adds, ix) by {
                if ix == m {
                    if line.kind == DiffLineKind::Remove {
                        assert(after.removes[after.removes.len() - 1].0 == ix);
                    } else {
                        assert(after.adds[after.adds.len() - 1].0 == ix);
                    }
                } else if on_rows(before.rows, ix) {
                } else if is_pending(before.removes, ix) {
                    let k = choose|k: int|
                        0 <= k < before.removes.len() && (#[trigger] before.removes[k]).0 == ix;
                    assert(after.removes[k].0 == ix);
                } else {
                    assert(is_pending(before.adds, ix));
                    let k = choose|k: int|
                        0 <= k < before.adds.len() && (#[trigger] before.adds[k]).0 == ix;
                    assert(after.adds[k].0 == ix);
                }
            }
        } else {
            lemma_finished_sound(lines, before, m);
            let closed = finished_rows(before);
            let row = plain_row(m, line);
            assert(after.rows == closed.push(row));
            assert(shows_its_lines(lines, row));
            assert(left_line(row) == Some(m) && right_line(row) == Some(m));
            assert forall|i: int| 0 <= i < after.rows.len() implies shows_its_lines(
                lines,
                #[trigger] after.rows[i],
            ) && (left_line(after.rows[i]) matches Some(ix) ==> ix < n) && (right_line(
                after.rows[i],
            ) matches Some(ix) ==> ix < n) by {
                if i < closed.len() {
                    assert(after.rows[i] == closed[i]);
                }
            }
            assert forall|i: int, j: int| 0 <= i < j < after.rows.len() implies ordered_pair(
                #[trigger] after.rows[i],
                #[trigger] after.rows[j],
            ) by {
                assert(after.rows[i] == closed[i]);
                if j < closed.len() {
                    assert(after.rows[j] == closed[j]);
                }
            }
            assert forall|i: int| 0 <= i && i + 1 < after.rows.len() implies changes_pair_up(
                #[trigger] after.rows[i],
                after.rows[i + 1],
            ) by {
                assert(after.rows[i] == closed[i]);
                if i + 1 < closed.len() {
                    assert(after.rows[i + 1] == closed[i + 1]);
                }
            }
            assert forall|ix: int| 0 <= ix < n implies #[trigger] on_rows(after.rows, ix) by {
                if ix == m {
                    assert(is_on(after.rows[closed.len() as int], ix));
                } else {
                    assert(on_rows(closed, ix));
                    let i = choose|i: int| 0 <= i < closed.len() && is_on(#[trigger] closed[i], ix);
                    assert(after.rows[i] == closed[i]);
                }
            }
        }
    }
}

/// Every row of a patch in two columns shows what its lines hold, each on its own side.
pub proof fn law_rows_show_their_lines(lines: Seq<AnnotatedDiffLine>, i: int)
    requires
        lines.len() <= usize::MAX,
        0 <= i < split_rows(lines).len(),
    ensures
        shows_its_lines(lines, split_rows(lines)[i]),
{
    let n = lines.len() as int;
    lemma_sound_progress(lines, n);
    lemma_finished_sound(lines, progress(lines, 0, n), n);
}

/// Every line of a patch is on a row, and rows keep the order of the patch on either
/// side, so that it is on one row alone.
pub proof fn law_every_line_has_one_row(lines: Seq<AnnotatedDiffLine>)
    requires
        lines.len() <= usize::MAX,
    ensures
        ({
            let rows = split_rows(lines);
            &&& forall|ix: int| 0 <= ix < lines.len() ==> #[trigger] on_rows(rows, ix)
            &&& forall|i: int, j: int|
                0 <= i < j < rows.len() ==> ordered_pair(#[trigger] rows[i], #[trigger] rows[j])
        }),
{
    let n = lines.len() as int;
    lemma_sound_progress(lines, n);
    lemma_finished_sound(lines, progress(lines, 0, n), n);
}

/// Removed and added lines are paired from the top of their block: what is left over is
/// below the pairs, and on one side only.
pub proof fn law_changes_pair_up_from_the_top(lines: Seq<AnnotatedDiffLine>, i: int)
    requires
        lines.len() <= usize::MAX,
        0 <= i,
        i + 1 < split_rows(lines).len(),
    ensures
        changes_pair_up(split_rows(lines)[i], split_rows(lines)[i + 1]),
{
    let n = lines.len() as int;
    lemma_sound_progress(lines, n);
    lemma_finished_sound(lines, progress(lines, 0, n), n);
}

/// How many of the lines from one up to another are in the old file, or in the new one.
pub open spec fn lines_in_file(lines: Seq<DiffLine>, from: int, to: int, old: bool) -> nat
    decreases to - from,
{
    if to <= from {
        0
    } else {
        lines_in_file(lines, from, to - 1, old) + (if lines[to - 1].kind == DiffLineKind::Context
            || lines[to - 1].kind == (if old {
            DiffLineKind::Remove
        } else {
            DiffLineKind::Add
        }) {
            1nat
        } else {
            0nat
        })
    }
}

proof fn lemma_numbers_count(lines: Seq<DiffLine>, hunk: int, n: int, first: (u32, u32))
    requires
        0 <= hunk < n <= lines.len(),
        lines[hunk].kind == DiffLineKind::Hunk,
        hunk_start(lines[hunk].text@) == Some(first),
        forall|k: int| hunk < k < n ==> (#[trigger] lines[k]).kind != DiffLineKind::Hunk,
        first.0 + lines_in_file(lines, hunk + 1, n, true) <= u32::MAX,
        first.1 + lines_in_file(lines, hunk + 1, n, false) <= u32::MAX,
    ensures
        numbers_before(lines, n).old_line == Some(
            (first.0 + lines_in_file(lines, hunk + 1, n, true)) as u32,
        ),
        numbers_before(lines, n).new_line == Some(
            (first.1 + lines_in_file(lines, hunk + 1, n, false)) as u32,
        ),
    decreases n,
{
    if n > hunk + 1 {
        lemma_numbers_count(lines, hunk, n - 1, first);
        assert(lines[n - 1].kind != DiffLineKind::Hunk);
    }
}

/// The lines of a hunk are numbered on from what its header says: on each side, the
/// number of a line is that of the first one and as many more as there are lines of
/// that file above it. A line has a number in the files that it is in, and no other.
pub proof fn law_lines_are_numbered_from_their_header(
    lines: Seq<DiffLine>,
    hunk: int,
    n: int,
    first: (u32, u32),
)
    requires
        0 <= hunk < n < lines.len(),
        lines[hunk].kind == DiffLineKind::Hunk,
        hunk_start(lines[hunk].text@) == Some(first),
        forall|k: int| hunk < k <= n ==> (#[trigger] lines[k]).kind != DiffLineKind::Hunk,
        first.0 + lines_in_file(lines, hunk + 1, n, true) <= u32::MAX,
        first.1 + lines_in_file(lines, hunk + 1, n, false) <= u32::MAX,
    ensures
        ({
            let line = annotated_rows(lines)[n];
            let kind = lines[n].kind;
            &&& line.old_line == (if kind == DiffLineKind::Context || kind == DiffLineKind::Remove {
                Some((first.0 + lines_in_file(lines, hunk + 1, n, true)) as u32)
            } else {
                None
            })
            &&& line.new_line == (if kind == DiffLineKind::Context || kind == DiffLineKind::Add {
                Some((first.1 + lines_in_file(lines, hunk + 1, n, false)) as u32)
            } else {
                None
            })
        }),
{
    lemma_numbers_count(lines, hunk, n, first);
}

/// A numbered line is the line of the patch, word for word; before the first hunk no
/// line has a number.
pub proof fn law_numbering_keeps_the_patch(lines: Seq<DiffLine>, n: int)
    requires
        0 <= n < lines.len(),
    ensures
        annotated_rows(lines).len() == lines.len(),
        annotated_rows(lines)[n].kind == lines[n].kind,
        annotated_rows(lines)[n].text == lines[n].text,
        annotated_rows(lines)[n].content == lines[n].content,
        (forall|k: int| 0 <= k < n ==> (#[trigger] lines[k]).kind != DiffLineKind::Hunk)
            ==> annotated_rows(lines)[n].old_line is None && annotated_rows(lines)[n].new_line is None,
{
    if forall|k: int| 0 <= k < n ==> (#[trigger] lines[k]).kind != DiffLineKind::Hunk {
        lemma_unnumbered(lines, n);
    }
}

proof fn lemma_unnumbered(lines: Seq<DiffLine>, n: int)
    requires
        0 <= n <= lines.len(),
        forall|k: int| 0 <= k < n ==> (#[trigger] lines[k]).kind != DiffLineKind::Hunk,
    ensures
        numbers_before(lines, n).old_line is None,
        numbers_before(lines, n).new_line is None,
    decreases n,
{
    if n > 0 {
        lemma_unnumbered(lines, n - 1);
        assert(lines[n - 1].kind != DiffLineKind::Hunk);
    }
}

/// A change flag has one bit for additions and the next for removals.
pub proof fn law_change_flag_has_a_bit_for_each(removes: bool, adds: bool)
    ensures
        change_flag(removes, adds) % 2 == (if adds {
            1int
        } else {
            0
        }),
        change_flag(removes, adds) as int / 2 == (if removes {
            1int
        } else {
            0
        }),
{
}

/// A click on a hunk header acts on the hunk, one on a line that opens a file on the
/// file, and any other on its line.
pub proof fn law_click_acts_on_what_was_clicked(line: DiffLine)
    ensures
        (click_kind_of(line) == DiffClickKind::HunkHeader) == (line.kind == DiffLineKind::Hunk),
        (click_kind_of(line) == DiffClickKind::FileHeader) == (line.kind == DiffLineKind::Header
            && line.text@.len() >= 11 && line.text@.take(11) == seq![
            'd',
            'i',
            'f',
            'f',
            ' ',
            '-',
            '-',
            'g',
            'i',
            't',
            ' ',
        ]),
{
    reveal_strlit("diff --git ");
    let opening = seq!['d', 'i', 'f', 'f', ' ', '-', '-', 'g', 'i', 't', ' '];
    assert("diff --git "@ =~= opening);
    if line.text@.len() >= 11 {
        assert(line.text@.take(11) =~= line.text@.subrange(0, 11));
    }
}

/// Header lines that only repeat the file's names and digests are hidden, and no other
/// line is.
pub proof fn law_only_repeating_headers_are_hidden(kind: DiffLineKind, text: Seq<char>)
    ensures
        is_hidden_header(kind, text) == (kind == DiffLineKind::Header && ((text.len() >= 6
            && text.take(6) == seq!['i', 'n', 'd', 'e', 'x', ' ']) || (text.len() >= 4
            && text.take(4) == seq!['-', '-', '-', ' ']) || (text.len() >= 4 && text.take(4) == seq![
            '+',
            '+',
            '+',
            ' ',
        ]))),
{
    reveal_strlit("index ");
    reveal_strlit("--- ");
    reveal_strlit("+++ ");
    assert("index "@ =~= seq!['i', 'n', 'd', 'e', 'x', ' ']);
    assert("--- "@ =~= seq!['-', '-', '-', ' ']);
    assert("+++ "@ =~= seq!['+', '+', '+', ' ']);
    if text.len() >= 4 {
        assert(text.take(4) =~= text.subrange(0, 4));
    }
    if text.len() >= 6 {
        assert(text.take(6) =~= text.subrange(0, 6));
    }
}

/// Decimal digits stand for the number: the last one for what is left of ten, the ones
/// before it for the tens.
pub proof fn law_decimal_digits_stand_for_the_number(n: nat)
    ensures
        decimal_text(n).len() > 0,
        decimal_text(n).last() as int == 48 + n % 10,
        n < 10 ==> decimal_text(n).len() == 1,
        n >= 10 ==> decimal_text(n).drop_last() == decimal_text(n / 10),
{
    if n >= 10 {
        assert(decimal_text(n).drop_last() =~= decimal_text(n / 10));
    }
}

proof fn lemma_digits_of(n: nat)
    ensures
        forall|k: int|
            0 <= k < decimal_text(n).len() ==> '0' <= (#[trigger] decimal_text(n)[k]) && decimal_text(n)[k]
                <= '9',
    decreases n,
{
    let digits = decimal_text(n);
    let last = ('0' as int + n % 10) as char;
    if n >= 10 {
        lemma_digits_of(n / 10);
    }
    assert forall|k: int| 0 <= k < digits.len() implies '0' <= (#[trigger] digits[k]) && digits[k]
        <= '9' by {
        if k == digits.len() - 1 {
            assert(digits[k] == last);
        } else {
            assert(digits[k] == decimal_text(n / 10)[k]);
        }
    }
}

proof fn lemma_digits_value_push(s: Seq<char>, c: char, i: int, acc: nat)
    requires
        0 <= i <= s.len(),
        '0' <= c <= '9',
    ensures
        digits_value(s.push(c), i, acc) == (match digits_value(s, i, acc) {
            Some(v) => Some((v * 10 + (c as int - 48)) as nat),
            None => None,
        }),
    decreases s.len() - i,
{
    let more = s.push(c);
    if i < s.len() {
        assert(more[i] == s[i]);
        if '0' <= s[i] && s[i] <= '9' {
            lemma_digits_value_push(s, c, i + 1, (acc * 10 + (s[i] as int - '0' as int)) as nat);
        }
    } else {
        assert(more[i] == c);
        assert(digits_value(more, i + 1, (acc * 10 + (c as int - '0' as int)) as nat) == Some(
            (acc * 10 + (c as int - '0' as int)) as nat,
        ));
    }
}

proof fn lemma_decimal_value(n: nat)
    ensures
        digits_value(decimal_text(n), 0, 0) == Some(n),
    decreases n,
{
    let last = ('0' as int + n % 10) as char;
    if n < 10 {
        assert(decimal_text(n) =~= Seq::<char>::empty().push(last));
        lemma_digits_value_push(Seq::empty(), last, 0, 0);
    } else {
        lemma_decimal_value(n / 10);
        lemma_digits_value_push(decimal_text(n / 10), last, 0, 0);
    }
}

/// A number is read back from its decimal digits.
pub proof fn law_number_is_read_back(n: u32)
    ensures
        decimal_u32(decimal_text(n as nat)) == Some(n),
{
    lemma_decimal_value(n as nat);
    lemma_digits_of(n as nat);
    law_decimal_digits_stand_for_the_number(n as nat);
    assert('0' <= decimal_text(n as nat)[0]);
}

proof fn lemma_comma_position(word: Seq<char>, i: int, at: int)
    requires
        0 <= i <= at <= word.len(),
        forall|k: int| i <= k < at ==> (#[trigger] word[k]) != ',',
        at < word.len() ==> word[at] == ',',
    ensures
        comma_position(word, i) == at,
    decreases at - i,
{
    if i < at {
        assert(word[i] != ',');
        lemma_comma_position(word, i + 1, at);
    }
}

proof fn lemma_range_start(sign: char, n: u32, tail: Seq<char>)
    requires
        tail.len() > 0 ==> tail[0] == ',',
    ensures
        range_start(seq![sign] + decimal_text(n as nat) + tail, sign) == Some(n),
{
    let digits = decimal_text(n as nat);
    let word = seq![sign] + digits + tail;
    let at = 1 + digits.len() as int;
    lemma_digits_of(n as nat);
    assert forall|k: int| 1 <= k < at implies (#[trigger] word[k]) != ',' by {
        assert(word[k] == digits[k - 1]);
    }
    if at < word.len() {
        assert(word[at] == tail[0]);
    }
    lemma_comma_position(word, 1, at);
    assert(word.subrange(1, at) =~= digits);
    law_number_is_read_back(n);
    assert(word[0] == sign);
}

proof fn lemma_word_end(s: Seq<char>, i: int, at: int)
    requires
        0 <= i <= at <= s.len(),
        forall|k: int| i <= k < at ==> !whitespace_char(#[trigger] s[k]),
        at < s.len() ==> whitespace_char(s[at]),
    ensures
        word_end(s, i) == at,
    decreases at - i,
{
    if i < at {
        assert(!whitespace_char(s[i]));
        lemma_word_end(s, i + 1, at);
    }
}

proof fn lemma_marker(s: Seq<char>, i: int, at: int)
    requires
        0 <= i <= at,
        at + 1 < s.len(),
        forall|k: int| i <= k < at ==> (#[trigger] s[k]) != '@',
        s[at] == '@',
        s[at + 1] == '@',
    ensures
        marker_position(s, i) == at,
    decreases at - i,
{
    if i < at {
        assert(s[i] != '@');
        lemma_marker(s, i + 1, at);
    }
}

/// A stretch of characters that are neither spaces nor marks.
pub open spec fn is_word(s: Seq<char>) -> bool {
    forall|k: int| 0 <= k < s.len() ==> !whitespace_char(#[trigger] s[k]) && s[k] != '@'
}

proof fn lemma_spaces_before_word(s: Seq<char>, i: int)
    requires
        0 <= i,
        i + 1 < s.len(),
        whitespace_char(s[i]),
        !whitespace_char(s[i + 1]),
    ensures
        after_spaces(s, i) == i + 1,
{
    assert(after_spaces(s, i + 1) == i + 1);
}

#[verifier::rlimit(40)]
proof fn lemma_hunk_words(old_word: Seq<char>, new_word: Seq<char>, text: Seq<char>, tail: Seq<char>)
    requires
        old_word.len() > 0,
        new_word.len() > 0,
        is_word(old_word),
        is_word(new_word),
        text == seq!['@', '@', ' '] + old_word + seq![' '] + new_word + seq![' ', '@', '@'] + tail,
    ensures
        hunk_start(text) == (match (range_start(old_word, '-'), range_start(new_word, '+')) {
            (Some(old_start), Some(new_start)) => Some((old_start, new_start)),
            _ => None,
        }),
{
    let b = 1 + old_word.len() as int;
    let c = b + 1;
    let d = c + new_word.len() as int;
    let end = d + 1;
    let body = text.subrange(2, 2 + end);
    assert(text.len() == 2 + end + 2 + tail.len());
    assert(text[0] == '@' && text[1] == '@' && text[2 + end] == '@' && text[2 + end + 1] == '@');
    assert(body.len() == end);
    assert(body[0] == ' ' && body[b] == ' ' && body[d] == ' ');
    assert forall|k: int| 1 <= k < b implies (#[trigger] body[k]) == old_word[k - 1] by {}
    assert forall|k: int| c <= k < d implies (#[trigger] body[k]) == new_word[k - c] by {}
    assert forall|k: int| 2 <= k < 2 + end implies (#[trigger] text[k]) != '@' by {
        assert(text[k] == body[k - 2]);
        if 1 <= k - 2 < b {
            assert(body[k - 2] == old_word[k - 3]);
        } else if c <= k - 2 < d {
            assert(body[k - 2] == new_word[k - 2 - c]);
        }
    }
    lemma_marker(text, 2, 2 + end);
    assert(body[1] == old_word[0] && body[c] == new_word[0]);
    lemma_spaces_before_word(body, 0);
    lemma_spaces_before_word(body, b);
    lemma_word_end(body, 1, b);
    lemma_word_end(body, c, d);
    assert(body.subrange(1, b) =~= old_word);
    assert(body.subrange(c, d) =~= new_word);
}

proof fn lemma_range_is_word(sign: char, n: u32, count: Seq<char>)
    requires
        sign == '-' || sign == '+',
        is_word(count),
    ensures
        is_word(seq![sign] + decimal_text(n as nat) + count),
{
    let digits = decimal_text(n as nat);
    let word = seq![sign] + digits + count;
    lemma_digits_of(n as nat);
    assert forall|k: int| 0 <= k < word.len() implies !whitespace_char(#[trigger] word[k])
        && word[k] != '@' by {
        if 1 <= k < 1 + digits.len() {
            assert(word[k] == digits[k - 1]);
        } else if k >= 1 {
            assert(word[k] == count[k - 1 - digits.len()]);
        }
    }
}

/// A hunk header gives the first old and the first new line that it was written with,
/// whatever counts stand behind them and whatever follows its second mark.
pub proof fn law_hunk_header_is_read_back(
    old_start: u32,
    old_count: Seq<char>,
    new_start: u32,
    new_count: Seq<char>,
    tail: Seq<char>,
)
    requires
        old_count.len() > 0 ==> old_count[0] == ',',
        new_count.len() > 0 ==> new_count[0] == ',',
        is_word(old_count),
        is_word(new_count),
    ensures
        hunk_start(
            seq!['@', '@', ' ', '-'] + decimal_text(old_start as nat) + old_count + seq![' ', '+']
                + decimal_text(new_start as nat) + new_count + seq![' ', '@', '@'] + tail,
        ) == Some((old_start, new_start)),
{
    let old_digits = decimal_text(old_start as nat);
    let new_digits = decimal_text(new_start as nat);
    let old_word = seq!['-'] + old_digits + old_count;
    let new_word = seq!['+'] + new_digits + new_count;
    let text = seq!['@', '@', ' ', '-'] + old_digits + old_count + seq![' ', '+'] + new_digits
        + new_count + seq![' ', '@', '@'] + tail;
    assert(text =~= seq!['@', '@', ' '] + old_word + seq![' '] + new_word + seq![' ', '@', '@']
        + tail);
    lemma_range_is_word('-', old_start, old_count);
    lemma_range_is_word('+', new_start, new_count);
    lemma_hunk_words(old_word, new_word, text, tail);
    lemma_range_start('-', old_start, old_count);
    lemma_range_start('+', new_start, new_count);
}

/// A row is on the page that starts at it or above and whose next page starts
/// below it, and a page ends where the next one starts, or with the rows.
pub proof fn law_row_is_on_the_page_around_it(row: int, len: int, page_size: int, page: int)
    requires
        0 <= row,
        0 < page_size,
        0 <= page,
    ensures
        page_of(row, page_size) * page_size <= row < (page_of(row, page_size) + 1) * page_size,
        (page + 1) * page_size <= len ==> page_end(len, page_size, page) == (page + 1) * page_size,
        (page + 1) * page_size > len ==> page_end(len, page_size, page) == len,
{
    let q = page_of(row, page_size);
    vstd::arithmetic::div_mod::lemma_fundamental_div_mod(row, page_size);
    vstd::arithmetic::div_mod::lemma_mod_bound(row, page_size);
    assert((q + 1) * page_size == page_size * q + page_size) by (nonlinear_arith);
    assert(q * page_size == page_size * q) by (nonlinear_arith);
}

} // verus!
