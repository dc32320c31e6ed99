//! The rows of a patch as two columns side by side.
//!
//! Removed and added lines of one block are paired up in order; every other
//! line ends the block and gets a row of its own. Rows are worked out from the
//! top, or from a block boundary near the row that is asked for.
use super::hunk_header::chars_of;
use super::patch_rows::annotated_rows;
use super::patch_rows::AnnotatedDiffLine;
use super::patch_rows::DiffLine;
use super::patch_rows::DiffLineKind;
use super::patch_rows::PagedPatchDiffRows;
use crate::outside::pending_lines;
use crate::outside::pending_lines_clear;
use crate::outside::pending_lines_held;
use crate::outside::pending_lines_push;
use crate::outside::pending_lines_slice;
use crate::outside::split_row_buffer;
use crate::outside::split_row_buffer_clear;
use crate::outside::split_row_buffer_push;
use crate::outside::split_row_buffer_slice;
use crate::outside::split_rows_held;
use crate::outside::PendingLines;
use crate::outside::SplitRowBuffer;
use crate::text::clone_text;
use vstd::prelude::*;

verus! {

broadcast use PagedPatchDiffRows::lemma_wf;

/// What a click on a row of a patch acts on.
#[derive(Clone, Copy, Debug, PartialEq, Eq, Structural)]
pub enum DiffClickKind {
    Line,
    HunkHeader,
    FileHeader,
}

#[derive(Clone, Copy, Debug, PartialEq, Eq, Structural)]
pub enum FileDiffRowKind {
    Context,
    Add,
    Remove,
    Modify,
}

/// One row of a two-column view: what stands on each side, if anything.
#[derive(Debug, PartialEq, Eq)]
pub struct FileDiffRow {
    pub kind: FileDiffRowKind,
    pub old_line: Option<u32>,
    pub new_line: Option<u32>,
    pub old: Option<String>,
    pub new: Option<String>,
}

/// A row of a patch in two columns: a header across both, or two lines side by
/// side. Indices point into the lines of the patch.
#[derive(Debug, PartialEq, Eq)]
pub enum PatchSplitRow {
    Raw { src_ix: usize, click_kind: DiffClickKind },
    Aligned { row: FileDiffRow, old_src_ix: Option<usize>, new_src_ix: Option<usize> },
}

impl Clone for FileDiffRow {
    fn clone(&self) -> (copy: Self)
        ensures
            copy == *self,
    {
        FileDiffRow {
            kind: self.kind,
            old_line: self.old_line,
            new_line: self.new_line,
            old: clone_text(&self.old),
            new: clone_text(&self.new),
        }
    }
}

impl Clone for PatchSplitRow {
    fn clone(&self) -> (copy: Self)
        ensures
            copy == *self,
    {
        match self {
            PatchSplitRow::Raw { src_ix, click_kind } => PatchSplitRow::Raw {
                src_ix: *src_ix,
                click_kind: *click_kind,
            },
            PatchSplitRow::Aligned { row, old_src_ix, new_src_ix } => PatchSplitRow::Aligned {
                row: row.clone(),
                old_src_ix: *old_src_ix,
                new_src_ix: *new_src_ix,
            },
        }
    }
}

/// Whether a text starts with another one.
pub fn text_starts_with(text: &str, prefix: &str) -> (answer: bool)
    ensures
        answer == prefix@.is_prefix_of(text@),
{
    let wanted = chars_of(prefix);
    if wanted.len() == 0 {
        return true;
    }
    let mut i: usize = 0;
    for c in iter: text.chars()
        invariant
            iter.seq() == text@,
            wanted@ == prefix@,
            i == iter.index(),
            i < wanted.len(),
            prefix@.take(i as int) == text@.take(i as int),
    {
        if c != wanted[i] {
            assert(prefix@[i as int] != text@[i as int]);
            return false;
        }
        i += 1;
        assert(prefix@.take(i as int) =~= prefix@.take(i - 1).push(c));
        assert(text@.take(i as int) =~= text@.take(i - 1).push(c));
        if i == wanted.len() {
            assert(prefix@.take(i as int) =~= prefix@);
            return true;
        }
    }
    false
}

/// The line opens a file section.
pub open spec fn opens_file(line_text: Seq<char>) -> bool {
    "diff --git "@.is_prefix_of(line_text)
}

/// A line that is neither removed nor added: it ends a block.
pub open spec fn is_plain(kind: DiffLineKind) -> bool {
    kind != DiffLineKind::Remove && kind != DiffLineKind::Add
}

/// What has been worked out so far: the finished rows, and the removed and
/// added lines of the block that is still open.
pub struct SplitProgress {
    pub rows: Seq<PatchSplitRow>,
    pub removes: Seq<(usize, AnnotatedDiffLine)>,
    pub adds: Seq<(usize, AnnotatedDiffLine)>,
}

pub open spec fn no_progress() -> SplitProgress {
    SplitProgress { rows: Seq::empty(), removes: Seq::empty(), adds: Seq::empty() }
}

/// Row `i` of a block: the `i`-th removed line next to the `i`-th added line.
pub open spec fn paired_row(
    removes: Seq<(usize, AnnotatedDiffLine)>,
    adds: Seq<(usize, AnnotatedDiffLine)>,
    i: int,
) -> PatchSplitRow {
    let left = i < removes.len();
    let right = i < adds.len();
    PatchSplitRow::Aligned {
        row: FileDiffRow {
            kind: if left && right {
                FileDiffRowKind::Modify
            } else if left {
                FileDiffRowKind::Remove
            } else if right {
                FileDiffRowKind::Add
            } else {
                FileDiffRowKind::Context
            },
            old_line: if left {
                removes[i].1.old_line
            } else {
                None
            },
            new_line: if right {
                adds[i].1.new_line
            } else {
                None
            },
            old: if left {
                Some(removes[i].1.content)
            } else {
                None
            },
            new: if right {
                Some(adds[i].1.content)
            } else {
                None
            },
        },
        old_src_ix: if left {
            Some(removes[i].0)
        } else {
            None
        },
        new_src_ix: if right {
            Some(adds[i].0)
        } else {
            None
        },
    }
}

pub open spec fn longer(a: nat, b: nat) -> nat {
    if a >= b {
        a
    } else {
        b
    }
}

/// The rows of a block.
pub open spec fn paired_rows(
    removes: Seq<(usize, AnnotatedDiffLine)>,
    adds: Seq<(usize, AnnotatedDiffLine)>,
) -> Seq<PatchSplitRow> {
    Seq::new(longer(removes.len(), adds.len()), |i: int| paired_row(removes, adds, i))
}

/// The rows once the open block is finished.
pub open spec fn finished_rows(progress: SplitProgress) -> Seq<PatchSplitRow> {
    progress.rows + paired_rows(progress.removes, progress.adds)
}

/// The row of a line that is neither removed nor added.
pub open spec fn plain_row(src_ix: int, line: AnnotatedDiffLine) -> PatchSplitRow {
    match line.kind {
        DiffLineKind::Header => PatchSplitRow::Raw {
            src_ix: src_ix as usize,
            click_kind: if opens_file(line.text@) {
                DiffClickKind::FileHeader
            } else {
                DiffClickKind::Line
            },
        },
        DiffLineKind::Hunk => PatchSplitRow::Raw {
            src_ix: src_ix as usize,
            click_kind: DiffClickKind::HunkHeader,
        },
        _ => PatchSplitRow::Aligned {
            row: FileDiffRow {
                kind: FileDiffRowKind::Context,
                old_line: line.old_line,
                new_line: line.new_line,
                old: Some(line.content),
                new: Some(line.content),
            },
            old_src_ix: Some(src_ix as usize),
            new_src_ix: Some(src_ix as usize),
        },
    }
}

pub open spec fn progress_after(
    before: SplitProgress,
    src_ix: int,
    line: AnnotatedDiffLine,
) -> SplitProgress {
    match line.kind {
        DiffLineKind::Remove => SplitProgress {
            removes: before.removes.push((src_ix as usize, line)),
            ..before
        },
        DiffLineKind::Add => SplitProgress {
            adds: before.adds.push((src_ix as usize, line)),
            ..before
        },
        _ => SplitProgress {
            rows: finished_rows(before).push(plain_row(src_ix, line)),
            removes: Seq::empty(),
            adds: Seq::empty(),
        },
    }
}

/// What the lines from `from` up to `to` amount to, with nothing open at `from`.
pub open spec fn progress(rows: Seq<AnnotatedDiffLine>, from: int, to: int) -> SplitProgress
    decreases to - from,
{
    if to <= from {
        no_progress()
    } else {
        progress_after(progress(rows, from, to - 1), to - 1, rows[to - 1])
    }
}

/// The rows that the lines above `n` give once their last block is finished.
pub open spec fn rows_above(rows: Seq<AnnotatedDiffLine>, n: int) -> Seq<PatchSplitRow> {
    finished_rows(progress(rows, 0, n))
}

/// All rows of a patch in two columns.
pub open spec fn split_rows(rows: Seq<AnnotatedDiffLine>) -> Seq<PatchSplitRow> {
    rows_above(rows, rows.len() as int)
}

/// No block is open at line `n`, or line `n` ends it: rows can be worked out
/// from here alone.
pub open spec fn is_block_boundary(rows: Seq<AnnotatedDiffLine>, n: int) -> bool {
    &&& 0 <= n <= rows.len()
    &&& n == 0 || is_plain(rows[n - 1].kind) || (n < rows.len() && is_plain(rows[n].kind))
}

/// The last block boundary among the lines above `n` that has at most `target`
/// rows above it.
pub open spec fn last_boundary(rows: Seq<AnnotatedDiffLine>, n: int, target: int) -> int
    decreases n,
{
    if n <= 0 {
        0
    } else if is_plain(rows[n - 1].kind) && rows_above(rows, n).len() <= target {
        n
    } else if is_plain(rows[n - 1].kind) && rows_above(rows, n - 1).len() <= target {
        n - 1
    } else {
        last_boundary(rows, n - 1, target)
    }
}

proof fn lemma_progress_size(rows: Seq<AnnotatedDiffLine>, from: int, to: int)
    requires
        0 <= from <= to <= rows.len(),
    ensures
        ({
            let p = progress(rows, from, to);
            p.rows.len() + p.removes.len() + p.adds.len() <= to - from
        }),
        finished_rows(progress(rows, from, to)).len() <= to - from,
    decreases to - from,
{
    if from < to {
        lemma_progress_size(rows, from, to - 1);
    }
}

/// From a boundary on, the rows are those above it and then those worked out
/// from there.
proof fn lemma_progress_from_boundary(rows: Seq<AnnotatedDiffLine>, boundary: int, to: int)
    requires
        is_block_boundary(rows, boundary),
        boundary < to <= rows.len() || (boundary == to && (boundary == 0 || is_plain(
            rows[boundary - 1].kind,
        ))),
    ensures
        ({
            let whole = progress(rows, 0, to);
            let part = progress(rows, boundary, to);
            &&& whole.rows == rows_above(rows, boundary) + part.rows
            &&& whole.removes == part.removes
            &&& whole.adds == part.adds
        }),
    decreases to - boundary,
{
    let above = rows_above(rows, boundary);
    let whole = progress(rows, 0, to);
    let part = progress(rows, boundary, to);
    if boundary == to {
        assert(paired_rows(whole.removes, whole.adds) =~= Seq::empty());
        assert(above =~= whole.rows);
        assert(whole.rows =~= above + part.rows);
        assert(whole.removes =~= part.removes);
        assert(whole.adds =~= part.adds);
    } else if boundary == 0 {
        assert(above =~= Seq::empty());
        assert(whole.rows =~= above + part.rows);
    } else if to == boundary + 1 && !is_plain(rows[boundary - 1].kind) {
        assert(progress(rows, boundary, boundary) == no_progress());
        assert(finished_rows(no_progress()) =~= Seq::empty());
        assert(whole.rows =~= above + part.rows);
    } else {
        lemma_progress_from_boundary(rows, boundary, to - 1);
        let whole_before = progress(rows, 0, to - 1);
        let part_before = progress(rows, boundary, to - 1);
        assert(finished_rows(whole_before) =~= above + finished_rows(part_before));
        assert(whole.rows =~= above + part.rows);
    }
}

/// Rows never change once worked out: later lines only add to them.
proof fn lemma_rows_only_grow(rows: Seq<AnnotatedDiffLine>, n: int, m: int)
    requires
        0 <= n <= m <= rows.len(),
    ensures
        progress(rows, 0, n).rows.is_prefix_of(progress(rows, 0, m).rows),
        progress(rows, 0, n).rows.is_prefix_of(rows_above(rows, m)),
        rows_above(rows, n).len() <= rows_above(rows, m).len(),
    decreases m - n,
{
    if n < m {
        lemma_rows_only_grow(rows, n, m - 1);
    }
}

proof fn lemma_no_later_boundary(rows: Seq<AnnotatedDiffLine>, n: int, m: int, target: int)
    requires
        0 <= n <= m <= rows.len(),
        rows_above(rows, n).len() > target,
    ensures
        last_boundary(rows, m, target) == last_boundary(rows, n, target),
    decreases m - n,
{
    if n < m {
        lemma_rows_only_grow(rows, n, m);
        lemma_rows_only_grow(rows, n, m - 1);
        lemma_no_later_boundary(rows, n, m - 1, target);
    }
}

proof fn lemma_last_boundary(rows: Seq<AnnotatedDiffLine>, n: int, target: int)
    requires
        0 <= n <= rows.len(),
        0 <= target,
    ensures
        ({
            let b = last_boundary(rows, n, target);
            &&& 0 <= b <= n
            &&& is_block_boundary(rows, b)
            &&& rows_above(rows, b).len() <= target
        }),
    decreases n,
{
    if n > 0 {
        lemma_last_boundary(rows, n - 1, target);
    } else {
        assert(rows_above(rows, 0) =~= Seq::empty());
    }
}

/// The rows worked out so far, and where to go on.
pub struct PatchSplitMaterializationState {
    rows: SplitRowBuffer,
    /// The index that `rows` starts at; rows above it were skipped.
    row_base: usize,
    next_src_ix: usize,
    pending_removes: PendingLines,
    pending_adds: PendingLines,
    done: bool,
    /// The block boundary that the work started from.
    first_src_ix: Ghost<int>,
}

impl PatchSplitMaterializationState {
    pub closed spec fn progress(&self) -> SplitProgress {
        SplitProgress {
            rows: split_rows_held(self.rows),
            removes: pending_lines_held(self.pending_removes),
            adds: pending_lines_held(self.pending_adds),
        }
    }

    /// Nothing has been worked out or skipped.
    pub closed spec fn is_fresh(&self) -> bool {
        split_rows_held(self.rows).len() == 0 && self.next_src_ix == 0 && self.row_base == 0
    }

    pub closed spec fn first_row(&self) -> int {
        self.row_base as int
    }

    /// What is held belongs to `lines`: it is what the lines from some block
    /// boundary on amount to, and `row_base` rows stand above that boundary.
    pub closed spec fn belongs_to(&self, lines: Seq<AnnotatedDiffLine>) -> bool {
        let first = self.first_src_ix@;
        &&& is_block_boundary(lines, first)
        &&& self.row_base == rows_above(lines, first).len()
        &&& first <= self.next_src_ix <= lines.len()
        &&& self.done ==> self.next_src_ix == lines.len() && self.progress().rows == finished_rows(
            progress(lines, first, lines.len() as int),
        ) && self.progress().removes.len() == 0 && self.progress().adds.len() == 0
        &&& !self.done ==> self.progress() == progress(lines, first, self.next_src_ix as int)
    }

    fn empty() -> (state: Self)
        ensures
            state.is_fresh(),
            !state.done,
            state.first_src_ix@ == 0,
            state.progress() == no_progress(),
    {
        let state = PatchSplitMaterializationState {
            rows: split_row_buffer(),
            row_base: 0,
            next_src_ix: 0,
            pending_removes: pending_lines(),
            pending_adds: pending_lines(),
            done: false,
            first_src_ix: Ghost(0),
        };
        state
    }

    /// Forgets everything, to start again from the top.
    fn restart(&mut self)
        ensures
            final(self).is_fresh(),
            !final(self).done,
            final(self).first_src_ix@ == 0,
            final(self).progress() == no_progress(),
    {
        split_row_buffer_clear(&mut self.rows);
        self.row_base = 0;
        self.next_src_ix = 0;
        pending_lines_clear(&mut self.pending_removes);
        pending_lines_clear(&mut self.pending_adds);
        self.done = false;
        self.first_src_ix = Ghost(0);
    }

    fn held_rows(&self) -> (count: usize)
        ensures
            count == self.progress().rows.len(),
    {
        split_row_buffer_slice(&self.rows).len()
    }

    /// Finishes the open block: its lines become rows.
    fn flush_pending(&mut self)
        ensures
            final(self).progress().rows == finished_rows(old(self).progress()),
            final(self).progress().removes == Seq::<(usize, AnnotatedDiffLine)>::empty(),
            final(self).progress().adds == Seq::<(usize, AnnotatedDiffLine)>::empty(),
            final(self).row_base == old(self).row_base,
            final(self).next_src_ix == old(self).next_src_ix,
            final(self).done == old(self).done,
            final(self).first_src_ix == old(self).first_src_ix,
    {
        let removes = pending_lines_slice(&self.pending_removes).len();
        let adds = pending_lines_slice(&self.pending_adds).len();
        let pairs = if removes >= adds {
            removes
        } else {
            adds
        };
        let mut i: usize = 0;
        let ghost before = self.progress();
        assert(before.rows =~= before.rows + paired_rows(before.removes, before.adds).take(0));
        while i < pairs
            invariant
                0 <= i <= pairs,
                before == old(self).progress(),
                removes == before.removes.len(),
                adds == before.adds.len(),
                pairs == longer(before.removes.len(), before.adds.len()),
                self.progress().rows == before.rows + paired_rows(
                    before.removes,
                    before.adds,
                ).take(i as int),
                self.progress().removes == before.removes,
                self.progress().adds == before.adds,
                self.row_base == old(self).row_base,
                self.next_src_ix == old(self).next_src_ix,
                self.done == old(self).done,
                self.first_src_ix == old(self).first_src_ix,
            decreases pairs - i,
        {
            let removes_slice = pending_lines_slice(&self.pending_removes);
            let adds_slice = pending_lines_slice(&self.pending_adds);
            let left: Option<&(usize, AnnotatedDiffLine)> = if i < removes {
                Some(&removes_slice[i])
            } else {
                None
            };
            let right: Option<&(usize, AnnotatedDiffLine)> = if i < adds {
                Some(&adds_slice[i])
            } else {
                None
            };
            let kind = match (left.is_some(), right.is_some()) {
                (true, true) => FileDiffRowKind::Modify,
                (true, false) => FileDiffRowKind::Remove,
                (false, true) => FileDiffRowKind::Add,
                (false, false) => FileDiffRowKind::Context,
            };
            let (old_line, old, old_src_ix) = match left {
                Some(pair) => (pair.1.old_line, Some(pair.1.content.clone()), Some(pair.0)),
                None => (None, None, None),
            };
            let (new_line, new, new_src_ix) = match right {
                Some(pair) => (pair.1.new_line, Some(pair.1.content.clone()), Some(pair.0)),
                None => (None, None, None),
            };
            let row = PatchSplitRow::Aligned {
                row: FileDiffRow { kind, old_line, new_line, old, new },
                old_src_ix,
                new_src_ix,
            };
            assert(row == paired_row(before.removes, before.adds, i as int));
            split_row_buffer_push(&mut self.rows, row);
            i += 1;
            proof {
                let block = paired_rows(before.removes, before.adds);
                assert(block.take(i as int) =~= block.take(i - 1).push(block[i - 1]));
                assert(self.progress().rows =~= before.rows + block.take(i as int));
            }
        }
        pending_lines_clear(&mut self.pending_removes);
        pending_lines_clear(&mut self.pending_adds);
        proof {
            let block = paired_rows(before.removes, before.adds);
            assert(block.take(pairs as int) =~= block);
        }
    }

    fn push_context_row(&mut self, src_ix: usize, line: &AnnotatedDiffLine)
        requires
            line.kind == DiffLineKind::Context,
        ensures
            final(self).progress() == (SplitProgress {
                rows: old(self).progress().rows.push(plain_row(src_ix as int, *line)),
                ..old(self).progress()
            }),
            final(self).row_base == old(self).row_base,
            final(self).next_src_ix == old(self).next_src_ix,
            final(self).done == old(self).done,
            final(self).first_src_ix == old(self).first_src_ix,
    {
        split_row_buffer_push(
            &mut self.rows,
            PatchSplitRow::Aligned {
                row: FileDiffRow {
                    kind: FileDiffRowKind::Context,
                    old_line: line.old_line,
                    new_line: line.new_line,
                    old: Some(line.content.clone()),
                    new: Some(line.content.clone()),
                },
                old_src_ix: Some(src_ix),
                new_src_ix: Some(src_ix),
            },
        );
    }

    /// Takes in the next line of the patch.
    fn materialize_source_line(&mut self, src_ix: usize, line: AnnotatedDiffLine)
        requires
            src_ix < usize::MAX,
        ensures
            final(self).progress() == progress_after(old(self).progress(), src_ix as int, line),
            final(self).row_base == old(self).row_base,
            final(self).next_src_ix == src_ix + 1,
            final(self).done == old(self).done,
            final(self).first_src_ix == old(self).first_src_ix,
    {
        match line.kind {
            DiffLineKind::Remove => {
                pending_lines_push(&mut self.pending_removes, (src_ix, line));
            },
            DiffLineKind::Add => {
                pending_lines_push(&mut self.pending_adds, (src_ix, line));
            },
            DiffLineKind::Context => {
                self.flush_pending();
                self.push_context_row(src_ix, &line);
            },
            DiffLineKind::Hunk => {
                self.flush_pending();
                split_row_buffer_push(
                    &mut self.rows,
                    PatchSplitRow::Raw { src_ix, click_kind: DiffClickKind::HunkHeader },
                );
            },
            DiffLineKind::Header => {
                let click_kind = if text_starts_with(line.text.as_str(), "diff --git ") {
                    DiffClickKind::FileHeader
                } else {
                    DiffClickKind::Line
                };
                self.flush_pending();
                split_row_buffer_push(&mut self.rows, PatchSplitRow::Raw { src_ix, click_kind });
            },
        }
        self.next_src_ix = src_ix + 1;
    }
}

/// A patch whose two-column rows are worked out on demand.
pub struct PagedPatchSplitRows {
    source: PagedPatchDiffRows,
    len_hint: usize,
    state: PatchSplitMaterializationState,
}

impl PagedPatchSplitRows {
    /// The lines of the patch, numbered.
    pub closed spec fn lines(&self) -> Seq<AnnotatedDiffLine> {
        annotated_rows(self.source.lines())
    }

    pub closed spec fn source_lines(&self) -> Seq<DiffLine> {
        self.source.lines()
    }

    pub closed spec fn rows_per_page(&self) -> int {
        self.source.rows_per_page()
    }

    /// Nothing has been worked out or skipped yet.
    pub closed spec fn is_fresh(&self) -> bool {
        self.state.is_fresh()
    }

    /// The first row that has not been skipped.
    pub closed spec fn first_row(&self) -> int {
        self.state.first_row()
    }

    /// How many rows are held.
    pub closed spec fn held(&self) -> nat {
        self.state.progress().rows.len()
    }

    pub closed spec fn wf(&self) -> bool {
        &&& self.source.wf()
        &&& self.len_hint == split_rows(self.lines()).len()
        &&& self.state.belongs_to(self.lines())
    }

    pub fn new(source: PagedPatchDiffRows) -> (rows: Self)
        requires
            source.wf(),
        ensures
            rows.wf(),
            rows.source_lines() == source.lines(),
            rows.lines() == annotated_rows(source.lines()),
            rows.rows_per_page() == source.rows_per_page(),
            rows.is_fresh(),
    {
        let len_hint = Self::count_rows(&source);
        Self::new_with_len_hint(source, len_hint)
    }

    pub fn new_with_len_hint(source: PagedPatchDiffRows, len_hint: usize) -> (rows: Self)
        requires
            source.wf(),
            len_hint == split_rows(annotated_rows(source.lines())).len(),
        ensures
            rows.wf(),
            rows.source_lines() == source.lines(),
            rows.lines() == annotated_rows(source.lines()),
            rows.rows_per_page() == source.rows_per_page(),
            rows.is_fresh(),
    {
        let rows = PagedPatchSplitRows {
            source,
            len_hint,
            state: PatchSplitMaterializationState::empty(),
        };
        assert(rows_above(rows.lines(), 0) =~= Seq::empty());
        rows
    }

    pub fn source(&self) -> (source: &PagedPatchDiffRows)
        requires
            self.wf(),
        ensures
            source.wf(),
            source.lines() == self.source_lines(),
            source.rows_per_page() == self.rows_per_page(),
    {
        &self.source
    }

    /// How many rows a patch gives, counted by the kinds of its lines alone.
    pub fn count_rows(source: &PagedPatchDiffRows) -> (count: usize)
        requires
            source.wf(),
        ensures
            count == split_rows(annotated_rows(source.lines())).len(),
    {
        let ghost lines = annotated_rows(source.lines());
        let len = source.len_hint();
        let mut out: usize = 0;
        let mut pending_removes: usize = 0;
        let mut pending_adds: usize = 0;
        let mut i: usize = 0;
        while i < len
            invariant
                0 <= i <= len,
                len == source.lines().len(),
                lines == annotated_rows(source.lines()),
                out == progress(lines, 0, i as int).rows.len(),
                pending_removes == progress(lines, 0, i as int).removes.len(),
                pending_adds == progress(lines, 0, i as int).adds.len(),
                out + pending_removes + pending_adds <= i,
            decreases len - i,
        {
            match source.line_kind(i) {
                DiffLineKind::Remove => {
                    pending_removes += 1;
                },
                DiffLineKind::Add => {
                    pending_adds += 1;
                },
                DiffLineKind::Context | DiffLineKind::Header | DiffLineKind::Hunk => {
                    out += if pending_removes >= pending_adds {
                        pending_removes
                    } else {
                        pending_adds
                    };
                    pending_removes = 0;
                    pending_adds = 0;
                    out += 1;
                },
            }
            i += 1;
        }
        out + (if pending_removes >= pending_adds {
            pending_removes
        } else {
            pending_adds
        })
    }

    /// The last block boundary with at most `target_split_row` rows above it,
    /// found by the kinds of the lines alone: the line it is at, and the number
    /// of rows above it.
    pub fn scan_to_block_boundary(source: &PagedPatchDiffRows, target_split_row: usize) -> (found: (
        usize,
        usize,
    ))
        requires
            source.wf(),
        ensures
            ({
                let lines = annotated_rows(source.lines());
                let boundary = last_boundary(lines, lines.len() as int, target_split_row as int);
                &&& found.0 == boundary
                &&& found.1 == rows_above(lines, boundary).len()
            }),
    {
        let ghost lines = annotated_rows(source.lines());
        let ghost target = target_split_row as int;
        let len = source.len_hint();
        let mut row_count: usize = 0;
        let mut pending_removes: usize = 0;
        let mut pending_adds: usize = 0;
        let mut best_src_ix: usize = 0;
        let mut best_row_count: usize = 0;
        let mut src_ix: usize = 0;
        assert(rows_above(lines, 0) =~= Seq::empty());
        while src_ix < len
            invariant
                0 <= src_ix <= len,
                len == source.lines().len(),
                lines == annotated_rows(source.lines()),
                target == target_split_row,
                row_count == progress(lines, 0, src_ix as int).rows.len(),
                pending_removes == progress(lines, 0, src_ix as int).removes.len(),
                pending_adds == progress(lines, 0, src_ix as int).adds.len(),
                row_count + pending_removes + pending_adds <= src_ix,
                best_src_ix == last_boundary(lines, src_ix as int, target),
                best_row_count == rows_above(lines, best_src_ix as int).len(),
            decreases len - src_ix,
        {
            match source.line_kind(src_ix) {
                DiffLineKind::Remove => {
                    pending_removes += 1;
                },
                DiffLineKind::Add => {
                    pending_adds += 1;
                },
                DiffLineKind::Context | DiffLineKind::Header | DiffLineKind::Hunk => {
                    row_count += if pending_removes >= pending_adds {
                        pending_removes
                    } else {
                        pending_adds
                    };
                    pending_removes = 0;
                    pending_adds = 0;
                    assert(row_count == rows_above(lines, src_ix as int).len());
                    proof {
                        let after = progress(lines, 0, src_ix + 1);
                        assert(paired_rows(after.removes, after.adds) =~= Seq::empty());
                        assert(rows_above(lines, src_ix + 1).len() == row_count + 1);
                    }
                    if row_count > target_split_row {
                        proof {
                            lemma_no_later_boundary(lines, src_ix as int, len as int, target);
                        }
                        return (best_src_ix, best_row_count);
                    }
                    best_src_ix = src_ix;
                    best_row_count = row_count;
                    row_count += 1;
                    if row_count > target_split_row {
                        proof {
                            lemma_no_later_boundary(lines, src_ix + 1, len as int, target);
                        }
                        return (best_src_ix, best_row_count);
                    }
                    best_src_ix = src_ix + 1;
                    best_row_count = row_count;
                },
            }
            src_ix += 1;
        }
        (best_src_ix, best_row_count)
    }

    /// Before anything is worked out, a row far down is reached by skipping to
    /// the last block boundary above it.
    fn maybe_fast_forward_to(&mut self, target_ix: usize)
        requires
            old(self).wf(),
        ensures
            final(self).wf(),
            final(self).source == old(self).source,
            final(self).len_hint == old(self).len_hint,
            ({
                let lines = old(self).lines();
                let boundary = last_boundary(lines, lines.len() as int, target_ix as int);
                let skipped = rows_above(lines, boundary).len();
                if old(self).is_fresh() && target_ix > old(self).rows_per_page() && skipped > 0 {
                    &&& final(self).first_row() == skipped
                    &&& skipped <= target_ix
                    &&& !final(self).is_fresh()
                } else {
                    final(self).state == old(self).state
                }
            }),
    {
        if self.state.held_rows() != 0 || self.state.next_src_ix != 0 || self.state.row_base != 0
            || target_ix <= self.source.page_size() {
            return;
        }
        let (skip_src, skip_rows) = Self::scan_to_block_boundary(&self.source, target_ix);
        proof {
            let lines = self.lines();
            lemma_last_boundary(lines, lines.len() as int, target_ix as int);
        }
        if skip_rows > 0 {
            self.state.restart();
            self.state.row_base = skip_rows;
            self.state.next_src_ix = skip_src;
            self.state.first_src_ix = Ghost(skip_src as int);
        }
    }

    /// Where a state belongs to the patch, the rows it holds are rows of it.
    proof fn lemma_held_rows(&self)
        requires
            self.wf(),
        ensures
            self.first_row() + self.held() <= self.len_hint,
            forall|i: int|
                0 <= i < self.held() ==> #[trigger] self.state.progress().rows[i] == split_rows(
                    self.lines(),
                )[self.first_row() + i],
            self.state.done ==> self.first_row() + self.held() == self.len_hint,
    {
        let lines = self.lines();
        let len = lines.len() as int;
        let first = self.state.first_src_ix@;
        let next = self.state.next_src_ix as int;
        lemma_rows_only_grow(lines, first, len);
        if self.state.done {
            if first == len {
                assert(progress(lines, first, len) == no_progress());
                assert(finished_rows(no_progress()) =~= Seq::empty());
            } else {
                lemma_progress_from_boundary(lines, first, len);
                assert(split_rows(lines) =~= rows_above(lines, first) + finished_rows(
                    progress(lines, first, len),
                ));
                assert forall|i: int| 0 <= i < self.held() implies #[trigger] self.state.progress().rows[i]
                    == split_rows(lines)[self.first_row() + i] by {}
            }
        } else if first < next {
            lemma_progress_from_boundary(lines, first, next);
            lemma_rows_only_grow(lines, next, len);
            let whole = progress(lines, 0, next).rows;
            assert forall|i: int| 0 <= i < self.held() implies #[trigger] self.state.progress().rows[i]
                == split_rows(lines)[self.first_row() + i] by {
                assert(whole[self.first_row() + i] == progress(lines, first, next).rows[i]);
                assert(whole == split_rows(lines).subrange(0, whole.len() as int));
                assert(split_rows(lines).subrange(0, whole.len() as int)[self.first_row() + i]
                    == split_rows(lines)[self.first_row() + i]);
            }
        } else {
            assert(self.state.progress() == no_progress());
        }
    }

    /// Works rows out until those from `first_ix` to `last_ix` are among those held.
    /// Where nothing was worked out yet, rows above the first may be skipped.
    fn materialize_until(&mut self, first_ix: usize, last_ix: usize)
        requires
            old(self).wf(),
            first_ix <= last_ix,
        ensures
            final(self).wf(),
            final(self).lines() == old(self).lines(),
            final(self).source_lines() == old(self).source_lines(),
            final(self).rows_per_page() == old(self).rows_per_page(),
            final(self).len_hint == old(self).len_hint,
            last_ix >= old(self).len_hint ==> final(self).state == old(self).state,
            last_ix < old(self).len_hint ==> ({
                let lines = old(self).lines();
                let boundary = last_boundary(lines, lines.len() as int, first_ix as int);
                let skipped = rows_above(lines, boundary).len();
                &&& final(self).first_row() <= first_ix
                &&& last_ix < final(self).first_row() + final(self).held()
                &&& final(self).first_row() == (if first_ix > old(self).rows_per_page() && skipped
                    > 0 && (old(self).is_fresh() || first_ix < old(self).first_row()) {
                    skipped as int
                } else if first_ix < old(self).first_row() {
                    0
                } else {
                    old(self).first_row()
                })
            }),
    {
        if last_ix >= self.len_hint {
            return;
        }
        if first_ix < self.state.row_base {
            self.state.restart();
            assert(rows_above(self.lines(), 0) =~= Seq::empty());
        }
        proof {
            self.lemma_held_rows();
        }
        if self.state.row_base + self.state.held_rows() > last_ix {
            return;
        }
        self.maybe_fast_forward_to(first_ix);
        let ghost first_row = self.first_row();
        let src_len = self.source.len_hint();
        proof {
            self.lemma_held_rows();
        }
        while self.state.row_base + self.state.held_rows() <= last_ix && !self.state.done
            invariant
                self.wf(),
                self.lines() == old(self).lines(),
                self.source_lines() == old(self).source_lines(),
                self.rows_per_page() == old(self).rows_per_page(),
                self.len_hint == old(self).len_hint,
                last_ix < self.len_hint,
                src_len == self.lines().len(),
                self.first_row() == first_row,
                self.first_row() + self.held() <= self.len_hint,
                self.state.done ==> self.first_row() + self.held() == self.len_hint,
            decreases src_len - self.state.next_src_ix, if self.state.done { 0int } else { 1int },
        {
            let src_start = self.state.next_src_ix;
            let page_size = self.source.page_size();
            if src_start >= src_len {
                self.state.flush_pending();
                self.state.done = true;
                proof {
                    self.lemma_held_rows();
                }
            } else {
                let batch_end = if src_len - src_start > page_size {
                    src_start + page_size
                } else {
                    src_len
                };
                let batch = self.source.slice(src_start, batch_end);
                let mut offset: usize = 0;
                while offset < batch.len() && self.state.row_base + self.state.held_rows()
                    <= last_ix
                    invariant
                        self.wf(),
                        self.lines() == old(self).lines(),
                        self.source_lines() == old(self).source_lines(),
                        self.rows_per_page() == old(self).rows_per_page(),
                        self.len_hint == old(self).len_hint,
                        last_ix < self.len_hint,
                        src_len == self.lines().len(),
                        self.first_row() == first_row,
                        self.first_row() + self.held() <= self.len_hint,
                        !self.state.done,
                        src_start < batch_end <= src_len,
                        batch@ == self.lines().subrange(src_start as int, batch_end as int),
                        0 <= offset <= batch@.len(),
                        self.state.next_src_ix == src_start + offset,
                        offset == 0 ==> self.first_row() + self.held() <= last_ix,
                    decreases batch@.len() - offset,
                {
                    let line = batch[offset].clone();
                    self.state.materialize_source_line(src_start + offset, line);
                    offset += 1;
                    proof {
                        self.lemma_held_rows();
                    }
                }
            }
        }
    }

    /// A row of the patch in two columns.
    pub fn row_at(&mut self, ix: usize) -> (row: Option<PatchSplitRow>)
        requires
            old(self).wf(),
        ensures
            final(self).wf(),
            final(self).lines() == old(self).lines(),
            final(self).source_lines() == old(self).source_lines(),
            final(self).rows_per_page() == old(self).rows_per_page(),
            row == (if ix < split_rows(old(self).lines()).len() {
                Some(split_rows(old(self).lines())[ix as int])
            } else {
                None
            }),
    {
        self.materialize_until(ix, ix);
        proof {
            self.lemma_held_rows();
        }
        if ix < self.state.row_base {
            return None;
        }
        let rows = split_row_buffer_slice(&self.state.rows);
        let local_ix = ix - self.state.row_base;
        if local_ix < rows.len() {
            assert(rows@[local_ix as int] == self.state.progress().rows[local_ix as int]);
            Some(rows[local_ix].clone())
        } else {
            None
        }
    }

    /// The rows from `start` up to `end`, cut off at the last row. Where the rows are
    /// fresh, those above the last block boundary before `start` are skipped.
    pub fn slice(&mut self, start: usize, end: usize) -> (rows: Vec<PatchSplitRow>)
        requires
            old(self).wf(),
        ensures
            final(self).wf(),
            final(self).lines() == old(self).lines(),
            final(self).source_lines() == old(self).source_lines(),
            final(self).rows_per_page() == old(self).rows_per_page(),
            ({
                let all = split_rows(old(self).lines());
                let stop = if end < all.len() {
                    end as int
                } else {
                    all.len() as int
                };
                rows@ == (if start < stop {
                    all.subrange(start as int, stop)
                } else {
                    Seq::<PatchSplitRow>::empty()
                })
            }),
    {
        let mut rows: Vec<PatchSplitRow> = Vec::new();
        if start >= end || start >= self.len_hint {
            return rows;
        }
        let end = if end < self.len_hint {
            end
        } else {
            self.len_hint
        };
        self.materialize_until(start, end - 1);
        proof {
            self.lemma_held_rows();
        }
        let held = split_row_buffer_slice(&self.state.rows);
        let row_base = self.state.row_base;
        let local_end = end - row_base;
        let ghost all = split_rows(self.lines());
        let mut i: usize = start - row_base;
        while i < local_end
            invariant
                start <= row_base + i,
                i <= local_end <= held@.len(),
                row_base + held@.len() <= all.len(),
                forall|k: int| 0 <= k < held@.len() ==> #[trigger] held@[k] == all[row_base + k],
                rows@ == all.subrange(start as int, row_base + i),
            decreases local_end - i,
        {
            rows.push(held[i].clone());
            i += 1;
            assert(rows@ =~= all.subrange(start as int, row_base + i));
        }
        rows
    }

    /// How many rows there are.
    pub fn len_hint(&self) -> (len: usize)
        requires
            self.wf(),
        ensures
            len == split_rows(self.lines()).len(),
    {
        self.len_hint
    }

    /// How many rows are held.
    pub fn materialized_row_count(&self) -> (count: usize)
        ensures
            count == self.held(),
    {
        self.state.held_rows()
    }
}

} // verus!
