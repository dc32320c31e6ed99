//! The lines of a patch with their line numbers, worked out page by page.
//!
//! Line numbers depend on everything above a line, so each page needs the
//! numbers that its first line starts from. Pages are built when one of their
//! rows is first asked for and kept from then on.
use super::hunk_header::hunk_start;
use super::hunk_header::parse_hunk_start;
use crate::outside::fx_get;
use crate::outside::fx_insert;
use crate::outside::fx_len;
use rustc_hash::FxHashMap;
use vstd::arithmetic::div_mod::lemma_fundamental_div_mod;
use vstd::prelude::*;

verus! {

broadcast use vstd::std_specs::hash::group_hash_axioms;

/// Rows per page of a patch.
pub const PATCH_DIFF_PAGE_SIZE: usize = 256;

#[derive(Clone, Copy, Debug, PartialEq, Eq, Structural)]
pub enum DiffLineKind {
    Header,
    Hunk,
    Add,
    Remove,
    Context,
}

/// One line of a unified diff: its kind, the line as it stands in the patch,
/// and the content it shows without the diff marker.
#[derive(Debug, PartialEq, Eq)]
pub struct DiffLine {
    pub kind: DiffLineKind,
    pub text: String,
    pub content: String,
}

#[derive(Debug, PartialEq, Eq)]
pub struct Diff {
    pub lines: Vec<DiffLine>,
}

/// A diff line with the line numbers it has in the old and in the new file.
#[derive(Debug, PartialEq, Eq)]
pub struct AnnotatedDiffLine {
    pub kind: DiffLineKind,
    pub text: String,
    pub content: String,
    pub old_line: Option<u32>,
    pub new_line: Option<u32>,
}

impl Clone for AnnotatedDiffLine {
    fn clone(&self) -> (copy: Self)
        ensures
            copy == *self,
    {
        AnnotatedDiffLine {
            kind: self.kind,
            text: self.text.clone(),
            content: self.content.clone(),
            old_line: self.old_line,
            new_line: self.new_line,
        }
    }
}

/// The numbers that the next old and the next new line get; unknown before the
/// first hunk header and after one that cannot be read.
#[derive(Clone, Copy, Debug, PartialEq, Eq, Structural)]
pub struct DiffLineNumberState {
    pub old_line: Option<u32>,
    pub new_line: Option<u32>,
}

pub open spec fn next_number(number: Option<u32>) -> Option<u32> {
    match number {
        Some(v) => Some((v + 1) as u32),
        None => None,
    }
}

/// The numbers after a line, from those before it.
pub open spec fn numbers_after(before: DiffLineNumberState, line: DiffLine) -> DiffLineNumberState {
    match line.kind {
        DiffLineKind::Hunk => match hunk_start(line.text@) {
            Some((old_start, new_start)) => DiffLineNumberState {
                old_line: Some(old_start),
                new_line: Some(new_start),
            },
            None => DiffLineNumberState { old_line: None, new_line: None },
        },
        DiffLineKind::Context => DiffLineNumberState {
            old_line: next_number(before.old_line),
            new_line: next_number(before.new_line),
        },
        DiffLineKind::Remove => DiffLineNumberState {
            old_line: next_number(before.old_line),
            new_line: before.new_line,
        },
        DiffLineKind::Add => DiffLineNumberState {
            old_line: before.old_line,
            new_line: next_number(before.new_line),
        },
        DiffLineKind::Header => before,
    }
}

/// The numbers in force before line `n`.
pub open spec fn numbers_before(lines: Seq<DiffLine>, n: int) -> DiffLineNumberState
    decreases n,
{
    if n <= 0 {
        DiffLineNumberState { old_line: None, new_line: None }
    } else {
        numbers_after(numbers_before(lines, n - 1), lines[n - 1])
    }
}

pub open spec fn number_can_grow(number: Option<u32>) -> bool {
    match number {
        Some(v) => v < u32::MAX,
        None => true,
    }
}

/// Counting this line keeps the numbers within `u32`.
pub open spec fn line_fits(before: DiffLineNumberState, line: DiffLine) -> bool {
    match line.kind {
        DiffLineKind::Context => number_can_grow(before.old_line) && number_can_grow(
            before.new_line,
        ),
        DiffLineKind::Remove => number_can_grow(before.old_line),
        DiffLineKind::Add => number_can_grow(before.new_line),
        _ => true,
    }
}

/// Every line number of the patch fits in a `u32`.
pub open spec fn line_numbers_fit(lines: Seq<DiffLine>) -> bool {
    forall|n: int|
        0 <= n < lines.len() ==> line_fits(#[trigger] numbers_before(lines, n), lines[n])
}

/// A line with the numbers that its kind shows: removed lines have an old
/// number, added ones a new number, context lines both, headers none.
pub open spec fn annotated_line(line: DiffLine, numbers: DiffLineNumberState) -> AnnotatedDiffLine {
    AnnotatedDiffLine {
        kind: line.kind,
        text: line.text,
        content: line.content,
        old_line: if line.kind == DiffLineKind::Context || line.kind == DiffLineKind::Remove {
            numbers.old_line
        } else {
            None
        },
        new_line: if line.kind == DiffLineKind::Context || line.kind == DiffLineKind::Add {
            numbers.new_line
        } else {
            None
        },
    }
}

/// Every line of the patch with its numbers.
pub open spec fn annotated_rows(lines: Seq<DiffLine>) -> Seq<AnnotatedDiffLine> {
    Seq::new(lines.len(), |i: int| annotated_line(lines[i], numbers_before(lines, i)))
}

/// The page that holds a row.
pub open spec fn page_of(row: int, page_size: int) -> int {
    row / page_size
}

/// The pages that hold the rows from `start` up to `end`.
pub open spec fn pages_of(start: int, end: int, page_size: int) -> Set<usize> {
    Set::new(
        |page: usize|
            exists|row: int| start <= row < end && #[trigger] page_of(row, page_size) == page,
    )
}

/// The row after the last one of a page.
pub open spec fn page_end(len: int, page_size: int, page: int) -> int {
    if (page + 1) * page_size <= len {
        (page + 1) * page_size
    } else {
        len
    }
}

/// How many rows the pages below `n` hold together, counting those in `cached`.
pub open spec fn rows_on_pages(cached: Set<usize>, len: int, page_size: int, n: nat) -> nat
    decreases n,
{
    if n == 0 {
        0
    } else {
        let page = (n - 1) as nat;
        rows_on_pages(cached, len, page_size, page) + (if page * page_size < len && page
            <= usize::MAX && cached.contains(page as usize) {
            (page_end(len, page_size, page as int) - page * page_size) as nat
        } else {
            0
        })
    }
}

pub fn advance_state(state: DiffLineNumberState, line: &DiffLine) -> (after: DiffLineNumberState)
    requires
        line_fits(state, *line),
    ensures
        after == numbers_after(state, *line),
{
    let mut state = state;
    match line.kind {
        DiffLineKind::Hunk => {
            if let Some((old_start, new_start)) = parse_hunk_start(line.text.as_str()) {
                state.old_line = Some(old_start);
                state.new_line = Some(new_start);
            } else {
                state.old_line = None;
                state.new_line = None;
            }
        },
        DiffLineKind::Context => {
            if let Some(v) = state.old_line {
                state.old_line = Some(v + 1);
            }
            if let Some(v) = state.new_line {
                state.new_line = Some(v + 1);
            }
        },
        DiffLineKind::Remove => {
            if let Some(v) = state.old_line {
                state.old_line = Some(v + 1);
            }
        },
        DiffLineKind::Add => {
            if let Some(v) = state.new_line {
                state.new_line = Some(v + 1);
            }
        },
        DiffLineKind::Header => {},
    }
    state
}

fn number_below_limit(number: Option<u32>) -> (answer: bool)
    ensures
        answer == number_can_grow(number),
{
    match number {
        Some(v) => v < u32::MAX,
        None => true,
    }
}

/// Whether a patch can be numbered: asks [`line_numbers_fit`] of it.
pub fn line_numbers_fit_in_u32(diff: &Diff) -> (answer: bool)
    ensures
        answer == line_numbers_fit(diff.lines@),
{
    let mut state = DiffLineNumberState { old_line: None, new_line: None };
    let mut i: usize = 0;
    while i < diff.lines.len()
        invariant
            0 <= i <= diff.lines@.len(),
            state == numbers_before(diff.lines@, i as int),
            forall|n: int|
                0 <= n < i ==> line_fits(
                    #[trigger] numbers_before(diff.lines@, n),
                    diff.lines@[n],
                ),
        decreases diff.lines@.len() - i,
    {
        let line = &diff.lines[i];
        let fits = match line.kind {
            DiffLineKind::Context => number_below_limit(state.old_line) && number_below_limit(
                state.new_line,
            ),
            DiffLineKind::Remove => number_below_limit(state.old_line),
            DiffLineKind::Add => number_below_limit(state.new_line),
            _ => true,
        };
        if !fits {
            assert(!line_fits(numbers_before(diff.lines@, i as int), diff.lines@[i as int]));
            return false;
        }
        state = advance_state(state, line);
        i += 1;
    }
    true
}

/// A patch whose rows are numbered on demand.
#[derive(Debug)]
pub struct PagedPatchDiffRows {
    diff: Diff,
    page_size: usize,
    page_start_states: Vec<DiffLineNumberState>,
    pages: FxHashMap<usize, Vec<AnnotatedDiffLine>>,
}

impl PagedPatchDiffRows {
    pub closed spec fn lines(&self) -> Seq<DiffLine> {
        self.diff.lines@
    }

    pub closed spec fn rows_per_page(&self) -> int {
        self.page_size as int
    }

    /// The pages that have been built.
    pub closed spec fn cached_pages(&self) -> Set<usize> {
        self.pages@.dom()
    }

    /// Every page kept so far holds the rows of that page, and every number
    /// kept for the start of a page is the one in force there.
    pub closed spec fn wf(&self) -> bool {
        let lines = self.diff.lines@;
        let size = self.page_size as int;
        &&& size >= 1
        &&& line_numbers_fit(lines)
        &&& self.page_start_states@.len() >= 1
        &&& self.page_start_states@[0] == numbers_before(lines, 0)
        &&& forall|k: int|
            #![trigger self.page_start_states@[k]]
            1 <= k < self.page_start_states@.len() ==> k * size < lines.len()
                && self.page_start_states@[k] == numbers_before(lines, k * size)
        &&& forall|k: usize| #[trigger]
            self.pages@.dom().contains(k) ==> k * size < lines.len() && self.pages@[k]@
                == annotated_rows(lines).subrange(k * size, page_end(lines.len() as int, size, k as int))
        &&& self.pages@.dom().finite()
    }

    pub broadcast proof fn lemma_wf(&self)
        requires
            #[trigger] self.wf(),
        ensures
            self.rows_per_page() >= 1,
            line_numbers_fit(self.lines()),
            self.cached_pages().finite(),
    {
    }

    pub fn new(diff: Diff, page_size: usize) -> (rows: Self)
        requires
            line_numbers_fit(diff.lines@),
        ensures
            rows.wf(),
            rows.lines() == diff.lines@,
            rows.rows_per_page() == (if page_size >= 1 {
                page_size as int
            } else {
                1
            }),
            rows.cached_pages() == Set::<usize>::empty(),
    {
        let page_size = if page_size >= 1 {
            page_size
        } else {
            1
        };
        let mut page_start_states: Vec<DiffLineNumberState> = Vec::new();
        page_start_states.push(DiffLineNumberState { old_line: None, new_line: None });
        let pages: FxHashMap<usize, Vec<AnnotatedDiffLine>> = FxHashMap::default();
        let rows = PagedPatchDiffRows { diff, page_size, page_start_states, pages };
        assert(rows.pages@.dom() =~= Set::<usize>::empty());
        rows
    }

    /// How many rows the patch has.
    pub fn len_hint(&self) -> (len: usize)
        ensures
            len == self.lines().len(),
    {
        self.diff.lines.len()
    }

    pub fn page_size(&self) -> (size: usize)
        ensures
            size == self.rows_per_page(),
    {
        self.page_size
    }

    /// The kind of a line, read off the patch itself.
    pub fn line_kind(&self, ix: usize) -> (kind: DiffLineKind)
        requires
            ix < self.lines().len(),
        ensures
            kind == self.lines()[ix as int].kind,
    {
        self.diff.lines[ix].kind
    }

    /// The rows from `.0` up to `.1` make up a page; `None` past the last one.
    pub fn page_bounds(&self, page_ix: usize) -> (bounds: Option<(usize, usize)>)
        requires
            self.wf(),
        ensures
            match bounds {
                Some((start, end)) => start == page_ix * self.rows_per_page() && end == page_end(
                    self.lines().len() as int,
                    self.rows_per_page(),
                    page_ix as int,
                ) && start < end <= self.lines().len(),
                None => page_ix * self.rows_per_page() >= self.lines().len(),
            },
    {
        let len = self.diff.lines.len();
        match page_ix.checked_mul(self.page_size) {
            Some(start) => {
                proof {
                    let p = page_ix as int;
                    let s = self.page_size as int;
                    assert((p + 1) * s == p * s + s) by (nonlinear_arith);
                }
                if start < len {
                    let end = if len - start >= self.page_size {
                        start + self.page_size
                    } else {
                        len
                    };
                    Some((start, end))
                } else {
                    None
                }
            },
            None => None,
        }
    }

    /// The numbers that a page starts from, worked out from the nearest page
    /// start known so far; `None` past the last page.
    fn ensure_page_start_state(&mut self, page_ix: usize) -> (state: Option<DiffLineNumberState>)
        requires
            old(self).wf(),
        ensures
            final(self).wf(),
            final(self).diff == old(self).diff,
            final(self).page_size == old(self).page_size,
            final(self).pages == old(self).pages,
            state == (if page_ix * old(self).page_size < old(self).diff.lines@.len() {
                Some(numbers_before(old(self).diff.lines@, page_ix * old(self).page_size))
            } else {
                None
            }),
    {
        if self.page_bounds(page_ix).is_none() {
            return None;
        }
        let size = self.page_size;
        let len = self.diff.lines.len();
        while self.page_start_states.len() <= page_ix
            invariant
                self.wf(),
                self.diff == old(self).diff,
                self.page_size == old(self).page_size,
                self.pages == old(self).pages,
                size == self.page_size,
                len == self.diff.lines@.len(),
                page_ix * size < len,
            decreases page_ix + 1 - self.page_start_states@.len(),
        {
            let prev_ix = self.page_start_states.len() - 1;
            let mut state = self.page_start_states[prev_ix];
            proof {
                let p = prev_ix as int;
                let q = page_ix as int;
                let s = size as int;
                assert((p + 1) * s == p * s + s) by (nonlinear_arith);
                assert((p + 1) * s <= q * s) by (nonlinear_arith)
                    requires
                        p + 1 <= q,
                        s >= 1,
                ;
                assert(p * s >= 0) by (nonlinear_arith)
                    requires
                        p >= 0,
                        s >= 1,
                ;
                assert(0 * s == 0);
            }
            let start = prev_ix * size;
            let end = start + size;
            let mut i: usize = start;
            while i < end
                invariant
                    start <= i <= end < self.diff.lines@.len(),
                    line_numbers_fit(self.diff.lines@),
                    state == numbers_before(self.diff.lines@, i as int),
                decreases end - i,
            {
                assert(line_fits(numbers_before(self.diff.lines@, i as int), self.diff.lines@[i as int]));
                state = advance_state(state, &self.diff.lines[i]);
                i += 1;
            }
            self.page_start_states.push(state);
        }
        proof {
            let s = size as int;
            assert(0 * s == 0);
        }
        Some(self.page_start_states[page_ix])
    }

    fn build_page(&mut self, page_ix: usize) -> (page: Option<Vec<AnnotatedDiffLine>>)
        requires
            old(self).wf(),
        ensures
            final(self).wf(),
            final(self).diff == old(self).diff,
            final(self).page_size == old(self).page_size,
            final(self).pages == old(self).pages,
            match page {
                Some(rows) => page_ix * old(self).page_size < old(self).diff.lines@.len() && rows@
                    == annotated_rows(old(self).diff.lines@).subrange(
                    page_ix * old(self).page_size,
                    page_end(
                        old(self).diff.lines@.len() as int,
                        old(self).page_size as int,
                        page_ix as int,
                    ),
                ),
                None => page_ix * old(self).page_size >= old(self).diff.lines@.len(),
            },
    {
        let (start, end) = match self.page_bounds(page_ix) {
            Some(bounds) => bounds,
            None => {
                return None;
            },
        };
        let mut state = match self.ensure_page_start_state(page_ix) {
            Some(state) => state,
            None => {
                return None;
            },
        };
        let mut rows: Vec<AnnotatedDiffLine> = Vec::with_capacity(end - start);
        let mut i: usize = start;
        while i < end
            invariant
                start <= i <= end <= self.diff.lines@.len(),
                line_numbers_fit(self.diff.lines@),
                state == numbers_before(self.diff.lines@, i as int),
                rows@ == annotated_rows(self.diff.lines@).subrange(start as int, i as int),
            decreases end - i,
        {
            let line = &self.diff.lines[i];
            let (old_line, new_line) = match line.kind {
                DiffLineKind::Context => (state.old_line, state.new_line),
                DiffLineKind::Remove => (state.old_line, None),
                DiffLineKind::Add => (None, state.new_line),
                DiffLineKind::Header | DiffLineKind::Hunk => (None, None),
            };
            rows.push(
                AnnotatedDiffLine {
                    kind: line.kind,
                    text: line.text.clone(),
                    content: line.content.clone(),
                    old_line,
                    new_line,
                },
            );
            assert(line_fits(numbers_before(self.diff.lines@, i as int), self.diff.lines@[i as int]));
            state = advance_state(state, line);
            i += 1;
            assert(rows@ =~= annotated_rows(self.diff.lines@).subrange(start as int, i as int));
        }
        Some(rows)
    }

    /// Makes sure that a page is built; says whether there is such a page.
    fn load_page(&mut self, page_ix: usize) -> (loaded: bool)
        requires
            old(self).wf(),
        ensures
            final(self).wf(),
            final(self).diff == old(self).diff,
            final(self).page_size == old(self).page_size,
            loaded == (page_ix * old(self).page_size < old(self).diff.lines@.len()),
            final(self).pages@.dom() == (if loaded {
                old(self).pages@.dom().insert(page_ix)
            } else {
                old(self).pages@.dom()
            }),
    {
        if fx_get(&self.pages, &page_ix).is_some() {
            assert(self.pages@.dom() =~= self.pages@.dom().insert(page_ix));
            return true;
        }
        match self.build_page(page_ix) {
            Some(page) => {
                fx_insert(&mut self.pages, page_ix, page);
                assert(self.pages@.dom() =~= old(self).pages@.dom().insert(page_ix));
                true
            },
            None => false,
        }
    }

    /// A line's text, without building its page.
    pub fn line_text(&self, ix: usize) -> (text: Option<String>)
        ensures
            text == (if ix < self.lines().len() {
                Some(self.lines()[ix as int].text)
            } else {
                None
            }),
    {
        if ix < self.diff.lines.len() {
            Some(self.diff.lines[ix].text.clone())
        } else {
            None
        }
    }

    /// A row of the patch; builds the page that it is on.
    pub fn row_at(&mut self, ix: usize) -> (row: Option<AnnotatedDiffLine>)
        requires
            old(self).wf(),
        ensures
            final(self).wf(),
            final(self).lines() == old(self).lines(),
            final(self).rows_per_page() == old(self).rows_per_page(),
            row == (if ix < old(self).lines().len() {
                Some(annotated_rows(old(self).lines())[ix as int])
            } else {
                None
            }),
            final(self).cached_pages() == (if ix < old(self).lines().len() {
                old(self).cached_pages().insert(
                    page_of(ix as int, old(self).rows_per_page()) as usize,
                )
            } else {
                old(self).cached_pages()
            }),
    {
        if ix >= self.diff.lines.len() {
            return None;
        }
        let page_ix = ix / self.page_size;
        let row_ix = ix % self.page_size;
        proof {
            let s = self.page_size as int;
            lemma_fundamental_div_mod(ix as int, s);
            assert(s * page_ix == page_ix * s) by (nonlinear_arith);
            assert((page_ix + 1) * s == page_ix * s + s) by (nonlinear_arith);
        }
        let loaded = self.load_page(page_ix);
        match fx_get(&self.pages, &page_ix) {
            Some(page) => {
                assert(page@.len() > row_ix);
                Some(page[row_ix].clone())
            },
            None => None,
        }
    }

    /// The rows from `start` up to `end`, cut off at the last row; builds the
    /// pages that they are on and no others.
    pub fn slice(&mut self, start: usize, end: usize) -> (rows: Vec<AnnotatedDiffLine>)
        requires
            old(self).wf(),
        ensures
            final(self).wf(),
            final(self).lines() == old(self).lines(),
            final(self).rows_per_page() == old(self).rows_per_page(),
            ({
                let len = old(self).lines().len() as int;
                let stop = if end < len {
                    end as int
                } else {
                    len
                };
                if start < stop {
                    &&& rows@ == annotated_rows(old(self).lines()).subrange(start as int, stop)
                    &&& final(self).cached_pages() == old(self).cached_pages().union(
                        pages_of(start as int, stop, old(self).rows_per_page()),
                    )
                } else {
                    &&& rows@ == Seq::<AnnotatedDiffLine>::empty()
                    &&& final(self).cached_pages() == old(self).cached_pages()
                }
            }),
    {
        let mut rows: Vec<AnnotatedDiffLine> = Vec::new();
        let len = self.diff.lines.len();
        if start >= end || start >= len {
            return rows;
        }
        let stop = if end < len {
            end
        } else {
            len
        };
        let mut i: usize = start;
        let ghost size = self.rows_per_page();
        let ghost before = self.cached_pages();
        assert(before.union(pages_of(start as int, start as int, size)) =~= before);
        while i < stop
            invariant
                self.wf(),
                start <= i <= stop <= self.lines().len(),
                self.lines() == old(self).lines(),
                size == self.rows_per_page(),
                size == old(self).rows_per_page(),
                rows@ == annotated_rows(self.lines()).subrange(start as int, i as int),
                self.cached_pages() == before.union(pages_of(start as int, i as int, size)),
            decreases stop - i,
        {
            let page_ix = i / self.page_size;
            proof {
                vstd::arithmetic::div_mod::lemma_div_pos_is_pos(i as int, size);
            }
            let row = self.row_at(i);
            if let Some(row) = row {
                rows.push(row);
            }
            i += 1;
            proof {
                assert(rows@ =~= annotated_rows(self.lines()).subrange(start as int, i as int));
                let earlier = pages_of(start as int, i - 1, size);
                let now = pages_of(start as int, i as int, size);
                assert(page_of(i - 1, size) == page_ix);
                assert forall|page: usize| now.contains(page) implies earlier.insert(
                    page_ix,
                ).contains(page) by {
                    let row = choose|row: int|
                        start <= row < i && #[trigger] page_of(row, size) == page;
                    if row < i - 1 {
                        assert(earlier.contains(page));
                    }
                }
                assert forall|page: usize| earlier.insert(page_ix).contains(
                    page,
                ) implies now.contains(page) by {
                    if page == page_ix {
                        assert(page_of(i - 1, size) == page);
                    } else {
                        let row = choose|row: int|
                            start <= row < i - 1 && #[trigger] page_of(row, size) == page;
                    }
                }
                assert(now =~= earlier.insert(page_ix));
                assert(self.cached_pages() =~= before.union(now));
            }
        }
        rows
    }

    /// How many pages have been built.
    pub fn cached_page_count(&self) -> (count: usize)
        requires
            self.wf(),
        ensures
            count == self.cached_pages().len(),
    {
        fx_len(&self.pages)
    }

    /// How many rows the built pages hold together.
    pub fn materialized_row_count(&self) -> (count: usize)
        requires
            self.wf(),
        ensures
            forall|n: nat|
                n * self.rows_per_page() >= self.lines().len() ==> count == rows_on_pages(
                    self.cached_pages(),
                    self.lines().len() as int,
                    self.rows_per_page(),
                    n,
                ),
    {
        let len = self.diff.lines.len();
        let ghost size = self.page_size as int;
        let mut count: usize = 0;
        let mut page_ix: usize = 0;
        let mut start: usize = 0;
        assert(0 * size == 0);
        while start < len
            invariant
                self.wf(),
                size == self.page_size,
                len == self.diff.lines@.len(),
                start == (if page_ix * size < len {
                    page_ix * size
                } else {
                    len as int
                }),
                page_ix <= start,
                count <= start,
                count == rows_on_pages(self.pages@.dom(), len as int, size, page_ix as nat),
            decreases len - start,
        {
            proof {
                let p = page_ix as int;
                assert((p + 1) * size == p * size + size) by (nonlinear_arith);
            }
            let end = if len - start >= self.page_size {
                start + self.page_size
            } else {
                len
            };
            if let Some(page) = fx_get(&self.pages, &page_ix) {
                count += page.len();
            }
            page_ix += 1;
            start = end;
        }
        proof {
            assert forall|n: nat| n * size >= len implies count == rows_on_pages(
                self.pages@.dom(),
                len as int,
                size,
                n,
            ) by {
                lemma_rows_on_pages_past_end(
                    self.pages@.dom(),
                    len as int,
                    size,
                    page_ix as nat,
                    n,
                );
            }
        }
        count
    }
}

proof fn lemma_rows_on_pages_past_end(
    cached: Set<usize>,
    len: int,
    page_size: int,
    a: nat,
    b: nat,
)
    requires
        page_size >= 1,
        a * page_size >= len,
        b * page_size >= len,
    ensures
        rows_on_pages(cached, len, page_size, a) == rows_on_pages(cached, len, page_size, b),
    decreases (if a > b {
        a - b
    } else {
        b - a
    }),
{
    if a < b {
        let c = (b - 1) as nat;
        assert(c * page_size >= len) by (nonlinear_arith)
            requires
                c >= a,
                page_size >= 1,
                a * page_size >= len,
        ;
        lemma_rows_on_pages_past_end(cached, len, page_size, a, c);
    } else if b < a {
        let c = (a - 1) as nat;
        assert(c * page_size >= len) by (nonlinear_arith)
            requires
                c >= b,
                page_size >= 1,
                b * page_size >= len,
        ;
        lemma_rows_on_pages_past_end(cached, len, page_size, c, b);
    }
}

} // verus!
