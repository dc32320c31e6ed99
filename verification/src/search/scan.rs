//! What is searched, and how, given what is on screen.
use crate::search::bytes::holds;
use crate::search::collect::side_chars;
use crate::search::hits::rows_grow;
use crate::search::hits::rows_where;
use crate::search::hits::settled_rows;
use crate::search::hits::sort_and_dedup;
use crate::search::long_rows::resolved_output_line_ix_matches_query;
use crate::search::matcher::found;
use crate::search::matcher::DiffSearchMatcher;
use crate::search::matcher::Sought;
use crate::search::needle::both_buffered;
use crate::search::needle::diff_search_split_row_texts_match_query;
use crate::search::needle::displayed;
use crate::search::needle::AsciiCaseInsensitiveNeedle;
use crate::search::trigrams::kept;
use crate::search::trigrams::retain_refined_visible_matches;
use crate::search::trigrams::stays;
use crate::search::trigrams::has_trigram;
use crate::search::trigrams::increasing;
use crate::search::trigrams::law_candidates_hold_every_match;
use crate::search::trigrams::posting;
use crate::search::hits::lemma_rows_where;
use crate::search::rows::lemma_kept_rows;
use crate::search::trigrams::DiffSearchVisibleCandidates;
use crate::search::trigrams::DiffSearchVisibleTrigramIndex;
use crate::search::trigrams::VisibleRowTest;
use crate::search::source::some_chars;
use vstd::prelude::*;
use vstd::string::*;
use vstd::utf8::encode_utf8;

verus! {

/// Which document of a rendered page is on screen.
#[derive(Clone, Copy, Debug, PartialEq, Eq, Structural)]
pub enum MarkdownSearchSurface {
    Worktree,
    DiffInline,
    DiffSplit,
    Conflict,
}

/// What is on screen.
#[derive(Clone, Copy, Debug)]
pub struct SearchView {
    pub editor_active: bool,
    /// A rendered page covers the view.
    pub markdown_active: bool,
    pub markdown_surface: Option<MarkdownSearchSurface>,
    pub preview_active: bool,
    /// The lines of the file are there.
    pub preview_loaded: bool,
    /// A conflict is on screen.
    pub conflict: bool,
    /// It is known what the conflict is, or its file is.
    pub conflict_known: bool,
    /// The conflict can be settled in the merge view.
    pub conflict_mergeable: bool,
    pub split_view: bool,
    pub file_view: bool,
    pub collapsed: bool,
    pub word_wrap: bool,
    /// The patch is there.
    pub patch_ready: bool,
}

/// What a search goes through.
#[derive(Clone, Copy, Debug, PartialEq, Eq, Structural)]
pub enum ScanPlan {
    Nothing,
    Editor,
    Markdown(MarkdownSearchSurface),
    Preview,
    Conflict,
    InlinePatch,
    Rows,
}

impl SearchView {
    pub open spec fn plan(&self) -> ScanPlan {
        if self.editor_active {
            ScanPlan::Editor
        } else if self.markdown_active {
            match self.markdown_surface {
                Some(surface) => ScanPlan::Markdown(surface),
                None => ScanPlan::Nothing,
            }
        } else if self.preview_active {
            if self.preview_loaded {
                ScanPlan::Preview
            } else {
                ScanPlan::Nothing
            }
        } else if self.conflict {
            if self.conflict_known {
                ScanPlan::Conflict
            } else {
                ScanPlan::Nothing
            }
        } else if !self.split_view && !self.file_view && !self.collapsed && !self.word_wrap
            && self.patch_ready {
            ScanPlan::InlinePatch
        } else {
            ScanPlan::Rows
        }
    }

    /// What a search goes through: an editor before anything that it covers, a
    /// rendered page before the source under it.
    pub fn diff_search_scan_plan(&self) -> (plan: ScanPlan)
        ensures
            plan == self.plan(),
    {
        if self.editor_active {
            return ScanPlan::Editor;
        }
        if self.markdown_active {
            return match self.markdown_surface {
                Some(surface) => ScanPlan::Markdown(surface),
                None => ScanPlan::Nothing,
            };
        }
        if self.preview_active {
            return if self.preview_loaded {
                ScanPlan::Preview
            } else {
                ScanPlan::Nothing
            };
        }
        if self.conflict {
            return if self.conflict_known {
                ScanPlan::Conflict
            } else {
                ScanPlan::Nothing
            };
        }
        if !self.split_view && !self.file_view && !self.collapsed && !self.word_wrap
            && self.patch_ready {
            ScanPlan::InlinePatch
        } else {
            ScanPlan::Rows
        }
    }

    /// Rows can be looked at one by one: the query stays on its row, and rows are
    /// not broken.
    pub fn diff_search_uses_needle(&self, matcher: &DiffSearchMatcher) -> (answer: bool)
        ensures
            answer == (!self.editor_active && !self.markdown_active && !self.word_wrap
                && matcher@.is_plain() && matcher@.query.len() > 0),
    {
        !self.editor_active && !self.markdown_active && !self.word_wrap
            && matcher.can_use_ascii_case_insensitive_fast_path() && !matcher.is_empty()
    }

    pub open spec fn can_refine(&self) -> bool {
        !self.editor_active && !self.markdown_active && (self.preview_active || !self.conflict)
    }

    /// The matches there are can be narrowed down row by row.
    pub fn diff_search_can_refine_current_matches(&self) -> (answer: bool)
        ensures
            answer == self.can_refine(),
    {
        if self.editor_active || self.markdown_active {
            return false;
        }
        self.preview_active || !self.conflict
    }

    /// The matches of a plain query can be narrowed down: rows are not broken, so a
    /// literal cannot run over the lines of the screen.
    pub fn can_refine_plain_query(&self) -> (answer: bool)
        ensures
            answer == (!self.word_wrap && self.can_refine()),
    {
        !self.word_wrap && self.diff_search_can_refine_current_matches()
    }

    /// The matches of a patch can be narrowed down by its index.
    pub fn refines_inline_patch(&self) -> (answer: bool)
        ensures
            answer == (!self.editor_active && !self.preview_active && !self.conflict
                && !self.split_view && !self.file_view && !self.collapsed && !self.word_wrap
                && self.patch_ready),
    {
        !self.editor_active && !self.preview_active && !self.conflict && !self.split_view
            && !self.file_view && !self.collapsed && !self.word_wrap && self.patch_ready
    }
}

/// What is moved to bring a match on screen.
#[derive(Clone, Copy, Debug, PartialEq, Eq, Structural)]
pub enum RevealTarget {
    Nothing,
    Editor,
    /// A rendered file measures the row itself.
    MarkdownWorktree,
    MarkdownInline,
    MarkdownSplit,
    MarkdownConflict,
    Preview,
    /// All columns of the merge view, and its output.
    ConflictColumns,
    ConflictDiff,
    Diff,
}

impl RevealTarget {
    /// The match is also brought into view sideways.
    pub open spec fn reveals_sideways(self) -> bool {
        self is Preview || self is ConflictColumns || self is Diff
    }

    pub fn is_sideways(self) -> (answer: bool)
        ensures
            answer == self.reveals_sideways(),
    {
        match self {
            RevealTarget::Preview => true,
            RevealTarget::ConflictColumns => true,
            RevealTarget::Diff => true,
            _ => false,
        }
    }

    /// The row becomes the selected one.
    pub fn selects_row(self) -> (answer: bool)
        ensures
            answer == (self is Diff),
    {
        match self {
            RevealTarget::Diff => true,
            _ => false,
        }
    }
}

impl SearchView {
    /// What is moved to bring a match on screen.
    pub fn diff_search_scroll_to_visible_ix(&self) -> (target: RevealTarget)
        ensures
            target == (if self.editor_active {
                RevealTarget::Editor
            } else if self.markdown_active {
                match self.markdown_surface {
                    None => RevealTarget::Nothing,
                    Some(MarkdownSearchSurface::Worktree) => RevealTarget::MarkdownWorktree,
                    Some(MarkdownSearchSurface::DiffInline) => RevealTarget::MarkdownInline,
                    Some(MarkdownSearchSurface::DiffSplit) => RevealTarget::MarkdownSplit,
                    Some(MarkdownSearchSurface::Conflict) => RevealTarget::MarkdownConflict,
                }
            } else if self.preview_active {
                RevealTarget::Preview
            } else if self.conflict {
                if self.conflict_mergeable {
                    RevealTarget::ConflictColumns
                } else {
                    RevealTarget::ConflictDiff
                }
            } else {
                RevealTarget::Diff
            }),
    {
        if self.editor_active {
            return RevealTarget::Editor;
        }
        if self.markdown_active {
            return match self.markdown_surface {
                None => RevealTarget::Nothing,
                Some(MarkdownSearchSurface::Worktree) => RevealTarget::MarkdownWorktree,
                Some(MarkdownSearchSurface::DiffInline) => RevealTarget::MarkdownInline,
                Some(MarkdownSearchSurface::DiffSplit) => RevealTarget::MarkdownSplit,
                Some(MarkdownSearchSurface::Conflict) => RevealTarget::MarkdownConflict,
            };
        }
        if self.preview_active {
            return RevealTarget::Preview;
        }
        if self.conflict {
            return if self.conflict_mergeable {
                RevealTarget::ConflictColumns
            } else {
                RevealTarget::ConflictDiff
            };
        }
        RevealTarget::Diff
    }
}

/// A file that is shown for what it is compared with.
#[derive(Clone, Copy, Debug, PartialEq, Eq, Structural)]
pub enum DiffArea {
    Staged,
    Unstaged,
}

/// Whether a conflict is on screen: a file of the working tree, not staged, with
/// a conflict, and not the inside of a nested repository.
pub fn active_conflict_target(
    inline_submodule: bool,
    working_tree_area: Option<DiffArea>,
    is_conflicted: bool,
) -> (answer: bool)
    ensures
        answer == (!inline_submodule && working_tree_area == Some(DiffArea::Unstaged)
            && is_conflicted),
{
    if inline_submodule {
        return false;
    }
    match working_tree_area {
        Some(DiffArea::Unstaged) => is_conflicted,
        _ => false,
    }
}

/// The row of the screen at which a line of an editor starts.
pub fn file_editor_reveal_row(wrap_row_starts: &[usize], line_ix: usize) -> (row: usize)
    ensures
        row == (if line_ix < wrap_row_starts@.len() {
            wrap_row_starts@[line_ix as int]
        } else {
            line_ix
        }),
{
    if line_ix < wrap_row_starts.len() {
        wrap_row_starts[line_ix]
    } else {
        line_ix
    }
}

/// The lines of a file on screen.
#[derive(Clone, Copy)]
pub struct PreviewLines<'a> {
    pub lines: &'a [Option<String>],
}

impl<'a> PreviewLines<'a> {
    pub open spec fn line_holds(&self, needle: Seq<u8>, line: int) -> bool {
        0 <= line < self.lines@.len() && (self.lines@[line] matches Some(text) && holds(
            encode_utf8(text@),
            needle,
            false,
        ))
    }

    fn matches(&self, query: AsciiCaseInsensitiveNeedle<'_>, line: usize) -> (answer: bool)
        requires
            query.wf(),
        ensures
            answer == self.line_holds(query.bytes@, line as int),
    {
        if line >= self.lines.len() {
            return false;
        }
        match &self.lines[line] {
            Some(text) => resolved_output_line_ix_matches_query(text.as_str(), query),
            None => false,
        }
    }

    /// The lines that hold a literal, of the candidates.
    pub open spec fn candidate_hits(
        &self,
        needle: Seq<u8>,
        candidates: DiffSearchVisibleCandidates<'_>,
    ) -> Seq<usize> {
        match candidates {
            DiffSearchVisibleCandidates::All => rows_where(
                self.lines@.len() as int,
                |line: int| self.line_holds(needle, line),
            ),
            DiffSearchVisibleCandidates::Nothing => Seq::empty(),
            DiffSearchVisibleCandidates::Indexed(list) => kept(
                as_rows(list@),
                |line: usize| self.line_holds(needle, line as int),
            ),
        }
    }

    /// The lines that hold a literal, looking at the candidates alone.
    pub fn scan_candidates(
        &self,
        query: AsciiCaseInsensitiveNeedle<'_>,
        candidates: DiffSearchVisibleCandidates<'_>,
    ) -> (matches: Vec<usize>)
        requires
            query.wf(),
        ensures
            matches@ == self.candidate_hits(query.bytes@, candidates),
    {
        let mut matches: Vec<usize> = Vec::new();
        match candidates {
            DiffSearchVisibleCandidates::Nothing => {},
            DiffSearchVisibleCandidates::All => {
                let ghost test = |line: int| self.line_holds(query.bytes@, line);
                let mut i: usize = 0;
                while i < self.lines.len()
                    invariant
                        query.wf(),
                        test == |line: int| self.line_holds(query.bytes@, line),
                        0 <= i <= self.lines@.len(),
                        matches@ == rows_where(i as int, test),
                    decreases self.lines@.len() - i,
                {
                    if self.matches(query, i) {
                        matches.push(i);
                    }
                    i += 1;
                }
            },
            DiffSearchVisibleCandidates::Indexed(list) => {
                let ghost rows = as_rows(list@);
                let ghost keep = |line: usize| self.line_holds(query.bytes@, line as int);
                let mut i: usize = 0;
                assert(rows.take(0) =~= Seq::<usize>::empty());
                while i < list.len()
                    invariant
                        query.wf(),
                        keep == |line: usize| self.line_holds(query.bytes@, line as int),
                        rows == as_rows(list@),
                        0 <= i <= list@.len(),
                        matches@ == kept(rows.take(i as int), keep),
                    decreases list@.len() - i,
                {
                    proof {
                        let next = rows.take(i + 1);
                        assert(next.drop_last() =~= rows.take(i as int));
                        assert(next.last() == list@[i as int] as usize);
                    }
                    let line = list[i] as usize;
                    if self.matches(query, line) {
                        matches.push(line);
                    }
                    i += 1;
                }
                assert(rows.take(list@.len() as int) =~= rows);
            },
        }
        matches
    }

    /// The lines that hold a literal. Where there is an index, only the lines that
    /// it gives are looked at.
    pub fn diff_search_scan_preview_with_needle(
        &self,
        query: AsciiCaseInsensitiveNeedle<'_>,
        index: Option<&DiffSearchVisibleTrigramIndex>,
    ) -> (matches: Vec<usize>)
        requires
            query.wf(),
        ensures
            index is None ==> matches@ == rows_where(
                self.lines@.len() as int,
                |line: int| self.line_holds(query.bytes@, line),
            ),
            index matches Some(index) ==> forall|texts: Seq<(u32, Seq<u8>)>|
                #[trigger] self.is_listed(texts) && index.indexes(texts) ==> matches@
                    == rows_where(
                    self.lines@.len() as int,
                    |line: int| self.line_holds(query.bytes@, line),
                ),
            index matches Some(index) ==> exists|candidates: DiffSearchVisibleCandidates<'_>|
                #[trigger] index.gives(query.bytes@, candidates) && matches@ == self.candidate_hits(
                    query.bytes@,
                    candidates,
                ),
    {
        match index {
            None => self.scan_candidates(query, DiffSearchVisibleCandidates::All),
            Some(index) => {
                let candidates = index.candidates(query.as_bytes());
                let matches = self.scan_candidates(query, candidates);
                proof {
                    assert forall|texts: Seq<(u32, Seq<u8>)>| #[trigger]
                        self.is_listed(texts) && index.indexes(texts) implies matches@
                        == rows_where(
                        self.lines@.len() as int,
                        |line: int| self.line_holds(query.bytes@, line),
                    ) by {
                        law_index_loses_no_line(*self, *index, texts, query.bytes@, candidates);
                    }
                }
                matches
            },
        }
    }

    /// Rows and texts are the lines that are there, in order.
    pub open spec fn is_listed(&self, texts: Seq<(u32, Seq<u8>)>) -> bool {
        lines_are_listed(self.lines@, texts)
    }

    /// Keeps of the lines of a query those that hold a longer one.
    pub fn diff_search_try_refine_worktree_preview_matches(
        &self,
        query: AsciiCaseInsensitiveNeedle<'a>,
        candidates: DiffSearchVisibleCandidates<'_>,
        previous_matches: &mut Vec<usize>,
    )
        requires
            query.wf(),
            rows_grow(old(previous_matches)@),
            candidates matches DiffSearchVisibleCandidates::Indexed(list) ==> increasing(list@),
        ensures
            final(previous_matches)@ == kept(
                old(previous_matches)@,
                |row: usize|
                    stays(
                        old(previous_matches)@,
                        candidates,
                        |r: usize| self.line_holds(query.bytes@, r as int),
                        row,
                    ),
            ),
    {
        let ghost rows = previous_matches@;
        let rows_test = PreviewTest { preview: *self, query };
        retain_refined_visible_matches(previous_matches, candidates, &rows_test);
        proof {
            let a = |row: usize|
                stays(rows, candidates, |r: usize| rows_test.keeps(r), row);
            let b = |row: usize|
                stays(
                    rows,
                    candidates,
                    |r: usize| self.line_holds(query.bytes@, r as int),
                    row,
                );
            crate::search::trigrams::lemma_same_test(rows, a, b);
        }
    }
}

/// Rows and texts are the lines that are there, in order.
pub open spec fn lines_are_listed(
    lines: Seq<Option<String>>,
    texts: Seq<(u32, Seq<u8>)>,
) -> bool {
    &&& forall|i: int, j: int|
        0 <= i < j < texts.len() ==> #[trigger] texts[i].0 < #[trigger] texts[j].0
    &&& forall|i: int| 0 <= i < texts.len() ==> (#[trigger] texts[i]).0 < lines.len()
    &&& forall|line: int|
        0 <= line < lines.len() && (#[trigger] lines[line]) is Some ==> texts.contains(
            (line as u32, encode_utf8(lines[line]->Some_0@)),
        )
    &&& lines.len() <= u32::MAX
}

pub open spec fn as_rows(list: Seq<u32>) -> Seq<usize> {
    Seq::new(list.len(), |i: int| list[i] as usize)
}

/// Looking at the lines that an index gives finds every line that holds a
/// literal.
pub proof fn law_index_loses_no_line(
    preview: PreviewLines<'_>,
    index: DiffSearchVisibleTrigramIndex,
    texts: Seq<(u32, Seq<u8>)>,
    needle: Seq<u8>,
    candidates: DiffSearchVisibleCandidates<'_>,
)
    requires
        preview.is_listed(texts),
        index.indexes(texts),
        index.gives(needle, candidates),
    ensures
        preview.candidate_hits(needle, candidates) == rows_where(
            preview.lines@.len() as int,
            |line: int| preview.line_holds(needle, line),
        ),
{
    let n = preview.lines@.len() as int;
    let test = |line: int| preview.line_holds(needle, line);
    let keep = |line: usize| preview.line_holds(needle, line as int);
    match candidates {
        DiffSearchVisibleCandidates::All => {},
        DiffSearchVisibleCandidates::Nothing => {
            let code = choose|code: u32|
                has_trigram(needle, code) && !#[trigger] index.postings@.dom().contains(code);
            law_candidates_hold_every_match(index, texts, needle, code);
            assert forall|line: int| 0 <= line < n && #[trigger] test(line) implies Seq::<
                usize,
            >::empty().contains(line as usize) by {
                let entry = (line as u32, encode_utf8(preview.lines@[line]->Some_0@));
                assert(texts.contains(entry));
                let k = choose|k: int| 0 <= k < texts.len() && texts[k] == entry;
                assert(holds(texts[k].1, needle, false));
            }
            lemma_rows_where(Seq::empty(), n, test);
        },
        DiffSearchVisibleCandidates::Indexed(list) => {
            let code = choose|code: u32| #[trigger]
                index.is_shortest(needle, code) && list@ == posting(index.postings@, code);
            law_candidates_hold_every_match(index, texts, needle, code);
            let rows = as_rows(list@);
            assert(rows_grow(rows));
            lemma_kept_rows(rows, keep);
            let left = kept(rows, keep);
            assert forall|i: int| 0 <= i < left.len() implies (#[trigger] left[i]) < n && test(
                left[i] as int,
            ) by {
                assert(left.contains(left[i]));
            }
            assert forall|line: int| 0 <= line < n && #[trigger] test(line) implies left.contains(
                line as usize,
            ) by {
                let entry = (line as u32, encode_utf8(preview.lines@[line]->Some_0@));
                assert(texts.contains(entry));
                let k = choose|k: int| 0 <= k < texts.len() && texts[k] == entry;
                assert(holds(texts[k].1, needle, false));
                assert(list@.contains(line as u32));
                let c = choose|c: int| 0 <= c < list@.len() && list@[c] == line as u32;
                assert(rows[c] == line as usize);
                assert(rows.contains(line as usize));
                assert(keep(line as usize));
            }
            lemma_rows_where(left, n, test);
        },
    }
}

/// Whether a line holds a literal.
struct PreviewTest<'a> {
    preview: PreviewLines<'a>,
    query: AsciiCaseInsensitiveNeedle<'a>,
}

impl<'a> VisibleRowTest for PreviewTest<'a> {
    closed spec fn keeps(&self, row: usize) -> bool {
        self.preview.line_holds(self.query.bytes@, row as int)
    }

    closed spec fn ready(&self) -> bool {
        self.query.wf()
    }

    fn visible_ix_matches_query(&self, row: usize) -> (answer: bool) {
        self.preview.matches(self.query, row)
    }
}

/// The texts of a row on screen, one column or two.
#[derive(Debug)]
pub struct ViewRow {
    pub left: Option<String>,
    pub right: Option<String>,
}

/// How rows are laid out and searched.
#[derive(Clone, Copy, Debug, PartialEq, Eq, Structural)]
pub enum RowStyle {
    /// One column.
    Inline,
    /// Two columns.
    Split,
    /// Two columns of a file diff: tabs are expanded as they are looked at.
    SplitFile,
}

pub open spec fn text_holds(text: Option<String>, needle: Seq<u8>) -> bool {
    text matches Some(text) && holds(encode_utf8(text@), needle, false)
}

pub open spec fn shown_holds(text: Option<String>, needle: Seq<u8>) -> bool {
    text matches Some(text) && holds(encode_utf8(displayed(text@)), needle, false)
}

pub open spec fn view_row_holds(style: RowStyle, row: ViewRow, needle: Seq<u8>) -> bool {
    match style {
        RowStyle::Inline => text_holds(row.left, needle),
        RowStyle::Split => text_holds(row.left, needle) || text_holds(row.right, needle),
        RowStyle::SplitFile => shown_holds(row.left, needle) || shown_holds(row.right, needle),
    }
}

fn text_matches(text: &Option<String>, query: AsciiCaseInsensitiveNeedle<'_>) -> (answer: bool)
    requires
        query.wf(),
    ensures
        answer == text_holds(*text, query.bytes@),
{
    match text {
        Some(text) => query.is_match(text.as_str()),
        None => false,
    }
}

fn as_str(text: &Option<String>) -> (part: Option<&str>)
    ensures
        side_chars(part) == some_chars(*text),
{
    match text {
        Some(text) => Some(text.as_str()),
        None => None,
    }
}

/// Whether a row on screen holds a literal.
pub fn diff_search_visible_row_matches_query(
    style: RowStyle,
    row: &ViewRow,
    query: AsciiCaseInsensitiveNeedle<'_>,
    expanded_tabs: &mut String,
) -> (answer: bool)
    requires
        query.wf(),
    ensures
        answer == view_row_holds(style, *row, query.bytes@),
        final(expanded_tabs)@ == (if style == RowStyle::SplitFile {
            both_buffered(
                some_chars(row.left),
                some_chars(row.right),
                query.bytes@,
                old(expanded_tabs)@,
            )
        } else {
            old(expanded_tabs)@
        }),
{
    match style {
        RowStyle::Inline => text_matches(&row.left, query),
        RowStyle::Split => text_matches(&row.left, query) || text_matches(&row.right, query),
        RowStyle::SplitFile => diff_search_split_row_texts_match_query(
            query,
            as_str(&row.left),
            as_str(&row.right),
            expanded_tabs,
        ),
    }
}

/// The rows on screen that hold a literal.
pub fn diff_search_scan_current_view_with_needle(
    style: RowStyle,
    rows: &[ViewRow],
    query: AsciiCaseInsensitiveNeedle<'_>,
) -> (matches: Vec<usize>)
    requires
        query.wf(),
    ensures
        matches@ == rows_where(
            rows@.len() as int,
            |row: int| view_row_holds(style, rows@[row], query.bytes@),
        ),
{
    let ghost test = |row: int| view_row_holds(style, rows@[row], query.bytes@);
    let mut matches: Vec<usize> = Vec::new();
    let mut expanded_tabs = String::new();
    let mut i: usize = 0;
    while i < rows.len()
        invariant
            query.wf(),
            test == |row: int| view_row_holds(style, rows@[row], query.bytes@),
            0 <= i <= rows@.len(),
            matches@ == rows_where(i as int, test),
        decreases rows@.len() - i,
    {
        if diff_search_visible_row_matches_query(style, &rows[i], query, &mut expanded_tabs) {
            matches.push(i);
        }
        i += 1;
    }
    matches
}

/// Keeps of the rows of a query those that hold a longer one.
pub fn diff_search_refine_visible_rows(
    style: RowStyle,
    rows: &[ViewRow],
    query: AsciiCaseInsensitiveNeedle<'_>,
    matches: &mut Vec<usize>,
)
    requires
        query.wf(),
    ensures
        final(matches)@ == kept(
            old(matches)@,
            |row: usize| row < rows@.len() && view_row_holds(style, rows@[row as int], query.bytes@),
        ),
{
    let ghost before = matches@;
    let ghost keep = |row: usize|
        row < rows@.len() && view_row_holds(style, rows@[row as int], query.bytes@);
    let mut left: Vec<usize> = Vec::new();
    let mut expanded_tabs = String::new();
    let mut i: usize = 0;
    while i < matches.len()
        invariant
            query.wf(),
            keep == |row: usize|
                row < rows@.len() && view_row_holds(style, rows@[row as int], query.bytes@),
            matches@ == before,
            0 <= i <= before.len(),
            left@ == kept(before.take(i as int), keep),
        decreases before.len() - i,
    {
        proof {
            let next = before.take(i + 1);
            assert(next.drop_last() =~= before.take(i as int));
            assert(next.last() == before[i as int]);
        }
        let row = matches[i];
        if row < rows.len() && diff_search_visible_row_matches_query(
            style,
            &rows[row],
            query,
            &mut expanded_tabs,
        ) {
            left.push(row);
        }
        i += 1;
    }
    assert(before.take(before.len() as int) =~= before);
    *matches = left;
}

/// A rendered page: the texts of its rows, and the row of the screen at which
/// each starts where rows are broken.
#[derive(Debug)]
pub struct MarkdownPage {
    pub rows: Vec<String>,
    pub visual_rows: Option<Vec<usize>>,
}

pub open spec fn page_row(page: MarkdownPage, row: int) -> usize {
    match page.visual_rows {
        Some(rows) => if row < rows@.len() {
            rows@[row]
        } else {
            row as usize
        },
        None => row as usize,
    }
}

/// The first rows of a page that hold a match, by rows of the screen.
pub open spec fn page_hits(sought: Sought, page: MarkdownPage, n: int) -> Seq<usize>
    decreases n,
{
    if n <= 0 {
        Seq::empty()
    } else {
        let before = page_hits(sought, page, n - 1);
        if found(sought, page.rows@[n - 1]@, 0) is Some {
            before.push(page_row(page, n - 1))
        } else {
            before
        }
    }
}

pub open spec fn pages_hits(sought: Sought, pages: Seq<MarkdownPage>, n: int) -> Seq<usize>
    decreases n,
{
    if n <= 0 {
        Seq::empty()
    } else {
        pages_hits(sought, pages, n - 1) + page_hits(
            sought,
            pages[n - 1],
            pages[n - 1].rows@.len() as int,
        )
    }
}

/// The rows of rendered pages that hold a match, each once and in order.
pub fn markdown_preview_search_scan(pages: &[MarkdownPage], matcher: &DiffSearchMatcher) -> (matches:
    Vec<usize>)
    requires
        matcher.wf(),
    ensures
        settled_rows(matches@, pages_hits(matcher@, pages@, pages@.len() as int)),
{
    let mut matches: Vec<usize> = Vec::new();
    let mut k: usize = 0;
    while k < pages.len()
        invariant
            matcher.wf(),
            0 <= k <= pages@.len(),
            matches@ == pages_hits(matcher@, pages@, k as int),
        decreases pages@.len() - k,
    {
        let page = &pages[k];
        let ghost upto = matches@;
        let mut i: usize = 0;
        assert(upto =~= upto + page_hits(matcher@, *page, 0));
        while i < page.rows.len()
            invariant
                matcher.wf(),
                0 <= i <= page.rows@.len(),
                matches@ == upto + page_hits(matcher@, *page, i as int),
            decreases page.rows@.len() - i,
        {
            let ghost sofar = page_hits(matcher@, *page, i as int);
            if matcher.is_match(page.rows[i].as_str()) {
                let row = match &page.visual_rows {
                    Some(rows) => if i < rows.len() {
                        rows[i]
                    } else {
                        i
                    },
                    None => i,
                };
                matches.push(row);
                assert(matches@ =~= upto + sofar.push(row));
            }
            i += 1;
        }
        k += 1;
    }
    sort_and_dedup(&mut matches);
    matches
}

/// Whether a page of the merge view moves to a match: where it holds the match in
/// that row.
pub fn conflict_markdown_preview_reveal(
    page: Option<&MarkdownPage>,
    matcher: &DiffSearchMatcher,
    visible_ix: usize,
) -> (moves: bool)
    requires
        matcher.wf(),
    ensures
        moves == (page matches Some(page) && visible_ix < page.rows@.len() && found(
            matcher@,
            page.rows@[visible_ix as int]@,
            0,
        ) is Some),
{
    match page {
        Some(page) => visible_ix < page.rows.len() && matcher.is_match(
            page.rows[visible_ix].as_str(),
        ),
        None => false,
    }
}

} // verus!
