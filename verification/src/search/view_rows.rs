//! The rows that a search goes through, given what is on screen.
use crate::diff::syntax_cache::DiffTextRegion;
use crate::lines::ConflictResolverViewMode;
use crate::search::bytes::holds;
use crate::search::collect::numbers;
use crate::search::collect::offsets_of;
use crate::search::collect::owned_chars;
use crate::search::conflict_rows::ConflictResolverSearchContext;
use crate::search::document::row_holds;
use crate::search::editor::FILE_EDITOR_SEARCH_MAX_MATCHES;
use crate::search::editor::editor_found;
use crate::search::editor::file_editor_match_rows;
use crate::search::editor::file_editor_search_ranges;
use crate::search::general::GeneralRows;
use crate::search::general::GeneralView;
use crate::search::general::owned_columns;
use crate::search::general::owned_sides;
use crate::search::hits::lemma_rows_where_same;
use crate::search::hits::rows_where;
use crate::search::hits::settled_rows;
use crate::search::inline_patch::InlinePatchRows;
use crate::search::joined::row_bytes;
use crate::search::joined::whole;
use crate::search::literal_rows::numbers_differ;
use crate::search::matcher::DiffSearchMatcher;
use crate::search::matcher::Sought;
use crate::search::matcher::ranges_of;
use crate::search::needle::AsciiCaseInsensitiveNeedle;
use crate::search::needle::displayed;
use crate::search::scan::MarkdownPage;
use crate::search::scan::PreviewLines;
use crate::search::scan::RowStyle;
use crate::search::scan::ScanPlan;
use crate::search::scan::SearchView;
use crate::search::scan::ViewRow;
use crate::search::scan::diff_search_scan_current_view_with_needle;
use crate::search::scan::lines_are_listed;
use crate::search::scan::markdown_preview_search_scan;
use crate::search::scan::pages_hits;
use crate::search::scan::view_row_holds;
use crate::search::source::some_chars;
use crate::search::trigrams::DiffSearchVisibleTrigramIndex;
use crate::search::wrap::DiffWrapVisualRow;
use crate::search::wrap::lines_follow_rows;
use crate::text::clone_text;
use vstd::prelude::*;
use vstd::utf8::encode_utf8;

verus! {

/// The texts of a row, as it is drawn in each of the columns.
#[derive(Debug)]
pub struct ScreenRow {
    pub inline: String,
    pub left: String,
    pub right: String,
}

/// The texts of what is on screen.
#[derive(Debug)]
pub struct ScreenTexts {
    /// The lines of the file in a preview, where they can be read.
    pub preview_lines: Vec<Option<String>>,
    pub preview_source_len: usize,
    pub preview_text_len: usize,
    /// The rows on screen.
    pub shown_rows: Vec<ScreenRow>,
    /// The rows on screen of a file diff in one column, with all of their text, where
    /// they stand for one.
    pub file_inline: Vec<Option<String>>,
    /// The rows on screen of a file diff in two columns, with their tabs.
    pub file_sides: Vec<Option<(Option<String>, Option<String>)>>,
    /// Rows before they are broken over lines of the screen.
    pub full_rows: Vec<ScreenRow>,
    /// How many rows were broken, once they are.
    pub broken_rows: Option<usize>,
    pub broken_lines: Vec<DiffWrapVisualRow>,
}

pub open spec fn region_text(row: ScreenRow, region: DiffTextRegion) -> Seq<char> {
    match region {
        DiffTextRegion::Inline => row.inline@,
        DiffTextRegion::SplitLeft => row.left@,
        DiffTextRegion::SplitRight => row.right@,
    }
}

/// The first rows in one of the columns.
pub open spec fn region_rows(rows: Seq<ScreenRow>, region: DiffTextRegion, n: int) -> Seq<
    (usize, Seq<char>),
> {
    Seq::new(n as nat, |i: int| (i as usize, region_text(rows[i], region)))
}

/// The first texts that there are, each with its place.
pub open spec fn present_rows(texts: Seq<Option<String>>, n: int) -> Seq<(usize, Seq<char>)>
    decreases n,
{
    if n <= 0 {
        Seq::empty()
    } else {
        match texts[n - 1] {
            Some(text) => present_rows(texts, n - 1).push(((n - 1) as usize, text@)),
            None => present_rows(texts, n - 1),
        }
    }
}

/// The first rows in two columns that there are, each with its place.
pub open spec fn present_sides(rows: Seq<Option<(Option<String>, Option<String>)>>, n: int) -> Seq<
    (usize, Option<Seq<char>>, Option<Seq<char>>),
>
    decreases n,
{
    if n <= 0 {
        Seq::empty()
    } else {
        match rows[n - 1] {
            Some((left, right)) => present_sides(rows, n - 1).push(
                ((n - 1) as usize, some_chars(left), some_chars(right)),
            ),
            None => present_sides(rows, n - 1),
        }
    }
}

impl ScreenTexts {
    /// How many rows are searched before they are broken: as many as were, or as many
    /// as are on screen.
    pub open spec fn full_count(self) -> int {
        let asked = match self.broken_rows {
            Some(count) => count as int,
            None => self.shown_rows@.len() as int,
        };
        if asked < self.full_rows@.len() {
            asked
        } else {
            self.full_rows@.len() as int
        }
    }

    /// Texts that are searched in pieces fit together in memory, and the lines of the
    /// screen follow the rows.
    pub open spec fn fits(self) -> bool {
        &&& whole(
            row_bytes(present_rows(self.preview_lines@, self.preview_lines@.len() as int)),
        ).len() <= usize::MAX
        &&& whole(
            row_bytes(present_rows(self.file_inline@, self.file_inline@.len() as int)),
        ).len() <= usize::MAX
        &&& lines_follow_rows(self.broken_lines@)
    }

    /// The file of a preview, line by line: in pieces where its text is not in memory.
    pub open spec fn preview_view(self) -> GeneralView {
        GeneralView::Listed {
            rows: present_rows(self.preview_lines@, self.preview_lines@.len() as int),
            streamed: self.preview_source_len > 0 && self.preview_text_len == 0,
        }
    }

    /// The rows of a diff. Broken rows are searched whole, a file diff by its own
    /// texts, and everything else as it is drawn.
    pub open spec fn diff_view(self, view: SearchView) -> GeneralView {
        let full = self.full_count();
        let shown = self.shown_rows@.len() as int;
        if view.word_wrap {
            GeneralView::Wrapped {
                columns: if view.split_view {
                    seq![
                        region_rows(self.full_rows@, DiffTextRegion::SplitLeft, full),
                        region_rows(self.full_rows@, DiffTextRegion::SplitRight, full),
                    ]
                } else {
                    seq![region_rows(self.full_rows@, DiffTextRegion::Inline, full)]
                },
                lines_known: self.broken_rows is Some,
                lines: self.broken_lines@,
            }
        } else if view.file_view && !view.split_view {
            GeneralView::Listed {
                rows: present_rows(self.file_inline@, self.file_inline@.len() as int),
                streamed: true,
            }
        } else if view.file_view {
            GeneralView::Sides {
                rows: present_sides(self.file_sides@, self.file_sides@.len() as int),
            }
        } else if view.split_view {
            GeneralView::Columns {
                left: region_rows(self.shown_rows@, DiffTextRegion::SplitLeft, shown),
                right: region_rows(self.shown_rows@, DiffTextRegion::SplitRight, shown),
            }
        } else {
            GeneralView::Listed {
                rows: region_rows(self.shown_rows@, DiffTextRegion::Inline, shown),
                streamed: false,
            }
        }
    }

    /// The rows that a query may run over, where rows are what is searched.
    pub open spec fn general_view(self, view: SearchView) -> Option<GeneralView> {
        match view.plan() {
            ScanPlan::Preview => Some(self.preview_view()),
            ScanPlan::Rows => Some(self.diff_view(view)),
            _ => None,
        }
    }

    /// The rows that a query may run over, where rows are what is searched.
    pub fn general_rows(&self, view: &SearchView) -> (rows: Option<GeneralRows>)
        ensures
            rows is Some == self.general_view(*view) is Some,
            rows matches Some(rows) ==> Some(rows@) == self.general_view(*view) && (self.fits()
                ==> rows@.wf()),
    {
        let lines = self.preview_lines.len();
        let rows = self.file_inline.len();
        proof {
            lemma_present_numbers(self.preview_lines@, lines as int);
            lemma_present_numbers(self.file_inline@, rows as int);
        }
        match view.diff_search_scan_plan() {
            ScanPlan::Preview => {
                let rows = present(&self.preview_lines);
                let rows = GeneralRows::Listed {
                    rows,
                    streamed: self.preview_source_len > 0 && self.preview_text_len == 0,
                };
                assert(rows@ =~= self.preview_view());
                Some(rows)
            },
            ScanPlan::Rows => {
                let rows = self.diff_rows(view);
                Some(rows)
            },
            _ => None,
        }
    }

    fn diff_rows(&self, view: &SearchView) -> (rows: GeneralRows)
        ensures
            rows@ == self.diff_view(*view),
    {
        let shown = self.shown_rows.len();
        if view.word_wrap {
            let asked = match self.broken_rows {
                Some(count) => count,
                None => shown,
            };
            let full = if asked < self.full_rows.len() {
                asked
            } else {
                self.full_rows.len()
            };
            let mut columns: Vec<Vec<(usize, String)>> = Vec::new();
            if view.split_view {
                columns.push(column(&self.full_rows, DiffTextRegion::SplitLeft, full));
                columns.push(column(&self.full_rows, DiffTextRegion::SplitRight, full));
            } else {
                columns.push(column(&self.full_rows, DiffTextRegion::Inline, full));
            }
            let lines = copied(&self.broken_lines);
            proof {
                if view.split_view {
                    assert(owned_columns(columns@) =~= seq![
                        region_rows(self.full_rows@, DiffTextRegion::SplitLeft, full as int),
                        region_rows(self.full_rows@, DiffTextRegion::SplitRight, full as int),
                    ]);
                } else {
                    assert(owned_columns(columns@) =~= seq![
                        region_rows(self.full_rows@, DiffTextRegion::Inline, full as int),
                    ]);
                }
            }
            return GeneralRows::Wrapped { columns, lines_known: self.broken_rows.is_some(), lines };
        }
        if view.file_view && !view.split_view {
            return GeneralRows::Listed { rows: present(&self.file_inline), streamed: true };
        }
        if view.file_view {
            return GeneralRows::Sides { rows: present_pairs(&self.file_sides) };
        }
        if view.split_view {
            GeneralRows::Columns {
                left: column(&self.shown_rows, DiffTextRegion::SplitLeft, shown),
                right: column(&self.shown_rows, DiffTextRegion::SplitRight, shown),
            }
        } else {
            GeneralRows::Listed {
                rows: column(&self.shown_rows, DiffTextRegion::Inline, shown),
                streamed: false,
            }
        }
    }

    /// How the rows of a diff are looked at one by one.
    pub open spec fn needle_style(self, view: SearchView) -> RowStyle {
        if !view.split_view {
            RowStyle::Inline
        } else if view.file_view && !view.word_wrap {
            RowStyle::SplitFile
        } else {
            RowStyle::Split
        }
    }

    /// The rows of a diff that are looked at one by one: those of a file diff by its
    /// own texts, unless they are broken, and all others as they are drawn.
    pub open spec fn needle_view(self, view: SearchView) -> Seq<
        (Option<Seq<char>>, Option<Seq<char>>),
    > {
        if view.file_view && !view.word_wrap {
            if view.split_view {
                Seq::new(
                    self.file_sides@.len(),
                    |i: int|
                        match self.file_sides@[i] {
                            Some((left, right)) => (some_chars(left), some_chars(right)),
                            None => (None, None),
                        },
                )
            } else {
                Seq::new(
                    self.file_inline@.len(),
                    |i: int| (some_chars(self.file_inline@[i]), None),
                )
            }
        } else if view.split_view {
            Seq::new(
                self.shown_rows@.len(),
                |i: int| (Some(self.shown_rows@[i].left@), Some(self.shown_rows@[i].right@)),
            )
        } else {
            Seq::new(self.shown_rows@.len(), |i: int| (Some(self.shown_rows@[i].inline@), None))
        }
    }

    /// The rows of a diff that are looked at one by one, and how.
    pub fn needle_rows(&self, view: &SearchView) -> (picked: (RowStyle, Vec<ViewRow>))
        ensures
            picked.0 == self.needle_style(*view),
            view_texts(picked.1@) == self.needle_view(*view),
    {
        let style = if !view.split_view {
            RowStyle::Inline
        } else if view.file_view && !view.word_wrap {
            RowStyle::SplitFile
        } else {
            RowStyle::Split
        };
        let by_file = view.file_view && !view.word_wrap;
        let count = if by_file && view.split_view {
            self.file_sides.len()
        } else if by_file {
            self.file_inline.len()
        } else {
            self.shown_rows.len()
        };
        let mut rows: Vec<ViewRow> = Vec::new();
        let mut i: usize = 0;
        while i < count
            invariant
                by_file == (view.file_view && !view.word_wrap),
                count == self.needle_view(*view).len(),
                by_file && view.split_view ==> count == self.file_sides@.len(),
                by_file && !view.split_view ==> count == self.file_inline@.len(),
                !by_file ==> count == self.shown_rows@.len(),
                0 <= i <= count,
                rows@.len() == i,
                forall|k: int|
                    0 <= k < i ==> (#[trigger] view_texts(rows@)[k]) == self.needle_view(*view)[k],
            decreases count - i,
        {
            let row = if by_file && view.split_view {
                match &self.file_sides[i] {
                    Some(sides) => ViewRow { left: clone_text(&sides.0), right: clone_text(&sides.1) },
                    None => ViewRow { left: None, right: None },
                }
            } else if by_file {
                ViewRow { left: clone_text(&self.file_inline[i]), right: None }
            } else if view.split_view {
                ViewRow {
                    left: Some(self.shown_rows[i].left.clone()),
                    right: Some(self.shown_rows[i].right.clone()),
                }
            } else {
                ViewRow { left: Some(self.shown_rows[i].inline.clone()), right: None }
            };
            let ghost before = rows@;
            rows.push(row);
            assert forall|k: int| 0 <= k < i + 1 implies (#[trigger] view_texts(rows@)[k])
                == self.needle_view(*view)[k] by {
                if k < i {
                    assert(view_texts(before)[k] == self.needle_view(*view)[k]);
                }
            }
            i += 1;
        }
        assert(view_texts(rows@) =~= self.needle_view(*view));
        (style, rows)
    }
}

pub open spec fn view_texts(rows: Seq<ViewRow>) -> Seq<(Option<Seq<char>>, Option<Seq<char>>)> {
    Seq::new(rows.len(), |i: int| (some_chars(rows[i].left), some_chars(rows[i].right)))
}

fn copied(lines: &Vec<DiffWrapVisualRow>) -> (copy: Vec<DiffWrapVisualRow>)
    ensures
        copy@ == lines@,
{
    let mut copy: Vec<DiffWrapVisualRow> = Vec::new();
    let mut i: usize = 0;
    while i < lines.len()
        invariant
            0 <= i <= lines@.len(),
            copy@ == lines@.take(i as int),
        decreases lines@.len() - i,
    {
        copy.push(lines[i]);
        i += 1;
        assert(copy@ =~= lines@.take(i as int));
    }
    assert(copy@ =~= lines@);
    copy
}

fn column(rows: &Vec<ScreenRow>, region: DiffTextRegion, count: usize) -> (texts: Vec<(usize, String)>)
    requires
        count <= rows@.len(),
    ensures
        owned_chars(texts@) == region_rows(rows@, region, count as int),
{
    let mut texts: Vec<(usize, String)> = Vec::new();
    let mut i: usize = 0;
    while i < count
        invariant
            0 <= i <= count <= rows@.len(),
            owned_chars(texts@) == region_rows(rows@, region, i as int),
        decreases count - i,
    {
        let row = &rows[i];
        let text = match region {
            DiffTextRegion::Inline => row.inline.clone(),
            DiffTextRegion::SplitLeft => row.left.clone(),
            DiffTextRegion::SplitRight => row.right.clone(),
        };
        let ghost before = texts@;
        texts.push((i, text));
        i += 1;
        proof {
            assert(owned_chars(texts@) =~= owned_chars(before).push(((i - 1) as usize, text@)));
            assert(owned_chars(texts@) =~= region_rows(rows@, region, i as int));
        }
    }
    texts
}

fn present(texts: &Vec<Option<String>>) -> (rows: Vec<(usize, String)>)
    ensures
        owned_chars(rows@) == present_rows(texts@, texts@.len() as int),
{
    let mut rows: Vec<(usize, String)> = Vec::new();
    let mut i: usize = 0;
    while i < texts.len()
        invariant
            0 <= i <= texts@.len(),
            owned_chars(rows@) == present_rows(texts@, i as int),
        decreases texts@.len() - i,
    {
        let ghost before = rows@;
        match &texts[i] {
            Some(text) => {
                rows.push((i, text.clone()));
                assert(owned_chars(rows@) =~= owned_chars(before).push((i, text@)));
            },
            None => {},
        }
        i += 1;
    }
    rows
}

fn present_pairs(rows: &Vec<Option<(Option<String>, Option<String>)>>) -> (pairs: Vec<
    (usize, Option<String>, Option<String>),
>)
    ensures
        owned_sides(pairs@) == present_sides(rows@, rows@.len() as int),
{
    let mut pairs: Vec<(usize, Option<String>, Option<String>)> = Vec::new();
    let mut i: usize = 0;
    while i < rows.len()
        invariant
            0 <= i <= rows@.len(),
            owned_sides(pairs@) == present_sides(rows@, i as int),
        decreases rows@.len() - i,
    {
        let ghost before = pairs@;
        match &rows[i] {
            Some(sides) => {
                pairs.push((i, clone_text(&sides.0), clone_text(&sides.1)));
                assert(owned_sides(pairs@) =~= owned_sides(before).push(
                    (i, some_chars(sides.0), some_chars(sides.1)),
                ));
            },
            None => {},
        }
        i += 1;
    }
    pairs
}

/// Rows keep their places, so that no two have the same number.
proof fn lemma_present_numbers(texts: Seq<Option<String>>, n: int)
    requires
        0 <= n <= texts.len() <= usize::MAX,
    ensures
        forall|i: int|
            0 <= i < present_rows(texts, n).len() ==> (#[trigger] present_rows(texts, n)[i]).0 < n,
        numbers_differ(row_bytes(present_rows(texts, n))),
    decreases n,
{
    reveal(numbers_differ);
    if n > 0 {
        lemma_present_numbers(texts, n - 1);
        let before = present_rows(texts, n - 1);
        let now = present_rows(texts, n);
        let bytes = row_bytes(now);
        assert forall|i: int, j: int| 0 <= i < j < bytes.len() implies (#[trigger] bytes[i]).0 != (
        #[trigger] bytes[j]).0 by {
            assert(now[i] == before[i]);
            assert(bytes[i].0 == before[i].0 && bytes[j].0 == now[j].0);
            assert(row_bytes(before)[i].0 == before[i].0);
            if j < before.len() {
                assert(now[j] == before[j]);
                assert(row_bytes(before)[j].0 == before[j].0);
                assert(before[i].0 != before[j].0);
            } else {
                assert(now[j].0 == n - 1);
                assert(before[i].0 < n - 1);
            }
        }
    }
}

/// A text holds a literal, as it is or with its tabs expanded.
pub open spec fn part_holds(text: Option<Seq<char>>, expands: bool, needle: Seq<u8>) -> bool {
    text matches Some(text) && holds(
        encode_utf8(
            if expands {
                displayed(text)
            } else {
                text
            },
        ),
        needle,
        false,
    )
}

/// A row that is looked at by itself holds a literal.
pub open spec fn parts_hold(
    style: RowStyle,
    row: (Option<Seq<char>>, Option<Seq<char>>),
    needle: Seq<u8>,
) -> bool {
    let expands = style == RowStyle::SplitFile;
    part_holds(row.0, expands, needle) || (style != RowStyle::Inline && part_holds(
        row.1,
        expands,
        needle,
    ))
}

/// Everything that a search may go through.
pub struct Screen<'a> {
    /// The text in the editor.
    pub editor: &'a str,
    /// The rendered pages of the surface that is on screen.
    pub pages: &'a [MarkdownPage],
    pub conflict: ConflictResolverSearchContext<'a>,
    pub patch: InlinePatchRows<'a>,
    pub preview_index: Option<&'a DiffSearchVisibleTrigramIndex>,
    pub texts: ScreenTexts,
}

/// What was found: rows, and the places in an editor.
#[derive(Debug)]
pub struct ScanResult {
    pub matches: Vec<usize>,
    pub editor_ranges: Vec<core::ops::Range<usize>>,
}

/// Rows are looked at one by one, for a literal.
pub open spec fn by_needle(view: SearchView, sought: Sought) -> bool {
    !view.word_wrap && sought.is_plain() && sought.query.len() > 0
}

impl<'a> Screen<'a> {
    /// An index of the preview was made of its lines.
    pub open spec fn wf(&self) -> bool {
        &&& self.texts.fits()
        &&& self.conflict.wf()
        &&& self.patch.wf()
        &&& self.patch.sources().len() <= u32::MAX
        &&& self.preview_index matches Some(index) ==> exists|texts: Seq<(u32, Seq<u8>)>|
            #[trigger] lines_are_listed(self.texts.preview_lines@, texts) && index.indexes(texts)
    }

    /// What a literal is found in, row by row.
    pub open spec fn needle_hits(&self, view: SearchView, needle: Seq<u8>) -> Seq<usize> {
        match view.plan() {
            ScanPlan::Preview => rows_where(
                self.texts.preview_lines@.len() as int,
                |line: int|
                    part_holds(some_chars(self.texts.preview_lines@[line]), false, needle),
            ),
            ScanPlan::Conflict => match self.conflict.view_mode {
                ConflictResolverViewMode::ThreeWay => self.conflict.spans_hits(
                    needle,
                    self.conflict.three_way_visible@.len() as int,
                ),
                ConflictResolverViewMode::TwoWayDiff => rows_where(
                    self.conflict.two_way_rows@.len() as int,
                    |row: int| self.conflict.two_way_holds(needle, row),
                ),
            },
            ScanPlan::InlinePatch => self.patch.hits(needle),
            ScanPlan::Rows => {
                let rows = self.texts.needle_view(view);
                rows_where(
                    rows.len() as int,
                    |row: int| parts_hold(self.texts.needle_style(view), rows[row], needle),
                )
            },
            _ => Seq::empty(),
        }
    }

    /// Where a query is found that may run over rows.
    pub open spec fn general_hits(&self, view: SearchView, sought: Sought) -> Seq<usize> {
        match view.plan() {
            ScanPlan::Preview => self.texts.preview_view().hits(sought),
            ScanPlan::Conflict => self.conflict.matcher_hits(sought),
            ScanPlan::InlinePatch => numbers(
                offsets_of(sought, self.patch.texts(self.patch.sources().len() as int)),
            ),
            ScanPlan::Rows => self.texts.diff_view(view).hits(sought),
            _ => Seq::empty(),
        }
    }

    /// What a search of the screen comes to.
    pub open spec fn owes(
        &self,
        view: SearchView,
        sought: Sought,
        matches: Seq<usize>,
        ranges: Seq<(int, int)>,
    ) -> bool {
        match view.plan() {
            ScanPlan::Editor => {
                &&& ranges == editor_found(
                    sought,
                    self.editor@,
                    FILE_EDITOR_SEARCH_MAX_MATCHES as nat,
                )
                &&& matches.len() == ranges.len()
                &&& forall|i: int|
                    0 <= i < matches.len() ==> row_holds(
                        self.editor@,
                        #[trigger] matches[i] as int,
                        ranges[i].0,
                    )
            },
            ScanPlan::Markdown(_) => ranges.len() == 0 && settled_rows(
                matches,
                pages_hits(sought, self.pages@, self.pages@.len() as int),
            ),
            ScanPlan::Nothing => ranges.len() == 0 && matches.len() == 0,
            _ => ranges.len() == 0 && if by_needle(view, sought) {
                matches == self.needle_hits(view, encode_utf8(sought.query))
            } else {
                settled_rows(matches, self.general_hits(view, sought))
            },
        }
    }

    /// Searches what is on screen. An index of the patch is made when it is first of
    /// use.
    pub fn diff_search_scan_current_view_with_matcher(
        &self,
        view: &SearchView,
        matcher: &DiffSearchMatcher,
        patch_index: &mut Option<DiffSearchVisibleTrigramIndex>,
    ) -> (result: ScanResult)
        requires
            self.wf(),
            matcher.wf(),
            *old(patch_index) matches Some(index) ==> index.indexes(
                self.patch.index_input(self.patch.sources().len() as int),
            ),
        ensures
            self.owes(*view, matcher@, result.matches@, ranges_of(result.editor_ranges@)),
            *final(patch_index) matches Some(index) ==> index.indexes(
                self.patch.index_input(self.patch.sources().len() as int),
            ),
            (*final(patch_index)) is Some == ((*old(patch_index)) is Some || (view.plan()
                == ScanPlan::InlinePatch && by_needle(*view, matcher@) && encode_utf8(
                matcher@.query,
            ).len() >= 3)),
    {
        let mut result = ScanResult { matches: Vec::new(), editor_ranges: Vec::new() };
        assert(ranges_of(result.editor_ranges@) =~= Seq::empty());
        let plan = view.diff_search_scan_plan();
        match plan {
            ScanPlan::Nothing => return result,
            ScanPlan::Editor => {
                let ranges = file_editor_search_ranges(
                    self.editor,
                    matcher,
                    FILE_EDITOR_SEARCH_MAX_MATCHES,
                );
                result.matches = file_editor_match_rows(self.editor, ranges.as_slice());
                result.editor_ranges = ranges;
                return result;
            },
            ScanPlan::Markdown(_) => {
                result.matches = markdown_preview_search_scan(self.pages, matcher);
                return result;
            },
            _ => {},
        }
        if view.diff_search_uses_needle(matcher) {
            match AsciiCaseInsensitiveNeedle::new(matcher.query()) {
                Some(query) => {
                    result.matches = self.scan_with_needle(view, query, patch_index);
                    return result;
                },
                None => {},
            }
        }
        match plan {
            ScanPlan::Conflict => {
                result.matches = self.conflict.conflict_resolver_visible_match_indices_with_matcher(
                    matcher,
                );
            },
            ScanPlan::InlinePatch => {
                self.patch.diff_search_scan_inline_patch_diff_general(matcher, &mut result.matches);
            },
            _ => match self.texts.general_rows(view) {
                Some(rows) => {
                    result.matches = rows.diff_search_scan_current_view_general(matcher);
                },
                None => {},
            },
        }
        result
    }

    fn scan_with_needle(
        &self,
        view: &SearchView,
        query: AsciiCaseInsensitiveNeedle<'_>,
        patch_index: &mut Option<DiffSearchVisibleTrigramIndex>,
    ) -> (matches: Vec<usize>)
        requires
            self.wf(),
            query.wf(),
            *old(patch_index) matches Some(index) ==> index.indexes(
                self.patch.index_input(self.patch.sources().len() as int),
            ),
        ensures
            matches@ == self.needle_hits(*view, query.bytes@),
            *final(patch_index) matches Some(index) ==> index.indexes(
                self.patch.index_input(self.patch.sources().len() as int),
            ),
            (*final(patch_index)) is Some == ((*old(patch_index)) is Some || (view.plan()
                == ScanPlan::InlinePatch && query.bytes@.len() >= 3)),
    {
        match view.diff_search_scan_plan() {
            ScanPlan::Preview => {
                let preview = PreviewLines { lines: self.texts.preview_lines.as_slice() };
                let matches = preview.diff_search_scan_preview_with_needle(
                    query,
                    self.preview_index,
                );
                proof {
                    let lines = self.texts.preview_lines@;
                    if self.preview_index is Some {
                        let index = self.preview_index->Some_0;
                        let texts = choose|texts: Seq<(u32, Seq<u8>)>|
                            #[trigger] lines_are_listed(lines, texts) && index.indexes(texts);
                        assert(preview.is_listed(texts));
                    }
                    lemma_rows_where_same(
                        lines.len() as int,
                        |line: int| preview.line_holds(query.bytes@, line),
                        |line: int| part_holds(some_chars(lines[line]), false, query.bytes@),
                    );
                }
                matches
            },
            ScanPlan::Conflict => {
                self.conflict.conflict_resolver_visible_match_indices_with_needle(query)
            },
            ScanPlan::InlinePatch => {
                let mut matches: Vec<usize> = Vec::new();
                self.patch.diff_search_scan_inline_patch_diff_with_needle(
                    query,
                    patch_index,
                    &mut matches,
                );
                assert(matches@ =~= self.patch.hits(query.bytes@));
                matches
            },
            ScanPlan::Rows => {
                let (style, rows) = self.texts.needle_rows(view);
                let matches = diff_search_scan_current_view_with_needle(
                    style,
                    rows.as_slice(),
                    query,
                );
                proof {
                    let texts = self.texts.needle_view(*view);
                    assert forall|row: int| 0 <= row < texts.len() implies view_row_holds(
                        style,
                        #[trigger] rows@[row],
                        query.bytes@,
                    ) == parts_hold(style, texts[row], query.bytes@) by {
                        assert(view_texts(rows@)[row] == texts[row]);
                    }
                    lemma_rows_where_same(
                        texts.len() as int,
                        |row: int| view_row_holds(style, rows@[row], query.bytes@),
                        |row: int| parts_hold(style, texts[row], query.bytes@),
                    );
                }
                matches
            },
            _ => Vec::new(),
        }
    }
}

} // verus!
