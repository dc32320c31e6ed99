//! Copying what is on screen for a search.
use crate::diff::collapsed::CollapsedDiffVisibleRow;
use crate::diff::collapsed::DiffViewMode;
use crate::diff::patch_rows::Diff;
use crate::diff::split_rows::FileDiffRow;
use crate::diff::split_rows::PatchSplitRow;
use crate::diff::visible_map::PatchInlineVisibleMap;
use crate::search::conflict_rows::ConflictResolverSearchContext;
use crate::search::document::DocumentSource;
use crate::search::document::SearchDocument;
use crate::search::document::SearchDocumentKind;
use crate::search::hits::lemma_rows_where_same;
use crate::search::hits::rows_where;
use crate::search::joined::lemma_joined;
use crate::search::joined::lemma_starts_grow;
use crate::search::joined::normalized_stream_row_text;
use crate::search::joined::row_bytes;
use crate::search::joined::row_end;
use crate::search::joined::row_start;
use crate::search::joined::whole;
use crate::search::matcher::found;
use crate::search::matcher::Sought;
use crate::search::rows::column_rows;
use crate::search::rows::content_of;
use crate::search::rows::row_matches;
use crate::search::rows::row_texts;
use crate::search::rows::RowDocument;
use crate::search::scan::MarkdownPage;
use crate::search::scan::PreviewLines;
use crate::search::scan::SearchView;
use crate::search::source::some_chars;
use crate::search::source::DiffRowsSource;
use crate::search::wrap::lines_follow_rows;
use crate::search::wrap::DiffWrapVisualRow;
use crate::text::clone_text;
use rustc_hash::FxHashMap;
use vstd::prelude::*;
use vstd::string::*;

verus! {

/// The rows of the diff, in every form that a pane keeps them in.
#[derive(Clone, Copy)]
pub struct DiffContents<'a> {
    /// How many rows are shown.
    pub visible_len: usize,
    pub map: Option<&'a PatchInlineVisibleMap>,
    pub indices: &'a [usize],
    pub collapsed_rows: &'a [CollapsedDiffVisibleRow],
    pub collapsed_headers: &'a FxHashMap<usize, String>,
    pub headers: &'a FxHashMap<usize, String>,
    pub patch: &'a Diff,
    pub split_rows: &'a [PatchSplitRow],
    pub inline_texts: &'a [String],
    pub file_rows: &'a [FileDiffRow],
}

impl<'a> DiffContents<'a> {
    pub open spec fn wf(&self) -> bool {
        self.map matches Some(map) ==> map.wf()
    }

    /// The rows as the pane lays them out. A folded diff has headers of its own.
    pub open spec fn laid_out(&self, view: SearchView) -> DiffRowsSource<'a> {
        DiffRowsSource {
            view: if view.split_view {
                DiffViewMode::Split
            } else {
                DiffViewMode::Inline
            },
            file_view: view.file_view,
            word_wrap: view.word_wrap,
            collapsed: if view.collapsed {
                Some(self.collapsed_rows)
            } else {
                None
            },
            map: self.map,
            indices: self.indices,
            headers: if view.collapsed {
                self.collapsed_headers
            } else {
                self.headers
            },
            patch: self.patch,
            split_rows: self.split_rows,
            inline_texts: self.inline_texts,
            file_rows: self.file_rows,
        }
    }

    fn source(&self, view: &SearchView) -> (source: DiffRowsSource<'a>)
        ensures
            source == self.laid_out(*view),
    {
        DiffRowsSource {
            view: if view.split_view {
                DiffViewMode::Split
            } else {
                DiffViewMode::Inline
            },
            file_view: view.file_view,
            word_wrap: view.word_wrap,
            collapsed: if view.collapsed {
                Some(self.collapsed_rows)
            } else {
                None
            },
            map: self.map,
            indices: self.indices,
            headers: if view.collapsed {
                self.collapsed_headers
            } else {
                self.headers
            },
            patch: self.patch,
            split_rows: self.split_rows,
            inline_texts: self.inline_texts,
            file_rows: self.file_rows,
        }
    }
}

/// What a pane shows, whichever of it is on screen.
pub struct PaneContents<'a> {
    /// The text in the editor.
    pub editor: Option<&'a str>,
    pub pages: Vec<MarkdownPage>,
    pub conflict: ConflictResolverSearchContext<'a>,
    pub preview: PreviewLines<'a>,
    /// How long the previewed file is.
    pub preview_source_len: usize,
    /// The previewed file is not in memory.
    pub preview_text_is_empty: bool,
    pub diff: DiffContents<'a>,
    /// The lines of the screen of the diff.
    pub wrapped: Vec<DiffWrapVisualRow>,
}

/// The texts of a row of the diff, column by column.
pub open spec fn diff_row_texts(source: DiffRowsSource<'_>, row: int, columns: nat) -> Seq<
    Option<Seq<char>>,
> {
    Seq::new(columns, |column: int| source.text(row, column))
}

/// A copy holds rows without anything known of earlier queries.
pub open spec fn fresh_rows(
    document: RowDocument,
    texts: Seq<Vec<Option<String>>>,
    len: nat,
    columns: nat,
    streamed: bool,
) -> bool {
    &&& document.len == len
    &&& texts.len() == len
    &&& document.columns == columns
    &&& document.streamed == streamed
    &&& document.previous@.len() == 0
}

/// Every row has a text in every column, be it that there is none.
pub open spec fn rows_are_whole(document: SearchDocument<'_>) -> bool {
    document.source matches DocumentSource::Rows { document, texts } ==> forall|i: int|
        0 <= i < texts@.len() ==> (#[trigger] texts@[i])@.len() >= document.columns
}

/// The rows of each column fit together in memory.
pub open spec fn rows_fit(document: SearchDocument<'_>) -> bool {
    document.source matches DocumentSource::Rows { document, texts } ==> forall|column: int|
        0 <= column < document.columns ==> #[trigger] whole(row_bytes(column_rows(texts@, column))).len()
            <= usize::MAX
}

impl SearchView {
    pub open spec fn reads_in_pieces(&self, source_len: usize, text_is_empty: bool) -> bool {
        (self.preview_active && source_len > 0 && text_is_empty) || (self.file_view
            && !self.split_view)
    }

    /// A copy holds what the pane shows.
    pub open spec fn captured(&self, contents: PaneContents<'_>, copy: SearchDocument<'_>) -> bool {
        let streamed = self.reads_in_pieces(
            contents.preview_source_len,
            contents.preview_text_is_empty,
        );
        match self.document_kind() {
            SearchDocumentKind::Editor => copy.source matches DocumentSource::Editor(text) && text@
                == (match contents.editor {
                Some(text) => text@,
                None => Seq::empty(),
            }),
            SearchDocumentKind::Pages => copy.source matches DocumentSource::Pages(pages) && pages
                == contents.pages,
            SearchDocumentKind::Conflict => copy.source matches DocumentSource::Conflict(context)
                && context == contents.conflict,
            SearchDocumentKind::PreviewRows => copy.source matches DocumentSource::Rows {
                document,
                texts,
            } && {
                let lines = contents.preview.lines@;
                &&& fresh_rows(document, texts@, lines.len(), 1, streamed)
                &&& document.wrapped@.len() == 0
                &&& forall|row: int|
                    0 <= row < lines.len() ==> row_texts((#[trigger] texts@[row])@) == seq![
                        some_chars(lines[row]),
                    ]
            },
            SearchDocumentKind::DiffRows => copy.source matches DocumentSource::Rows {
                document,
                texts,
            } && {
                let columns: nat = if self.split_view {
                    2
                } else {
                    1
                };
                &&& fresh_rows(
                    document,
                    texts@,
                    contents.diff.visible_len as nat,
                    columns,
                    streamed,
                )
                &&& document.wrapped@ == (if self.word_wrap {
                    contents.wrapped@
                } else {
                    Seq::empty()
                })
                &&& forall|row: int|
                    0 <= row < texts@.len() ==> row_texts((#[trigger] texts@[row])@)
                        == diff_row_texts(contents.diff.laid_out(*self), row, columns)
            },
        }
    }
}

fn preview_texts(lines: &[Option<String>]) -> (texts: Vec<Vec<Option<String>>>)
    ensures
        texts@.len() == lines@.len(),
        forall|row: int|
            0 <= row < lines@.len() ==> row_texts((#[trigger] texts@[row])@) == seq![
                some_chars(lines@[row]),
            ],
{
    let mut texts: Vec<Vec<Option<String>>> = Vec::new();
    let mut row: usize = 0;
    while row < lines.len()
        invariant
            0 <= row <= lines@.len(),
            texts@.len() == row,
            forall|i: int|
                0 <= i < row ==> row_texts((#[trigger] texts@[i])@) == seq![some_chars(lines@[i])],
        decreases lines@.len() - row,
    {
        let mut row_text: Vec<Option<String>> = Vec::new();
        row_text.push(clone_text(&lines[row]));
        proof {
            assert(row_texts(row_text@) =~= seq![some_chars(lines@[row as int])]);
        }
        texts.push(row_text);
        row += 1;
    }
    texts
}

fn diff_texts(source: &DiffRowsSource<'_>, len: usize, columns: usize) -> (texts: Vec<
    Vec<Option<String>>,
>)
    requires
        source.wf(),
    ensures
        texts@.len() == len,
        forall|row: int|
            0 <= row < len ==> row_texts((#[trigger] texts@[row])@) == diff_row_texts(
                *source,
                row,
                columns as nat,
            ),
{
    let mut texts: Vec<Vec<Option<String>>> = Vec::new();
    let mut row: usize = 0;
    while row < len
        invariant
            0 <= row <= len,
            source.wf(),
            texts@.len() == row,
            forall|i: int|
                0 <= i < row ==> row_texts((#[trigger] texts@[i])@) == diff_row_texts(
                    *source,
                    i,
                    columns as nat,
                ),
        decreases len - row,
    {
        let mut row_text: Vec<Option<String>> = Vec::new();
        let mut column: usize = 0;
        while column < columns
            invariant
                0 <= column <= columns,
                source.wf(),
                row_text@.len() == column,
                forall|i: int|
                    0 <= i < column ==> some_chars(#[trigger] row_text@[i]) == source.text(
                        row as int,
                        i,
                    ),
            decreases columns - column,
        {
            row_text.push(source.row_text(row, column));
            column += 1;
        }
        proof {
            assert(row_texts(row_text@) =~= diff_row_texts(*source, row as int, columns as nat)) by {
                assert forall|i: int| 0 <= i < columns implies row_texts(row_text@)[i]
                    == source.text(row as int, i) by {
                    assert(some_chars(row_text@[i]) == source.text(row as int, i));
                }
            }
        }
        texts.push(row_text);
        row += 1;
    }
    texts
}

/// The rows of a column fit together in memory.
fn column_fits(texts: &Vec<Vec<Option<String>>>, column: usize) -> (answer: bool)
    requires
        forall|i: int| 0 <= i < texts@.len() ==> (#[trigger] texts@[i])@.len() > column,
    ensures
        answer == (whole(row_bytes(column_rows(texts@, column as int))).len() <= usize::MAX),
{
    let ghost rows = row_bytes(column_rows(texts@, column as int));
    proof {
        lemma_joined(rows, rows.len() as int);
    }
    let mut total: usize = 0;
    let mut row: usize = 0;
    while row < texts.len()
        invariant
            0 <= row <= texts@.len(),
            rows == row_bytes(column_rows(texts@, column as int)),
            rows.len() == texts@.len(),
            rows.len() > 0 ==> whole(rows).len() == row_end(rows, rows.len() - 1),
            row > 0 ==> total == row_end(rows, row - 1),
            row == 0 ==> total == 0,
            forall|i: int| 0 <= i < texts@.len() ==> (#[trigger] texts@[i])@.len() > column,
        decreases texts@.len() - row,
    {
        let len = match &texts[row][column] {
            Some(text) => normalized_stream_row_text(text.as_str()).as_bytes().len(),
            None => 0,
        };
        proof {
            assert(row_texts(texts@[row as int]@)[column as int] == some_chars(
                texts@[row as int]@[column as int],
            ));
            assert(len == rows[row as int].1.len());
            lemma_starts_grow(rows, row as int, rows.len() - 1);
            assert(row_start(rows, row as int) == (if row > 0 {
                total + 1
            } else {
                0
            }));
            assert(row_end(rows, row as int) <= row_end(rows, rows.len() - 1));
        }
        let start = if row == 0 {
            0
        } else {
            match total.checked_add(1) {
                Some(start) => start,
                None => {
                    return false;
                },
            }
        };
        match start.checked_add(len) {
            Some(end) => {
                total = end;
            },
            None => {
                return false;
            },
        }
        row += 1;
    }
    true
}

impl<'a> SearchDocument<'a> {
    /// The rows of each column fit together in memory.
    pub fn rows_fit_in_memory(&self) -> (answer: bool)
        requires
            rows_are_whole(*self),
        ensures
            answer == rows_fit(*self),
    {
        match &self.source {
            DocumentSource::Rows { document, texts } => {
                let mut column: usize = 0;
                while column < document.columns
                    invariant
                        0 <= column <= document.columns,
                        forall|i: int|
                            0 <= i < texts@.len() ==> (#[trigger] texts@[i])@.len()
                                >= document.columns,
                        self.source matches DocumentSource::Rows { document: shown, texts: held }
                            && shown == *document && held == *texts,
                        forall|c: int|
                            0 <= c < column ==> #[trigger] whole(row_bytes(column_rows(texts@, c))).len()
                                <= usize::MAX,
                    decreases document.columns - column,
                {
                    if !column_fits(texts, column) {
                        return false;
                    }
                    column += 1;
                }
                true
            },
            _ => true,
        }
    }
}

/// Copies what is on screen, so that it can be searched aside. Nothing is copied
/// of what is not on screen. The copy can be searched where its rows fit together
/// in memory.
pub fn capture_search_document<'a>(view: &SearchView, contents: PaneContents<'a>) -> (copy:
    SearchDocument<'a>)
    requires
        contents.diff.wf(),
        contents.conflict.wf(),
        lines_follow_rows(contents.wrapped@),
    ensures
        view.captured(contents, copy),
        rows_are_whole(copy),
        rows_fit(copy) == copy.wf(),
{
    let streamed = view.search_document_is_streamed(
        contents.preview_source_len,
        contents.preview_text_is_empty,
    );
    let columns = view.search_document_columns();
    let source = match view.search_document_kind() {
        SearchDocumentKind::Editor => DocumentSource::Editor(
            match contents.editor {
                Some(text) => text.to_owned(),
                None => String::new(),
            },
        ),
        SearchDocumentKind::Pages => DocumentSource::Pages(contents.pages),
        SearchDocumentKind::Conflict => DocumentSource::Conflict(contents.conflict),
        SearchDocumentKind::PreviewRows => {
            let texts = preview_texts(contents.preview.lines);
            let document = RowDocument {
                len: contents.preview.lines.len(),
                columns,
                wrapped: Vec::new(),
                streamed,
                previous: Vec::new(),
            };
            DocumentSource::Rows { document, texts }
        },
        SearchDocumentKind::DiffRows => {
            let texts = diff_texts(&contents.diff.source(view), contents.diff.visible_len, columns);
            let wrapped = if view.search_document_is_wrapped() {
                contents.wrapped
            } else {
                Vec::new()
            };
            let document = RowDocument {
                len: contents.diff.visible_len,
                columns,
                wrapped,
                streamed,
                previous: Vec::new(),
            };
            DocumentSource::Rows { document, texts }
        },
    };
    let copy = SearchDocument { source };
    proof {
        if let DocumentSource::Rows { document, texts } = &copy.source {
            assert forall|i: int| 0 <= i < texts@.len() implies (#[trigger] texts@[i])@.len()
                >= document.columns by {
                assert(row_texts(texts@[i]@).len() == document.columns);
            }
        }
    }
    copy
}

/// A search of the copy of a diff for a plain query finds every row that shows the
/// query in one of its columns, in order, and no other row.
pub proof fn law_copy_finds_shown_rows(
    view: SearchView,
    contents: PaneContents<'_>,
    copy: SearchDocument<'_>,
    sought: Sought,
    matches: Seq<usize>,
    ranges: Seq<(int, int)>,
)
    requires
        view.document_kind() is DiffRows,
        view.captured(contents, copy),
        !view.word_wrap,
        sought.is_plain(),
        !sought.is_idle(),
        copy.owes(sought, matches, ranges),
    ensures
        matches == rows_where(
            contents.diff.visible_len as int,
            |row: int|
                exists|column: int|
                    0 <= column < (if view.split_view {
                        2int
                    } else {
                        1
                    }) && (#[trigger] contents.diff.laid_out(view).text(row, column)) is Some
                        && found(
                        sought,
                        contents.diff.laid_out(view).text(row, column)->Some_0,
                        0,
                    ) is Some,
        ),
{
    let source = contents.diff.laid_out(view);
    let columns: nat = if view.split_view {
        2
    } else {
        1
    };
    let shown = |row: int|
        exists|column: int|
            0 <= column < (if view.split_view {
                2int
            } else {
                1
            }) && (#[trigger] source.text(row, column)) is Some && found(
                sought,
                source.text(row, column)->Some_0,
                0,
            ) is Some;
    if let DocumentSource::Rows { document, texts } = copy.source {
        let held = |row: int| row_matches(sought, content_of(texts@), row);
        assert forall|row: int| 0 <= row < texts@.len() implies #[trigger] held(row) == shown(
            row,
        ) by {
            let row_text = diff_row_texts(source, row, columns);
            assert(row_texts(texts@[row]@) == row_text);
            if held(row) {
                let column = choose|column: int|
                    0 <= column < row_text.len() && (#[trigger] row_text[column]) is Some && found(
                        sought,
                        row_text[column]->Some_0,
                        0,
                    ) is Some;
                assert(row_text[column] == source.text(row, column));
            }
            if shown(row) {
                let column = choose|column: int|
                    0 <= column < columns && (#[trigger] source.text(row, column)) is Some && found(
                        sought,
                        source.text(row, column)->Some_0,
                        0,
                    ) is Some;
                assert(row_text[column] == source.text(row, column));
            }
        }
        lemma_rows_where_same(texts@.len() as int, held, shown);
    }
}

} // verus!
