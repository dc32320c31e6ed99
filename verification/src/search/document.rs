//! A copy of what is on screen, to be searched aside.
use crate::search::conflict_rows::ConflictResolverSearchContext;
use crate::search::editor::file_editor_match_rows;
use crate::search::editor::file_editor_search_ranges;
use crate::search::editor::FILE_EDITOR_SEARCH_MAX_MATCHES;
use crate::search::matcher::DiffSearchMatcher;
use crate::search::matcher::DiffSearchOptions;
use crate::search::rows::RowDocument;
use crate::search::scan::markdown_preview_search_scan;
use crate::search::scan::MarkdownPage;
use crate::search::scan::SearchView;
use std::ops::Range;
use vstd::prelude::*;
use vstd::string::*;

verus! {

/// What kind of copy is made of the screen.
#[derive(Clone, Copy, Debug, PartialEq, Eq, Structural)]
pub enum SearchDocumentKind {
    Editor,
    Pages,
    Conflict,
    PreviewRows,
    DiffRows,
}

impl SearchView {
    pub open spec fn document_kind(&self) -> SearchDocumentKind {
        if self.editor_active {
            SearchDocumentKind::Editor
        } else if self.markdown_active {
            SearchDocumentKind::Pages
        } else if self.preview_active {
            SearchDocumentKind::PreviewRows
        } else if self.conflict {
            SearchDocumentKind::Conflict
        } else {
            SearchDocumentKind::DiffRows
        }
    }

    /// What kind of copy is made of the screen. The preview of a file with a
    /// conflict shows the file, so it comes before the conflict.
    pub fn search_document_kind(&self) -> (kind: SearchDocumentKind)
        ensures
            kind == self.document_kind(),
    {
        if self.editor_active {
            SearchDocumentKind::Editor
        } else if self.markdown_active {
            SearchDocumentKind::Pages
        } else if self.preview_active {
            SearchDocumentKind::PreviewRows
        } else if self.conflict {
            SearchDocumentKind::Conflict
        } else {
            SearchDocumentKind::DiffRows
        }
    }

    /// Rows are searched line by line of the screen: not those of a preview, which
    /// is walked through by its own lines.
    pub fn search_document_is_wrapped(&self) -> (answer: bool)
        ensures
            answer == (self.word_wrap && !self.preview_active),
    {
        self.word_wrap && !self.preview_active
    }

    /// Rows are read in pieces: those of a file that is not in memory, and those of
    /// a file diff in one column.
    pub fn search_document_is_streamed(&self, source_len: usize, text_is_empty: bool) -> (answer:
        bool)
        ensures
            answer == ((self.preview_active && source_len > 0 && text_is_empty) || (self.file_view
                && !self.split_view)),
    {
        (self.preview_active && source_len > 0 && text_is_empty) || (self.file_view
            && !self.split_view)
    }

    /// The lines of a preview are one column; a diff has two where it is split.
    pub fn search_document_columns(&self) -> (columns: usize)
        ensures
            columns == (if self.split_view && !self.preview_active {
                2int
            } else {
                1
            }),
    {
        if self.split_view && !self.preview_active {
            2
        } else {
            1
        }
    }
}

/// A copy of what is on screen.
pub enum DocumentSource<'a> {
    Editor(String),
    Pages(Vec<MarkdownPage>),
    Conflict(ConflictResolverSearchContext<'a>),
    Rows { document: RowDocument, texts: Vec<Vec<Option<String>>> },
}

pub struct SearchDocument<'a> {
    pub source: DocumentSource<'a>,
}

/// What a search came to.
#[derive(Debug)]
pub struct SearchResult {
    pub matches: Vec<usize>,
    pub editor_ranges: Vec<Range<usize>>,
    pub regex_error: Option<String>,
}

/// A row of a text that holds a byte.
pub open spec fn row_holds(text: Seq<char>, row: int, at: int) -> bool {
    let starts = crate::lines::starts_of(vstd::utf8::encode_utf8(text));
    0 <= row < starts.len() && starts[row] <= at && (row + 1 < starts.len() ==> at < starts[row + 1])
}

impl<'a> SearchDocument<'a> {
    /// Every row has its texts, and they fit together in memory; the lines of the
    /// screen follow the rows; the rows of earlier queries are those of these
    /// texts.
    pub open spec fn wf(&self) -> bool {
        match self.source {
            DocumentSource::Conflict(context) => context.wf(),
            DocumentSource::Rows { document, texts } => {
                &&& document.len == texts@.len()
                &&& crate::search::wrap::lines_follow_rows(document.wrapped@)
                &&& crate::search::rows::cache_is_sound(
                    document,
                    crate::search::rows::content_of(texts@),
                )
                &&& forall|i: int|
                    0 <= i < texts@.len() ==> (#[trigger] texts@[i])@.len() >= document.columns
                &&& forall|column: int|
                    0 <= column < document.columns ==> #[trigger] crate::search::joined::whole(
                        crate::search::joined::row_bytes(
                            crate::search::rows::column_rows(texts@, column),
                        ),
                    ).len() <= usize::MAX
            },
            _ => true,
        }
    }

    /// Another copy shows the same; what is known of earlier queries may differ.
    pub open spec fn shows_the_same(&self, other: SearchDocument<'a>) -> bool {
        match (self.source, other.source) {
            (DocumentSource::Editor(one), DocumentSource::Editor(two)) => one == two,
            (DocumentSource::Pages(one), DocumentSource::Pages(two)) => one == two,
            (DocumentSource::Conflict(one), DocumentSource::Conflict(two)) => one == two,
            (
                DocumentSource::Rows { document: one, texts },
                DocumentSource::Rows { document: two, texts: other_texts },
            ) => texts == other_texts && one.len == two.len && one.columns == two.columns
                && one.wrapped == two.wrapped && one.streamed == two.streamed,
            _ => false,
        }
    }

    /// The rows and ranges that a search owes.
    pub open spec fn owes(
        &self,
        sought: crate::search::matcher::Sought,
        matches: Seq<usize>,
        ranges: Seq<(int, int)>,
    ) -> bool {
        if sought.is_idle() {
            matches.len() == 0 && ranges.len() == 0
        } else {
            match self.source {
                DocumentSource::Editor(text) => {
                    &&& ranges == crate::search::editor::editor_found(
                        sought,
                        text@,
                        FILE_EDITOR_SEARCH_MAX_MATCHES as nat,
                    )
                    &&& matches.len() == ranges.len()
                    &&& forall|i: int|
                        0 <= i < matches.len() ==> row_holds(
                            text@,
                            #[trigger] matches[i] as int,
                            ranges[i].0,
                        )
                },
                DocumentSource::Pages(pages) => ranges.len() == 0
                    && crate::search::hits::settled_rows(
                    matches,
                    crate::search::scan::pages_hits(sought, pages@, pages@.len() as int),
                ),
                DocumentSource::Conflict(context) => ranges.len() == 0
                    && crate::search::hits::settled_rows(matches, context.matcher_hits(sought)),
                DocumentSource::Rows { document, texts } => ranges.len() == 0 && (
                if document.is_narrow(sought) {
                    matches == crate::search::hits::rows_where(
                        texts@.len() as int,
                        |row: int|
                            crate::search::rows::row_matches(
                                sought,
                                crate::search::rows::content_of(texts@),
                                row,
                            ),
                    )
                } else {
                    crate::search::hits::settled_rows(
                        matches,
                        document.columns_hits(sought, texts@, document.columns as int),
                    )
                }),
            }
        }
    }

    /// Searches the copy. The texts stay as they are, and so does what is known of
    /// the rows of earlier queries, but that those of this query may be added.
    pub fn search_with(&mut self, matcher: &DiffSearchMatcher) -> (result: SearchResult)
        requires
            old(self).wf(),
            matcher.wf(),
        ensures
            final(self).wf(),
            final(self).shows_the_same(*old(self)),
            old(self).owes(
                matcher@,
                result.matches@,
                crate::search::matcher::ranges_of(result.editor_ranges@),
            ),
            result.regex_error is Some == matcher@.refused,
            result.regex_error matches Some(error) ==> error@ == matcher.regex_error->Some_0@,
    {
        let regex_error = match matcher.regex_error() {
            Some(error) => Some(error.to_owned()),
            None => None,
        };
        let mut result = SearchResult { matches: Vec::new(), editor_ranges: Vec::new(), regex_error };
        proof {
            assert(crate::search::matcher::ranges_of(result.editor_ranges@) =~= Seq::<
                (int, int),
            >::empty());
        }
        if matcher.is_empty() || matcher.regex_error().is_some() {
            return result;
        }
        match &mut self.source {
            DocumentSource::Editor(text) => {
                let ranges = file_editor_search_ranges(
                    text.as_str(),
                    matcher,
                    FILE_EDITOR_SEARCH_MAX_MATCHES,
                );
                result.matches = file_editor_match_rows(text.as_str(), ranges.as_slice());
                result.editor_ranges = ranges;
            },
            DocumentSource::Pages(pages) => {
                result.matches = markdown_preview_search_scan(pages.as_slice(), matcher);
            },
            DocumentSource::Conflict(context) => {
                result.matches = context.conflict_resolver_visible_match_indices_with_matcher(
                    matcher,
                );
            },
            DocumentSource::Rows { document, texts } => {
                if document.wrapped.len() == 0 && matcher.can_use_ascii_case_insensitive_fast_path() {
                    result.matches = document.search(matcher, texts);
                } else {
                    result.matches = document.search_across(matcher, texts);
                }
            },
        }
        result
    }

    /// Searches the copy for a query. A pattern may be refused; a literal never is.
    pub fn search(&mut self, query: &str, options: DiffSearchOptions) -> (result: SearchResult)
        requires
            old(self).wf(),
        ensures
            final(self).wf(),
            final(self).shows_the_same(*old(self)),
            result.regex_error is Some ==> options.regex && crate::search::matcher::normalized(
                query@,
            ).len() > 0,
            old(self).owes(
                (crate::search::matcher::Sought {
                    query: crate::search::matcher::normalized(query@),
                    options,
                    refused: result.regex_error is Some,
                }),
                result.matches@,
                crate::search::matcher::ranges_of(result.editor_ranges@),
            ),
    {
        let matcher = DiffSearchMatcher::new(query, options);
        self.search_with(&matcher)
    }
}

} // verus!
