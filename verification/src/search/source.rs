//! The text that a row of a diff is searched by.
use crate::diff::collapsed::CollapsedDiffVisibleRow;
use crate::diff::collapsed::DiffViewMode;
use crate::diff::patch_rows::Diff;
use crate::diff::split_rows::FileDiffRow;
use crate::diff::split_rows::PatchSplitRow;
use crate::diff::visible_map::PatchInlineVisibleMap;
use crate::outside::fx_get;
use crate::search::inline_patch::inline_patch_diff_src_ix_for_visible_ix;
use crate::search::inline_patch::shown_sources;
use crate::search::needle::displayed;
use crate::search::needle::expand_tabs_to_string;
use crate::text::clone_text;
use rustc_hash::FxHashMap;
use vstd::prelude::*;

verus! {

broadcast use vstd::std_specs::hash::group_hash_axioms;

/// What the rows of a diff show, as far as a search reads it: how they are laid
/// out, which of them are shown, the texts that stand for headers, and the lines
/// and rows behind them.
#[derive(Clone, Copy)]
pub struct DiffRowsSource<'a> {
    pub view: DiffViewMode,
    pub file_view: bool,
    pub word_wrap: bool,
    pub collapsed: Option<&'a [CollapsedDiffVisibleRow]>,
    pub map: Option<&'a PatchInlineVisibleMap>,
    pub indices: &'a [usize],
    pub headers: &'a FxHashMap<usize, String>,
    pub patch: &'a Diff,
    pub split_rows: &'a [PatchSplitRow],
    pub inline_texts: &'a [String],
    pub file_rows: &'a [FileDiffRow],
}

/// What stands in a row.
pub enum SearchRowPlace {
    /// The text that stands for a header.
    Header(usize),
    /// A row or line behind it.
    Row(usize),
}

pub open spec fn some_chars(text: Option<String>) -> Option<Seq<char>> {
    match text {
        Some(text) => Some(text@),
        None => None,
    }
}

impl<'a> DiffRowsSource<'a> {
    pub open spec fn wf(&self) -> bool {
        self.map matches Some(map) ==> map.wf()
    }

    pub open spec fn place(&self, visible: int) -> Option<SearchRowPlace> {
        match self.collapsed {
            Some(rows) => if 0 <= visible < rows@.len() {
                match rows@[visible] {
                    CollapsedDiffVisibleRow::HunkHeader { display_src_ix, .. } =>
                    match display_src_ix {
                        Some(header) => Some(SearchRowPlace::Header(header)),
                        None => None,
                    },
                    CollapsedDiffVisibleRow::FileRow { row_ix } => Some(SearchRowPlace::Row(row_ix)),
                }
            } else {
                None
            },
            None => {
                let sources = shown_sources(self.map, self.indices@);
                if 0 <= visible < sources.len() {
                    Some(SearchRowPlace::Row(sources[visible] as usize))
                } else {
                    None
                }
            },
        }
    }

    pub open spec fn header(&self, ix: usize) -> Option<Seq<char>> {
        if self.headers@.dom().contains(ix) {
            Some(self.headers@[ix]@)
        } else {
            None
        }
    }

    pub open spec fn side(row: FileDiffRow, column: int) -> Option<Seq<char>> {
        if column == 0 {
            some_chars(row.old)
        } else {
            some_chars(row.new)
        }
    }

    /// The text behind a row, and whether it is a header's.
    pub open spec fn raw_text(&self, row: int, column: int) -> (Option<Seq<char>>, bool) {
        let patch_line = |ix: int|
            if 0 <= ix < self.patch.lines@.len() {
                Some(self.patch.lines@[ix].text@)
            } else {
                None
            };
        if self.file_view {
            if self.view is Inline {
                (
                    if row < self.inline_texts@.len() {
                        Some(self.inline_texts@[row]@)
                    } else {
                        None
                    },
                    false,
                )
            } else {
                (
                    if row < self.file_rows@.len() {
                        Self::side(self.file_rows@[row], column)
                    } else {
                        None
                    },
                    false,
                )
            }
        } else if self.view is Inline {
            if self.header(row as usize) is Some {
                (self.header(row as usize), true)
            } else {
                (patch_line(row), false)
            }
        } else if row < self.split_rows@.len() {
            match self.split_rows@[row] {
                PatchSplitRow::Raw { src_ix, .. } => if self.header(src_ix) is Some {
                    (self.header(src_ix), true)
                } else {
                    (patch_line(src_ix as int), false)
                },
                PatchSplitRow::Aligned { row, .. } => (Self::side(row, column), false),
            }
        } else {
            (None, false)
        }
    }

    /// Tabs are shown as spaces, but for the single column of a file diff whose
    /// rows are not broken.
    pub open spec fn expands_tabs(&self) -> bool {
        self.word_wrap || self.view is Split || !self.file_view
    }

    /// The text of a row in a column.
    pub open spec fn text(&self, visible: int, column: int) -> Option<Seq<char>> {
        match self.place(visible) {
            None => None,
            Some(SearchRowPlace::Header(header)) => self.header(header),
            Some(SearchRowPlace::Row(row)) => {
                let (raw, is_header) = self.raw_text(row as int, column);
                match raw {
                    None => None,
                    Some(raw) => if !is_header && self.expands_tabs() {
                        Some(displayed(raw))
                    } else {
                        Some(raw)
                    },
                }
            },
        }
    }

    fn place_of(&self, visible: usize) -> (place: Option<SearchRowPlace>)
        requires
            self.wf(),
        ensures
            place == self.place(visible as int),
    {
        match self.collapsed {
            Some(rows) => {
                if visible >= rows.len() {
                    return None;
                }
                let row = rows[visible];
                if let Some(header) = row.header_display_src_ix() {
                    return Some(SearchRowPlace::Header(header));
                }
                match row.row_ix() {
                    Some(row_ix) => Some(SearchRowPlace::Row(row_ix)),
                    None => None,
                }
            },
            None => match inline_patch_diff_src_ix_for_visible_ix(
                self.map,
                self.indices,
                visible,
            ) {
                Some(src_ix) => Some(SearchRowPlace::Row(src_ix)),
                None => None,
            },
        }
    }

    fn header_text(&self, ix: usize) -> (text: Option<String>)
        ensures
            some_chars(text) == self.header(ix),
    {
        match fx_get(self.headers, &ix) {
            Some(text) => Some(text.clone()),
            None => None,
        }
    }

    fn patch_line(&self, ix: usize) -> (text: Option<String>)
        ensures
            some_chars(text) == (if ix < self.patch.lines@.len() {
                Some(self.patch.lines@[ix as int].text@)
            } else {
                None
            }),
    {
        if ix < self.patch.lines.len() {
            Some(self.patch.lines[ix].text.clone())
        } else {
            None
        }
    }

    fn raw_text_of(&self, row: usize, column: usize) -> (raw: (Option<String>, bool))
        ensures
            (some_chars(raw.0), raw.1) == self.raw_text(row as int, column as int),
    {
        if self.file_view {
            let text = match self.view {
                DiffViewMode::Inline => if row < self.inline_texts.len() {
                    Some(self.inline_texts[row].clone())
                } else {
                    None
                },
                DiffViewMode::Split => if row < self.file_rows.len() {
                    if column == 0 {
                        clone_text(&self.file_rows[row].old)
                    } else {
                        clone_text(&self.file_rows[row].new)
                    }
                } else {
                    None
                },
            };
            return (text, false);
        }
        match self.view {
            DiffViewMode::Inline => match self.header_text(row) {
                Some(text) => (Some(text), true),
                None => (self.patch_line(row), false),
            },
            DiffViewMode::Split => {
                if row >= self.split_rows.len() {
                    return (None, false);
                }
                match &self.split_rows[row] {
                    PatchSplitRow::Raw { src_ix, .. } => match self.header_text(*src_ix) {
                        Some(text) => (Some(text), true),
                        None => (self.patch_line(*src_ix), false),
                    },
                    PatchSplitRow::Aligned { row, .. } => (
                        if column == 0 {
                            clone_text(&row.old)
                        } else {
                            clone_text(&row.new)
                        },
                        false,
                    ),
                }
            },
        }
    }

    /// The text of a row in a column.
    pub fn row_text(&self, visible: usize, column: usize) -> (text: Option<String>)
        requires
            self.wf(),
        ensures
            some_chars(text) == self.text(visible as int, column as int),
    {
        match self.place_of(visible) {
            None => None,
            Some(SearchRowPlace::Header(header)) => self.header_text(header),
            Some(SearchRowPlace::Row(row)) => {
                let (raw, is_header) = self.raw_text_of(row, column);
                match raw {
                    None => None,
                    Some(raw) => {
                        let expands = self.word_wrap || !self.file_view || match self.view {
                            DiffViewMode::Split => true,
                            DiffViewMode::Inline => false,
                        };
                        if !is_header && expands {
                            Some(expand_tabs_to_string(raw.as_str()))
                        } else {
                            Some(raw)
                        }
                    },
                }
            },
        }
    }

    /// How many columns are searched.
    pub fn columns(&self) -> (columns: usize)
        ensures
            columns == (if self.view is Inline {
                1int
            } else {
                2
            }),
    {
        match self.view {
            DiffViewMode::Inline => 1,
            DiffViewMode::Split => 2,
        }
    }
}

} // verus!
