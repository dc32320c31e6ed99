//! A search over what a pane shows: its query, its matches and where it stands
//! among them.
//!
//! Matching runs away from the screen. A request counts a sequence up, so that
//! what comes back late can be told from what is wanted; results are taken over
//! only for the latest request and while what is on screen has not changed.
use crate::search::matcher::DiffSearchMatcher;
use crate::search::matcher::DiffSearchOptions;
use crate::search::matcher::Sought;
use crate::search::needle::diff_search_query_reuse;
use crate::search::needle::query_reuse;
use crate::search::needle::DiffSearchQueryReuse;
use crate::text::is_same_number;
use crate::text::same_text;
use std::ops::Range;
use vstd::arithmetic::div_mod::lemma_fundamental_div_mod;
use vstd::arithmetic::div_mod::lemma_fundamental_div_mod_converse;
use vstd::prelude::*;
use vstd::string::*;

verus! {

/// What becomes of the current match once there are new ones.
#[derive(Clone, Copy, Debug, PartialEq, Eq)]
pub enum DiffSearchFinalizeMode {
    ScrollToFirst,
    PreserveCurrent { previous_match_ix: Option<usize>, previous_visible_ix: Option<usize> },
}

impl DiffSearchFinalizeMode {
    pub fn preserve_current(
        previous_match_ix: Option<usize>,
        previous_visible_ix: Option<usize>,
    ) -> (mode: Self)
        ensures
            mode == (DiffSearchFinalizeMode::PreserveCurrent {
                previous_match_ix,
                previous_visible_ix,
            }),
    {
        DiffSearchFinalizeMode::PreserveCurrent { previous_match_ix, previous_visible_ix }
    }
}

/// Rows in order; a row may come more than once.
pub open spec fn in_order(matches: Seq<usize>) -> bool {
    forall|i: int, j: int| 0 <= i <= j < matches.len() ==> matches[i] <= matches[j]
}

/// How many rows are above one.
pub open spec fn rows_above(matches: Seq<usize>, row: int) -> int
    decreases matches.len(),
{
    if matches.len() == 0 {
        0
    } else {
        rows_above(matches.drop_last(), row) + (if matches.last() < row {
            1int
        } else {
            0int
        })
    }
}

proof fn lemma_rows_above(matches: Seq<usize>, row: int, n: int)
    requires
        0 <= n <= matches.len(),
        forall|i: int| 0 <= i < n ==> (#[trigger] matches[i]) < row,
        forall|i: int| n <= i < matches.len() ==> (#[trigger] matches[i]) >= row,
    ensures
        rows_above(matches, row) == n,
    decreases matches.len(),
{
    if matches.len() > 0 {
        let shorter = matches.drop_last();
        if n == matches.len() {
            lemma_rows_above(shorter, row, n - 1);
        } else {
            lemma_rows_above(shorter, row, n);
        }
    }
}

/// The match at which a search goes on that stood at a row: one in that row, or
/// else the last one above it; the last of all where none is above it.
pub open spec fn resumes_at(matches: Seq<usize>, row: usize, ix: int) -> bool {
    if matches.contains(row) {
        0 <= ix < matches.len() && matches[ix] == row
    } else if rows_above(matches, row as int) > 0 {
        ix == rows_above(matches, row as int) - 1
    } else {
        ix == matches.len() - 1
    }
}

pub fn diff_search_resume_match_ix(
    previous_visible_ix: Option<usize>,
    matches: &[usize],
) -> (resume: Option<usize>)
    requires
        in_order(matches@),
    ensures
        match resume {
            Some(ix) => ix < matches@.len() && (match previous_visible_ix {
                Some(row) => resumes_at(matches@, row, ix as int),
                None => ix == 0,
            }),
            None => matches@.len() == 0,
        },
{
    let len = matches.len();
    if len == 0 {
        return None;
    }
    let row = match previous_visible_ix {
        Some(row) => row,
        None => {
            return Some(0);
        },
    };
    let mut low: usize = 0;
    let mut high: usize = len;
    while low < high
        invariant
            len == matches@.len(),
            0 <= low <= high <= len,
            in_order(matches@),
            forall|i: int| 0 <= i < low ==> (#[trigger] matches@[i]) < row,
            forall|i: int| high <= i < len ==> (#[trigger] matches@[i]) >= row,
        decreases high - low,
    {
        let middle = low + (high - low) / 2;
        if matches[middle] < row {
            assert forall|i: int| 0 <= i < middle + 1 implies (#[trigger] matches@[i]) < row by {
                assert(matches@[i] <= matches@[middle as int]);
            }
            low = middle + 1;
        } else {
            assert forall|i: int| middle <= i < len implies (#[trigger] matches@[i]) >= row by {
                assert(matches@[middle as int] <= matches@[i]);
            }
            high = middle;
        }
    }
    proof {
        lemma_rows_above(matches@, row as int, low as int);
    }
    if low < len && matches[low] == row {
        assert(matches@.contains(row)) by {
            assert(matches@[low as int] == row);
        }
        return Some(low);
    }
    assert(!matches@.contains(row)) by {
        if matches@.contains(row) {
            let k = choose|k: int| 0 <= k < matches@.len() && matches@[k] == row;
            assert(k >= low);
            assert(matches@[low as int] <= matches@[k]);
            assert(matches@[low as int] >= row);
        }
    }
    if low > 0 {
        Some(low - 1)
    } else {
        Some(len - 1)
    }
}

/// Where a repository's choice of what to show stands.
#[derive(Clone, Copy, Debug, PartialEq, Eq, Structural)]
pub struct KeyedRevision {
    pub id: u64,
    pub rev: u64,
}

/// What the rows of a search rest on. Two equal keys stand for equal rows.
#[derive(Clone, Copy, Debug)]
pub struct SearchDocumentKey {
    pub repo: Option<KeyedRevision>,
    pub patch_repo: Option<u64>,
    pub patch_rev: u64,
    pub file_repo: Option<u64>,
    pub file_rev: u64,
    pub file_seq: u64,
    pub projection_rev: u64,
    pub split_view: bool,
    pub word_wrap: bool,
    pub wrap_plan: Option<KeyedRevision>,
    pub preview: u64,
    pub editor: Option<KeyedRevision>,
    pub markdown: u64,
    pub markdown_wrap_single: Option<u64>,
    pub markdown_wrap_inline: Option<u64>,
    pub markdown_wrap_left: Option<u64>,
    pub markdown_wrap_right: Option<u64>,
    pub conflict_rev: u64,
    pub conflict_source: Option<u64>,
    pub conflict_pending: u64,
    pub conflict_three_way: bool,
    pub conflict_hide_resolved: bool,
    pub conflict_projection: u64,
    pub editor_active: bool,
    pub preview_active: bool,
    pub markdown_active: bool,
    pub collapsed_active: bool,
}

fn same_revision(a: Option<KeyedRevision>, b: Option<KeyedRevision>) -> (same: bool)
    ensures
        same == (a == b),
{
    match (a, b) {
        (Some(a), Some(b)) => a.id == b.id && a.rev == b.rev,
        (None, None) => true,
        _ => false,
    }
}

impl SearchDocumentKey {
    /// Whether two keys stand for the same rows.
    pub fn is_same(&self, other: &SearchDocumentKey) -> (same: bool)
        ensures
            same == (*self == *other),
    {
        same_revision(self.repo, other.repo) && is_same_number(self.patch_repo, other.patch_repo)
            && self.patch_rev == other.patch_rev && is_same_number(self.file_repo, other.file_repo)
            && self.file_rev == other.file_rev && self.file_seq == other.file_seq
            && self.projection_rev == other.projection_rev && self.split_view == other.split_view
            && self.word_wrap == other.word_wrap && same_revision(self.wrap_plan, other.wrap_plan)
            && self.preview == other.preview && same_revision(self.editor, other.editor)
            && self.markdown == other.markdown && is_same_number(
            self.markdown_wrap_single,
            other.markdown_wrap_single,
        ) && is_same_number(self.markdown_wrap_inline, other.markdown_wrap_inline)
            && is_same_number(self.markdown_wrap_left, other.markdown_wrap_left) && is_same_number(
            self.markdown_wrap_right,
            other.markdown_wrap_right,
        ) && self.conflict_rev == other.conflict_rev && is_same_number(
            self.conflict_source,
            other.conflict_source,
        ) && self.conflict_pending == other.conflict_pending && self.conflict_three_way
            == other.conflict_three_way && self.conflict_hide_resolved
            == other.conflict_hide_resolved && self.conflict_projection
            == other.conflict_projection && self.editor_active == other.editor_active
            && self.preview_active == other.preview_active && self.markdown_active
            == other.markdown_active && self.collapsed_active == other.collapsed_active
    }
}

/// Where a search stands among new matches.
pub open spec fn takes_place(
    matches: Seq<usize>,
    mode: DiffSearchFinalizeMode,
    ix: Option<usize>,
) -> bool {
    let len = matches.len();
    if len == 0 {
        ix is None
    } else {
        ix matches Some(ix) && ix < len && match mode {
            DiffSearchFinalizeMode::ScrollToFirst => ix == 0,
            DiffSearchFinalizeMode::PreserveCurrent { previous_match_ix, previous_visible_ix } =>
            match previous_visible_ix {
                Some(row) => resumes_at(matches, row, ix as int),
                None => match previous_match_ix {
                    Some(before) => ix == (if before < len {
                        before as int
                    } else {
                        len - 1
                    }),
                    None => ix == 0,
                },
            },
        }
    }
}

/// A place after some steps on or back, round the ends.
pub open spec fn after_steps(place: int, steps: int, len: int) -> int {
    (place + steps) % len
}

/// Where a search stands among new matches once steps that waited for them are
/// taken.
pub open spec fn takes_place_and_steps(
    matches: Seq<usize>,
    mode: DiffSearchFinalizeMode,
    steps: int,
    ix: Option<usize>,
) -> bool {
    if matches.len() == 0 || steps == 0 {
        takes_place(matches, mode, ix)
    } else {
        exists|first: usize| #[trigger] takes_place(matches, mode, Some(first)) && ix == Some(
            after_steps(first as int, steps, matches.len() as int) as usize,
        )
    }
}

/// A search.
#[derive(Debug)]
pub struct DiffSearch {
    pub active: bool,
    pub query: String,
    pub options: DiffSearchOptions,
    pub regex_error: Option<String>,
    pub matches: Vec<usize>,
    pub match_ix: Option<usize>,
    pub sequence: u64,
    pub pending_previous_query: Option<String>,
    pub pending_finalize: DiffSearchFinalizeMode,
    pub pending_navigation: isize,
    pub worker_running: bool,
    pub worker_sequence: u64,
    /// The rows that are at hand, by their key.
    pub document: Option<SearchDocumentKey>,
    pub editor_matches: Vec<Range<usize>>,
    pub editor_rev: u64,
}

pub open spec fn counted_up(n: u64) -> u64 {
    if n == u64::MAX {
        0
    } else {
        (n + 1) as u64
    }
}

fn count_up(n: u64) -> (next: u64)
    ensures
        next == counted_up(n),
{
    if n == u64::MAX {
        0
    } else {
        n + 1
    }
}

/// What a step among the matches comes to.
#[derive(Clone, Copy, Debug, PartialEq, Eq)]
pub enum SearchStep {
    /// Nothing is searched.
    Idle,
    /// Matches are still to come; the step is taken then.
    Waits,
    /// There are no matches: they have to be looked for.
    Looks,
    /// The row that the step leads to.
    Moves(usize),
}

/// What has to be done for a request.
#[derive(Clone, Copy, Debug, PartialEq, Eq)]
pub enum SearchStart {
    /// Nothing: a search runs already, or none was asked for.
    Nothing,
    /// The matches were cleared: there is no query.
    Cleared,
    /// Look for matches under this number; the rows have to be captured first
    /// where those at hand are not what is on screen.
    Run { sequence: u64, capture: bool },
}

/// What came of a search that ended.
#[derive(Clone, Copy, Debug, PartialEq, Eq)]
pub enum SearchOutcome {
    /// Its matches were taken over; the row to show, if any.
    Published(Option<usize>),
    /// What is on screen has changed meanwhile: it is asked for again.
    Again,
    /// Something else was asked for meanwhile.
    Dropped,
}

/// What is done when a query has changed.
#[derive(Clone, Copy, Debug, PartialEq, Eq, Structural)]
pub enum QueryChange {
    /// Nothing is searched: there are no matches.
    Inactive,
    /// Nothing can match.
    Cleared,
    /// The matches stay.
    Keep,
    /// The matches are among the ones there are.
    Refine,
    /// All rows are looked at.
    Scan,
}

/// What a new query does to the matches of an earlier one: only plain queries can
/// keep or narrow them.
pub open spec fn changed_query(previous: Seq<char>, can_refine: bool, sought: Sought) -> QueryChange {
    if sought.is_idle() {
        QueryChange::Cleared
    } else if sought.is_plain() && query_reuse(previous, sought.query) is SameSemantics {
        QueryChange::Keep
    } else if sought.is_plain() && can_refine && query_reuse(previous, sought.query) is Refinement {
        QueryChange::Refine
    } else {
        QueryChange::Scan
    }
}

impl DiffSearch {
    /// The matches are in order.
    pub open spec fn wf(&self) -> bool {
        in_order(self.matches@)
    }

    /// Nothing but what is named changes.
    pub open spec fn same_query(&self, other: DiffSearch) -> bool {
        &&& self.active == other.active
        &&& self.query == other.query
        &&& self.options == other.options
    }

    pub open spec fn options_now(&self) -> DiffSearchOptions {
        if self.active {
            self.options
        } else {
            DiffSearchOptions { match_case: false, whole_word: false, regex: false }
        }
    }

    pub fn diff_search_options_or_default(&self) -> (options: DiffSearchOptions)
        ensures
            options == self.options_now(),
    {
        if self.active {
            self.options
        } else {
            DiffSearchOptions::default()
        }
    }

    pub open spec fn has_query(&self) -> bool {
        self.active && self.query@.len() > 0
    }

    pub fn diff_search_has_query(&self) -> (answer: bool)
        ensures
            answer == self.has_query(),
    {
        proof {
            crate::search::matcher::lemma_empty_text(self.query@);
        }
        self.active && !self.query.as_str().is_empty()
    }

    /// The matcher of the query. Whether the pattern was refused is noted.
    pub fn diff_search_current_matcher(&mut self) -> (matcher: DiffSearchMatcher)
        ensures
            matcher.wf(),
            matcher@.query == crate::search::matcher::normalized(old(self).query@),
            matcher@.options == old(self).options_now(),
            same_text(final(self).regex_error, matcher.regex_error),
            *final(self) == (DiffSearch { regex_error: final(self).regex_error, ..*old(self) }),
    {
        let options = self.diff_search_options_or_default();
        let matcher = DiffSearchMatcher::new(self.query.as_str(), options);
        self.regex_error = match matcher.regex_error() {
            Some(error) => Some(error.to_owned()),
            None => None,
        };
        matcher
    }

    /// Matches for the query are still to come.
    pub open spec fn is_pending(&self) -> bool {
        self.pending_previous_query is Some || (self.worker_running && self.worker_sequence
            == self.sequence)
    }

    pub fn diff_search_result_pending(&self) -> (answer: bool)
        ensures
            answer == self.is_pending(),
    {
        self.pending_previous_query.is_some() || (self.worker_running && self.worker_sequence
            == self.sequence)
    }

    /// The row of the current match.
    pub open spec fn current_row(&self) -> Option<usize> {
        match self.match_ix {
            Some(ix) => if self.matches@.len() == 0 {
                None
            } else if ix < self.matches@.len() {
                Some(self.matches@[ix as int])
            } else {
                Some(self.matches@.last())
            },
            None => None,
        }
    }

    pub fn diff_search_current_match_visible_ix(&self) -> (row: Option<usize>)
        ensures
            row == self.current_row(),
    {
        let len = self.matches.len();
        if len == 0 {
            return None;
        }
        match self.match_ix {
            Some(ix) => if ix < len {
                Some(self.matches[ix])
            } else {
                Some(self.matches[len - 1])
            },
            None => None,
        }
    }

    pub fn diff_search_current_match_row(&self) -> (row: Option<usize>)
        ensures
            row == (if self.has_query() {
                self.current_row()
            } else {
                None
            }),
    {
        if !self.diff_search_has_query() {
            return None;
        }
        self.diff_search_current_match_visible_ix()
    }

    pub fn file_editor_search_current_range(&self) -> (range: Option<Range<usize>>)
        ensures
            match range {
                Some(range) => self.match_ix is Some && self.match_ix->Some_0
                    < self.editor_matches@.len() && range
                    == self.editor_matches@[self.match_ix->Some_0 as int],
                None => self.match_ix is None || self.match_ix->Some_0
                    >= self.editor_matches@.len(),
            },
    {
        match self.match_ix {
            Some(ix) => if ix < self.editor_matches.len() {
                Some(self.editor_matches[ix].start..self.editor_matches[ix].end)
            } else {
                None
            },
            None => None,
        }
    }

    /// Drops the matches of an editor.
    pub fn file_editor_search_clear(&mut self)
        ensures
            final(self).editor_matches@.len() == 0,
            final(self).editor_rev == (if old(self).editor_matches@.len() == 0 {
                old(self).editor_rev
            } else {
                counted_up(old(self).editor_rev)
            }),
            *final(self) == (DiffSearch {
                editor_matches: final(self).editor_matches,
                editor_rev: final(self).editor_rev,
                ..*old(self)
            }),
    {
        if self.editor_matches.len() == 0 {
            return;
        }
        self.editor_matches.clear();
        self.editor_rev = count_up(self.editor_rev);
    }

    /// The screen moves to the current match, unless there was one before.
    pub open spec fn moves_screen(mode: DiffSearchFinalizeMode) -> bool {
        match mode {
            DiffSearchFinalizeMode::ScrollToFirst => true,
            DiffSearchFinalizeMode::PreserveCurrent {
                previous_match_ix,
                previous_visible_ix,
            } => previous_match_ix is None && previous_visible_ix is None,
        }
    }

    /// Takes a place among new matches. Gives the row to show, if any.
    pub fn diff_search_finalize_matches(&mut self, mode: DiffSearchFinalizeMode) -> (show: Option<
        usize,
    >)
        requires
            old(self).wf(),
        ensures
            takes_place(final(self).matches@, mode, final(self).match_ix),
            show == (if Self::moves_screen(mode) {
                final(self).current_row()
            } else {
                None
            }),
            *final(self) == (DiffSearch { match_ix: final(self).match_ix, ..*old(self) }),
    {
        let len = self.matches.len();
        if len == 0 {
            self.match_ix = None;
            return None;
        }
        match mode {
            DiffSearchFinalizeMode::ScrollToFirst => {
                self.match_ix = Some(0);
                Some(self.matches[0])
            },
            DiffSearchFinalizeMode::PreserveCurrent { previous_match_ix, previous_visible_ix } => {
                let next_ix = match previous_visible_ix {
                    Some(row) => match diff_search_resume_match_ix(
                        Some(row),
                        self.matches.as_slice(),
                    ) {
                        Some(ix) => ix,
                        None => 0,
                    },
                    None => match previous_match_ix {
                        Some(ix) => if ix < len {
                            ix
                        } else {
                            len - 1
                        },
                        None => 0,
                    },
                };
                self.match_ix = Some(next_ix);
                if previous_match_ix.is_none() && previous_visible_ix.is_none() {
                    Some(self.matches[next_ix])
                } else {
                    None
                }
            },
        }
    }

    /// The current match, as a number below that of the matches.
    pub open spec fn place(&self) -> int {
        let len = self.matches@.len();
        match self.match_ix {
            Some(ix) => if ix < len {
                ix as int
            } else {
                len - 1
            },
            None => 0,
        }
    }

    fn place_now(&self) -> (place: usize)
        requires
            self.matches@.len() > 0,
        ensures
            place == self.place(),
            place < self.matches@.len(),
    {
        let len = self.matches.len();
        match self.match_ix {
            Some(ix) => if ix < len {
                ix
            } else {
                len - 1
            },
            None => 0,
        }
    }

    /// Goes one match on or back, round the ends. Gives the row to show.
    pub fn move_match(&mut self, forward: bool) -> (row: Option<usize>)
        ensures
            old(self).matches@.len() == 0 ==> row is None && *final(self) == *old(self),
            old(self).matches@.len() > 0 ==> {
                let len = old(self).matches@.len() as int;
                let ix = if forward {
                    (old(self).place() + 1) % len
                } else {
                    (old(self).place() + len - 1) % len
                };
                &&& final(self).match_ix == Some(ix as usize)
                &&& row == Some(old(self).matches@[ix])
                &&& *final(self) == (DiffSearch { match_ix: final(self).match_ix, ..*old(self) })
            },
    {
        let len = self.matches.len();
        if len == 0 {
            return None;
        }
        let current = self.place_now();
        let next = if forward {
            if current + 1 == len {
                0
            } else {
                current + 1
            }
        } else if current == 0 {
            len - 1
        } else {
            current - 1
        };
        proof {
            let n = len as int;
            if forward {
                if current + 1 == n {
                    lemma_fundamental_div_mod_converse(current + 1, n, 1, 0);
                } else {
                    lemma_fundamental_div_mod_converse(current + 1, n, 0, current + 1);
                }
            } else if current == 0 {
                lemma_fundamental_div_mod_converse(n - 1, n, 0, n - 1);
            } else {
                lemma_fundamental_div_mod_converse(current + n - 1, n, 1, current - 1);
            }
        }
        self.match_ix = Some(next);
        Some(self.matches[next])
    }

    fn step(&mut self, forward: bool) -> (step: SearchStep)
        ensures
            ({
                let before = *old(self);
                let after = *final(self);
                if !before.active {
                    step == SearchStep::Idle && after == before
                } else if before.is_pending() {
                    &&& step == SearchStep::Waits
                    &&& after == (DiffSearch {
                        pending_navigation: after.pending_navigation,
                        ..before
                    })
                    &&& after.pending_navigation == (if forward {
                        if before.pending_navigation == isize::MAX {
                            isize::MAX as int
                        } else {
                            before.pending_navigation + 1
                        }
                    } else if before.pending_navigation == isize::MIN {
                        isize::MIN as int
                    } else {
                        before.pending_navigation - 1
                    })
                } else if before.matches@.len() == 0 {
                    step == SearchStep::Looks && after == before
                } else {
                    let len = before.matches@.len() as int;
                    let ix = if forward {
                        (before.place() + 1) % len
                    } else {
                        (before.place() + len - 1) % len
                    };
                    &&& step == SearchStep::Moves(before.matches@[ix])
                    &&& after == (DiffSearch { match_ix: Some(ix as usize), ..before })
                }
            }),
    {
        if !self.active {
            return SearchStep::Idle;
        }
        if self.diff_search_result_pending() {
            if forward {
                if self.pending_navigation < isize::MAX {
                    self.pending_navigation = self.pending_navigation + 1;
                }
            } else if self.pending_navigation > isize::MIN {
                self.pending_navigation = self.pending_navigation - 1;
            }
            return SearchStep::Waits;
        }
        match self.move_match(forward) {
            Some(row) => SearchStep::Moves(row),
            None => SearchStep::Looks,
        }
    }

    /// Goes to the match before the current one. Where there are none they are
    /// looked for, and [`DiffSearch::move_match`] takes the step then.
    pub fn diff_search_prev_match(&mut self) -> (step: SearchStep)
        ensures
            ({
                let before = *old(self);
                let after = *final(self);
                if !before.active {
                    step == SearchStep::Idle && after == before
                } else if before.is_pending() {
                    &&& step == SearchStep::Waits
                    &&& after == (DiffSearch {
                        pending_navigation: after.pending_navigation,
                        ..before
                    })
                    &&& after.pending_navigation == (if before.pending_navigation == isize::MIN {
                        isize::MIN as int
                    } else {
                        before.pending_navigation - 1
                    })
                } else if before.matches@.len() == 0 {
                    step == SearchStep::Looks && after == before
                } else {
                    let len = before.matches@.len() as int;
                    let ix = (before.place() + len - 1) % len;
                    &&& step == SearchStep::Moves(before.matches@[ix])
                    &&& after == (DiffSearch { match_ix: Some(ix as usize), ..before })
                }
            }),
    {
        self.step(false)
    }

    /// Goes to the match behind the current one. Where there are none they are
    /// looked for, and [`DiffSearch::move_match`] takes the step then.
    pub fn diff_search_next_match(&mut self) -> (step: SearchStep)
        ensures
            ({
                let before = *old(self);
                let after = *final(self);
                if !before.active {
                    step == SearchStep::Idle && after == before
                } else if before.is_pending() {
                    &&& step == SearchStep::Waits
                    &&& after == (DiffSearch {
                        pending_navigation: after.pending_navigation,
                        ..before
                    })
                    &&& after.pending_navigation == (if before.pending_navigation == isize::MAX {
                        isize::MAX as int
                    } else {
                        before.pending_navigation + 1
                    })
                } else if before.matches@.len() == 0 {
                    step == SearchStep::Looks && after == before
                } else {
                    let len = before.matches@.len() as int;
                    let ix = (before.place() + 1) % len;
                    &&& step == SearchStep::Moves(before.matches@[ix])
                    &&& after == (DiffSearch { match_ix: Some(ix as usize), ..before })
                }
            }),
    {
        self.step(true)
    }

    /// Nothing is asked for any more. Rows at hand that are not what is on
    /// screen are let go. A search under way is to be given up.
    pub fn diff_search_cancel_pending_query_recompute(&mut self, shown: &SearchDocumentKey)
        ensures
            *final(self) == (DiffSearch {
                sequence: counted_up(old(self).sequence),
                pending_previous_query: None,
                pending_navigation: 0,
                document: if old(self).document == Some(*shown) {
                    old(self).document
                } else {
                    None
                },
                ..*old(self)
            }),
    {
        self.sequence = count_up(self.sequence);
        self.pending_previous_query = None;
        self.document = match self.document {
            Some(key) => if key.is_same(shown) {
                Some(key)
            } else {
                None
            },
            None => None,
        };
        self.pending_navigation = 0;
    }

    /// Drops all matches.
    pub fn clear_matches(&mut self)
        ensures
            final(self).matches@.len() == 0,
            final(self).match_ix is None,
            *final(self) == (DiffSearch {
                matches: final(self).matches,
                match_ix: None,
                ..*old(self)
            }),
    {
        self.matches.clear();
        self.match_ix = None;
    }

    /// Decides what becomes of the matches under a new query, given what came of
    /// compiling it.
    pub fn query_change_with(
        &mut self,
        previous_query: &str,
        can_refine: bool,
        matcher: &DiffSearchMatcher,
    ) -> (change: QueryChange)
        requires
            matcher.wf(),
        ensures
            change == changed_query(previous_query@, can_refine, matcher@),
            final(self).matches@ == (if change is Cleared {
                Seq::empty()
            } else {
                old(self).matches@
            }),
            *final(self) == (DiffSearch {
                matches: final(self).matches,
                match_ix: None,
                ..*old(self)
            }),
    {
        self.match_ix = None;
        if matcher.is_empty() || matcher.regex_error().is_some() {
            self.matches.clear();
            assert(self.matches@ =~= Seq::empty());
            return QueryChange::Cleared;
        }
        let plain = matcher.can_use_ascii_case_insensitive_fast_path();
        match diff_search_query_reuse(previous_query, matcher.query()) {
            DiffSearchQueryReuse::SameSemantics => if plain {
                QueryChange::Keep
            } else {
                QueryChange::Scan
            },
            DiffSearchQueryReuse::Refinement => if plain && can_refine {
                QueryChange::Refine
            } else {
                QueryChange::Scan
            },
            DiffSearchQueryReuse::Nothing => QueryChange::Scan,
        }
    }

    /// What a change of the query asks for: the matches stay where the query says
    /// the same, are narrowed down where it goes on, and are looked for anew
    /// where neither can be used. `can_refine` tells whether what is on screen
    /// can be searched row by row.
    pub fn diff_search_recompute_matches_for_query_change(
        &mut self,
        previous_query: &str,
        can_refine: bool,
    ) -> (decision: (QueryChange, Option<DiffSearchMatcher>))
        ensures
            !old(self).active ==> decision.0 == QueryChange::Inactive && decision.1 is None
                && final(self).regex_error == old(self).regex_error,
            old(self).active ==> {
                &&& decision.1 matches Some(matcher)
                &&& matcher.wf()
                &&& matcher@.query == crate::search::matcher::normalized(old(self).query@)
                &&& matcher@.options == old(self).options
                &&& same_text(final(self).regex_error, matcher.regex_error)
                &&& decision.0 == changed_query(previous_query@, can_refine, matcher@)
            },
            final(self).matches@ == (if decision.0 is Inactive || decision.0 is Cleared {
                Seq::empty()
            } else {
                old(self).matches@
            }),
            *final(self) == (DiffSearch {
                matches: final(self).matches,
                match_ix: None,
                regex_error: final(self).regex_error,
                ..*old(self)
            }),
    {
        if !self.active {
            self.clear_matches();
            assert(self.matches@ =~= Seq::empty());
            return (QueryChange::Inactive, None);
        }
        let matcher = self.diff_search_current_matcher();
        let change = self.query_change_with(previous_query, can_refine, &matcher);
        (change, Some(matcher))
    }

    /// Starts anew with what came of compiling the query: matches go where there is
    /// nothing to look for.
    pub fn begin_recompute_with(&mut self, matcher: DiffSearchMatcher) -> (wanted: Option<
        DiffSearchMatcher,
    >)
        requires
            matcher.wf(),
        ensures
            wanted == (if matcher@.is_idle() {
                None
            } else {
                Some(matcher)
            }),
            wanted is Some ==> *final(self) == *old(self),
            wanted is None ==> final(self).matches@.len() == 0 && *final(self) == (DiffSearch {
                matches: final(self).matches,
                match_ix: None,
                ..*old(self)
            }),
    {
        if matcher.is_empty() || matcher.regex_error().is_some() {
            self.clear_matches();
            return None;
        }
        Some(matcher)
    }

    /// Begins to look for matches at once. Where there is nothing to look for, or
    /// nobody looks, the matches are dropped.
    pub fn diff_search_begin_recompute(&mut self) -> (matcher: Option<DiffSearchMatcher>)
        ensures
            !old(self).active ==> matcher is None && final(self).regex_error == old(
                self,
            ).regex_error,
            old(self).active && matcher is None ==> final(self).regex_error is Some
                || crate::search::matcher::normalized(old(self).query@).len() == 0,
            old(self).active && final(self).regex_error is Some ==> matcher is None
                && old(self).options.regex,
            matcher matches Some(matcher) ==> {
                &&& old(self).active
                &&& matcher.wf()
                &&& !matcher@.is_idle()
                &&& matcher@.query == crate::search::matcher::normalized(old(self).query@)
                &&& matcher@.options == old(self).options
                &&& final(self).matches == old(self).matches
                &&& final(self).match_ix == old(self).match_ix
            },
            matcher is None ==> final(self).matches@.len() == 0 && final(self).match_ix is None,
            *final(self) == (DiffSearch {
                matches: final(self).matches,
                match_ix: final(self).match_ix,
                regex_error: final(self).regex_error,
                ..*old(self)
            }),
    {
        if !self.active {
            self.clear_matches();
            return None;
        }
        let matcher = self.diff_search_current_matcher();
        self.begin_recompute_with(matcher)
    }

    /// Takes over the rows that were found at once, and a place among them. Gives
    /// the row to show, if any.
    pub fn diff_search_end_recompute(
        &mut self,
        matches: Vec<usize>,
        finalize: DiffSearchFinalizeMode,
    ) -> (show: Option<usize>)
        requires
            in_order(matches@),
        ensures
            takes_place(matches@, finalize, final(self).match_ix),
            show == (if Self::moves_screen(finalize) {
                final(self).current_row()
            } else {
                None
            }),
            *final(self) == (DiffSearch { matches, match_ix: final(self).match_ix, ..*old(self) }),
    {
        self.matches = matches;
        self.diff_search_finalize_matches(finalize)
    }

    /// Takes over the matches of an editor: the bytes of each, and its row.
    pub fn file_editor_search_scan(&mut self, ranges: Vec<Range<usize>>, rows: Vec<usize>)
        ensures
            *final(self) == (DiffSearch {
                matches: rows,
                editor_matches: ranges,
                editor_rev: counted_up(old(self).editor_rev),
                ..*old(self)
            }),
    {
        self.matches = rows;
        self.editor_matches = ranges;
        self.editor_rev = count_up(self.editor_rev);
    }

    /// The query has changed. The matches there are stay on screen until those
    /// of the new query come.
    pub fn diff_search_schedule_query_recompute(
        &mut self,
        previous_query: String,
        shown: &SearchDocumentKey,
    ) -> (asked: bool)
        ensures
            asked == old(self).active,
            *final(self) == (DiffSearch {
                pending_previous_query: final(self).pending_previous_query,
                pending_finalize: final(self).pending_finalize,
                sequence: final(self).sequence,
                pending_navigation: 0,
                matches: final(self).matches,
                match_ix: final(self).match_ix,
                document: final(self).document,
                editor_matches: final(self).editor_matches,
                editor_rev: final(self).editor_rev,
                ..*old(self)
            }),
            final(self).document == (if asked || old(self).document == Some(*shown) {
                old(self).document
            } else {
                None
            }),
            final(self).pending_finalize == DiffSearchFinalizeMode::ScrollToFirst,
            final(self).sequence == counted_up(old(self).sequence),
            final(self).pending_navigation == 0,
            final(self).editor_matches == old(self).editor_matches,
            final(self).editor_rev == old(self).editor_rev,
            asked ==> final(self).matches == old(self).matches && final(self).match_ix == old(self).match_ix && (final(self).pending_previous_query == (match old(self).pending_previous_query {
                Some(query) => Some(query),
                None => Some(previous_query),
            })),
            !asked ==> final(self).matches@.len() == 0 && final(self).match_ix is None && final(self).pending_previous_query is None,
    {
        self.pending_finalize = DiffSearchFinalizeMode::ScrollToFirst;
        self.diff_search_queue_recompute(previous_query, false, shown)
    }

    /// What is on screen has changed. The place among the matches is kept: that
    /// of the matches there are, or the one that a search under way would take.
    pub fn diff_search_schedule_preserving_current(&mut self, shown: &SearchDocumentKey) -> (asked:
        bool)
        ensures
            asked == old(self).active,
            *final(self) == (DiffSearch {
                pending_previous_query: final(self).pending_previous_query,
                pending_finalize: final(self).pending_finalize,
                sequence: final(self).sequence,
                pending_navigation: 0,
                matches: final(self).matches,
                match_ix: final(self).match_ix,
                document: final(self).document,
                editor_matches: final(self).editor_matches,
                editor_rev: final(self).editor_rev,
                ..*old(self)
            }),
            final(self).document == (if asked || old(self).document == Some(*shown) {
                old(self).document
            } else {
                None
            }),
            final(self).pending_finalize == (if old(self).is_pending() {
                old(self).pending_finalize
            } else {
                DiffSearchFinalizeMode::PreserveCurrent {
                    previous_match_ix: old(self).match_ix,
                    previous_visible_ix: old(self).current_row(),
                }
            }),
            final(self).sequence == counted_up(old(self).sequence),
            final(self).pending_navigation == 0,
            final(self).matches@.len() == 0,
            final(self).match_ix is None,
            asked ==> final(self).pending_previous_query == (match old(self).pending_previous_query {
                Some(query) => Some(query),
                None => Some(old(self).query),
            }) && final(self).editor_matches@.len() == 0 && final(self).editor_rev == (
            if old(self).editor_matches@.len() == 0 {
                old(self).editor_rev
            } else {
                counted_up(old(self).editor_rev)
            }),
            !asked ==> final(self).pending_previous_query is None && final(self).editor_matches
                == old(self).editor_matches && final(self).editor_rev == old(self).editor_rev,
    {
        if !self.diff_search_result_pending() {
            self.pending_finalize = DiffSearchFinalizeMode::preserve_current(
                self.match_ix,
                self.diff_search_current_match_visible_ix(),
            );
        }
        let query = self.query.clone();
        self.diff_search_queue_recompute(query, true, shown)
    }

    /// Asks for matches. A search under way is to be given up.
    fn diff_search_queue_recompute(
        &mut self,
        previous_query: String,
        document_changed: bool,
        shown: &SearchDocumentKey,
    ) -> (asked: bool)
        ensures
            asked == old(self).active,
            *final(self) == (DiffSearch {
                pending_previous_query: final(self).pending_previous_query,
                pending_finalize: final(self).pending_finalize,
                sequence: final(self).sequence,
                pending_navigation: 0,
                matches: final(self).matches,
                match_ix: final(self).match_ix,
                document: final(self).document,
                editor_matches: final(self).editor_matches,
                editor_rev: final(self).editor_rev,
                ..*old(self)
            }),
            final(self).document == (if asked || old(self).document == Some(*shown) {
                old(self).document
            } else {
                None
            }),
            final(self).pending_finalize == old(self).pending_finalize,
            final(self).sequence == counted_up(old(self).sequence),
            final(self).pending_navigation == 0,
            asked && !document_changed ==> final(self).matches == old(self).matches && final(self).match_ix == old(self).match_ix,
            !asked || document_changed ==> final(self).matches@.len() == 0 && final(self).match_ix is None,
            asked && document_changed ==> final(self).editor_matches@.len() == 0
                && final(self).editor_rev == (if old(self).editor_matches@.len() == 0 {
                old(self).editor_rev
            } else {
                counted_up(old(self).editor_rev)
            }),
            !(asked && document_changed) ==> final(self).editor_matches == old(self).editor_matches
                && final(self).editor_rev == old(self).editor_rev,
            asked ==> final(self).pending_previous_query == (match old(self).pending_previous_query {
                Some(query) => Some(query),
                None => Some(previous_query),
            }),
            !asked ==> final(self).pending_previous_query is None,
    {
        if !self.active {
            self.diff_search_cancel_pending_query_recompute(shown);
            self.clear_matches();
            return false;
        }
        if self.pending_previous_query.is_none() {
            self.pending_previous_query = Some(previous_query);
        }
        self.sequence = count_up(self.sequence);
        self.pending_navigation = 0;
        if document_changed {
            self.clear_matches();
            self.file_editor_search_clear();
        }
        true
    }

    /// Starts a search where one was asked for and none runs.
    pub fn diff_search_start_background(&mut self, shown: &SearchDocumentKey) -> (start:
        SearchStart)
        ensures
            start == (if old(self).worker_running || old(self).pending_previous_query is None
                || !old(self).active {
                SearchStart::Nothing
            } else if old(self).query@.len() == 0 {
                SearchStart::Cleared
            } else {
                SearchStart::Run {
                    sequence: old(self).sequence,
                    capture: old(self).document != Some(*shown),
                }
            }),
            start is Nothing ==> *final(self) == (if old(self).worker_running {
                *old(self)
            } else {
                DiffSearch { pending_previous_query: None, ..*old(self) }
            }),
            start is Cleared ==> final(self).matches@.len() == 0
                && final(self).editor_matches@.len() == 0 && *final(self) == (DiffSearch {
                pending_previous_query: None,
                regex_error: None,
                matches: final(self).matches,
                match_ix: None,
                editor_matches: final(self).editor_matches,
                editor_rev: if old(self).editor_matches@.len() == 0 {
                    old(self).editor_rev
                } else {
                    counted_up(old(self).editor_rev)
                },
                ..*old(self)
            }),
            start is Run ==> *final(self) == (DiffSearch {
                pending_previous_query: None,
                document: Some(*shown),
                worker_running: true,
                worker_sequence: old(self).sequence,
                ..*old(self)
            }),
    {
        if self.worker_running || self.pending_previous_query.is_none() {
            return SearchStart::Nothing;
        }
        self.pending_previous_query = None;
        if !self.active {
            return SearchStart::Nothing;
        }
        proof {
            crate::search::matcher::lemma_empty_text(self.query@);
        }
        if self.query.as_str().is_empty() {
            self.regex_error = None;
            self.clear_matches();
            self.file_editor_search_clear();
            return SearchStart::Cleared;
        }
        let capture = match self.document {
            Some(key) => !key.is_same(shown),
            None => true,
        };
        self.document = Some(*shown);
        self.worker_running = true;
        self.worker_sequence = self.sequence;
        SearchStart::Run { sequence: self.sequence, capture }
    }

    /// Takes over matches and the steps that waited for them. Gives the row to
    /// show, if any.
    fn publish(&mut self, finalize: DiffSearchFinalizeMode, matches: Vec<usize>) -> (show: Option<
        usize,
    >)
        requires
            in_order(matches@),
        ensures
            takes_place_and_steps(
                matches@,
                finalize,
                old(self).pending_navigation as int,
                final(self).match_ix,
            ),
            *final(self) == (DiffSearch {
                matches,
                match_ix: final(self).match_ix,
                pending_navigation: 0,
                ..*old(self)
            }),
            show == (if (matches@.len() > 0 && old(self).pending_navigation != 0)
                || Self::moves_screen(finalize) {
                final(self).current_row()
            } else {
                None
            }),
    {
        self.matches = matches;
        let show = self.diff_search_finalize_matches(finalize);
        let steps = self.pending_navigation;
        self.pending_navigation = 0;
        let len = self.matches.len();
        if len > 0 && steps != 0 {
            let current = self.place_now();
            assert(takes_place(self.matches@, finalize, Some(current)));
            let ix = stepped(current, steps, len);
            self.match_ix = Some(ix);
            return Some(self.matches[ix]);
        }
        show
    }

    /// A search has ended. Its matches are taken over where they are still those
    /// that were asked for, of the rows that are on screen.
    pub fn complete_background(
        &mut self,
        sequence: u64,
        searched: &SearchDocumentKey,
        shown: &SearchDocumentKey,
        finalize: DiffSearchFinalizeMode,
        matches: Vec<usize>,
        regex_error: Option<String>,
        editor_matches: Vec<Range<usize>>,
    ) -> (outcome: SearchOutcome)
        requires
            in_order(matches@),
        ensures
            ({
                let wanted = old(self).active && old(self).sequence == sequence;
                if wanted && *searched == *shown {
                    &&& takes_place_and_steps(
                        matches@,
                        finalize,
                        old(self).pending_navigation as int,
                        final(self).match_ix,
                    )
                    &&& *final(self) == (DiffSearch {
                        matches,
                        match_ix: final(self).match_ix,
                        regex_error,
                        editor_matches,
                        editor_rev: counted_up(old(self).editor_rev),
                        pending_navigation: 0,
                        worker_running: false,
                        ..*old(self)
                    })
                    &&& outcome == SearchOutcome::Published(
                        if (matches@.len() > 0 && old(self).pending_navigation != 0)
                            || Self::moves_screen(finalize) {
                            final(self).current_row()
                        } else {
                            None
                        },
                    )
                } else if wanted {
                    &&& outcome == SearchOutcome::Again
                    &&& *final(self) == (DiffSearch {
                        pending_previous_query: Some(old(self).query),
                        worker_running: false,
                        ..*old(self)
                    })
                } else {
                    &&& outcome == SearchOutcome::Dropped
                    &&& *final(self) == (DiffSearch { worker_running: false, ..*old(self) })
                }
            }),
    {
        self.worker_running = false;
        if !self.active || self.sequence != sequence {
            return SearchOutcome::Dropped;
        }
        if !searched.is_same(shown) {
            self.pending_previous_query = Some(self.query.clone());
            return SearchOutcome::Again;
        }
        self.regex_error = regex_error;
        self.editor_matches = editor_matches;
        self.editor_rev = count_up(self.editor_rev);
        let show = self.publish(finalize, matches);
        SearchOutcome::Published(show)
    }
}

fn stepped(place: usize, steps: isize, len: usize) -> (ix: usize)
    requires
        place < len,
    ensures
        ix == after_steps(place as int, steps as int, len as int),
        ix < len,
{
    let back: usize = if steps < 0 {
        (-(steps + 1)) as usize % len
    } else {
        0
    };
    let on: usize = if steps >= 0 {
        steps as usize % len
    } else {
        len - 1 - back
    };
    proof {
        let n = len as int;
        if steps >= 0 {
            lemma_fundamental_div_mod(steps as int, n);
            let q = steps as int / n;
            assert(steps == q * n + on) by (nonlinear_arith)
                requires
                    steps == n * q + on,
            ;
            if place + on >= n {
                assert(place + steps == (q + 1) * n + (place + on - n)) by (nonlinear_arith)
                    requires
                        steps == q * n + on,
                ;
                lemma_fundamental_div_mod_converse(place + steps, n, q + 1, place + on - n);
            } else {
                lemma_fundamental_div_mod_converse(place + steps, n, q, place + on);
            }
        } else {
            let k = -(steps + 1);
            lemma_fundamental_div_mod(k, n);
            let q = k / n;
            assert(steps == (-q - 1) * n + on) by (nonlinear_arith)
                requires
                    k == n * q + back,
                    k == -(steps + 1),
                    on == n - 1 - back,
            ;
            if place + on >= n {
                assert(place + steps == (-q) * n + (place + on - n)) by (nonlinear_arith)
                    requires
                        steps == (-q - 1) * n + on,
                ;
                lemma_fundamental_div_mod_converse(place + steps, n, -q, place + on - n);
            } else {
                lemma_fundamental_div_mod_converse(place + steps, n, -q - 1, place + on);
            }
        }
    }
    if on < len - place {
        place + on
    } else {
        on - (len - place)
    }
}

/// A step on and a step back lead back to where they started, and as many steps
/// as there are matches lead once round.
pub proof fn law_steps_go_round(place: int, len: int)
    requires
        0 <= place < len,
    ensures
        ((place + 1) % len + len - 1) % len == place,
        ((place + len - 1) % len + 1) % len == place,
        after_steps(place, len, len) == place,
        after_steps(place, 0, len) == place,
{
    lemma_fundamental_div_mod_converse(place, len, 0, place);
    lemma_fundamental_div_mod_converse(place + len, len, 1, place);
    if place + 1 == len {
        lemma_fundamental_div_mod_converse(place + 1, len, 1, 0);
        lemma_fundamental_div_mod_converse(len - 1, len, 0, len - 1);
    } else {
        lemma_fundamental_div_mod_converse(place + 1, len, 0, place + 1);
        lemma_fundamental_div_mod_converse(place + 1 + len - 1, len, 1, place);
    }
    if place == 0 {
        lemma_fundamental_div_mod_converse(len - 1, len, 0, len - 1);
        lemma_fundamental_div_mod_converse(len, len, 1, 0);
    } else {
        lemma_fundamental_div_mod_converse(place + len - 1, len, 1, place - 1);
    }
}

} // verus!
