//! Rows that are searched away from the screen.
//!
//! A search asks for the texts of its rows one after the other. Until it is
//! finished nothing of it is kept, so it can be given up at any row. The rows of
//! recent queries are kept: a query that extends one of them needs to look at
//! those rows only.
use crate::search::bytes::holds;
use crate::search::bytes::same_folded;
use crate::search::collect::collect_stream_match_row_offsets;
use crate::search::collect::collect_stream_match_visible_rows;
use crate::search::collect::numbers;
use crate::search::collect::offsets_of;
use crate::search::hits::lemma_rows_where;
use crate::search::hits::lemma_rows_where_are;
use crate::search::hits::rows_grow;
use crate::search::hits::rows_where;
use crate::search::hits::settled_rows;
use crate::search::hits::sort_and_dedup;
use crate::search::joined::hit_rows;
use crate::search::joined::row_bytes;
use crate::search::joined::row_chars;
use crate::search::joined::whole;
use crate::search::literal_rows::literal_of;
use crate::search::literal_rows::numbers_differ;
use crate::search::long_rows::collect_file_diff_line_text_stream_match_visible_rows;
use crate::search::long_rows::matches_text;
use crate::search::matcher::found;
use crate::search::matcher::normalized;
use crate::search::matcher::DiffSearchMatcher;
use crate::search::matcher::DiffSearchOptions;
use crate::search::matcher::Sought;
use crate::search::needle::diff_search_query_reuse;
use crate::search::needle::law_refined_query_matches_fewer;
use crate::search::needle::law_same_query_matches_the_same;
use crate::search::needle::query_reuse;
use crate::search::needle::DiffSearchQueryReuse;
use crate::search::pattern_rows::pattern_hits;
use crate::search::trigrams::kept;
use crate::search::wrap::is_visual_row;
use crate::search::wrap::law_one_visual_row;
use crate::search::wrap::lines_follow_rows;
use crate::search::wrap::visual_row;
use crate::search::wrap::DiffWrapVisualRow;
use vstd::prelude::*;
use vstd::string::*;
use vstd::utf8::encode_utf8;

verus! {

/// The rows of this many queries are kept.
pub const QUERY_CACHE_ENTRIES: usize = 8;

/// The rows of a query that matches more of them are not kept.
pub const QUERY_CACHE_MAX_MATCHES: usize = 16384;

/// The rows of a longer query are not kept.
pub const QUERY_CACHE_MAX_QUERY_BYTES: usize = 4096;

/// The rows of a query.
#[derive(Debug)]
pub struct SearchCandidates {
    pub query: String,
    pub options: DiffSearchOptions,
    pub rows: Vec<usize>,
}

/// Rows to be searched: how many rows and columns there are, the lines of the
/// screen where rows are broken, whether the rows come in a stream, and the rows
/// of recent queries, the latest first.
#[derive(Debug)]
pub struct RowDocument {
    pub len: usize,
    pub columns: usize,
    pub wrapped: Vec<DiffWrapVisualRow>,
    pub streamed: bool,
    pub previous: Vec<SearchCandidates>,
}

/// A search under way.
#[derive(Debug)]
pub struct RowSearch {
    /// Only matches within single rows count.
    pub narrow: bool,
    /// The rows to be looked at.
    pub rows: Vec<usize>,
    /// How many of them were.
    pub fed: usize,
    /// Those that match, of a narrow search.
    pub out: Vec<usize>,
    /// The texts of those looked at, of any other search.
    pub texts: Vec<Vec<Option<String>>>,
}

/// The rows of a query can serve another one.
pub open spec fn is_reusable(entry: SearchCandidates, sought: Sought) -> bool {
    entry.options == sought.options && query_reuse(entry.query@, sought.query) !is Nothing
}

/// The first of the shortest lists among the first entries that can serve.
pub open spec fn best_entry(entries: Seq<SearchCandidates>, sought: Sought, n: int) -> Option<int>
    decreases n,
{
    if n <= 0 {
        None
    } else {
        let before = best_entry(entries, sought, n - 1);
        if !is_reusable(entries[n - 1], sought) {
            before
        } else {
            match before {
                Some(best) => if entries[n - 1].rows@.len() < entries[best].rows@.len() {
                    Some(n - 1)
                } else {
                    before
                },
                None => Some(n - 1),
            }
        }
    }
}

pub open spec fn all_rows(n: int) -> Seq<usize> {
    Seq::new(n as nat, |i: int| i as usize)
}

impl RowDocument {
    pub open spec fn is_narrow(&self, sought: Sought) -> bool {
        self.wrapped@.len() == 0 && sought.is_plain()
    }

    /// The rows that a search looks at.
    pub open spec fn rows_to_read(&self, sought: Sought) -> Seq<usize> {
        let best = best_entry(self.previous@, sought, self.previous@.len() as int);
        if self.is_narrow(sought) && best is Some {
            self.previous@[best->Some_0].rows@
        } else {
            all_rows(self.len as int)
        }
    }

    /// Starts a search.
    pub fn begin(&self, matcher: &DiffSearchMatcher) -> (search: RowSearch)
        ensures
            search.narrow == self.is_narrow(matcher@),
            search.rows@ == self.rows_to_read(matcher@),
            search.fed == 0,
            search.out@ == Seq::<usize>::empty(),
            search.texts@.len() == 0,
    {
        let narrow = self.wrapped.len() == 0 && matcher.can_use_ascii_case_insensitive_fast_path();
        let best = self.best_previous(matcher);
        let mut rows: Vec<usize> = Vec::new();
        if narrow && best.is_some() {
            let entry = &self.previous[best.unwrap()];
            let mut i: usize = 0;
            while i < entry.rows.len()
                invariant
                    0 <= i <= entry.rows@.len(),
                    rows@ == entry.rows@.take(i as int),
                decreases entry.rows@.len() - i,
            {
                rows.push(entry.rows[i]);
                assert(rows@ =~= entry.rows@.take(i + 1));
                i += 1;
            }
            assert(rows@ =~= entry.rows@);
        } else {
            let mut i: usize = 0;
            while i < self.len
                invariant
                    0 <= i <= self.len,
                    rows@ == all_rows(i as int),
                decreases self.len - i,
            {
                rows.push(i);
                assert(rows@ =~= all_rows(i + 1));
                i += 1;
            }
        }
        RowSearch { narrow, rows, fed: 0, out: Vec::new(), texts: Vec::new() }
    }

    fn best_previous(&self, matcher: &DiffSearchMatcher) -> (best: Option<usize>)
        ensures
            best_entry(self.previous@, matcher@, self.previous@.len() as int) == (match best {
                Some(best) => Some(best as int),
                None => None,
            }),
            best matches Some(best) ==> best < self.previous@.len(),
    {
        let mut best: Option<usize> = None;
        let mut i: usize = 0;
        while i < self.previous.len()
            invariant
                0 <= i <= self.previous@.len(),
                best_entry(self.previous@, matcher@, i as int) == (match best {
                    Some(best) => Some(best as int),
                    None => None,
                }),
                best matches Some(best) ==> best < i,
            decreases self.previous@.len() - i,
        {
            let entry = &self.previous[i];
            let reuse = diff_search_query_reuse(entry.query.as_str(), matcher.query());
            if entry.options == matcher.options && reuse != DiffSearchQueryReuse::Nothing {
                match best {
                    Some(current) => {
                        if entry.rows.len() < self.previous[current].rows.len() {
                            best = Some(i);
                        }
                    },
                    None => {
                        best = Some(i);
                    },
                }
            }
            i += 1;
        }
        best
    }
}

/// The texts of a row, by columns.
pub open spec fn row_texts(texts: Seq<Option<String>>) -> Seq<Option<Seq<char>>> {
    Seq::new(
        texts.len(),
        |i: int|
            match texts[i] {
                Some(text) => Some(text@),
                None => None,
            },
    )
}

/// One of the texts of a row holds a match.
pub open spec fn row_found(sought: Sought, texts: Seq<Option<Seq<char>>>) -> bool {
    exists|column: int|
        0 <= column < texts.len() && (#[trigger] texts[column]) is Some && found(
            sought,
            texts[column]->Some_0,
            0,
        ) is Some
}

impl RowSearch {
    /// The row that is looked at next.
    pub fn wanted(&self) -> (row: Option<usize>)
        ensures
            row == (if self.fed < self.rows@.len() {
                Some(self.rows@[self.fed as int])
            } else {
                None
            }),
    {
        if self.fed < self.rows.len() {
            Some(self.rows[self.fed])
        } else {
            None
        }
    }

    /// Takes the texts of the row that is looked at next.
    pub fn feed(&mut self, matcher: &DiffSearchMatcher, texts: Vec<Option<String>>)
        requires
            matcher.wf(),
            old(self).narrow ==> matcher@.is_plain(),
            old(self).fed < old(self).rows@.len(),
        ensures
            final(self).narrow == old(self).narrow,
            final(self).rows == old(self).rows,
            final(self).fed == old(self).fed + 1,
            final(self).out@ == (if old(self).narrow && row_found(matcher@, row_texts(texts@)) {
                old(self).out@.push(old(self).rows@[old(self).fed as int])
            } else {
                old(self).out@
            }),
            final(self).texts@ == (if old(self).narrow {
                old(self).texts@
            } else {
                old(self).texts@.push(texts)
            }),
    {
        let count = self.rows.len();
        let row = self.rows[self.fed];
        self.fed = self.fed + 1;
        if !self.narrow {
            self.texts.push(texts);
            return;
        }
        if any_text_matches(matcher, &texts) {
            self.out.push(row);
        }
    }
}

fn any_text_matches(matcher: &DiffSearchMatcher, texts: &Vec<Option<String>>) -> (answer: bool)
    requires
        matcher.wf(),
        matcher@.is_plain(),
    ensures
        answer == row_found(matcher@, row_texts(texts@)),
{
    let ghost views = row_texts(texts@);
    let mut column: usize = 0;
    while column < texts.len()
        invariant
            0 <= column <= texts@.len(),
            matcher.wf(),
            matcher@.is_plain(),
            views == row_texts(texts@),
            forall|c: int|
                0 <= c < column ==> !((#[trigger] views[c]) is Some && found(
                    matcher@,
                    views[c]->Some_0,
                    0,
                ) is Some),
        decreases texts@.len() - column,
    {
        if let Some(text) = &texts[column] {
            assert(views[column as int] == Some(text@));
            if matches_text(matcher, text.as_str()) {
                return true;
            }
        }
        column += 1;
    }
    false
}

/// A list of entries with the rows of a query put first.
pub open spec fn remembered(
    entries: Seq<SearchCandidates>,
    query: Seq<char>,
    options: DiffSearchOptions,
    n: int,
) -> Seq<SearchCandidates>
    decreases n,
{
    if n <= 0 {
        Seq::empty()
    } else {
        let before = remembered(entries, query, options, n - 1);
        let entry = entries[n - 1];
        if before.len() < QUERY_CACHE_ENTRIES - 1 && (entry.query@ != query || entry.options
            != options) {
            before.push(entry)
        } else {
            before
        }
    }
}

pub open spec fn text_or_empty(text: Option<Seq<char>>) -> Seq<char> {
    match text {
        Some(text) => text,
        None => Seq::empty(),
    }
}

/// The texts of a column, row by row.
pub open spec fn column_rows(texts: Seq<Vec<Option<String>>>, column: int) -> Seq<
    (usize, Seq<char>),
> {
    Seq::new(
        texts.len(),
        |i: int| (i as usize, text_or_empty(row_texts(texts[i]@)[column])),
    )
}

/// The line of the screen of a match.
pub open spec fn visual_row_of(
    lines: Seq<DiffWrapVisualRow>,
    column: int,
    hit: (usize, usize),
) -> usize {
    choose|ix: usize| is_visual_row(lines, hit.0 as int, column, hit.1 as int, ix as int)
}

pub open spec fn visual_rows(
    lines: Seq<DiffWrapVisualRow>,
    column: int,
    offsets: Seq<(usize, usize)>,
) -> Seq<usize> {
    Seq::new(offsets.len(), |i: int| visual_row_of(lines, column, offsets[i]))
}

impl RowDocument {
    /// What a column gives, behind what the columns before it gave.
    pub open spec fn column_hits(
        &self,
        sought: Sought,
        texts: Seq<Vec<Option<String>>>,
        column: int,
        before: Seq<usize>,
    ) -> Seq<usize> {
        let rows = column_rows(texts, column);
        if self.wrapped@.len() > 0 {
            before + visual_rows(self.wrapped@, column, offsets_of(sought, rows))
        } else if !self.streamed {
            before + numbers(offsets_of(sought, rows))
        } else if sought.options.regex {
            pattern_hits(sought, row_bytes(rows), before)
        } else if sought.query.len() == 0 {
            before
        } else {
            before + hit_rows(row_bytes(rows), literal_of(sought), rows.len() as int)
        }
    }

    /// What the first columns give.
    pub open spec fn columns_hits(
        &self,
        sought: Sought,
        texts: Seq<Vec<Option<String>>>,
        n: int,
    ) -> Seq<usize>
        decreases n,
    {
        if n <= 0 {
            Seq::empty()
        } else {
            self.column_hits(sought, texts, n - 1, self.columns_hits(sought, texts, n - 1))
        }
    }

    /// Puts the rows of a query first among those that are kept.
    fn remember(&mut self, matcher: &DiffSearchMatcher, rows: &Vec<usize>)
        ensures
            final(self).len == old(self).len,
            final(self).columns == old(self).columns,
            final(self).wrapped == old(self).wrapped,
            final(self).streamed == old(self).streamed,
            ({
                let more = final(self).previous@;
                &&& more.len() > 0
                &&& more[0].query@ == matcher@.query
                &&& more[0].options == matcher@.options
                &&& more[0].rows@ == rows@
                &&& more.skip(1) == remembered(
                    old(self).previous@,
                    matcher@.query,
                    matcher@.options,
                    old(self).previous@.len() as int,
                )
            }),
    {
        let ghost before = self.previous@;
        let mut copy: Vec<usize> = Vec::new();
        let mut i: usize = 0;
        while i < rows.len()
            invariant
                0 <= i <= rows@.len(),
                copy@ == rows@.take(i as int),
            decreases rows@.len() - i,
        {
            copy.push(rows[i]);
            assert(copy@ =~= rows@.take(i + 1));
            i += 1;
        }
        assert(copy@ =~= rows@);
        let mut entries: Vec<SearchCandidates> = Vec::new();
        entries.push(
            SearchCandidates {
                query: matcher.query().to_owned(),
                options: matcher.options,
                rows: copy,
            },
        );
        let ghost first = entries@[0];
        let mut old_entries: Vec<SearchCandidates> = Vec::new();
        std::mem::swap(&mut old_entries, &mut self.previous);
        let count = old_entries.len();
        let mut k: usize = 0;
        // Entries are taken from the back, so the list is turned round first.
        let mut reversed: Vec<SearchCandidates> = Vec::new();
        while k < count
            invariant
                0 <= k <= count,
                count == before.len(),
                old_entries@ == before.take(count - k),
                reversed@.len() == k,
                forall|j: int| 0 <= j < k ==> #[trigger] reversed@[j] == before[count - 1 - j],
            decreases count - k,
        {
            let entry = old_entries.pop().unwrap();
            assert(entry == before[count - 1 - k]);
            reversed.push(entry);
            assert(old_entries@ =~= before.take(count - (k + 1)));
            k += 1;
        }
        let mut n: usize = 0;
        assert(entries@.skip(1) =~= remembered(before, matcher@.query, matcher@.options, 0));
        while n < count
            invariant
                0 <= n <= count,
                count == before.len(),
                reversed@.len() == count - n,
                forall|j: int|
                    0 <= j < reversed@.len() ==> #[trigger] reversed@[j] == before[count - 1 - j],
                entries@.len() > 0,
                entries@[0] == first,
                entries@.skip(1) == remembered(before, matcher@.query, matcher@.options, n as int),
            decreases count - n,
        {
            let entry = reversed.pop().unwrap();
            assert(entry == before[n as int]);
            let ghost sofar = entries@;
            let same_query = crate::lines::same_str(entry.query.as_str(), matcher.query());
            if entries.len() < QUERY_CACHE_ENTRIES && (!same_query || entry.options
                != matcher.options) {
                entries.push(entry);
                assert(entries@.skip(1) =~= sofar.skip(1).push(entry));
            }
            n += 1;
        }
        self.previous = entries;
    }

    fn collect_column(
        &self,
        matcher: &DiffSearchMatcher,
        texts: &Vec<Vec<Option<String>>>,
        column: usize,
        out: &mut Vec<usize>,
    )
        requires
            matcher.wf(),
            lines_follow_rows(self.wrapped@),
            forall|i: int| 0 <= i < texts@.len() ==> (#[trigger] texts@[i])@.len() > column,
            whole(row_bytes(column_rows(texts@, column as int))).len() <= usize::MAX,
        ensures
            final(out)@ == self.column_hits(matcher@, texts@, column as int, old(out)@),
    {
        let ghost rows = column_rows(texts@, column as int);
        let ghost before = out@;
        let count = texts.len();
        let mut refs: Vec<(usize, &str)> = Vec::new();
        let mut i: usize = 0;
        proof {
            reveal_strlit("");
            assert(""@ =~= Seq::<char>::empty());
        }
        while i < texts.len()
            invariant
                0 <= i <= texts@.len(),
                ""@ == Seq::<char>::empty(),
                forall|i: int| 0 <= i < texts@.len() ==> (#[trigger] texts@[i])@.len() > column,
                rows == column_rows(texts@, column as int),
                refs@.len() == i,
                forall|k: int|
                    0 <= k < i ==> (#[trigger] refs@[k]).0 == rows[k].0 && refs@[k].1@ == rows[k].1,
            decreases texts@.len() - i,
        {
            assert(texts@[i as int]@.len() > column);
            let text = match &texts[i][column] {
                Some(text) => text.as_str(),
                None => "",
            };
            refs.push((i, text));
            assert(text@ == rows[i as int].1);
            i += 1;
        }
        assert(row_chars(refs@) =~= rows);
        if self.wrapped.len() == 0 {
            if self.streamed {
                proof {
                    reveal(numbers_differ);
                    assert(rows.len() == count);
                    assert(numbers_differ(row_bytes(rows)));
                }
                collect_file_diff_line_text_stream_match_visible_rows(
                    refs.as_slice(),
                    matcher,
                    out,
                );
            } else {
                collect_stream_match_visible_rows(refs.as_slice(), matcher, out);
            }
            return;
        }
        let mut offsets: Vec<(usize, usize)> = Vec::new();
        collect_stream_match_row_offsets(refs.as_slice(), matcher, &mut offsets);
        let ghost all = offsets_of(matcher@, rows);
        assert(offsets@ =~= all);
        let ghost shown = visual_rows(self.wrapped@, column as int, all);
        let mut k: usize = 0;
        assert(before + shown.take(0) =~= before);
        while k < offsets.len()
            invariant
                0 <= k <= offsets@.len(),
                lines_follow_rows(self.wrapped@),
                offsets@ == all,
                shown == visual_rows(self.wrapped@, column as int, all),
                out@ == before + shown.take(k as int),
            decreases offsets@.len() - k,
        {
            let (source, offset) = offsets[k];
            let ix = visual_row(self.wrapped.as_slice(), source, column, offset);
            proof {
                let other = visual_row_of(self.wrapped@, column as int, all[k as int]);
                law_one_visual_row(
                    self.wrapped@,
                    source as int,
                    column as int,
                    offset as int,
                    ix as int,
                    other as int,
                );
                assert(shown[k as int] == ix);
            }
            out.push(ix);
            assert(shown.take(k + 1) =~= shown.take(k as int).push(ix));
            assert(out@ =~= before + shown.take(k + 1));
            k += 1;
        }
        assert(shown.take(offsets@.len() as int) =~= shown);
    }

    /// Ends a search that has looked at all its rows.
    pub fn finish(&mut self, matcher: &DiffSearchMatcher, search: RowSearch) -> (matches: Vec<
        usize,
    >)
        requires
            matcher.wf(),
            lines_follow_rows(old(self).wrapped@),
            forall|i: int|
                0 <= i < search.texts@.len() ==> (#[trigger] search.texts@[i])@.len() >= old(
                    self,
                ).columns,
            forall|column: int|
                0 <= column < old(self).columns ==> #[trigger] whole(
                    row_bytes(column_rows(search.texts@, column)),
                ).len() <= usize::MAX,
        ensures
            final(self).len == old(self).len,
            final(self).columns == old(self).columns,
            final(self).wrapped == old(self).wrapped,
            final(self).streamed == old(self).streamed,
            settled_rows(
                matches@,
                if search.narrow {
                    search.out@
                } else {
                    old(self).columns_hits(matcher@, search.texts@, old(self).columns as int)
                },
            ),
            ({
                let kept_now = search.narrow && matches@.len() <= QUERY_CACHE_MAX_MATCHES
                    && matcher@.bytes().len() <= QUERY_CACHE_MAX_QUERY_BYTES;
                let more = final(self).previous@;
                if kept_now {
                    &&& more.len() > 0
                    &&& more[0].query@ == matcher@.query
                    &&& more[0].options == matcher@.options
                    &&& more[0].rows@ == matches@
                    &&& more.skip(1) == remembered(
                        old(self).previous@,
                        matcher@.query,
                        matcher@.options,
                        old(self).previous@.len() as int,
                    )
                } else {
                    *final(self) == *old(self)
                }
            }),
    {
        if search.narrow {
            let mut out = search.out;
            sort_and_dedup(&mut out);
            if out.len() <= QUERY_CACHE_MAX_MATCHES && matcher.query().as_bytes().len()
                <= QUERY_CACHE_MAX_QUERY_BYTES {
                self.remember(matcher, &out);
            }
            return out;
        }
        let mut out: Vec<usize> = Vec::new();
        let mut column: usize = 0;
        while column < self.columns
            invariant
                *self == *old(self),
                matcher.wf(),
                lines_follow_rows(self.wrapped@),
                forall|i: int|
                    0 <= i < search.texts@.len() ==> (#[trigger] search.texts@[i])@.len()
                        >= self.columns,
                forall|column: int|
                    0 <= column < self.columns ==> #[trigger] whole(
                        row_bytes(column_rows(search.texts@, column)),
                    ).len() <= usize::MAX,
                0 <= column <= self.columns,
                out@ == self.columns_hits(matcher@, search.texts@, column as int),
            decreases self.columns - column,
        {
            assert(whole(row_bytes(column_rows(search.texts@, column as int))).len()
                <= usize::MAX);
            self.collect_column(matcher, &search.texts, column, &mut out);
            column += 1;
        }
        sort_and_dedup(&mut out);
        out
    }
}

/// The texts of the rows that a document stands for.
pub open spec fn row_matches(
    sought: Sought,
    content: spec_fn(int) -> Seq<Option<Seq<char>>>,
    row: int,
) -> bool {
    row_found(sought, content(row))
}

/// The rows of an entry are those that its query matches.
pub open spec fn entry_is_sound(
    entry: SearchCandidates,
    content: spec_fn(int) -> Seq<Option<Seq<char>>>,
    len: int,
) -> bool {
    let sought = Sought { query: entry.query@, options: entry.options, refused: false };
    &&& sought.is_plain()
    &&& normalized(entry.query@) == entry.query@
    &&& entry.rows@ == rows_where(len, |row: int| row_matches(sought, content, row))
}

pub open spec fn cache_is_sound(
    document: RowDocument,
    content: spec_fn(int) -> Seq<Option<Seq<char>>>,
) -> bool {
    forall|i: int|
        0 <= i < document.previous@.len() ==> entry_is_sound(
            #[trigger] document.previous@[i],
            content,
            document.len as int,
        )
}

/// A plain query is found in a text just when the text holds it.
proof fn lemma_plain_is_holding(sought: Sought, text: Seq<char>)
    requires
        sought.is_plain(),
        !sought.refused,
        sought.query.len() > 0,
    ensures
        (found(sought, text, 0) is Some) == holds(encode_utf8(text), sought.bytes(), false),
{
    let bytes = encode_utf8(text);
    let needle = sought.bytes();
    crate::search::bytes::lemma_first_occurrence(bytes, needle, false, false, 0);
    if holds(bytes, needle, false) {
        let at = choose|at: int| #[trigger]
            crate::search::bytes::matches_at(bytes, needle, false, at);
        assert(crate::search::bytes::occurs_at(bytes, needle, false, false, at));
    }
    if found(sought, text, 0) is Some {
        let at = crate::search::bytes::first_occurrence(bytes, needle, false, false, 0)->Some_0;
        assert(crate::search::bytes::matches_at(bytes, needle, false, at));
    }
}

/// A row that matches a query matches every query that can serve it.
proof fn lemma_reuse_keeps_rows(
    sought: Sought,
    served: Sought,
    texts: Seq<Option<Seq<char>>>,
)
    requires
        sought.is_plain(),
        served.is_plain(),
        !sought.refused,
        !served.refused,
        sought.query.len() > 0,
        normalized(sought.query) == sought.query,
        normalized(served.query) == served.query,
        query_reuse(served.query, sought.query) !is Nothing,
        row_found(sought, texts),
    ensures
        row_found(served, texts),
{
    let column = choose|column: int|
        0 <= column < texts.len() && (#[trigger] texts[column]) is Some && found(
            sought,
            texts[column]->Some_0,
            0,
        ) is Some;
    let text = texts[column]->Some_0;
    lemma_plain_is_holding(sought, text);
    crate::search::matcher::lemma_empty_text(sought.query);
    crate::search::matcher::lemma_empty_text(served.query);
    let bytes = encode_utf8(text);
    if same_folded(sought.bytes(), served.bytes(), false) {
        law_same_query_matches_the_same(bytes, served.bytes(), sought.bytes());
    } else {
        law_refined_query_matches_fewer(bytes, sought.bytes(), served.bytes());
    }
    assert(served.query.len() > 0);
    lemma_plain_is_holding(served, text);
}

proof fn lemma_best_entry(entries: Seq<SearchCandidates>, sought: Sought, n: int)
    requires
        0 <= n <= entries.len(),
    ensures
        best_entry(entries, sought, n) matches Some(best) ==> 0 <= best < n && is_reusable(
            entries[best],
            sought,
        ),
    decreases n,
{
    if n > 0 {
        lemma_best_entry(entries, sought, n - 1);
    }
}

/// Looking at the rows of an earlier query alone gives what a look at every row
/// gives.
pub proof fn law_reuse_is_a_full_scan(
    document: RowDocument,
    content: spec_fn(int) -> Seq<Option<Seq<char>>>,
    sought: Sought,
)
    requires
        cache_is_sound(document, content),
        document.is_narrow(sought),
        !sought.is_idle(),
        normalized(sought.query) == sought.query,
    ensures
        kept(
            document.rows_to_read(sought),
            |row: usize| row_matches(sought, content, row as int),
        ) == rows_where(document.len as int, |row: int| row_matches(sought, content, row)),
{
    let n = document.len as int;
    let test = |row: int| row_matches(sought, content, row);
    let keep = |row: usize| row_matches(sought, content, row as int);
    let rows = document.rows_to_read(sought);
    let entries = document.previous@;
    let best = best_entry(entries, sought, entries.len() as int);
    lemma_best_entry(entries, sought, entries.len() as int);
    assert(rows_grow(rows) && (forall|i: int| 0 <= i < rows.len() ==> (#[trigger] rows[i]) < n)
        && (forall|row: int|
        0 <= row < n && #[trigger] test(row) ==> rows.contains(row as usize))) by {
        if best is Some {
            let entry = entries[best->Some_0];
            assert(entry_is_sound(entry, content, n));
            let served = Sought { query: entry.query@, options: entry.options, refused: false };
            let other = |row: int| row_matches(served, content, row);
            lemma_rows_where_are(n, other);
            assert forall|row: int| 0 <= row < n && #[trigger] test(row) implies rows.contains(
                row as usize,
            ) by {
                lemma_reuse_keeps_rows(sought, served, content(row));
                assert(other(row));
            }
        } else {
            assert forall|row: int| 0 <= row < n && #[trigger] test(row) implies rows.contains(
                row as usize,
            ) by {
                assert(rows[row] == row as usize);
            }
        }
    }
    lemma_kept_rows(rows, keep);
    let left = kept(rows, keep);
    assert forall|i: int| 0 <= i < left.len() implies (#[trigger] left[i]) < n && test(
        left[i] as int,
    ) by {
        assert(left.contains(left[i]));
        assert(rows.contains(left[i]));
        let k = choose|k: int| 0 <= k < rows.len() && rows[k] == left[i];
        assert(rows[k] < n);
    }
    assert forall|row: int| 0 <= row < n && #[trigger] test(row) implies left.contains(
        row as usize,
    ) by {
        assert(rows.contains(row as usize));
        assert(keep(row as usize));
    }
    lemma_rows_where(left, n, test);
}

proof fn lemma_remembered(
    entries: Seq<SearchCandidates>,
    query: Seq<char>,
    options: DiffSearchOptions,
    n: int,
    i: int,
)
    requires
        0 <= n <= entries.len(),
        0 <= i < remembered(entries, query, options, n).len(),
    ensures
        exists|k: int|
            0 <= k < n && #[trigger] entries[k] == remembered(entries, query, options, n)[i],
    decreases n,
{
    let before = remembered(entries, query, options, n - 1);
    if i < before.len() {
        lemma_remembered(entries, query, options, n - 1, i);
        let k = choose|k: int| 0 <= k < n - 1 && #[trigger] entries[k] == before[i];
        assert(entries[k] == remembered(entries, query, options, n)[i]);
    } else {
        assert(entries[n - 1] == remembered(entries, query, options, n)[i]);
    }
}

/// A finished search leaves the kept rows right: no rows of a search that was
/// given up are among them.
pub proof fn law_finished_search_keeps_cache_sound(
    before: RowDocument,
    after: RowDocument,
    content: spec_fn(int) -> Seq<Option<Seq<char>>>,
    sought: Sought,
)
    requires
        cache_is_sound(before, content),
        sought.is_plain(),
        !sought.refused,
        normalized(sought.query) == sought.query,
        after.len == before.len,
        after.previous@.len() > 0,
        after.previous@[0].query@ == sought.query,
        after.previous@[0].options == sought.options,
        after.previous@[0].rows@ == rows_where(
            before.len as int,
            |row: int| row_matches(sought, content, row),
        ),
        after.previous@.skip(1) == remembered(
            before.previous@,
            sought.query,
            sought.options,
            before.previous@.len() as int,
        ),
    ensures
        cache_is_sound(after, content),
        after.previous@.len() <= QUERY_CACHE_ENTRIES,
{
    let rest = after.previous@.skip(1);
    lemma_remembered_few(
        before.previous@,
        sought.query,
        sought.options,
        before.previous@.len() as int,
    );
    assert(after.previous@.len() == rest.len() + 1);
    assert forall|i: int| 0 <= i < after.previous@.len() implies entry_is_sound(
        #[trigger] after.previous@[i],
        content,
        after.len as int,
    ) by {
        if i > 0 {
            assert(rest[i - 1] == after.previous@[i]);
            lemma_remembered(
                before.previous@,
                sought.query,
                sought.options,
                before.previous@.len() as int,
                i - 1,
            );
        } else {
            let entry = after.previous@[0];
            assert((Sought {
                query: entry.query@,
                options: entry.options,
                refused: false,
            }) == sought);
        }
    }
}

proof fn lemma_remembered_few(
    entries: Seq<SearchCandidates>,
    query: Seq<char>,
    options: DiffSearchOptions,
    n: int,
)
    ensures
        remembered(entries, query, options, n).len() < QUERY_CACHE_ENTRIES,
    decreases n,
{
    if n > 0 {
        lemma_remembered_few(entries, query, options, n - 1);
    }
}

/// What is left of rows in order is in order, and those that a test keeps.
pub proof fn lemma_kept_rows(rows: Seq<usize>, keep: spec_fn(usize) -> bool)
    requires
        rows_grow(rows),
    ensures
        rows_grow(kept(rows, keep)),
        forall|row: usize| #[trigger]
            kept(rows, keep).contains(row) <==> rows.contains(row) && keep(row),
    decreases rows.len(),
{
    if rows.len() > 0 {
        let shorter = rows.drop_last();
        assert forall|i: int, j: int| 0 <= i < j < shorter.len() implies #[trigger] shorter[i]
            < #[trigger] shorter[j] by {
            assert(rows[i] < rows[j]);
        }
        lemma_kept_rows(shorter, keep);
        let before = kept(shorter, keep);
        let all = kept(rows, keep);
        let last = rows.last();
        assert forall|row: usize| #[trigger] all.contains(row) <==> rows.contains(row) && keep(
            row,
        ) by {
            if all.contains(row) {
                let k = choose|k: int| 0 <= k < all.len() && all[k] == row;
                if k < before.len() {
                    assert(before[k] == row);
                    assert(before.contains(row));
                    let i = choose|i: int| 0 <= i < shorter.len() && shorter[i] == row;
                    assert(rows[i] == row);
                } else {
                    assert(rows[rows.len() - 1] == row);
                }
            }
            if rows.contains(row) && keep(row) {
                let i = choose|i: int| 0 <= i < rows.len() && rows[i] == row;
                if i < rows.len() - 1 {
                    assert(shorter[i] == row);
                    assert(before.contains(row));
                    let k = choose|k: int| 0 <= k < before.len() && before[k] == row;
                    assert(all[k] == row);
                } else {
                    assert(all[all.len() - 1] == row);
                }
            }
        }
        if keep(last) {
            assert forall|i: int, j: int| 0 <= i < j < all.len() implies #[trigger] all[i]
                < #[trigger] all[j] by {
                if j == before.len() {
                    assert(before.contains(before[i]));
                    let k = choose|k: int| 0 <= k < shorter.len() && shorter[k] == before[i];
                    assert(rows[k] < rows[rows.len() - 1]);
                }
            }
        }
    } else {
        assert(kept(rows, keep) =~= Seq::empty());
        assert forall|row: usize| #[trigger] kept(rows, keep).contains(row) <==> rows.contains(row)
            && keep(row) by {}
    }
}

/// The texts of rows that are at hand.
pub open spec fn content_of(texts: Seq<Vec<Option<String>>>) -> spec_fn(int) -> Seq<
    Option<Seq<char>>,
> {
    |row: int| row_texts(texts[row]@)
}

fn copy_texts(texts: &Vec<Option<String>>) -> (copy: Vec<Option<String>>)
    ensures
        row_texts(copy@) == row_texts(texts@),
        copy@.len() == texts@.len(),
{
    let mut copy: Vec<Option<String>> = Vec::new();
    let mut i: usize = 0;
    while i < texts.len()
        invariant
            0 <= i <= texts@.len(),
            copy@.len() == i,
            forall|k: int| 0 <= k < i ==> #[trigger] copy@[k] == texts@[k],
        decreases texts@.len() - i,
    {
        copy.push(crate::text::clone_text(&texts[i]));
        i += 1;
    }
    assert(copy@ =~= texts@);
    copy
}

impl RowDocument {
    /// Searches rows whose texts are at hand for a query that stays on its rows.
    pub fn search(&mut self, matcher: &DiffSearchMatcher, texts: &Vec<Vec<Option<String>>>) -> (matches:
        Vec<usize>)
        requires
            matcher.wf(),
            !matcher@.is_idle(),
            old(self).is_narrow(matcher@),
            old(self).len == texts@.len(),
            cache_is_sound(*old(self), content_of(texts@)),
            lines_follow_rows(old(self).wrapped@),
        ensures
            matches@ == rows_where(
                texts@.len() as int,
                |row: int| row_matches(matcher@, content_of(texts@), row),
            ),
            cache_is_sound(*final(self), content_of(texts@)),
            final(self).len == old(self).len,
            final(self).columns == old(self).columns,
            final(self).wrapped == old(self).wrapped,
            final(self).streamed == old(self).streamed,
    {
        let ghost content = content_of(texts@);
        let ghost sought = matcher@;
        let ghost keep = |row: usize| row_matches(sought, content, row as int);
        let ghost n = texts@.len() as int;
        let ghost test = |row: int| row_matches(sought, content, row);
        let ghost before = *self;
        let mut search = self.begin(matcher);
        let ghost rows = search.rows@;
        proof {
            law_reuse_is_a_full_scan(before, content, sought);
            lemma_rows_to_read(before, content, sought);
            assert(rows.take(0) =~= Seq::<usize>::empty());
        }
        let count = search.rows.len();
        let mut i: usize = 0;
        while i < count
            invariant
                matcher.wf(),
                matcher@ == sought,
                sought.is_plain(),
                content == content_of(texts@),
                keep == |row: usize| row_matches(sought, content, row as int),
                n == texts@.len(),
                search.narrow,
                search.rows@ == rows,
                search.fed == i,
                count == rows.len(),
                0 <= i <= count,
                forall|k: int| 0 <= k < rows.len() ==> (#[trigger] rows[k]) < n,
                search.out@ == kept(rows.take(i as int), keep),
                search.texts@.len() == 0,
            decreases count - i,
        {
            proof {
                let next = rows.take(i + 1);
                assert(next.drop_last() =~= rows.take(i as int));
                assert(next.last() == rows[i as int]);
            }
            let row = search.rows[i];
            assert(rows[i as int] < n);
            let row_copy = copy_texts(&texts[row]);
            search.feed(matcher, row_copy);
            i += 1;
        }
        assert(rows.take(rows.len() as int) =~= rows);
        let ghost out = search.out@;
        proof {
            assert forall|column: int| 0 <= column < self.columns implies #[trigger] whole(
                row_bytes(column_rows(search.texts@, column)),
            ).len() <= usize::MAX by {
                assert(column_rows(search.texts@, column).len() == 0);
            }
        }
        let matches = self.finish(matcher, search);
        proof {
            lemma_rows_where_are(n, test);
            crate::search::hits::lemma_settled_once(matches@, out, out);
            if matches@.len() <= QUERY_CACHE_MAX_MATCHES && sought.bytes().len()
                <= QUERY_CACHE_MAX_QUERY_BYTES {
                law_finished_search_keeps_cache_sound(before, *self, content, sought);
            }
        }
        matches
    }
}

/// Equal texts give equal rows.
proof fn lemma_same_texts(
    document: RowDocument,
    sought: Sought,
    one: Seq<Vec<Option<String>>>,
    other: Seq<Vec<Option<String>>>,
    n: int,
)
    requires
        one.len() == other.len(),
        forall|i: int|
            0 <= i < one.len() ==> row_texts((#[trigger] one[i])@) == row_texts(other[i]@),
    ensures
        document.columns_hits(sought, one, n) == document.columns_hits(sought, other, n),
        forall|column: int| #[trigger] column_rows(one, column) == column_rows(other, column),
    decreases n,
{
    assert forall|column: int| #[trigger] column_rows(one, column) == column_rows(
        other,
        column,
    ) by {
        assert(column_rows(one, column) =~= column_rows(other, column));
    }
    if n > 0 {
        lemma_same_texts(document, sought, one, other, n - 1);
        assert(column_rows(one, n - 1) == column_rows(other, n - 1));
    }
}

impl RowDocument {
    /// Searches rows whose texts are at hand for a query that may run over several
    /// rows, or over several lines of the screen.
    pub fn search_across(
        &mut self,
        matcher: &DiffSearchMatcher,
        texts: &Vec<Vec<Option<String>>>,
    ) -> (matches: Vec<usize>)
        requires
            matcher.wf(),
            !old(self).is_narrow(matcher@),
            old(self).len == texts@.len(),
            lines_follow_rows(old(self).wrapped@),
            forall|i: int|
                0 <= i < texts@.len() ==> (#[trigger] texts@[i])@.len() >= old(self).columns,
            forall|column: int|
                0 <= column < old(self).columns ==> #[trigger] whole(
                    row_bytes(column_rows(texts@, column)),
                ).len() <= usize::MAX,
        ensures
            settled_rows(
                matches@,
                old(self).columns_hits(matcher@, texts@, old(self).columns as int),
            ),
            *final(self) == *old(self),
    {
        let ghost before = *self;
        let mut search = self.begin(matcher);
        let ghost rows = search.rows@;
        let count = search.rows.len();
        let mut i: usize = 0;
        while i < count
            invariant
                matcher.wf(),
                !search.narrow,
                search.rows@ == rows,
                rows == all_rows(texts@.len() as int),
                search.fed == i,
                count == texts@.len(),
                0 <= i <= count,
                search.texts@.len() == i,
                forall|k: int|
                    0 <= k < i ==> row_texts((#[trigger] search.texts@[k])@) == row_texts(
                        texts@[k]@,
                    ) && search.texts@[k]@.len() == texts@[k]@.len(),
            decreases count - i,
        {
            let row_copy = copy_texts(&texts[i]);
            search.feed(matcher, row_copy);
            i += 1;
        }
        proof {
            lemma_same_texts(before, matcher@, search.texts@, texts@, before.columns as int);
            assert forall|k: int| 0 <= k < search.texts@.len() implies (
            #[trigger] search.texts@[k])@.len() >= before.columns by {
                assert(texts@[k]@.len() >= before.columns);
            }
            assert forall|column: int| 0 <= column < before.columns implies #[trigger] whole(
                row_bytes(column_rows(search.texts@, column)),
            ).len() <= usize::MAX by {
                assert(whole(row_bytes(column_rows(texts@, column))).len() <= usize::MAX);
            }
        }
        self.finish(matcher, search)
    }
}

proof fn lemma_rows_to_read(
    document: RowDocument,
    content: spec_fn(int) -> Seq<Option<Seq<char>>>,
    sought: Sought,
)
    requires
        cache_is_sound(document, content),
    ensures
        forall|i: int|
            0 <= i < document.rows_to_read(sought).len() ==> (#[trigger] document.rows_to_read(
                sought,
            )[i]) < document.len,
{
    let entries = document.previous@;
    lemma_best_entry(entries, sought, entries.len() as int);
    let best = best_entry(entries, sought, entries.len() as int);
    if best is Some {
        let entry = entries[best->Some_0];
        assert(entry_is_sound(entry, content, document.len as int));
        let served = Sought { query: entry.query@, options: entry.options, refused: false };
        lemma_rows_where_are(
            document.len as int,
            |row: int| row_matches(served, content, row),
        );
    }
}

} // verus!
