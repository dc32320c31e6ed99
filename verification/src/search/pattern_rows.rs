//! The rows in which matches of a pattern start, found in a stream.
//!
//! A window moves over the rows: it is searched when it is full and at the end,
//! and then shortened, so that long files are never held as a whole. A match
//! that touches an edge of the window is not counted unless the text ends there.
use crate::num::less;
use crate::num::less_usize;
use crate::num::min;
use crate::num::min_usize;
use crate::search::bytes::next_boundary;
use crate::search::bytes::next_char_boundary_after;
use crate::search::joined::lemma_ascii_is_itself;
use crate::search::joined::lemma_encode_add;
use crate::search::joined::lemma_row_stands;
use crate::search::joined::lemma_starts_grow;
use crate::search::joined::normalized_stream_row_text;
use crate::search::joined::row_bytes;
use crate::search::joined::row_chars;
use crate::search::joined::row_end;
use crate::search::joined::row_start;
use crate::search::joined::whole;
use crate::search::literal_rows::FILE_PREVIEW_SEARCH_SCAN_CHUNK_BYTES;
use crate::search::matcher::found;
use crate::search::matcher::lemma_empty_text;
use crate::search::matcher::DiffSearchMatcher;
use crate::search::matcher::Sought;
use crate::search::stream::next_row_start_after_stream_abs;
use crate::search::stream::row_at;
use crate::search::stream::starts_grow;
use crate::search::stream::visible_ix_for_stream_abs;
use crate::utf::lemma_text_is_valid;
use crate::utf::text_between;
use vstd::prelude::*;
use vstd::string::*;
use vstd::utf8::decode_utf8;
use vstd::utf8::encode_utf8;
use vstd::utf8::is_char_boundary;
use vstd::utf8::valid_utf8;

verus! {

/// The window is searched once it holds this many bytes.
pub const FILE_PREVIEW_REGEX_SEARCH_WINDOW_BYTES: usize = 262144;

/// The window keeps this many bytes of what was searched.
pub const FILE_PREVIEW_REGEX_SEARCH_KEEP_BYTES: usize = 65536;

/// How far a search has come: the window and where it starts, the place in the
/// stream, the rows with their starts, and the row that was reported last.
pub struct PatternProgress {
    pub window: Seq<char>,
    pub window_at: int,
    pub at: int,
    pub rows: Seq<(usize, usize)>,
    pub reported: Option<usize>,
}

/// Reports the row of a place, unless it was reported last.
pub open spec fn pattern_row_reported(
    progress: PatternProgress,
    out: Seq<usize>,
    at: int,
) -> (PatternProgress, Seq<usize>) {
    match row_at(progress.rows, at) {
        None => (progress, out),
        Some(row) => if progress.reported == Some(row) {
            (progress, out)
        } else {
            (PatternProgress { reported: Some(row), ..progress }, out.push(row))
        },
    }
}

/// Where the first row starts, from one on, that starts behind a place.
pub open spec fn start_after(rows: Seq<(usize, usize)>, at: int, i: int) -> Option<int>
    decreases rows.len() - i,
{
    if i < 0 || i >= rows.len() {
        None
    } else if rows[i].0 > at {
        Some(rows[i].0 as int)
    } else {
        start_after(rows, at, i + 1)
    }
}

pub proof fn lemma_start_after(rows: Seq<(usize, usize)>, at: int, k: int, i: int)
    requires
        0 <= k <= i <= rows.len(),
        forall|j: int| k <= j < i ==> (#[trigger] rows[j]).0 <= at,
        i < rows.len() ==> rows[i].0 > at,
    ensures
        start_after(rows, at, k) == (if i < rows.len() {
            Some(rows[i].0 as int)
        } else {
            None
        }),
    decreases i - k,
{
    if k < i {
        lemma_start_after(rows, at, k + 1, i);
    }
}

/// Where the search of a window goes on behind a match that starts at a place:
/// at the next row of the window, or behind the window.
pub open spec fn resumes_at(progress: PatternProgress, start: int) -> int {
    let bytes = encode_utf8(progress.window);
    let next_row = match start_after(progress.rows, progress.window_at + start, 0) {
        Some(row) => row,
        None => progress.window_at + bytes.len(),
    };
    let next = min(less(next_row, progress.window_at), bytes.len() as int);
    if next > start {
        next
    } else if start >= bytes.len() {
        bytes.len() as int
    } else {
        choose|behind: int| next_boundary(bytes, start, behind)
    }
}

/// Searches the window from a byte on.
pub open spec fn window_scanned(
    sought: Sought,
    progress: PatternProgress,
    finished: bool,
    out: Seq<usize>,
    from: int,
) -> (PatternProgress, Seq<usize>)
    decreases encode_utf8(progress.window).len() - from,
{
    let len = encode_utf8(progress.window).len() as int;
    if from >= len {
        (progress, out)
    } else {
        match found(sought, progress.window, from) {
            None => (progress, out),
            Some((start, end)) => {
                let counts = (start > 0 || progress.window_at == 0) && (end < len || finished);
                let (next, more) = if counts {
                    pattern_row_reported(progress, out, progress.window_at + start)
                } else {
                    (progress, out)
                };
                let resume = resumes_at(progress, start);
                if !(from < resume <= len) || encode_utf8(next.window).len() != len {
                    (next, more)
                } else {
                    window_scanned(sought, next, finished, more, resume)
                }
            },
        }
    }
}

/// The nearest cut between characters at a place or before it.
pub open spec fn cut_before(bytes: Seq<u8>, at: int) -> int
    decreases at,
{
    if at <= 0 {
        0
    } else if is_char_boundary(bytes, at) {
        at
    } else {
        cut_before(bytes, at - 1)
    }
}

/// Drops the oldest part of the window.
pub open spec fn window_trimmed(progress: PatternProgress) -> PatternProgress {
    let bytes = encode_utf8(progress.window);
    let drop = cut_before(bytes, less(bytes.len() as int, FILE_PREVIEW_REGEX_SEARCH_KEEP_BYTES as int));
    PatternProgress {
        window: decode_utf8(bytes.subrange(drop, bytes.len() as int)),
        window_at: progress.window_at + drop,
        ..progress
    }
}

/// Takes some text.
pub open spec fn text_taken(
    sought: Sought,
    progress: PatternProgress,
    out: Seq<usize>,
    text: Seq<char>,
) -> (PatternProgress, Seq<usize>) {
    let next = PatternProgress {
        window: progress.window + text,
        at: progress.at + encode_utf8(text).len(),
        ..progress
    };
    if encode_utf8(next.window).len() >= FILE_PREVIEW_REGEX_SEARCH_WINDOW_BYTES {
        let (scanned, more) = window_scanned(sought, next, false, out, 0);
        (window_trimmed(scanned), more)
    } else {
        (next, out)
    }
}

/// Leaves out bytes up to the end of a row.
pub open spec fn bytes_skipped(progress: PatternProgress, count: int) -> PatternProgress {
    PatternProgress {
        window: Seq::empty(),
        window_at: progress.at + count,
        at: progress.at + count,
        ..progress
    }
}

/// Where a piece of a row ends that starts at a byte.
pub open spec fn piece_end(row: Seq<u8>, from: int) -> int {
    let wanted = min(from + FILE_PREVIEW_SEARCH_SCAN_CHUNK_BYTES, row.len() as int);
    let cut = cut_before(row, wanted);
    if cut > from {
        cut
    } else {
        wanted
    }
}

/// Takes a row from a byte on, piece by piece, until the row is reported.
pub open spec fn row_taken(
    sought: Sought,
    progress: PatternProgress,
    out: Seq<usize>,
    number: usize,
    row: Seq<u8>,
    from: int,
) -> (PatternProgress, Seq<usize>)
    decreases row.len() - from,
{
    if from >= row.len() {
        (progress, out)
    } else {
        let end = piece_end(row, from);
        let (next, more) = text_taken(sought, progress, out, decode_utf8(row.subrange(from, end)));
        if next.reported == Some(number) {
            (bytes_skipped(next, row.len() - end), more)
        } else if !(from < end <= row.len()) {
            (next, more)
        } else {
            row_taken(sought, next, more, number, row, end)
        }
    }
}

pub open spec fn no_pattern_progress() -> PatternProgress {
    PatternProgress {
        window: Seq::empty(),
        window_at: 0,
        at: 0,
        rows: Seq::empty(),
        reported: None,
    }
}

/// Takes the first rows, one on each line.
pub open spec fn rows_taken(
    sought: Sought,
    rows: Seq<(usize, Seq<u8>)>,
    out: Seq<usize>,
    n: int,
) -> (PatternProgress, Seq<usize>)
    decreases n,
{
    if n <= 0 {
        (no_pattern_progress(), out)
    } else {
        let (before, upto) = rows_taken(sought, rows, out, n - 1);
        let (broken, more) = if n > 1 {
            text_taken(sought, before, upto, seq!['\n'])
        } else {
            (before, upto)
        };
        let started = PatternProgress {
            rows: broken.rows.push((broken.at as usize, rows[n - 1].0)),
            ..broken
        };
        row_taken(sought, started, more, rows[n - 1].0, rows[n - 1].1, 0)
    }
}

/// The rows in which a match starts, as the window finds them.
pub open spec fn pattern_hits(
    sought: Sought,
    rows: Seq<(usize, Seq<u8>)>,
    out: Seq<usize>,
) -> Seq<usize> {
    let (last, upto) = rows_taken(sought, rows, out, rows.len() as int);
    window_scanned(sought, last, true, upto, 0).1
}

pub proof fn lemma_cut_before(bytes: Seq<u8>, at: int)
    requires
        valid_utf8(bytes),
        0 <= at <= bytes.len(),
    ensures
        0 <= cut_before(bytes, at) <= at,
        is_char_boundary(bytes, cut_before(bytes, at)),
    decreases at,
{
    if at <= 0 {
        vstd::utf8::is_char_boundary_start_end_of_seq(bytes);
    } else if !is_char_boundary(bytes, at) {
        lemma_cut_before(bytes, at - 1);
    }
}

/// The nearest cut between characters at a place or before it.
pub fn cut_at_or_before(text: &str, at: usize) -> (cut: usize)
    requires
        at <= text.spec_bytes().len(),
    ensures
        cut == cut_before(text.spec_bytes(), at as int),
        cut <= at,
        is_char_boundary(text.spec_bytes(), cut as int),
{
    proof {
        lemma_text_is_valid(text);
        lemma_cut_before(text.spec_bytes(), at as int);
    }
    let mut cut = at;
    while cut > 0 && !text.is_char_boundary(cut)
        invariant
            cut <= at,
            cut_before(text.spec_bytes(), cut as int) == cut_before(text.spec_bytes(), at as int),
        decreases cut,
    {
        cut -= 1;
    }
    cut
}

/// Where the first row starts that starts behind a place.
fn next_start(row_starts: &[(usize, usize)], at: usize) -> (start: Option<usize>)
    requires
        starts_grow(row_starts@),
    ensures
        start_after(row_starts@, at as int, 0) == (match start {
            Some(start) => Some(start as int),
            None => None,
        }),
{
    let start = next_row_start_after_stream_abs(row_starts, at);
    proof {
        let rows = row_starts@;
        match start {
            Some(row) => {
                let i = choose|i: int|
                    0 <= i < rows.len() && (#[trigger] rows[i]).0 == row && forall|j: int|
                        0 <= j < i ==> (#[trigger] rows[j]).0 <= at;
                lemma_start_after(rows, at as int, 0, i);
            },
            None => {
                lemma_start_after(rows, at as int, 0, rows.len() as int);
            },
        }
    }
    start
}

proof fn lemma_chosen_boundary(bytes: Seq<u8>, at: int, behind: int)
    requires
        next_boundary(bytes, at, behind),
    ensures
        behind == (choose|other: int| next_boundary(bytes, at, other)),
{
    let other = choose|other: int| next_boundary(bytes, at, other);
    if behind < other {
        assert(!is_char_boundary(bytes, behind));
    } else if other < behind {
        assert(!is_char_boundary(bytes, other));
    }
}

/// A search for a pattern in a stream.
pub struct RegexFileDiffLineTextStreamSearch<'a> {
    matcher: &'a DiffSearchMatcher,
    window: String,
    window_start_abs: usize,
    stream_abs: usize,
    row_starts: Vec<(usize, usize)>,
    last_reported_visible_ix: Option<usize>,
}

impl<'a> View for RegexFileDiffLineTextStreamSearch<'a> {
    type V = PatternProgress;

    closed spec fn view(&self) -> PatternProgress {
        PatternProgress {
            window: self.window@,
            window_at: self.window_start_abs as int,
            at: self.stream_abs as int,
            rows: self.row_starts@,
            reported: self.last_reported_visible_ix,
        }
    }
}

impl<'a> RegexFileDiffLineTextStreamSearch<'a> {
    pub closed spec fn sought(&self) -> Sought {
        self.matcher@
    }

    pub closed spec fn wf(&self) -> bool {
        &&& self.matcher.wf()
        &&& self.window_start_abs + encode_utf8(self.window@).len() == self.stream_abs
        &&& starts_grow(self.row_starts@)
        &&& self.row_starts@.len() > 0 ==> self.row_starts@.last().0 <= self.stream_abs
    }

    pub proof fn lemma_shape(&self)
        requires
            self.wf(),
        ensures
            self@.window_at + encode_utf8(self@.window).len() == self@.at,
            0 <= self@.window_at,
            self@.at <= usize::MAX,
            self@.rows.len() > 0 ==> self@.rows.last().0 <= self@.at,
    {
    }

    pub fn new(matcher: &'a DiffSearchMatcher) -> (search: Self)
        requires
            matcher.wf(),
        ensures
            search.wf(),
            search.sought() == matcher@,
            search@ == no_pattern_progress(),
    {
        let window = String::new();
        proof {
            lemma_empty_text(window@);
        }
        RegexFileDiffLineTextStreamSearch {
            matcher,
            window,
            window_start_abs: 0,
            stream_abs: 0,
            row_starts: Vec::new(),
            last_reported_visible_ix: None,
        }
    }

    pub fn has_rows(&self) -> (answer: bool)
        ensures
            answer == (self@.rows.len() > 0),
    {
        self.row_starts.len() > 0
    }

    /// A row starts here.
    pub fn push_row_start(&mut self, visible_ix: usize)
        requires
            old(self).wf(),
            old(self)@.rows.len() > 0 ==> old(self)@.rows.last().0 < old(self)@.at,
        ensures
            final(self).wf(),
            final(self).sought() == old(self).sought(),
            final(self)@ == (PatternProgress {
                rows: old(self)@.rows.push((old(self)@.at as usize, visible_ix)),
                ..old(self)@
            }),
    {
        proof {
            let rows = self.row_starts@;
            let more = rows.push((self.stream_abs, visible_ix));
            assert forall|i: int, j: int| 0 <= i < j < more.len() implies (#[trigger] more[i]).0
                < (#[trigger] more[j]).0 by {
                if j == rows.len() && i < rows.len() - 1 {
                    assert(rows[i].0 < rows[rows.len() - 1].0);
                }
            }
        }
        self.row_starts.push((self.stream_abs, visible_ix));
    }

    pub fn row_reported(&self, visible_ix: usize) -> (answer: bool)
        ensures
            answer == (self@.reported == Some(visible_ix)),
    {
        match self.last_reported_visible_ix {
            Some(row) => row == visible_ix,
            None => false,
        }
    }

    /// A match starts at a place.
    pub fn report_match_start(&mut self, match_start: usize, out: &mut Vec<usize>)
        requires
            old(self).wf(),
        ensures
            final(self).wf(),
            final(self).sought() == old(self).sought(),
            (final(self)@, final(out)@) == pattern_row_reported(
                old(self)@,
                old(out)@,
                match_start as int,
            ),
    {
        let visible_ix = match visible_ix_for_stream_abs(self.row_starts.as_slice(), match_start) {
            Some(visible_ix) => visible_ix,
            None => {
                return;
            },
        };
        if self.row_reported(visible_ix) {
            return;
        }
        out.push(visible_ix);
        self.last_reported_visible_ix = Some(visible_ix);
    }

    /// Where the search goes on behind a match.
    fn resume_after(&self, start: usize) -> (resume: usize)
        requires
            self.wf(),
            start < encode_utf8(self@.window).len(),
            is_char_boundary(encode_utf8(self@.window), start as int),
        ensures
            resume == resumes_at(self@, start as int),
            start < resume <= encode_utf8(self@.window).len(),
    {
        let len = self.window.as_str().as_bytes().len();
        let match_start_abs = self.window_start_abs + start;
        let next_row_start = match next_start(self.row_starts.as_slice(), match_start_abs) {
            Some(row) => row,
            None => self.window_start_abs + len,
        };
        let next = min_usize(less_usize(next_row_start, self.window_start_abs), len);
        if next > start {
            return next;
        }
        match next_char_boundary_after(self.window.as_str(), start) {
            Some(behind) => {
                proof {
                    lemma_chosen_boundary(
                        encode_utf8(self.window@),
                        start as int,
                        behind as int,
                    );
                }
                behind
            },
            None => len,
        }
    }

    /// Searches the window.
    pub fn scan_window(&mut self, stream_finished: bool, out: &mut Vec<usize>)
        requires
            old(self).wf(),
        ensures
            final(self).wf(),
            final(self).sought() == old(self).sought(),
            (final(self)@, final(out)@) == window_scanned(
                old(self).sought(),
                old(self)@,
                stream_finished,
                old(out)@,
                0,
            ),
    {
        let ghost sought = self.sought();
        let ghost result = window_scanned(sought, self@, stream_finished, out@, 0);
        let len = self.window.as_str().as_bytes().len();
        let mut search_start: usize = 0;
        let mut more = true;
        while more && search_start < len
            invariant
                self.wf(),
                self.sought() == sought,
                len == encode_utf8(self@.window).len(),
                search_start <= len,
                more ==> result == window_scanned(
                    sought,
                    self@,
                    stream_finished,
                    out@,
                    search_start as int,
                ),
                !more ==> result == (self@, out@),
            decreases len - search_start, if more { 1int } else { 0int },
        {
            match self.matcher.find_range_at_or_after(self.window.as_str(), search_start) {
                None => {
                    more = false;
                },
                Some(range) => {
                    let start = range.start;
                    let has_real_before = start > 0 || self.window_start_abs == 0;
                    let has_real_after = range.end < len || stream_finished;
                    let resume = self.resume_after(start);
                    if has_real_before && has_real_after {
                        let match_start_abs = self.window_start_abs + start;
                        self.report_match_start(match_start_abs, out);
                    }
                    search_start = resume;
                },
            }
        }
    }

    /// Drops the oldest part of the window.
    pub fn trim_window(&mut self)
        requires
            old(self).wf(),
        ensures
            final(self).wf(),
            final(self).sought() == old(self).sought(),
            final(self)@ == window_trimmed(old(self)@),
    {
        let len = self.window.as_str().as_bytes().len();
        let ghost bytes = encode_utf8(self.window@);
        let drop_len = cut_at_or_before(
            self.window.as_str(),
            less_usize(len, FILE_PREVIEW_REGEX_SEARCH_KEEP_BYTES),
        );
        proof {
            vstd::utf8::encode_utf8_decode_utf8(self.window@);
            vstd::utf8::encode_utf8_valid_utf8(self.window@);
            vstd::utf8::is_char_boundary_start_end_of_seq(bytes);
        }
        if drop_len == 0 {
            assert(bytes.subrange(0, len as int) =~= bytes);
            return;
        }
        let kept = text_between(self.window.as_str(), drop_len, len).to_owned();
        proof {
            vstd::utf8::valid_utf8_split(bytes, drop_len as int);
            vstd::utf8::decode_utf8_encode_utf8(bytes.subrange(drop_len as int, len as int));
        }
        self.window = kept;
        self.window_start_abs = self.window_start_abs + drop_len;
    }

    pub fn push_str(&mut self, text: &str, out: &mut Vec<usize>)
        requires
            old(self).wf(),
            old(self)@.at + encode_utf8(text@).len() <= usize::MAX,
        ensures
            final(self).wf(),
            final(self).sought() == old(self).sought(),
            (final(self)@, final(out)@) == text_taken(
                old(self).sought(),
                old(self)@,
                old(out)@,
                text@,
            ),
    {
        proof {
            lemma_encode_add(self.window@, text@);
        }
        self.window.append(text);
        self.stream_abs = self.stream_abs + text.as_bytes().len();
        if self.window.as_str().as_bytes().len() >= FILE_PREVIEW_REGEX_SEARCH_WINDOW_BYTES {
            self.scan_window(false, out);
            self.trim_window();
        }
    }

    /// Leaves out bytes up to the end of a row that was reported.
    pub fn skip_bytes_until_next_row(&mut self, byte_count: usize)
        requires
            old(self).wf(),
            old(self)@.at + byte_count <= usize::MAX,
        ensures
            final(self).wf(),
            final(self).sought() == old(self).sought(),
            final(self)@ == bytes_skipped(old(self)@, byte_count as int),
    {
        self.stream_abs = self.stream_abs + byte_count;
        self.window = String::new();
        proof {
            lemma_empty_text(self.window@);
            assert(self.window@ =~= Seq::empty());
        }
        self.window_start_abs = self.stream_abs;
    }

    pub fn finish(&mut self, out: &mut Vec<usize>)
        requires
            old(self).wf(),
        ensures
            final(self).wf(),
            final(self).sought() == old(self).sought(),
            (final(self)@, final(out)@) == window_scanned(
                old(self).sought(),
                old(self)@,
                true,
                old(out)@,
                0,
            ),
    {
        self.scan_window(true, out);
    }
}

/// A scan changes nothing but the row that was reported last.
pub proof fn lemma_scan_keeps(
    sought: Sought,
    progress: PatternProgress,
    finished: bool,
    out: Seq<usize>,
    from: int,
)
    ensures
        ({
            let next = window_scanned(sought, progress, finished, out, from).0;
            next == (PatternProgress { reported: next.reported, ..progress })
        }),
    decreases encode_utf8(progress.window).len() - from,
{
    let len = encode_utf8(progress.window).len() as int;
    if from < len {
        match found(sought, progress.window, from) {
            None => {},
            Some((start, end)) => {
                let counts = (start > 0 || progress.window_at == 0) && (end < len || finished);
                let (next, more) = if counts {
                    pattern_row_reported(progress, out, progress.window_at + start)
                } else {
                    (progress, out)
                };
                let resume = resumes_at(progress, start);
                if from < resume <= len {
                    lemma_scan_keeps(sought, next, finished, more, resume);
                }
            },
        }
    }
}

/// Text moves the search on by its length.
pub proof fn lemma_text_moves_on(
    sought: Sought,
    progress: PatternProgress,
    out: Seq<usize>,
    text: Seq<char>,
)
    ensures
        ({
            let next = text_taken(sought, progress, out, text).0;
            &&& next.at == progress.at + encode_utf8(text).len()
            &&& next.rows == progress.rows
        }),
{
    let next = PatternProgress {
        window: progress.window + text,
        at: progress.at + encode_utf8(text).len(),
        ..progress
    };
    lemma_scan_keeps(sought, next, false, out, 0);
}

/// Hands over a row, and leaves the rest of it out once the row is reported.
fn push_row(
    search: &mut RegexFileDiffLineTextStreamSearch<'_>,
    visible_ix: usize,
    row: &str,
    out: &mut Vec<usize>,
)
    requires
        old(search).wf(),
        old(search)@.at + encode_utf8(row@).len() <= usize::MAX,
    ensures
        final(search).wf(),
        final(search).sought() == old(search).sought(),
        final(search)@.at == old(search)@.at + encode_utf8(row@).len(),
        final(search)@.rows == old(search)@.rows,
        (final(search)@, final(out)@) == row_taken(
            old(search).sought(),
            old(search)@,
            old(out)@,
            visible_ix,
            encode_utf8(row@),
            0,
        ),
{
    let ghost bytes = encode_utf8(row@);
    let ghost sought = search.sought();
    let ghost result = row_taken(sought, search@, out@, visible_ix, bytes, 0);
    let ghost first = search@.at;
    let ghost known = search@.rows;
    let row_len = row.as_bytes().len();
    let mut chunk_start: usize = 0;
    let mut skipped = false;
    proof {
        lemma_text_is_valid(row);
        vstd::utf8::is_char_boundary_start_end_of_seq(bytes);
    }
    while !skipped && chunk_start < row_len
        invariant
            search.wf(),
            search.sought() == sought,
            bytes == encode_utf8(row@),
            valid_utf8(bytes),
            row_len == bytes.len(),
            0 <= chunk_start <= row_len,
            is_char_boundary(bytes, chunk_start as int),
            is_char_boundary(bytes, row_len as int),
            search@.rows == known,
            first + row_len <= usize::MAX,
            !skipped ==> search@.at == first + chunk_start,
            skipped ==> search@.at == first + row_len,
            !skipped ==> result == row_taken(
                sought,
                search@,
                out@,
                visible_ix,
                bytes,
                chunk_start as int,
            ),
            skipped ==> result == (search@, out@),
        decreases row_len - chunk_start, if skipped { 0int } else { 1int },
    {
        let wanted = chunk_start + min_usize(
            row_len - chunk_start,
            FILE_PREVIEW_SEARCH_SCAN_CHUNK_BYTES,
        );
        let end = cut_at_or_before(row, wanted);
        proof {
            lemma_cut_goes_on(bytes, chunk_start as int, wanted as int);
        }
        let piece = text_between(row, chunk_start, end);
        proof {
            let part = bytes.subrange(chunk_start as int, end as int);
            assert(piece@ == decode_utf8(part));
            lemma_part_is_text(bytes, chunk_start as int, end as int);
            vstd::utf8::decode_utf8_encode_utf8(part);
            lemma_text_moves_on(sought, search@, out@, piece@);
        }
        search.push_str(piece, out);
        chunk_start = end;
        if search.row_reported(visible_ix) {
            search.skip_bytes_until_next_row(row_len - chunk_start);
            skipped = true;
        }
    }
}

pub proof fn lemma_part_is_text(bytes: Seq<u8>, from: int, to: int)
    requires
        valid_utf8(bytes),
        0 <= from <= to <= bytes.len(),
        is_char_boundary(bytes, from),
        is_char_boundary(bytes, to),
    ensures
        valid_utf8(bytes.subrange(from, to)),
{
    crate::utf::lemma_boundary_in_rest(bytes, from, to);
    let rest = bytes.subrange(from, bytes.len() as int);
    vstd::utf8::valid_utf8_split(rest, to - from);
    assert(rest.subrange(0, to - from) =~= bytes.subrange(from, to));
}

/// A piece is never empty: no character is as long as a piece may be.
pub proof fn lemma_cut_goes_on(bytes: Seq<u8>, from: int, wanted: int)
    requires
        valid_utf8(bytes),
        0 <= from < bytes.len(),
        is_char_boundary(bytes, from),
        wanted == min(from + FILE_PREVIEW_SEARCH_SCAN_CHUNK_BYTES, bytes.len() as int),
    ensures
        from < cut_before(bytes, wanted) <= wanted,
        piece_end(bytes, from) == cut_before(bytes, wanted),
{
    vstd::utf8::valid_utf8_split(bytes, from);
    let rest = bytes.subrange(from, bytes.len() as int);
    let first = vstd::utf8::length_of_first_scalar(rest);
    assert(1 <= first <= 4 && first <= rest.len());
    assert(is_char_boundary(rest, first)) by {
        reveal_with_fuel(is_char_boundary, 2);
    }
    crate::search::bytes::lemma_boundary_from_rest(bytes, from, first);
    lemma_cut_not_before(bytes, from + first, wanted);
    lemma_cut_before(bytes, wanted);
}

proof fn lemma_cut_not_before(bytes: Seq<u8>, cut: int, at: int)
    requires
        0 <= cut <= at,
        is_char_boundary(bytes, cut),
    ensures
        cut <= cut_before(bytes, at),
    decreases at,
{
    if at > 0 && !is_char_boundary(bytes, at) {
        lemma_cut_not_before(bytes, cut, at - 1);
    }
}

/// Collects the rows in which a match of a pattern starts, as far as the window
/// finds them, without putting the rows together.
pub fn collect_file_diff_line_text_regex_stream_match_visible_rows(
    rows: &[(usize, &str)],
    matcher: &DiffSearchMatcher,
    out: &mut Vec<usize>,
)
    requires
        matcher.wf(),
        whole(row_bytes(row_chars(rows@))).len() <= usize::MAX,
    ensures
        final(out)@ == pattern_hits(matcher@, row_bytes(row_chars(rows@)), old(out)@),
{
    let mut search = RegexFileDiffLineTextStreamSearch::new(matcher);
    let ghost all = row_bytes(row_chars(rows@));
    let ghost before = out@;
    let len = rows.len();
    let mut i: usize = 0;
    while i < len
        invariant
            len == rows@.len(),
            0 <= i <= len,
            all == row_bytes(row_chars(rows@)),
            whole(all).len() <= usize::MAX,
            search.wf(),
            search.sought() == matcher@,
            search@.rows.len() == i,
            i > 0 ==> search@.rows.last().0 == row_start(all, i - 1),
            search@.at == (if i == 0 {
                0
            } else {
                row_end(all, i - 1)
            }),
            (search@, out@) == rows_taken(matcher@, all, before, i as int),
        decreases len - i,
    {
        let (visible_ix, raw_text) = rows[i];
        let text = normalized_stream_row_text(raw_text);
        proof {
            assert(all[i as int] == (visible_ix, encode_utf8(text@)));
            lemma_row_stands(all, i as int);
            lemma_starts_grow(all, 0, i as int);
            reveal_strlit("\n");
            assert("\n"@ =~= seq!['\n']);
            lemma_ascii_is_itself('\n');
            if i > 0 {
                lemma_text_moves_on(matcher@, search@, out@, seq!['\n']);
                lemma_starts_grow(all, i - 1, i as int);
            }
        }
        if search.has_rows() {
            search.push_str("\n", out);
        }
        search.push_row_start(visible_ix);
        push_row(&mut search, visible_ix, text, out);
        i += 1;
    }
    search.finish(out);
}

} // verus!
