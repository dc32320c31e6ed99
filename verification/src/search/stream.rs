//! Looking for a literal in a stream of bytes.
//!
//! The bytes come one after the other, row by row, and none of them is kept but
//! for the few that the boundaries of a word can rest on. A row is reported when
//! an occurrence that starts in it is complete.
use crate::num::plus_usize;
use crate::search::bytes::folded;
use crate::search::bytes::folded_search_byte;
use crate::search::bytes::holds;
use crate::search::bytes::is_word_char;
use crate::search::bytes::matches_at;
use crate::search::bytes::word_char;
use crate::search::decode::decode_first_utf8_char;
use crate::search::decode::ends_in_word;
use crate::search::decode::first_char;
use crate::search::decode::one_char;
use crate::search::decode::trailing_utf8_char_is_word;
use crate::search::decode::Utf8CharDecode;
use crate::search::decode::MAX_UTF8_CHAR_BYTES;
use crate::search::matcher::lemma_empty_text;
use crate::search::matcher::DiffSearchMatcher;
use crate::search::prefix::advance;
use crate::search::prefix::build_literal_search_prefix_table;
use crate::search::prefix::ends_in_start;
use crate::search::prefix::is_prefix_table;
use crate::search::prefix::longest_start;
use crate::search::prefix::own_start;
use std::collections::VecDeque;
use vstd::prelude::*;
use vstd::string::*;
use vstd::utf8::decode_first_scalar;

verus! {

broadcast use vstd::std_specs::vecdeque::group_vec_dequeue_axioms;

/// Rows start one behind the other.
pub open spec fn starts_grow(rows: Seq<(usize, usize)>) -> bool {
    forall|i: int, j: int| 0 <= i < j < rows.len() ==> (#[trigger] rows[i]).0 < (#[trigger] rows[j]).0
}

/// The row that a place of the stream is in: the last one that starts there or
/// before it, or the first one.
pub open spec fn row_index(rows: Seq<(usize, usize)>, at: int) -> int
    decreases rows.len(),
{
    if rows.len() <= 1 {
        0
    } else if rows.last().0 <= at {
        rows.len() - 1
    } else {
        row_index(rows.drop_last(), at)
    }
}

pub open spec fn row_at(rows: Seq<(usize, usize)>, at: int) -> Option<usize> {
    if rows.len() == 0 {
        None
    } else {
        Some(rows[row_index(rows, at)].1)
    }
}

pub proof fn lemma_row_index(rows: Seq<(usize, usize)>, at: int, i: int)
    requires
        0 <= i < rows.len(),
        i == 0 || rows[i].0 <= at,
        forall|j: int| i < j < rows.len() ==> (#[trigger] rows[j]).0 > at,
    ensures
        row_index(rows, at) == i,
    decreases rows.len(),
{
    if rows.len() > 1 {
        if i < rows.len() - 1 {
            assert(rows[rows.len() - 1].0 > at);
            lemma_row_index(rows.drop_last(), at, i);
        }
    }
}

/// Which row of a stream a place is in.
pub fn visible_ix_for_stream_abs(row_starts: &[(usize, usize)], stream_abs: usize) -> (visible_ix:
    Option<usize>)
    requires
        starts_grow(row_starts@),
    ensures
        visible_ix == row_at(row_starts@, stream_abs as int),
{
    let len = row_starts.len();
    if len == 0 {
        return None;
    }
    let mut low: usize = 0;
    let mut high: usize = len;
    while low < high
        invariant
            len == row_starts@.len(),
            0 <= low <= high <= len,
            starts_grow(row_starts@),
            forall|i: int| 0 <= i < low ==> (#[trigger] row_starts@[i]).0 <= stream_abs,
            forall|i: int| high <= i < len ==> (#[trigger] row_starts@[i]).0 > stream_abs,
        decreases high - low,
    {
        let middle = low + (high - low) / 2;
        if row_starts[middle].0 <= stream_abs {
            assert forall|i: int| 0 <= i < middle + 1 implies (#[trigger] row_starts@[i]).0
                <= stream_abs by {
                if i < middle {
                    assert(row_starts@[i].0 < row_starts@[middle as int].0);
                }
            }
            low = middle + 1;
        } else {
            assert forall|i: int| middle <= i < len implies (#[trigger] row_starts@[i]).0
                > stream_abs by {
                if i > middle {
                    assert(row_starts@[middle as int].0 < row_starts@[i].0);
                }
            }
            high = middle;
        }
    }
    let row: usize = if low == 0 {
        0
    } else {
        low - 1
    };
    proof {
        lemma_row_index(row_starts@, stream_abs as int, row as int);
    }
    Some(row_starts[row].1)
}

/// Where the first row starts that starts behind a place.
pub fn next_row_start_after_stream_abs(row_starts: &[(usize, usize)], stream_abs: usize) -> (start:
    Option<usize>)
    requires
        starts_grow(row_starts@),
    ensures
        match start {
            Some(start) => start > stream_abs && exists|i: int|
                0 <= i < row_starts@.len() && (#[trigger] row_starts@[i]).0 == start && forall|j: int|
                    0 <= j < i ==> (#[trigger] row_starts@[j]).0 <= stream_abs,
            None => forall|i: int|
                0 <= i < row_starts@.len() ==> (#[trigger] row_starts@[i]).0 <= stream_abs,
        },
{
    let len = row_starts.len();
    let mut low: usize = 0;
    let mut high: usize = len;
    while low < high
        invariant
            len == row_starts@.len(),
            0 <= low <= high <= len,
            starts_grow(row_starts@),
            forall|i: int| 0 <= i < low ==> (#[trigger] row_starts@[i]).0 <= stream_abs,
            forall|i: int| high <= i < len ==> (#[trigger] row_starts@[i]).0 > stream_abs,
        decreases high - low,
    {
        let middle = low + (high - low) / 2;
        if row_starts[middle].0 <= stream_abs {
            assert forall|i: int| 0 <= i < middle + 1 implies (#[trigger] row_starts@[i]).0
                <= stream_abs by {
                if i < middle {
                    assert(row_starts@[i].0 < row_starts@[middle as int].0);
                }
            }
            low = middle + 1;
        } else {
            assert forall|i: int| middle <= i < len implies (#[trigger] row_starts@[i]).0
                > stream_abs by {
                if i > middle {
                    assert(row_starts@[middle as int].0 < row_starts@[i].0);
                }
            }
            high = middle;
        }
    }
    if low < len {
        let start = row_starts[low].0;
        assert(row_starts@[low as int].0 == start);
        Some(start)
    } else {
        None
    }
}

/// How far a search has come: the bytes since it started or last skipped some,
/// the place in the stream, the rows with their starts, an occurrence that waits
/// for the character behind it and the bytes of that character so far, and the
/// row that was reported last.
pub struct StreamProgress {
    pub seen: Seq<u8>,
    pub at: int,
    pub rows: Seq<(usize, usize)>,
    pub pending: Option<int>,
    pub after: Seq<u8>,
    pub reported: Option<usize>,
}

/// Nothing has come yet.
pub open spec fn nothing_taken() -> StreamProgress {
    StreamProgress {
        seen: Seq::empty(),
        at: 0,
        rows: Seq::empty(),
        pending: None,
        after: Seq::empty(),
        reported: None,
    }
}

/// A row starts here.
pub open spec fn row_begun(progress: StreamProgress, visible_ix: usize) -> StreamProgress {
    StreamProgress { rows: progress.rows.push((progress.at as usize, visible_ix)), ..progress }
}

/// Bytes were left out: what came before them is forgotten.
pub open spec fn bytes_skipped(progress: StreamProgress, byte_count: int) -> StreamProgress {
    StreamProgress {
        seen: Seq::empty(),
        at: progress.at + byte_count,
        pending: None,
        after: Seq::empty(),
        ..progress
    }
}

/// What is looked for.
pub struct StreamLiteral {
    pub bytes: Seq<u8>,
    pub match_case: bool,
    pub whole_word: bool,
}

/// Reports the row of a place, unless it was reported last.
pub open spec fn row_reported_at(
    progress: StreamProgress,
    out: Seq<usize>,
    at: int,
) -> (StreamProgress, Seq<usize>) {
    match row_at(progress.rows, at) {
        None => (progress, out),
        Some(row) => if progress.reported == Some(row) {
            (progress, out)
        } else {
            (StreamProgress { reported: Some(row), ..progress }, out.push(row))
        },
    }
}

/// Decides on the occurrence that waits, where the character behind it is
/// complete or can be none.
pub open spec fn pending_settled(progress: StreamProgress, out: Seq<usize>) -> (
    StreamProgress,
    Seq<usize>,
) {
    match progress.pending {
        None => (progress, out),
        Some(at) => {
            let settled = StreamProgress { pending: None, after: Seq::empty(), ..progress };
            match first_char(progress.after) {
                Utf8CharDecode::Complete(c) => if word_char(c) {
                    (settled, out)
                } else {
                    row_reported_at(settled, out, at)
                },
                Utf8CharDecode::Invalid => row_reported_at(settled, out, at),
                Utf8CharDecode::Incomplete => (progress, out),
            }
        },
    }
}

/// The byte goes to the occurrence that waits.
pub open spec fn pending_fed(progress: StreamProgress, out: Seq<usize>, byte: u8) -> (
    StreamProgress,
    Seq<usize>,
) {
    if progress.pending is Some {
        pending_settled(
            StreamProgress { after: progress.after.push(byte), ..progress },
            out,
        )
    } else {
        (progress, out)
    }
}

/// Takes a byte.
pub open spec fn byte_taken(
    literal: StreamLiteral,
    progress: StreamProgress,
    out: Seq<usize>,
    byte: u8,
) -> (StreamProgress, Seq<usize>) {
    let (fed, out) = pending_fed(progress, out, byte);
    let seen = progress.seen.push(byte);
    let next = StreamProgress { seen, at: progress.at + 1, ..fed };
    let start = seen.len() - literal.bytes.len();
    if !matches_at(seen, literal.bytes, literal.match_case, start) {
        (next, out)
    } else if !literal.whole_word {
        row_reported_at(next, out, next.at - literal.bytes.len())
    } else if ends_in_word(seen.take(start)) {
        (next, out)
    } else {
        (
            StreamProgress {
                pending: Some(next.at - literal.bytes.len()),
                after: Seq::empty(),
                ..next
            },
            out,
        )
    }
}

/// Takes some bytes.
pub open spec fn bytes_taken(
    literal: StreamLiteral,
    progress: StreamProgress,
    out: Seq<usize>,
    bytes: Seq<u8>,
) -> (StreamProgress, Seq<usize>)
    decreases bytes.len(),
{
    if bytes.len() == 0 {
        (progress, out)
    } else {
        let (before, out) = bytes_taken(literal, progress, out, bytes.drop_last());
        byte_taken(literal, before, out, bytes.last())
    }
}

pub open spec fn all_folded(bytes: Seq<u8>, match_case: bool) -> Seq<u8> {
    Seq::new(bytes.len(), |i: int| folded(bytes[i], match_case))
}

proof fn lemma_folded_match(literal: StreamLiteral, seen: Seq<u8>)
    ensures
        ends_in_start(
            all_folded(literal.bytes, literal.match_case),
            all_folded(seen, literal.match_case),
            literal.bytes.len() as int,
        ) == matches_at(
            seen,
            literal.bytes,
            literal.match_case,
            seen.len() - literal.bytes.len(),
        ),
{
    let needle = all_folded(literal.bytes, literal.match_case);
    let stream = all_folded(seen, literal.match_case);
    let start = seen.len() - literal.bytes.len();
    if start >= 0 {
        if ends_in_start(needle, stream, literal.bytes.len() as int) {
            assert forall|k: int| 0 <= k < literal.bytes.len() implies folded(
                #[trigger] seen[start + k],
                literal.match_case,
            ) == folded(literal.bytes[k], literal.match_case) by {
                assert(needle[k] == stream[stream.len() - literal.bytes.len() + k]);
            }
        }
        if matches_at(seen, literal.bytes, literal.match_case, start) {
            assert forall|k: int| 0 <= k < literal.bytes.len() implies #[trigger] needle[k]
                == stream[stream.len() - literal.bytes.len() + k] by {
                assert(folded(seen[start + k], literal.match_case) == folded(
                    literal.bytes[k],
                    literal.match_case,
                ));
            }
        }
    }
}

/// Only the last few bytes tell whether bytes end in a word.
proof fn lemma_word_in_tail(bytes: Seq<u8>, n: int)
    requires
        0 <= n <= bytes.len(),
        n == bytes.len() || n >= MAX_UTF8_CHAR_BYTES,
    ensures
        ends_in_word(bytes) == ends_in_word(bytes.skip(bytes.len() - n)),
{
    let tail = bytes.skip(bytes.len() - n);
    assert forall|k: int| 1 <= k <= n implies #[trigger] bytes.skip(bytes.len() - k) == tail.skip(
        tail.len() - k,
    ) by {
        assert(bytes.skip(bytes.len() - k) =~= tail.skip(tail.len() - k));
    }
    if ends_in_word(bytes) {
        let k = choose|k: int|
            1 <= k <= bytes.len() && k <= MAX_UTF8_CHAR_BYTES && one_char(
                #[trigger] bytes.skip(bytes.len() - k),
            ) && word_char(decode_first_scalar(bytes.skip(bytes.len() - k)) as char);
        assert(one_char(tail.skip(tail.len() - k)));
    }
    if ends_in_word(tail) {
        let k = choose|k: int|
            1 <= k <= tail.len() && k <= MAX_UTF8_CHAR_BYTES && one_char(
                #[trigger] tail.skip(tail.len() - k),
            ) && word_char(decode_first_scalar(tail.skip(tail.len() - k)) as char);
        assert(bytes.skip(bytes.len() - k) == tail.skip(tail.len() - k));
    }
}

/// A search for a literal in a stream.
pub struct LiteralFileDiffLineTextStreamSearch {
    needle: Vec<u8>,
    prefix: Vec<usize>,
    match_case: bool,
    whole_word: bool,
    matched: usize,
    stream_abs: usize,
    recent_bytes: VecDeque<u8>,
    pending_whole_word_start: Option<usize>,
    pending_whole_word_after: Vec<u8>,
    row_starts: Vec<(usize, usize)>,
    last_reported_visible_ix: Option<usize>,
    seen: Ghost<Seq<u8>>,
    bytes: Ghost<Seq<u8>>,
}

impl View for LiteralFileDiffLineTextStreamSearch {
    type V = StreamProgress;

    closed spec fn view(&self) -> StreamProgress {
        StreamProgress {
            seen: self.seen@,
            at: self.stream_abs as int,
            rows: self.row_starts@,
            pending: match self.pending_whole_word_start {
                Some(at) => Some(at as int),
                None => None,
            },
            after: self.pending_whole_word_after@,
            reported: self.last_reported_visible_ix,
        }
    }
}

impl LiteralFileDiffLineTextStreamSearch {
    pub closed spec fn literal(&self) -> StreamLiteral {
        StreamLiteral {
            bytes: self.bytes@,
            match_case: self.match_case,
            whole_word: self.whole_word,
        }
    }

    pub closed spec fn wf(&self) -> bool {
        &&& self.needle@ == all_folded(self.bytes@, self.match_case)
        &&& self.needle@.len() > 0
        &&& self.needle@.len() <= usize::MAX
        &&& self.prefix@.len() == self.needle@.len()
        &&& is_prefix_table(self.needle@, self.prefix@, self.needle@.len() as int)
        &&& longest_start(
            self.needle@,
            all_folded(self.seen@, self.match_case),
            self.matched as int,
        )
        &&& self.seen@.len() <= self.stream_abs
        &&& self.recent_bytes@ == self.seen@.skip(self.seen@.len() - self.recent_bytes@.len())
        &&& self.recent_bytes@.len() <= self.seen@.len()
        &&& self.recent_bytes@.len() == self.seen@.len() || self.recent_bytes@.len()
            == self.needle@.len() + MAX_UTF8_CHAR_BYTES
        &&& self.recent_bytes@.len() <= self.needle@.len() + MAX_UTF8_CHAR_BYTES
        &&& starts_grow(self.row_starts@)
        &&& self.row_starts@.len() > 0 ==> self.row_starts@.last().0 <= self.stream_abs
    }

    /// What follows from the shape of a search for those who use one.
    pub proof fn lemma_shape(&self)
        requires
            self.wf(),
        ensures
            starts_grow(self@.rows),
            self@.rows.len() > 0 ==> self@.rows.last().0 <= self@.at,
            0 <= self@.seen.len() <= self@.at <= usize::MAX,
            self.literal().bytes.len() > 0,
    {
    }

    /// A search for the query of a matcher; none for a pattern and for nothing.
    pub fn new(matcher: &DiffSearchMatcher) -> (search: Option<Self>)
        ensures
            match search {
                Some(search) => {
                    &&& search.wf()
                    &&& !matcher@.options.regex && matcher@.query.len() > 0
                    &&& search.literal() == (StreamLiteral {
                        bytes: matcher@.bytes(),
                        match_case: matcher@.options.match_case,
                        whole_word: matcher@.options.whole_word,
                    })
                    &&& search@ == nothing_taken()
                },
                None => matcher@.options.regex || matcher@.query.len() == 0,
            },
    {
        proof {
            lemma_empty_text(matcher.query@);
        }
        let query = matcher.query.as_str().as_bytes();
        if matcher.options.regex || query.len() == 0 {
            return None;
        }
        let mut needle: Vec<u8> = Vec::new();
        let len = query.len();
        let mut i: usize = 0;
        while i < len
            invariant
                len == query@.len(),
                0 <= i <= len,
                needle@.len() == i,
                forall|k: int|
                    0 <= k < i ==> #[trigger] needle@[k] == folded(
                        query@[k],
                        matcher.options.match_case,
                    ),
            decreases len - i,
        {
            needle.push(folded_search_byte(query[i], matcher.options.match_case));
            i += 1;
        }
        let prefix = build_literal_search_prefix_table(needle.as_slice());
        assert(needle@ =~= all_folded(query@, matcher.options.match_case));
        let search = LiteralFileDiffLineTextStreamSearch {
            needle,
            prefix,
            match_case: matcher.options.match_case,
            whole_word: matcher.options.whole_word,
            matched: 0,
            stream_abs: 0,
            recent_bytes: VecDeque::new(),
            pending_whole_word_start: None,
            pending_whole_word_after: Vec::new(),
            row_starts: Vec::new(),
            last_reported_visible_ix: None,
            seen: Ghost(Seq::empty()),
            bytes: Ghost(query@),
        };
        assert(search.recent_bytes@ =~= search.seen@.skip(0));
        Some(search)
    }

    pub fn has_rows(&self) -> (answer: bool)
        ensures
            answer == (self@.rows.len() > 0),
    {
        self.row_starts.len() > 0
    }

    /// A row starts here.
    pub fn push_row_start(&mut self, visible_ix: usize)
        requires
            old(self).wf(),
            old(self)@.rows.len() > 0 ==> old(self)@.rows.last().0 < old(self)@.at,
        ensures
            final(self).wf(),
            final(self).literal() == old(self).literal(),
            final(self)@ == row_begun(old(self)@, visible_ix),
    {
        proof {
            let rows = self.row_starts@;
            let more = rows.push((self.stream_abs, visible_ix));
            assert forall|i: int, j: int| 0 <= i < j < more.len() implies (#[trigger] more[i]).0
                < (#[trigger] more[j]).0 by {
                if j == rows.len() && i < rows.len() - 1 {
                    assert(rows[i].0 < rows[rows.len() - 1].0);
                }
            }
        }
        self.row_starts.push((self.stream_abs, visible_ix));
    }

    pub fn row_reported(&self, visible_ix: usize) -> (answer: bool)
        ensures
            answer == (self@.reported == Some(visible_ix)),
    {
        match self.last_reported_visible_ix {
            Some(row) => row == visible_ix,
            None => false,
        }
    }

    /// An occurrence starts at a place.
    pub fn report_match_start(&mut self, match_start: usize, out: &mut Vec<usize>)
        requires
            old(self).wf(),
        ensures
            final(self).wf(),
            final(self).literal() == old(self).literal(),
            (final(self)@, final(out)@) == row_reported_at(
                old(self)@,
                old(out)@,
                match_start as int,
            ),
    {
        let visible_ix = match visible_ix_for_stream_abs(self.row_starts.as_slice(), match_start) {
            Some(visible_ix) => visible_ix,
            None => {
                return;
            },
        };
        if self.row_reported(visible_ix) {
            return;
        }
        out.push(visible_ix);
        self.last_reported_visible_ix = Some(visible_ix);
    }

    /// Decides on the occurrence that waits where that can be done.
    pub fn finish_pending_whole_word(&mut self, out: &mut Vec<usize>)
        requires
            old(self).wf(),
        ensures
            final(self).wf(),
            final(self).literal() == old(self).literal(),
            (final(self)@, final(out)@) == pending_settled(old(self)@, old(out)@),
    {
        let match_start = match self.pending_whole_word_start {
            Some(match_start) => match_start,
            None => {
                return;
            },
        };
        match decode_first_utf8_char(self.pending_whole_word_after.as_slice()) {
            Utf8CharDecode::Complete(ch) => {
                self.pending_whole_word_start = None;
                self.pending_whole_word_after.clear();
                if !is_word_char(ch) {
                    self.report_match_start(match_start, out);
                }
            },
            Utf8CharDecode::Invalid => {
                self.pending_whole_word_start = None;
                self.pending_whole_word_after.clear();
                self.report_match_start(match_start, out);
            },
            Utf8CharDecode::Incomplete => {},
        }
    }

    /// Whether a word goes on before the literal that the stream ends in.
    fn word_goes_on_before(&self) -> (answer: bool)
        requires
            self.recent_bytes@.len() >= self.needle@.len(),
            self.recent_bytes@.len() <= self.seen@.len(),
            self.recent_bytes@ == self.seen@.skip(self.seen@.len() - self.recent_bytes@.len()),
            self.recent_bytes@.len() == self.seen@.len() || self.recent_bytes@.len()
                == self.needle@.len() + MAX_UTF8_CHAR_BYTES,
        ensures
            answer == ends_in_word(self.seen@.take(self.seen@.len() - self.needle@.len())),
    {
        let before_end = self.recent_bytes.len() - self.needle.len();
        let mut before: Vec<u8> = Vec::new();
        let mut i: usize = 0;
        while i < before_end
            invariant
                before_end == self.recent_bytes@.len() - self.needle@.len(),
                0 <= i <= before_end,
                before@ == self.recent_bytes@.take(i as int),
            decreases before_end - i,
        {
            before.push(self.recent_bytes[i]);
            assert(before@ =~= self.recent_bytes@.take(i + 1));
            i += 1;
        }
        proof {
            let all = self.seen@.take(self.seen@.len() - self.needle@.len());
            lemma_word_in_tail(all, before_end as int);
            assert(before@ =~= all.skip(all.len() - before_end));
        }
        trailing_utf8_char_is_word(before.as_slice())
    }

    pub fn push_byte(&mut self, byte: u8, out: &mut Vec<usize>)
        requires
            old(self).wf(),
            old(self)@.at < usize::MAX,
        ensures
            final(self).wf(),
            final(self).literal() == old(self).literal(),
            (final(self)@, final(out)@) == byte_taken(
                old(self).literal(),
                old(self)@,
                old(out)@,
                byte,
            ),
    {
        if self.pending_whole_word_start.is_some() {
            self.pending_whole_word_after.push(byte);
            self.finish_pending_whole_word(out);
        }
        let ghost stream = all_folded(self.seen@, self.match_case);
        let ghost seen = self.seen@.push(byte);
        let ghost literal = self.literal();
        let folded_byte = folded_search_byte(byte, self.match_case);
        assert(all_folded(seen, self.match_case) =~= stream.push(folded_byte));
        assert(is_prefix_table(self.needle@, self.prefix@, self.matched as int));
        let matched = advance(
            self.needle.as_slice(),
            self.prefix.as_slice(),
            self.matched,
            folded_byte,
            Ghost(stream),
        );
        proof {
            lemma_folded_match(literal, seen);
        }
        let len = self.needle.len();
        let full = matched == len;
        proof {
            assert(full == matches_at(
                seen,
                literal.bytes,
                literal.match_case,
                seen.len() - literal.bytes.len(),
            )) by {
                if !full {
                    assert(!ends_in_start(self.needle@, stream.push(folded_byte), len as int));
                }
            }
        }
        if full {
            self.matched = self.prefix[len - 1];
            proof {
                lemma_longest_after_match(
                    self.needle@,
                    all_folded(seen, self.match_case),
                    self.matched as int,
                );
            }
        } else {
            self.matched = matched;
        }
        let ghost before = self.recent_bytes@;
        self.recent_bytes.push_back(byte);
        self.seen = Ghost(seen);
        let keep = plus_usize(len, MAX_UTF8_CHAR_BYTES);
        assert(self.recent_bytes@ =~= seen.skip(seen.len() - self.recent_bytes@.len()));
        if self.recent_bytes.len() > keep {
            self.recent_bytes.pop_front();
            assert(self.recent_bytes@ =~= seen.skip(seen.len() - self.recent_bytes@.len()));
        }
        self.stream_abs = self.stream_abs + 1;
        if full {
            let match_start = self.stream_abs - len;
            if !self.whole_word {
                self.report_match_start(match_start, out);
            } else if !self.word_goes_on_before() {
                self.pending_whole_word_start = Some(match_start);
                self.pending_whole_word_after.clear();
            }
        }
    }

    pub fn push_bytes(&mut self, bytes: &[u8], out: &mut Vec<usize>)
        requires
            old(self).wf(),
            old(self)@.at + bytes@.len() <= usize::MAX,
        ensures
            final(self).wf(),
            final(self).literal() == old(self).literal(),
            (final(self)@, final(out)@) == bytes_taken(
                old(self).literal(),
                old(self)@,
                old(out)@,
                bytes@,
            ),
    {
        let len = bytes.len();
        let mut i: usize = 0;
        let ghost literal = self.literal();
        let ghost start = self@;
        let ghost before = out@;
        while i < len
            invariant
                len == bytes@.len(),
                0 <= i <= len,
                self.wf(),
                self.literal() == literal,
                (self@, out@) == bytes_taken(literal, start, before, bytes@.take(i as int)),
                self@.at == start.at + i,
                start.at + bytes@.len() <= usize::MAX,
            decreases len - i,
        {
            proof {
                let next = bytes@.take(i + 1);
                assert(next.drop_last() =~= bytes@.take(i as int));
                assert(next.last() == bytes@[i as int]);
                lemma_byte_moves_on(literal, self@, out@, bytes@[i as int]);
            }
            self.push_byte(bytes[i], out);
            i += 1;
        }
        assert(bytes@.take(len as int) =~= bytes@);
    }

    /// Leaves out bytes up to the end of a row that was reported.
    pub fn skip_bytes_until_next_row(&mut self, byte_count: usize)
        requires
            old(self).wf(),
            old(self)@.at + byte_count <= usize::MAX,
        ensures
            final(self).wf(),
            final(self).literal() == old(self).literal(),
            final(self)@ == bytes_skipped(old(self)@, byte_count as int),
    {
        self.stream_abs = self.stream_abs + byte_count;
        self.matched = 0;
        self.pending_whole_word_start = None;
        self.pending_whole_word_after.clear();
        self.recent_bytes.clear();
        self.seen = Ghost(Seq::empty());
        assert(self.recent_bytes@ =~= self.seen@.skip(0));
    }

    /// The stream is at its end: nothing follows the occurrence that waits.
    pub fn finish(&mut self, out: &mut Vec<usize>)
        requires
            old(self).wf(),
        ensures
            final(self).wf(),
            final(self).literal() == old(self).literal(),
            (final(self)@, final(out)@) == (match old(self)@.pending {
                Some(at) => row_reported_at(
                    (StreamProgress { pending: None, after: Seq::empty(), ..old(self)@ }),
                    old(out)@,
                    at,
                ),
                None => (old(self)@, old(out)@),
            }),
    {
        if let Some(match_start) = self.pending_whole_word_start {
            self.pending_whole_word_start = None;
            self.pending_whole_word_after.clear();
            self.report_match_start(match_start, out);
        }
    }
}

/// Every byte moves the search on by one.
pub proof fn lemma_byte_moves_on(
    literal: StreamLiteral,
    progress: StreamProgress,
    out: Seq<usize>,
    byte: u8,
)
    ensures
        byte_taken(literal, progress, out, byte).0.at == progress.at + 1,
        byte_taken(literal, progress, out, byte).0.seen == progress.seen.push(byte),
        byte_taken(literal, progress, out, byte).0.rows == progress.rows,
{
}

/// The bytes since a row started are all that is looked at: the row is reported just
/// when the literal stands in them.
proof fn lemma_row_alone(
    literal: StreamLiteral,
    start: StreamProgress,
    out: Seq<usize>,
    bytes: Seq<u8>,
    visible_ix: usize,
)
    requires
        literal.bytes.len() > 0,
        !literal.whole_word,
        start.seen.len() == 0,
        start.pending is None,
        start.rows.len() > 0,
        start.rows.last() == (start.at as usize, visible_ix),
        0 <= start.at <= usize::MAX,
        start.reported != Some(visible_ix),
    ensures
        ({
            let (end, rows) = bytes_taken(literal, start, out, bytes);
            &&& end.seen == bytes
            &&& end.at == start.at + bytes.len()
            &&& end.rows == start.rows
            &&& end.pending is None
            &&& if holds(bytes, literal.bytes, literal.match_case) {
                rows == out.push(visible_ix) && end.reported == Some(visible_ix)
            } else {
                rows == out && end.reported == start.reported
            }
        }),
    decreases bytes.len(),
{
    let needle = literal.bytes;
    let match_case = literal.match_case;
    if bytes.len() == 0 {
        assert(bytes =~= start.seen);
        assert(!holds(bytes, needle, match_case));
    } else {
        let shorter = bytes.drop_last();
        lemma_row_alone(literal, start, out, shorter, visible_ix);
        let (before, rows) = bytes_taken(literal, start, out, shorter);
        assert(before.seen.push(bytes.last()) =~= bytes);
        let at = bytes.len() - needle.len();
        if matches_at(bytes, needle, match_case, at) {
            assert(holds(bytes, needle, match_case));
            assert(row_at(start.rows, start.at + at) == Some(visible_ix));
        } else {
            assert(holds(bytes, needle, match_case) == holds(shorter, needle, match_case)) by {
                assert forall|k: int| k != at implies matches_at(bytes, needle, match_case, k)
                    == #[trigger] matches_at(shorter, needle, match_case, k) by {
                    if 0 <= k && k + needle.len() <= shorter.len() {
                        assert(forall|i: int|
                            0 <= i < needle.len() ==> #[trigger] bytes[k + i] == shorter[k + i]);
                    }
                }
                if holds(bytes, needle, match_case) {
                    let k = choose|k: int| #[trigger] matches_at(bytes, needle, match_case, k);
                    assert(matches_at(shorter, needle, match_case, k));
                }
                if holds(shorter, needle, match_case) {
                    let k = choose|k: int| #[trigger] matches_at(shorter, needle, match_case, k);
                    assert(matches_at(bytes, needle, match_case, k));
                }
            }
        }
    }
}

/// A search that has just started reports its first row just when the literal stands
/// in the bytes that are pushed, and reports it once.
pub proof fn law_row_is_reported_just_when_it_holds(
    literal: StreamLiteral,
    visible_ix: usize,
    bytes: Seq<u8>,
)
    requires
        literal.bytes.len() > 0,
        !literal.whole_word,
    ensures
        bytes_taken(literal, row_begun(nothing_taken(), visible_ix), Seq::empty(), bytes).1 == (
        if holds(bytes, literal.bytes, literal.match_case) {
            seq![visible_ix]
        } else {
            Seq::empty()
        }),
{
    lemma_row_alone(
        literal,
        row_begun(nothing_taken(), visible_ix),
        Seq::empty(),
        bytes,
        visible_ix,
    );
    assert(Seq::<usize>::empty().push(visible_ix) =~= seq![visible_ix]);
}

/// However the bytes of a stream are cut, the search comes to the same.
pub proof fn law_cuts_change_nothing(
    literal: StreamLiteral,
    progress: StreamProgress,
    out: Seq<usize>,
    first: Seq<u8>,
    second: Seq<u8>,
)
    ensures
        ({
            let (between, reported) = bytes_taken(literal, progress, out, first);
            bytes_taken(literal, between, reported, second) == bytes_taken(
                literal,
                progress,
                out,
                first + second,
            )
        }),
    decreases second.len(),
{
    if second.len() == 0 {
        assert(first + second =~= first);
    } else {
        law_cuts_change_nothing(literal, progress, out, first, second.drop_last());
        assert((first + second).drop_last() =~= first + second.drop_last());
        assert((first + second).last() == second.last());
    }
}

/// After bytes were left out, only an occurrence wholly inside the next row counts:
/// what had begun before them is forgotten, and no earlier row is reported again.
pub proof fn law_skip_forgets_what_had_begun(
    literal: StreamLiteral,
    progress: StreamProgress,
    byte_count: usize,
    visible_ix: usize,
    out: Seq<usize>,
    bytes: Seq<u8>,
)
    requires
        literal.bytes.len() > 0,
        !literal.whole_word,
        0 <= progress.at,
        progress.at + byte_count <= usize::MAX,
        progress.reported != Some(visible_ix),
    ensures
        bytes_taken(
            literal,
            row_begun(bytes_skipped(progress, byte_count as int), visible_ix),
            out,
            bytes,
        ).1 == (if holds(bytes, literal.bytes, literal.match_case) {
            out.push(visible_ix)
        } else {
            out
        }),
{
    lemma_row_alone(
        literal,
        row_begun(bytes_skipped(progress, byte_count as int), visible_ix),
        out,
        bytes,
        visible_ix,
    );
}

proof fn lemma_longest_after_match(needle: Seq<u8>, stream: Seq<u8>, n: int)
    requires
        needle.len() > 0,
        ends_in_start(needle, stream, needle.len() as int),
        own_start(needle, needle.len() as int, n),
    ensures
        longest_start(needle, stream, n),
{
    let len = needle.len() as int;
    assert(needle.take(len) =~= needle);
    assert forall|k: int| 0 <= k <= len implies #[trigger] ends_in_start(needle, stream, k)
        == ends_in_start(needle, needle.take(len), k) by {
        crate::search::prefix::lemma_shorter_start(needle, stream, len, k);
    }
    assert(ends_in_start(needle, stream, n));
}

} // verus!
