//! The rows in which occurrences of a literal start, found in a stream.
use crate::num::min_usize;
use crate::search::bytes::folded;
use crate::search::bytes::lemma_match_cuts_no_char;
use crate::search::bytes::matches_at;
use crate::search::bytes::word_after;
use crate::search::bytes::word_before;
use crate::search::bytes::word_char;
use crate::search::decode::ends_in_word;
use crate::search::decode::first_char;
use crate::search::decode::lemma_first_char_of_part;
use crate::search::decode::lemma_text_ends_in_word;
use crate::search::decode::Utf8CharDecode;
use crate::search::joined::hit_rows;
use crate::search::joined::in_row;
use crate::search::joined::is_hit;
use crate::search::joined::lemma_joined;
use crate::search::joined::lemma_joined_is_text;
use crate::search::joined::lemma_line_ends;
use crate::search::joined::lemma_one_row;
use crate::search::joined::lemma_row_end_cuts_no_char;
use crate::search::joined::lemma_row_stands;
use crate::search::joined::lemma_some_row;
use crate::search::joined::lemma_starts_grow;
use crate::search::joined::normalized_stream_row_text;
use crate::search::joined::occurs;
use crate::search::joined::row_bytes;
use crate::search::joined::row_chars;
use crate::search::joined::row_end;
use crate::search::joined::row_start;
use crate::search::joined::rows_are_text;
use crate::search::joined::unended;
use crate::search::joined::whole;
use crate::search::matcher::DiffSearchMatcher;
use crate::search::matcher::Sought;
use crate::search::stream::byte_taken;
use crate::search::stream::bytes_taken;
use crate::search::stream::lemma_byte_moves_on;
use crate::search::stream::lemma_row_index;
use crate::search::stream::pending_fed;
use crate::search::stream::row_at;
use crate::search::stream::row_reported_at;
use crate::search::stream::LiteralFileDiffLineTextStreamSearch;
use crate::search::stream::StreamLiteral;
use crate::search::stream::StreamProgress;
use vstd::prelude::*;
use vstd::string::*;
use vstd::utf8::decode_utf8;
use vstd::utf8::encode_utf8;
use vstd::utf8::is_char_boundary;
use vstd::utf8::valid_utf8;

verus! {

/// Long rows are handed over in pieces of this many bytes.
pub const FILE_PREVIEW_SEARCH_SCAN_CHUNK_BYTES: usize = 32768;

/// No two rows have one number.
#[verifier::opaque]
pub open spec fn numbers_differ(rows: Seq<(usize, Seq<u8>)>) -> bool {
    forall|i: int, j: int| 0 <= i < j < rows.len() ==> (#[trigger] rows[i]).0 != (#[trigger] rows[j]).0
}

/// What the search knows of its rows once some have started.
spec fn started_rows(rows: Seq<(usize, Seq<u8>)>, n: int) -> Seq<(usize, usize)> {
    Seq::new(n as nat, |i: int| (row_start(rows, i) as usize, rows[i].0))
}

/// The rows that were reported, in order, and what came of that.
#[verifier::opaque]
spec fn accounts(
    rows: Seq<(usize, Seq<u8>)>,
    before: Seq<usize>,
    reported: Option<usize>,
    out: Seq<usize>,
    done: Seq<int>,
    started: int,
) -> bool {
    &&& forall|i: int| 0 <= i < done.len() ==> 0 <= #[trigger] done[i] < started
    &&& forall|i: int, j: int| 0 <= i < j < done.len() ==> #[trigger] done[i] < #[trigger] done[j]
    &&& out == before + Seq::new(done.len(), |i: int| rows[done[i]].0)
    &&& reported == (if done.len() == 0 {
        None
    } else {
        Some(rows[done.last()].0)
    })
}

/// An occurrence that a report rests on.
spec fn ground(
    rows: Seq<(usize, Seq<u8>)>,
    literal: StreamLiteral,
    upto: int,
    pending: Option<int>,
    row: int,
    at: int,
) -> bool {
    &&& occurs(rows, literal, at)
    &&& in_row(rows, row, at)
    &&& at + literal.bytes.len() <= upto
    &&& pending matches Some(q) ==> at <= q
}

spec fn has_ground(
    rows: Seq<(usize, Seq<u8>)>,
    literal: StreamLiteral,
    upto: int,
    pending: Option<int>,
    row: int,
) -> bool {
    exists|at: int| #[trigger] ground(rows, literal, upto, pending, row, at)
}

/// Every report rests on an occurrence.
#[verifier::opaque]
spec fn grounded(
    rows: Seq<(usize, Seq<u8>)>,
    literal: StreamLiteral,
    upto: int,
    pending: Option<int>,
    done: Seq<int>,
) -> bool {
    forall|i: int|
        0 <= i < done.len() ==> has_ground(rows, literal, upto, pending, #[trigger] done[i])
}

/// An occurrence has been dealt with.
spec fn settled(
    literal: StreamLiteral,
    base: int,
    upto: int,
    pending: Option<int>,
    at: int,
) -> bool {
    ||| at < base
    ||| at + literal.bytes.len() <= upto && pending != Some(at)
}

#[verifier::opaque]
spec fn has_row_of(rows: Seq<(usize, Seq<u8>)>, done: Seq<int>, at: int) -> bool {
    exists|i: int| 0 <= i < done.len() && in_row(rows, #[trigger] done[i], at)
}

/// The row of every occurrence that has been dealt with was reported.
#[verifier::opaque]
spec fn covered(
    rows: Seq<(usize, Seq<u8>)>,
    literal: StreamLiteral,
    base: int,
    upto: int,
    pending: Option<int>,
    done: Seq<int>,
) -> bool {
    forall|at: int| #[trigger]
        occurs(rows, literal, at) && settled(literal, base, upto, pending, at) ==> has_row_of(
            rows,
            done,
            at,
        )
}

/// The occurrence that waits for the character behind it.
#[verifier::opaque]
spec fn waits(
    rows: Seq<(usize, Seq<u8>)>,
    literal: StreamLiteral,
    base: int,
    upto: int,
    after: Seq<u8>,
    q: int,
) -> bool {
    &&& literal.whole_word
    &&& base <= q
    &&& matches_at(whole(rows), literal.bytes, literal.match_case, q)
    &&& q + literal.bytes.len() <= upto
    &&& after == whole(rows).subrange(q + literal.bytes.len(), upto)
    &&& first_char(after) is Incomplete
    &&& (q > base || base == 0) ==> !word_before(whole(rows), q)
}

/// The search stands at a row's end behind which bytes were skipped.
#[verifier::opaque]
spec fn skipped_to(rows: Seq<(usize, Seq<u8>)>, base: int, done: Seq<int>) -> bool {
    base == 0 || exists|i: int| 0 <= i < done.len() && base == row_end(rows, #[trigger] done[i])
}

spec fn tracks(
    rows: Seq<(usize, Seq<u8>)>,
    literal: StreamLiteral,
    before: Seq<usize>,
    progress: StreamProgress,
    out: Seq<usize>,
    done: Seq<int>,
    started: int,
) -> bool {
    let base = progress.at - progress.seen.len();
    &&& 0 <= started <= rows.len()
    &&& progress.rows == started_rows(rows, started)
    &&& 0 <= base
    &&& progress.at <= whole(rows).len()
    &&& started < rows.len() ==> progress.at <= row_start(rows, started)
    &&& progress.seen == whole(rows).subrange(base, progress.at)
    &&& skipped_to(rows, base, done)
    &&& accounts(rows, before, progress.reported, out, done, started)
    &&& grounded(rows, literal, progress.at, progress.pending, done)
    &&& covered(rows, literal, base, progress.at, progress.pending, done)
    &&& progress.pending matches Some(q) ==> waits(
        rows,
        literal,
        base,
        progress.at,
        progress.after,
        q,
    )
}

/// What holds of the rows and of what is looked for.
spec fn sound_input(rows: Seq<(usize, Seq<u8>)>, literal: StreamLiteral) -> bool {
    &&& numbers_differ(rows)
    &&& rows_are_text(rows)
    &&& literal.bytes.len() > 0
    &&& valid_utf8(literal.bytes)
    &&& whole(rows).len() <= usize::MAX
}

/// Reports that were made stay, more may follow.
spec fn extends(now: Seq<int>, done: Seq<int>) -> bool {
    done.len() <= now.len() && now.take(done.len() as int) == done
}

proof fn lemma_grounded_moves(
    rows: Seq<(usize, Seq<u8>)>,
    literal: StreamLiteral,
    upto: int,
    pending: Option<int>,
    next: int,
    waiting: Option<int>,
    done: Seq<int>,
)
    requires
        grounded(rows, literal, upto, pending, done),
        upto <= next,
        waiting is None || waiting == pending || waiting->Some_0 + literal.bytes.len() > upto,
    ensures
        grounded(rows, literal, next, waiting, done),
{
    reveal(grounded);
    assert forall|i: int| 0 <= i < done.len() implies has_ground(
        rows,
        literal,
        next,
        waiting,
        #[trigger] done[i],
    ) by {
        let at = choose|at: int| #[trigger] ground(rows, literal, upto, pending, done[i], at);
        assert(ground(rows, literal, next, waiting, done[i], at));
    }
}

/// New reports rest on one occurrence.
proof fn lemma_grounded_more(
    rows: Seq<(usize, Seq<u8>)>,
    literal: StreamLiteral,
    upto: int,
    done: Seq<int>,
    now: Seq<int>,
    at: int,
)
    requires
        grounded(rows, literal, upto, None, done),
        extends(now, done),
        now.len() > done.len() ==> occurs(rows, literal, at) && at + literal.bytes.len() <= upto,
        forall|i: int| done.len() <= i < now.len() ==> in_row(rows, #[trigger] now[i], at),
    ensures
        grounded(rows, literal, upto, None, now),
{
    reveal(grounded);
    assert forall|i: int| 0 <= i < now.len() implies has_ground(
        rows,
        literal,
        upto,
        None,
        #[trigger] now[i],
    ) by {
        if i < done.len() {
            assert(now.take(done.len() as int)[i] == done[i]);
            let a = choose|a: int| #[trigger] ground(rows, literal, upto, None, done[i], a);
            assert(ground(rows, literal, upto, None, now[i], a));
        } else {
            assert(ground(rows, literal, upto, None, now[i], at));
        }
    }
}

proof fn lemma_has_row_stays(
    rows: Seq<(usize, Seq<u8>)>,
    done: Seq<int>,
    now: Seq<int>,
    at: int,
)
    requires
        has_row_of(rows, done, at),
        extends(now, done),
    ensures
        has_row_of(rows, now, at),
{
    reveal(has_row_of);
    let i = choose|i: int| 0 <= i < done.len() && in_row(rows, #[trigger] done[i], at);
    assert(now.take(done.len() as int)[i] == done[i]);
    assert(in_row(rows, now[i], at));
}

/// What is dealt with now and was not before is one occurrence, or none.
proof fn lemma_covered_moves(
    rows: Seq<(usize, Seq<u8>)>,
    literal: StreamLiteral,
    base: int,
    upto: int,
    pending: Option<int>,
    done: Seq<int>,
    next: int,
    waiting: Option<int>,
    now: Seq<int>,
    at: int,
)
    requires
        covered(rows, literal, base, upto, pending, done),
        extends(now, done),
        forall|a: int|
            settled(literal, base, next, waiting, a) && a != at ==> #[trigger] settled(
                literal,
                base,
                upto,
                pending,
                a,
            ),
        occurs(rows, literal, at) && settled(literal, base, next, waiting, at) ==> has_row_of(
            rows,
            now,
            at,
        ),
    ensures
        covered(rows, literal, base, next, waiting, now),
{
    reveal(covered);
    assert forall|a: int| #[trigger]
        occurs(rows, literal, a) && settled(literal, base, next, waiting, a) implies has_row_of(
        rows,
        now,
        a,
    ) by {
        if a != at {
            assert(settled(literal, base, upto, pending, a));
            lemma_has_row_stays(rows, done, now, a);
        }
    }
}

proof fn lemma_skipped_stays(
    rows: Seq<(usize, Seq<u8>)>,
    base: int,
    done: Seq<int>,
    now: Seq<int>,
)
    requires
        skipped_to(rows, base, done),
        extends(now, done),
    ensures
        skipped_to(rows, base, now),
{
    reveal(skipped_to);
    if base != 0 {
        let i = choose|i: int| 0 <= i < done.len() && base == row_end(rows, #[trigger] done[i]);
        assert(now.take(done.len() as int)[i] == done[i]);
        assert(base == row_end(rows, now[i]));
    }
}

/// The row of a place, as the search finds it.
proof fn lemma_row_found(rows: Seq<(usize, Seq<u8>)>, started: int, at: int) -> (row: int)
    requires
        0 < started <= rows.len(),
        0 <= at,
        started < rows.len() ==> at < row_start(rows, started),
        whole(rows).len() <= usize::MAX,
    ensures
        0 <= row < started,
        in_row(rows, row, at),
        row_at(started_rows(rows, started), at) == Some(rows[row].0),
{
    let row = lemma_some_row(rows, started, at);
    let known = started_rows(rows, started);
    assert forall|i: int| 0 <= i < started implies (#[trigger] known[i]).0 == row_start(rows, i) by {
        lemma_starts_grow(rows, 0, i);
        lemma_row_stands(rows, i);
    }
    assert forall|j: int| row < j < known.len() implies (#[trigger] known[j]).0 > at by {
        lemma_starts_grow(rows, row + 1, j);
    }
    assert(known[row].0 <= at);
    lemma_row_index(known, at, row);
    row
}

/// No report is below a place.
spec fn not_below(rows: Seq<(usize, Seq<u8>)>, done: Seq<int>, at: int) -> bool {
    forall|i: int| 0 <= i < done.len() ==> row_start(rows, #[trigger] done[i]) <= at
}

/// Reports a row that is not above the rows reported so far.
proof fn lemma_report(
    rows: Seq<(usize, Seq<u8>)>,
    before: Seq<usize>,
    progress: StreamProgress,
    out: Seq<usize>,
    done: Seq<int>,
    started: int,
    at: int,
) -> (now: Seq<int>)
    requires
        numbers_differ(rows),
        whole(rows).len() <= usize::MAX,
        0 < started <= rows.len(),
        0 <= at,
        started < rows.len() ==> at < row_start(rows, started),
        progress.rows == started_rows(rows, started),
        accounts(rows, before, progress.reported, out, done, started),
        not_below(rows, done, at),
    ensures
        ({
            let (next, more) = row_reported_at(progress, out, at);
            &&& next == (StreamProgress { reported: next.reported, ..progress })
            &&& accounts(rows, before, next.reported, more, now, started)
            &&& extends(now, done)
            &&& forall|i: int|
                done.len() <= i < now.len() ==> in_row(rows, #[trigger] now[i], at)
            &&& has_row_of(rows, now, at)
            &&& has_row_of(rows, done, at) ==> now == done
        }),
{
    reveal(accounts);
    reveal(has_row_of);
    reveal(numbers_differ);
    let row = lemma_row_found(rows, started, at);
    let (next, more) = row_reported_at(progress, out, at);
    if done.len() > 0 && done.last() == row {
        assert(in_row(rows, done[done.len() - 1], at));
        assert(done.take(done.len() as int) =~= done);
        done
    } else {
        if done.len() > 0 {
            let last = done[done.len() - 1];
            assert(row_start(rows, last) <= at);
            if last > row {
                lemma_starts_grow(rows, row + 1, last);
            }
            assert(rows[last].0 != rows[row].0);
        }
        let now = done.push(row);
        assert forall|i: int, j: int| 0 <= i < j < now.len() implies #[trigger] now[i]
            < #[trigger] now[j] by {
            if j == done.len() && i < done.len() - 1 {
                assert(done[i] < done[done.len() - 1]);
            }
        }
        assert(more =~= before + Seq::new(now.len(), |i: int| rows[now[i]].0));
        assert(in_row(rows, now[done.len() as int], at));
        assert(now.take(done.len() as int) =~= done);
        if has_row_of(rows, done, at) {
            let i = choose|i: int| 0 <= i < done.len() && in_row(rows, #[trigger] done[i], at);
            lemma_one_row(rows, done[i], row, at);
            if i < done.len() - 1 {
                assert(done[i] < done[done.len() - 1]);
            }
        }
        now
    }
}

/// The word before a place, seen from where the search last started.
pub proof fn lemma_word_before_seen(text: Seq<u8>, base: int, at: int)
    requires
        valid_utf8(text),
        0 <= base <= at <= text.len(),
        base < at || base == 0,
        is_char_boundary(text, base),
        is_char_boundary(text, at),
    ensures
        ends_in_word(text.subrange(base, at)) == word_before(text, at),
{
    vstd::utf8::valid_utf8_split(text, at);
    let upto = text.subrange(0, at);
    if base == 0 {
        lemma_text_ends_in_word(upto);
    } else {
        let seen = text.subrange(base, at);
        assert(is_char_boundary(upto, base)) by {
            vstd::utf8::is_char_boundary_iff_not_is_continuation_byte(text, base);
            vstd::utf8::is_char_boundary_iff_not_is_continuation_byte(upto, base);
        }
        vstd::utf8::valid_utf8_split(upto, base);
        vstd::utf8::decode_utf8_split(upto, base);
        assert(upto.subrange(base, upto.len() as int) =~= seen);
        lemma_text_ends_in_word(seen);
        assert(decode_utf8(seen).len() > 0);
    }
}

/// The base of what was seen lies between characters.
proof fn lemma_base_cuts_no_char(
    rows: Seq<(usize, Seq<u8>)>,
    before: Seq<usize>,
    reported: Option<usize>,
    out: Seq<usize>,
    base: int,
    done: Seq<int>,
    started: int,
)
    requires
        rows_are_text(rows),
        skipped_to(rows, base, done),
        started <= rows.len(),
        accounts(rows, before, reported, out, done, started),
    ensures
        is_char_boundary(whole(rows), base),
        valid_utf8(whole(rows)),
        base > 0 ==> has_row_of(rows, done, base),
{
    reveal(accounts);
    reveal(skipped_to);
    reveal(has_row_of);
    lemma_joined_is_text(rows, rows.len() as int);
    vstd::utf8::is_char_boundary_start_end_of_seq(whole(rows));
    if base != 0 {
        let i = choose|i: int| 0 <= i < done.len() && base == row_end(rows, #[trigger] done[i]);
        lemma_row_end_cuts_no_char(rows, done[i]);
        assert(in_row(rows, done[i], base));
    }
}

/// Reports rest on occurrences that are not below a new one.
proof fn lemma_not_below(
    rows: Seq<(usize, Seq<u8>)>,
    literal: StreamLiteral,
    upto: int,
    pending: Option<int>,
    done: Seq<int>,
    at: int,
)
    requires
        grounded(rows, literal, upto, pending, done),
        pending == Some(at) || at + literal.bytes.len() > upto,
    ensures
        not_below(rows, done, at),
{
    reveal(grounded);
    assert forall|i: int| 0 <= i < done.len() implies row_start(rows, #[trigger] done[i])
        <= at by {
        let a = choose|a: int| #[trigger] ground(rows, literal, upto, pending, done[i], a);
        assert(ground(rows, literal, upto, pending, done[i], a));
    }
}

/// What a byte makes of the occurrence that waits.
proof fn lemma_after_grows(
    rows: Seq<(usize, Seq<u8>)>,
    literal: StreamLiteral,
    base: int,
    upto: int,
    after: Seq<u8>,
    q: int,
)
    requires
        valid_utf8(whole(rows)),
        valid_utf8(literal.bytes),
        literal.bytes.len() > 0,
        waits(rows, literal, base, upto, after, q),
        0 <= base,
        upto < whole(rows).len(),
    ensures
        ({
            let text = whole(rows);
            let now = after.push(text[upto]);
            match first_char(now) {
                Utf8CharDecode::Complete(c) => word_after(text, q + literal.bytes.len())
                    == word_char(c),
                Utf8CharDecode::Incomplete => !is_char_boundary(text, upto + 1) && waits(
                    rows,
                    literal,
                    base,
                    upto + 1,
                    now,
                    q,
                ),
                Utf8CharDecode::Invalid => false,
            }
        }),
{
    reveal(waits);
    let text = whole(rows);
    let end = q + literal.bytes.len();
    lemma_match_cuts_no_char(text, literal.bytes, literal.match_case, q);
    vstd::utf8::valid_utf8_split(text, end);
    let rest = text.subrange(end, text.len() as int);
    let now = after.push(text[upto]);
    let n = upto + 1 - end;
    assert(now =~= rest.take(n));
    lemma_first_char_of_part(rest, n);
    if first_char(now) is Incomplete {
        assert(now =~= text.subrange(end, upto + 1));
        if is_char_boundary(text, upto + 1) {
            crate::utf::lemma_boundary_in_rest(text, end, upto + 1);
        }
    }
}

/// The occurrence that waits is one where no word goes on behind it.
proof fn lemma_waiting_occurs(
    rows: Seq<(usize, Seq<u8>)>,
    literal: StreamLiteral,
    base: int,
    upto: int,
    after: Seq<u8>,
    q: int,
)
    requires
        waits(rows, literal, base, upto, after, q),
    ensures
        base <= q,
        q + literal.bytes.len() <= upto,
        q > base || base == 0 ==> occurs(rows, literal, q) == !word_after(
            whole(rows),
            q + literal.bytes.len(),
        ),
        occurs(rows, literal, q) ==> !word_after(whole(rows), q + literal.bytes.len()),
{
    reveal(waits);
}

/// The byte goes to the occurrence that waits.
proof fn lemma_pending_fed(
    rows: Seq<(usize, Seq<u8>)>,
    literal: StreamLiteral,
    before: Seq<usize>,
    progress: StreamProgress,
    out: Seq<usize>,
    done: Seq<int>,
    started: int,
) -> (now: Seq<int>)
    requires
        sound_input(rows, literal),
        tracks(rows, literal, before, progress, out, done, started),
        progress.at < whole(rows).len(),
        0 < started,
    ensures
        ({
            let base = progress.at - progress.seen.len();
            let (fed, more) = pending_fed(progress, out, whole(rows)[progress.at]);
            &&& fed.seen == progress.seen && fed.at == progress.at && fed.rows == progress.rows
            &&& accounts(rows, before, fed.reported, more, now, started)
            &&& skipped_to(rows, base, now)
            &&& grounded(rows, literal, progress.at, fed.pending, now)
            &&& covered(rows, literal, base, progress.at, fed.pending, now)
            &&& fed.pending matches Some(q) ==> {
                &&& waits(rows, literal, base, progress.at + 1, fed.after, q)
                &&& !is_char_boundary(whole(rows), progress.at + 1)
            }
        }),
{
    let text = whole(rows);
    let base = progress.at - progress.seen.len();
    let byte = text[progress.at];
    let (fed, more) = pending_fed(progress, out, byte);
    lemma_base_cuts_no_char(rows, before, progress.reported, out, base, done, started);
    assert(done.take(done.len() as int) =~= done);
    if progress.pending is None {
        done
    } else {
        let q = progress.pending->Some_0;
        let after = progress.after.push(byte);
        lemma_after_grows(rows, literal, base, progress.at, progress.after, q);
        lemma_waiting_occurs(rows, literal, base, progress.at, progress.after, q);
        if first_char(after) is Incomplete {
            done
        } else {
            let c = first_char(after)->Complete_0;
            let plain = StreamProgress {
                pending: None,
                after: Seq::empty(),
                ..StreamProgress { after, ..progress }
            };
            lemma_grounded_moves(
                rows,
                literal,
                progress.at,
                progress.pending,
                progress.at,
                None,
                done,
            );
            if word_char(c) {
                lemma_covered_moves(
                    rows,
                    literal,
                    base,
                    progress.at,
                    progress.pending,
                    done,
                    progress.at,
                    None,
                    done,
                    q,
                );
                done
            } else {
                lemma_not_below(rows, literal, progress.at, progress.pending, done, q);
                let now = lemma_report(rows, before, plain, out, done, started, q);
                lemma_grounded_more(rows, literal, progress.at, done, now, q);
                lemma_skipped_stays(rows, base, done, now);
                lemma_covered_moves(
                    rows,
                    literal,
                    base,
                    progress.at,
                    progress.pending,
                    done,
                    progress.at,
                    None,
                    now,
                    q,
                );
                now
            }
        }
    }
}

/// The end of what was seen, and the end of what came so far.
proof fn lemma_same_match(
    text: Seq<u8>,
    literal: StreamLiteral,
    base: int,
    upto: int,
)
    requires
        0 <= base <= upto <= text.len(),
    ensures
        ({
            let seen = text.subrange(base, upto);
            let at = upto - literal.bytes.len();
            matches_at(
                seen,
                literal.bytes,
                literal.match_case,
                seen.len() - literal.bytes.len(),
            ) == (at >= base && matches_at(text, literal.bytes, literal.match_case, at))
        }),
{
    let seen = text.subrange(base, upto);
    let m = literal.bytes.len() as int;
    let at = upto - m;
    let start = seen.len() - m;
    if matches_at(seen, literal.bytes, literal.match_case, start) {
        assert forall|k: int| 0 <= k < m implies folded(
            #[trigger] text[at + k],
            literal.match_case,
        ) == folded(literal.bytes[k], literal.match_case) by {
            assert(seen[start + k] == text[at + k]);
        }
    }
    if at >= base && matches_at(text, literal.bytes, literal.match_case, at) {
        assert forall|k: int| 0 <= k < m implies folded(
            #[trigger] seen[start + k],
            literal.match_case,
        ) == folded(literal.bytes[k], literal.match_case) by {
            assert(seen[start + k] == text[at + k]);
        }
    }
}

/// A byte keeps the search on track.
proof fn lemma_byte(
    rows: Seq<(usize, Seq<u8>)>,
    literal: StreamLiteral,
    before: Seq<usize>,
    progress: StreamProgress,
    out: Seq<usize>,
    done: Seq<int>,
    started: int,
) -> (now: Seq<int>)
    requires
        sound_input(rows, literal),
        tracks(rows, literal, before, progress, out, done, started),
        progress.at < whole(rows).len(),
        0 < started,
        started < rows.len() ==> progress.at < row_start(rows, started),
    ensures
        ({
            let (next, more) = byte_taken(literal, progress, out, whole(rows)[progress.at]);
            tracks(rows, literal, before, next, more, now, started)
        }),
{
    let text = whole(rows);
    let byte = text[progress.at];
    let base = progress.at - progress.seen.len();
    let upto = progress.at + 1;
    let fed_done = lemma_pending_fed(rows, literal, before, progress, out, done, started);
    let (fed, fed_out) = pending_fed(progress, out, byte);
    let seen = progress.seen.push(byte);
    let step = StreamProgress { seen, at: upto, ..fed };
    let (next, more) = byte_taken(literal, progress, out, byte);
    let m = literal.bytes.len() as int;
    let at = upto - m;
    let start = seen.len() - m;
    assert(seen =~= text.subrange(base, upto));
    assert(fed_done.take(fed_done.len() as int) =~= fed_done);
    lemma_base_cuts_no_char(rows, before, fed.reported, fed_out, base, fed_done, started);
    lemma_same_match(text, literal, base, upto);
    if !matches_at(seen, literal.bytes, literal.match_case, start) {
        lemma_grounded_moves(rows, literal, progress.at, fed.pending, upto, fed.pending, fed_done);
        assert(occurs(rows, literal, at) ==> at < base);
        assert(occurs(rows, literal, at) ==> has_row_of(rows, fed_done, at)) by {
            reveal(covered);
            assert(at < base ==> settled(literal, base, progress.at, fed.pending, at));
        }
        lemma_covered_moves(
            rows,
            literal,
            base,
            progress.at,
            fed.pending,
            fed_done,
            upto,
            fed.pending,
            fed_done,
            at,
        );
        fed_done
    } else {
        lemma_match_cuts_no_char(text, literal.bytes, literal.match_case, at);
        assert(fed.pending is None);
        if !literal.whole_word {
            lemma_not_below(rows, literal, progress.at, None, fed_done, at);
            let now = lemma_report(rows, before, step, fed_out, fed_done, started, at);
            lemma_grounded_moves(rows, literal, progress.at, None, upto, None, fed_done);
            lemma_grounded_more(rows, literal, upto, fed_done, now, at);
            lemma_skipped_stays(rows, base, fed_done, now);
            lemma_covered_moves(
                rows,
                literal,
                base,
                progress.at,
                None,
                fed_done,
                upto,
                None,
                now,
                at,
            );
            now
        } else {
            assert(seen.take(start) =~= text.subrange(base, at));
            if at > base || base == 0 {
                lemma_word_before_seen(text, base, at);
            }
            lemma_grounded_moves(
                rows,
                literal,
                progress.at,
                None,
                upto,
                next.pending,
                fed_done,
            );
            if ends_in_word(seen.take(start)) {
                assert(at > base || base == 0) by {
                    if at == base {
                        assert(seen.take(start) =~= Seq::<u8>::empty());
                    }
                }
                assert(!occurs(rows, literal, at));
            } else {
                assert(next.after =~= text.subrange(at + m, upto));
                assert(waits(rows, literal, base, upto, next.after, at)) by {
                    reveal(waits);
                }
            }
            lemma_covered_moves(
                rows,
                literal,
                base,
                progress.at,
                None,
                fed_done,
                upto,
                next.pending,
                fed_done,
                at,
            );
            fed_done
        }
    }
}

/// Bytes keep the search on track.
proof fn lemma_bytes(
    rows: Seq<(usize, Seq<u8>)>,
    literal: StreamLiteral,
    before: Seq<usize>,
    progress: StreamProgress,
    out: Seq<usize>,
    done: Seq<int>,
    started: int,
    bytes: Seq<u8>,
) -> (now: Seq<int>)
    requires
        sound_input(rows, literal),
        tracks(rows, literal, before, progress, out, done, started),
        0 < started,
        progress.at + bytes.len() <= whole(rows).len(),
        bytes == whole(rows).subrange(progress.at, progress.at + bytes.len()),
        started < rows.len() ==> progress.at + bytes.len() <= row_start(rows, started),
    ensures
        ({
            let (next, more) = bytes_taken(literal, progress, out, bytes);
            &&& tracks(rows, literal, before, next, more, now, started)
            &&& next.at == progress.at + bytes.len()
            &&& next.rows == progress.rows
        }),
    decreases bytes.len(),
{
    if bytes.len() == 0 {
        done
    } else {
        let shorter = bytes.drop_last();
        assert(shorter =~= whole(rows).subrange(progress.at, progress.at + shorter.len()));
        let middle = lemma_bytes(rows, literal, before, progress, out, done, started, shorter);
        let (next, more) = bytes_taken(literal, progress, out, shorter);
        assert(bytes.last() == whole(rows)[next.at]);
        lemma_byte_moves_on(literal, next, more, bytes.last());
        lemma_byte(rows, literal, before, next, more, middle, started)
    }
}

/// What starts behind the occurrence that a report rests on, and in the row of
/// the report, is in a row that was reported.
proof fn lemma_covered_to_row_end(
    rows: Seq<(usize, Seq<u8>)>,
    literal: StreamLiteral,
    base: int,
    upto: int,
    pending: Option<int>,
    done: Seq<int>,
    row: int,
)
    requires
        literal.bytes.len() > 0,
        covered(rows, literal, base, upto, pending, done),
        grounded(rows, literal, upto, pending, done),
        done.len() > 0,
        done.last() == row,
        0 <= row,
    ensures
        covered(rows, literal, row_end(rows, row), row_end(rows, row), None, done),
{
    let end = row_end(rows, row);
    let last = done.len() - 1;
    assert(has_ground(rows, literal, upto, pending, done[last])) by {
        reveal(grounded);
    }
    let home = choose|a: int| #[trigger] ground(rows, literal, upto, pending, done[last], a);
    assert(row_start(rows, row + 1) == end + 1);
    assert forall|a: int| #[trigger]
        occurs(rows, literal, a) && settled(literal, end, end, None, a) implies has_row_of(
        rows,
        done,
        a,
    ) by {
        if settled(literal, base, upto, pending, a) {
            reveal(covered);
        } else {
            assert(a >= home);
            assert(in_row(rows, done[last], a));
            reveal(has_row_of);
        }
    }
    reveal(covered);
}

proof fn lemma_last_report(
    rows: Seq<(usize, Seq<u8>)>,
    before: Seq<usize>,
    reported: Option<usize>,
    out: Seq<usize>,
    done: Seq<int>,
    started: int,
    row: int,
)
    requires
        numbers_differ(rows),
        accounts(rows, before, reported, out, done, started),
        0 <= row < started <= rows.len(),
        reported == Some(rows[row].0),
    ensures
        done.len() > 0,
        done.last() == row,
{
    reveal(accounts);
    reveal(numbers_differ);
    let last = done[done.len() - 1];
    assert(rows[last].0 == rows[row].0);
    if last < row {
        assert(rows[last].0 != rows[row].0);
    } else if row < last {
        assert(rows[row].0 != rows[last].0);
    }
}

proof fn lemma_skipped_here(rows: Seq<(usize, Seq<u8>)>, done: Seq<int>)
    requires
        done.len() > 0,
    ensures
        skipped_to(rows, row_end(rows, done.last()), done),
{
    reveal(skipped_to);
    assert(done[done.len() - 1] == done.last());
}

/// The rest of a row that was reported can be left out.
proof fn lemma_skip(
    rows: Seq<(usize, Seq<u8>)>,
    literal: StreamLiteral,
    before: Seq<usize>,
    progress: StreamProgress,
    out: Seq<usize>,
    done: Seq<int>,
    started: int,
)
    requires
        sound_input(rows, literal),
        tracks(rows, literal, before, progress, out, done, started),
        0 < started,
        row_start(rows, started - 1) <= progress.at <= row_end(rows, started - 1),
        progress.reported == Some(rows[started - 1].0),
    ensures
        tracks(
            rows,
            literal,
            before,
            (StreamProgress {
                seen: Seq::empty(),
                at: row_end(rows, started - 1),
                pending: None,
                after: Seq::empty(),
                ..progress
            }),
            out,
            done,
            started,
        ),
{
    let row = started - 1;
    let base = progress.at - progress.seen.len();
    let end = row_end(rows, row);
    lemma_row_stands(rows, row);
    lemma_starts_grow(rows, 0, row);
    lemma_last_report(rows, before, progress.reported, out, done, started, row);
    lemma_skipped_here(rows, done);
    assert(Seq::<u8>::empty() =~= whole(rows).subrange(end, end));
    lemma_grounded_moves(rows, literal, progress.at, progress.pending, end, None, done);
    lemma_covered_to_row_end(
        rows,
        literal,
        base,
        progress.at,
        progress.pending,
        done,
        row,
    );
}

/// A row starts.
proof fn lemma_row_starts(
    rows: Seq<(usize, Seq<u8>)>,
    literal: StreamLiteral,
    before: Seq<usize>,
    progress: StreamProgress,
    out: Seq<usize>,
    done: Seq<int>,
    started: int,
)
    requires
        sound_input(rows, literal),
        tracks(rows, literal, before, progress, out, done, started),
        started < rows.len(),
        progress.at == row_start(rows, started),
    ensures
        tracks(
            rows,
            literal,
            before,
            (StreamProgress {
                rows: progress.rows.push((progress.at as usize, rows[started].0)),
                ..progress
            }),
            out,
            done,
            started + 1,
        ),
{
    assert(progress.rows.push((progress.at as usize, rows[started].0)) =~= started_rows(
        rows,
        started + 1,
    ));
    lemma_starts_grow(rows, started, started + 1);
    assert(accounts(rows, before, progress.reported, out, done, started + 1)) by {
        reveal(accounts);
    }
}

/// Reports in order of all rows in which an occurrence starts are those rows.
proof fn lemma_all_reported(
    rows: Seq<(usize, Seq<u8>)>,
    literal: StreamLiteral,
    done: Seq<int>,
    n: int,
)
    requires
        0 <= n <= rows.len(),
        forall|i: int| 0 <= i < done.len() ==> 0 <= #[trigger] done[i] < n,
        forall|i: int, j: int| 0 <= i < j < done.len() ==> #[trigger] done[i] < #[trigger] done[j],
        forall|row: int|
            0 <= row < n ==> (#[trigger] is_hit(rows, literal, row) <==> done.contains(row)),
    ensures
        hit_rows(rows, literal, n) == Seq::new(done.len(), |i: int| rows[done[i]].0),
    decreases n,
{
    if n > 0 {
        let row = n - 1;
        if is_hit(rows, literal, row) {
            assert(done.contains(row));
            let i = choose|i: int| 0 <= i < done.len() && done[i] == row;
            if i < done.len() - 1 {
                assert(done[i] < done[done.len() - 1]);
            }
            let shorter = done.drop_last();
            assert forall|r: int| 0 <= r < n - 1 implies (#[trigger] is_hit(rows, literal, r)
                <==> shorter.contains(r)) by {
                if done.contains(r) {
                    let k = choose|k: int| 0 <= k < done.len() && done[k] == r;
                    assert(shorter[k] == r);
                }
                if shorter.contains(r) {
                    let k = choose|k: int| 0 <= k < shorter.len() && shorter[k] == r;
                    assert(done[k] == r);
                }
            }
            assert forall|k: int| 0 <= k < shorter.len() implies 0 <= #[trigger] shorter[k] < n
                - 1 by {
                assert(done[k] < done[done.len() - 1]);
            }
            lemma_all_reported(rows, literal, shorter, n - 1);
            assert(hit_rows(rows, literal, n) =~= Seq::new(
                done.len(),
                |i: int| rows[done[i]].0,
            ));
        } else {
            assert forall|k: int| 0 <= k < done.len() implies 0 <= #[trigger] done[k] < n - 1 by {
                if done[k] == row {
                    assert(done.contains(row));
                }
            }
            lemma_all_reported(rows, literal, done, n - 1);
        }
    } else {
        if done.len() > 0 {
            assert(0 <= done[0] < n);
        }
        assert(hit_rows(rows, literal, n) =~= Seq::new(done.len(), |i: int| rows[done[i]].0));
    }
}

/// The stream is at its end.
proof fn lemma_finish(
    rows: Seq<(usize, Seq<u8>)>,
    literal: StreamLiteral,
    before: Seq<usize>,
    progress: StreamProgress,
    out: Seq<usize>,
    done: Seq<int>,
)
    requires
        sound_input(rows, literal),
        tracks(rows, literal, before, progress, out, done, rows.len() as int),
        progress.at == whole(rows).len(),
    ensures
        (match progress.pending {
            Some(at) => row_reported_at(
                (StreamProgress { pending: None, after: Seq::empty(), ..progress }),
                out,
                at,
            ),
            None => (progress, out),
        }).1 == before + hit_rows(rows, literal, rows.len() as int),
{
    let text = whole(rows);
    let n = rows.len() as int;
    let base = progress.at - progress.seen.len();
    let m = literal.bytes.len() as int;
    lemma_base_cuts_no_char(rows, before, progress.reported, out, base, done, n);
    assert(done.take(done.len() as int) =~= done);
    let plain = StreamProgress { pending: None, after: Seq::empty(), ..progress };
    lemma_grounded_moves(rows, literal, progress.at, progress.pending, progress.at, None, done);
    if progress.pending is Some {
        let q = progress.pending->Some_0;
        lemma_waiting_occurs(rows, literal, base, progress.at, progress.after, q);
        assert(!word_after(text, q + m)) by {
            reveal(waits);
            lemma_match_cuts_no_char(text, literal.bytes, literal.match_case, q);
            vstd::utf8::valid_utf8_split(text, q + m);
            let rest = text.subrange(q + m, text.len() as int);
            assert(rest.take(rest.len() as int) =~= rest);
            lemma_first_char_of_part(rest, rest.len() as int);
            vstd::utf8::is_char_boundary_start_end_of_seq(rest);
            assert(rest.len() == 0);
            assert(decode_utf8(rest) =~= seq![]);
        }
        lemma_not_below(rows, literal, progress.at, progress.pending, done, q);
        assert(n > 0) by {
            if n == 0 {
                lemma_joined(rows, 0);
            }
        }
        let now = lemma_report(rows, before, plain, out, done, n, q);
        lemma_grounded_more(rows, literal, progress.at, done, now, q);
        lemma_covered_moves(
            rows,
            literal,
            base,
            progress.at,
            progress.pending,
            done,
            progress.at,
            None,
            now,
            q,
        );
        let (next, more) = row_reported_at(plain, out, q);
        lemma_reports_are_hits(rows, literal, before, next.reported, more, base, now);
    } else {
        lemma_reports_are_hits(rows, literal, before, progress.reported, out, base, done);
    }
}

/// Once everything is dealt with, the reports are the rows in which an
/// occurrence starts.
proof fn lemma_reports_are_hits(
    rows: Seq<(usize, Seq<u8>)>,
    literal: StreamLiteral,
    before: Seq<usize>,
    reported: Option<usize>,
    out: Seq<usize>,
    base: int,
    done: Seq<int>,
)
    requires
        accounts(rows, before, reported, out, done, rows.len() as int),
        grounded(rows, literal, whole(rows).len() as int, None, done),
        covered(rows, literal, base, whole(rows).len() as int, None, done),
    ensures
        out == before + hit_rows(rows, literal, rows.len() as int),
{
    reveal(accounts);
    let n = rows.len() as int;
    let upto = whole(rows).len() as int;
    assert forall|row: int| 0 <= row < n implies (#[trigger] is_hit(rows, literal, row)
        <==> done.contains(row)) by {
        if is_hit(rows, literal, row) {
            reveal(covered);
            reveal(has_row_of);
            let at = choose|at: int| #[trigger] occurs(rows, literal, at) && in_row(rows, row, at);
            assert(settled(literal, base, upto, None, at));
            let i = choose|i: int| 0 <= i < done.len() && in_row(rows, #[trigger] done[i], at);
            lemma_one_row(rows, row, done[i], at);
        }
        if done.contains(row) {
            reveal(grounded);
            let i = choose|i: int| 0 <= i < done.len() && done[i] == row;
            let at = choose|at: int| #[trigger] ground(rows, literal, upto, None, done[i], at);
            assert(ground(rows, literal, upto, None, done[i], at));
            assert(occurs(rows, literal, at) && in_row(rows, row, at));
        }
    }
    lemma_all_reported(rows, literal, done, n);
}

/// What a query without a pattern looks for.
pub open spec fn literal_of(sought: Sought) -> StreamLiteral {
    StreamLiteral {
        bytes: sought.bytes(),
        match_case: sought.options.match_case,
        whole_word: sought.options.whole_word,
    }
}

pub proof fn lemma_rows_are_text(rows: Seq<(usize, Seq<char>)>)
    ensures
        rows_are_text(row_bytes(rows)),
{
    reveal(rows_are_text);
    assert forall|i: int| 0 <= i < rows.len() implies valid_utf8(
        (#[trigger] row_bytes(rows)[i]).1,
    ) by {
        vstd::utf8::encode_utf8_valid_utf8(unended(rows[i].1));
    }
}

proof fn lemma_start_on_track(
    rows: Seq<(usize, Seq<u8>)>,
    literal: StreamLiteral,
    before: Seq<usize>,
)
    requires
        literal.bytes.len() > 0,
    ensures
        tracks(
            rows,
            literal,
            before,
            (StreamProgress {
                seen: Seq::empty(),
                at: 0,
                rows: Seq::empty(),
                pending: None,
                after: Seq::empty(),
                reported: None,
            }),
            before,
            Seq::empty(),
            0,
        ),
{
    reveal(accounts);
    reveal(grounded);
    reveal(covered);
    reveal(skipped_to);
    assert(started_rows(rows, 0) =~= Seq::empty());
    assert(Seq::<u8>::empty() =~= whole(rows).subrange(0, 0));
    assert(before =~= before + Seq::new(0, |i: int| rows[Seq::<int>::empty()[i]].0));
}

/// Hands over the bytes of a row, and leaves the rest of it out once the row is
/// reported.
fn push_row(
    search: &mut LiteralFileDiffLineTextStreamSearch,
    visible_ix: usize,
    bytes: &[u8],
    out: &mut Vec<usize>,
    rows: Ghost<Seq<(usize, Seq<u8>)>>,
    before: Ghost<Seq<usize>>,
    reports: Ghost<Seq<int>>,
    started: Ghost<int>,
) -> (now: Ghost<Seq<int>>)
    requires
        old(search).wf(),
        sound_input(rows@, old(search).literal()),
        0 < started@ <= rows@.len(),
        bytes@ == rows@[started@ - 1].1,
        visible_ix == rows@[started@ - 1].0,
        old(search)@.at == row_start(rows@, started@ - 1),
        tracks(
            rows@,
            old(search).literal(),
            before@,
            old(search)@,
            old(out)@,
            reports@,
            started@,
        ),
    ensures
        final(search).wf(),
        final(search).literal() == old(search).literal(),
        final(search)@.at == row_end(rows@, started@ - 1),
        tracks(
            rows@,
            final(search).literal(),
            before@,
            final(search)@,
            final(out)@,
            now@,
            started@,
        ),
{
    let row_len = bytes.len();
    let ghost literal = search.literal();
    let ghost first = row_start(rows@, started@ - 1);
    let ghost mut done = reports@;
    proof {
        lemma_row_stands(rows@, started@ - 1);
        lemma_starts_grow(rows@, 0, started@ - 1);
    }
    let mut chunk_start: usize = 0;
    while chunk_start < row_len
        invariant
            row_len == bytes@.len(),
            0 <= chunk_start <= row_len,
            search.wf(),
            search.literal() == literal,
            sound_input(rows@, literal),
            0 < started@ <= rows@.len(),
            bytes@ == rows@[started@ - 1].1,
            visible_ix == rows@[started@ - 1].0,
            first == row_start(rows@, started@ - 1),
            0 <= first,
            first + row_len <= whole(rows@).len(),
            whole(rows@).subrange(first, first + row_len) == bytes@,
            search@.at == first + chunk_start,
            tracks(rows@, literal, before@, search@, out@, done, started@),
        decreases row_len - chunk_start,
    {
        let left = row_len - chunk_start;
        let chunk_end = chunk_start + min_usize(left, FILE_PREVIEW_SEARCH_SCAN_CHUNK_BYTES);
        let chunk = vstd::slice::slice_subrange(bytes, chunk_start, chunk_end);
        proof {
            assert(row_start(rows@, started@) == first + row_len + 1);
            let at = search@.at;
            assert(chunk@ =~= whole(rows@).subrange(at, at + chunk@.len())) by {
                assert forall|k: int| 0 <= k < chunk@.len() implies #[trigger] chunk@[k]
                    == whole(rows@)[at + k] by {
                    assert(bytes@[chunk_start + k] == whole(rows@).subrange(
                        first,
                        first + row_len,
                    )[chunk_start + k]);
                }
            }
            done = lemma_bytes(
                rows@,
                literal,
                before@,
                search@,
                out@,
                done,
                started@,
                chunk@,
            );
        }
        search.push_bytes(chunk, out);
        chunk_start = chunk_end;
        if search.row_reported(visible_ix) {
            proof {
                lemma_skip(rows@, literal, before@, search@, out@, done, started@);
            }
            search.skip_bytes_until_next_row(row_len - chunk_start);
            chunk_start = row_len;
        }
    }
    Ghost(done)
}

/// Collects the rows in which an occurrence starts, without putting the rows
/// together.
pub fn collect_file_diff_line_text_literal_stream_match_visible_rows(
    rows: &[(usize, &str)],
    matcher: &DiffSearchMatcher,
    out: &mut Vec<usize>,
)
    requires
        numbers_differ(row_bytes(row_chars(rows@))),
        whole(row_bytes(row_chars(rows@))).len() <= usize::MAX,
    ensures
        final(out)@ == old(out)@ + (if matcher@.options.regex || matcher@.query.len() == 0 {
            Seq::empty()
        } else {
            hit_rows(row_bytes(row_chars(rows@)), literal_of(matcher@), rows@.len() as int)
        }),
{
    let mut search = match LiteralFileDiffLineTextStreamSearch::new(matcher) {
        Some(search) => search,
        None => {
            assert(out@ =~= out@ + Seq::empty());
            return;
        },
    };
    let ghost literal = literal_of(matcher@);
    let ghost all = row_bytes(row_chars(rows@));
    let ghost before = out@;
    let ghost mut done: Seq<int> = Seq::empty();
    proof {
        lemma_rows_are_text(row_chars(rows@));
        vstd::utf8::encode_utf8_valid_utf8(matcher@.query);
        search.lemma_shape();
        lemma_start_on_track(all, literal, before);
    }
    let len = rows.len();
    let mut i: usize = 0;
    while i < len
        invariant
            len == rows@.len(),
            0 <= i <= len,
            all == row_bytes(row_chars(rows@)),
            sound_input(all, literal),
            search.wf(),
            search.literal() == literal,
            search@.at == (if i == 0 {
                0
            } else {
                row_end(all, i - 1)
            }),
            tracks(all, literal, before, search@, out@, done, i as int),
        decreases len - i,
    {
        if search.has_rows() {
            proof {
                lemma_line_ends(all, i - 1);
                assert(row_start(all, i as int) == row_end(all, i - 1) + 1);
                lemma_byte_moves_on(literal, search@, out@, 10);
                done = lemma_byte(all, literal, before, search@, out@, done, i as int);
            }
            search.push_byte(10, out);
        }
        proof {
            search.lemma_shape();
            assert(search@.at == row_start(all, i as int));
            lemma_row_starts(all, literal, before, search@, out@, done, i as int);
            if i > 0 {
                lemma_starts_grow(all, 0, i - 1);
                lemma_starts_grow(all, i - 1, i as int);
                lemma_row_stands(all, i - 1);
                assert(search@.rows.last() == started_rows(all, i as int)[i - 1]);
            }
        }
        let (visible_ix, raw_text) = rows[i];
        search.push_row_start(visible_ix);
        let text = normalized_stream_row_text(raw_text);
        assert(text@ == unended(rows@[i as int].1@));
        assert(all[i as int] == (visible_ix, encode_utf8(text@)));
        let now = push_row(
            &mut search,
            visible_ix,
            text.as_bytes(),
            out,
            Ghost(all),
            Ghost(before),
            Ghost(done),
            Ghost(i + 1),
        );
        proof {
            done = now@;
        }
        i += 1;
    }
    proof {
        lemma_joined(all, len as int);
        lemma_finish(all, literal, before, search@, out@, done);
    }
    search.finish(out);
}

} // verus!
