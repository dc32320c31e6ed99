//! Every match in the text of an editor.
use crate::diff::split_meta::as_ints;
use crate::lines::build_line_starts;
use crate::lines::law_line_range;
use crate::lines::law_line_starts;
use crate::lines::law_lines_follow_each_other;
use crate::lines::line_range;
use crate::lines::starts_of;
use crate::outline::is_sorted;
use crate::outline::line_index_for_byte_offset;
use crate::search::bytes::first_occurrence;
use crate::search::bytes::lemma_first_occurrence;
use crate::search::bytes::lemma_first_occurrence_is;
use crate::search::bytes::lemma_no_occurrence;
use crate::search::bytes::occurs_at;
use crate::search::collect_laws::lemma_occurs_on_row;
use crate::search::joined::in_row;
use crate::search::joined::joined;
use crate::search::joined::row_end;
use crate::search::joined::row_start;
use crate::search::joined::rows_are_text;
use crate::search::joined::whole;
use crate::search::literal_rows::literal_of;
use crate::search::matcher::all_found;
use crate::search::matcher::found;
use crate::search::matcher::lemma_empty_text;
use crate::search::matcher::ranges_of;
use crate::search::matcher::DiffSearchMatcher;
use crate::search::matcher::Sought;
use crate::utf::chars_within;
use crate::utf::lemma_boundary_after_ascii;
use crate::utf::lemma_text_is_valid;
use crate::utf::text_between;
use std::ops::Range;
use vstd::prelude::*;
use vstd::string::*;
use vstd::utf8::decode_utf8;
use vstd::utf8::encode_utf8;
use vstd::utf8::is_char_boundary;
use vstd::utf8::valid_utf8;

verus! {

/// No more matches than these are kept for an editor.
pub const FILE_EDITOR_SEARCH_MAX_MATCHES: usize = 20000;

pub open spec fn moved(ranges: Seq<(int, int)>, by: int) -> Seq<(int, int)> {
    Seq::new(ranges.len(), |i: int| (ranges[i].0 + by, ranges[i].1 + by))
}

pub open spec fn line_chars(bytes: Seq<u8>, line: int) -> Seq<char> {
    let range = line_range(bytes, line);
    chars_within(bytes, range.0, range.1)
}

/// The matches of the first lines, each line searched on its own, at most so
/// many.
pub open spec fn lines_found(sought: Sought, bytes: Seq<u8>, n: int, limit: nat) -> Seq<(int, int)>
    decreases n,
{
    if n <= 0 {
        Seq::empty()
    } else {
        let before = lines_found(sought, bytes, n - 1, limit);
        if before.len() >= limit {
            before
        } else {
            before + moved(
                all_found(sought, line_chars(bytes, n - 1), 0, (limit - before.len()) as nat),
                line_range(bytes, n - 1).0,
            )
        }
    }
}

/// The matches of a text: line by line, unless the query spans lines.
pub open spec fn editor_found(sought: Sought, text: Seq<char>, limit: nat) -> Seq<(int, int)> {
    let bytes = encode_utf8(text);
    if sought.is_idle() || limit == 0 {
        Seq::empty()
    } else if sought.query.contains('\n') {
        all_found(sought, text, 0, limit)
    } else {
        lines_found(sought, bytes, starts_of(bytes).len() as int, limit)
    }
}

proof fn lemma_line_cuts_no_char(bytes: Seq<u8>, line: int)
    requires
        valid_utf8(bytes),
        0 <= line < starts_of(bytes).len(),
    ensures
        is_char_boundary(bytes, line_range(bytes, line).0),
        is_char_boundary(bytes, line_range(bytes, line).1),
{
    law_line_range(bytes, line);
    vstd::utf8::is_char_boundary_start_end_of_seq(bytes);
    let range = line_range(bytes, line);
    if range.0 > 0 {
        lemma_boundary_after_ascii(bytes, range.0 - 1);
    }
    if range.1 < bytes.len() {
        lemma_boundary_after_ascii(bytes, range.1);
    }
}

fn append_moved(found: &mut Vec<Range<usize>>, ranges: &Vec<Range<usize>>, by: usize, len: usize)
    requires
        by + len <= usize::MAX,
        forall|i: int|
            0 <= i < ranges@.len() ==> (#[trigger] ranges@[i]).start <= ranges@[i].end
                && ranges@[i].end <= len,
    ensures
        ranges_of(final(found)@) == ranges_of(old(found)@) + moved(
            ranges_of(ranges@),
            by as int,
        ),
{
    let ghost before = ranges_of(found@);
    let ghost all = moved(ranges_of(ranges@), by as int);
    let mut i: usize = 0;
    assert(before + all.take(0) =~= before);
    while i < ranges.len()
        invariant
            0 <= i <= ranges@.len(),
            by + len <= usize::MAX,
            forall|i: int|
                0 <= i < ranges@.len() ==> (#[trigger] ranges@[i]).start <= ranges@[i].end
                    && ranges@[i].end <= len,
            all == moved(ranges_of(ranges@), by as int),
            ranges_of(found@) == before + all.take(i as int),
        decreases ranges@.len() - i,
    {
        let ghost sofar = found@;
        let range = by + ranges[i].start..by + ranges[i].end;
        let ghost pair = (range.start as int, range.end as int);
        found.push(range);
        assert(ranges_of(found@) =~= ranges_of(sofar).push(pair));
        assert(all.take(i + 1) =~= all.take(i as int).push(pair));
        assert(ranges_of(found@) =~= before + all.take(i + 1));
        i += 1;
    }
    assert(all.take(ranges@.len() as int) =~= all);
}

/// The bytes of every match in a text, in order, at most so many.
pub fn file_editor_search_ranges(
    text: &str,
    matcher: &DiffSearchMatcher,
    max_matches: usize,
) -> (found: Vec<Range<usize>>)
    requires
        matcher.wf(),
    ensures
        ranges_of(found@) == editor_found(matcher@, text@, max_matches as nat),
        found@.len() <= max_matches,
        forall|i: int|
            0 <= i < found@.len() ==> (#[trigger] found@[i]).start <= text.spec_bytes().len(),
{
    let mut found: Vec<Range<usize>> = Vec::new();
    assert(ranges_of(found@) =~= Seq::<(int, int)>::empty());
    if matcher.is_empty() || matcher.regex_error().is_some() || max_matches == 0 {
        return found;
    }
    if matcher.spans_lines() {
        matcher.find_ranges_into(text, &mut found, max_matches);
        proof {
            lemma_limit(matcher@, text@, 0, max_matches as nat);
        }
        return found;
    }
    let ghost bytes = text.spec_bytes();
    let len = text.as_bytes().len();
    let line_starts = build_line_starts(text);
    let mut line_matches: Vec<Range<usize>> = Vec::new();
    let line_count = line_starts.len();
    let mut row: usize = 0;
    proof {
        lemma_text_is_valid(text);
        law_line_starts(bytes);
        assert(as_ints(line_starts@).len() == line_starts@.len());
    }
    while row < line_count
        invariant
            matcher.wf(),
            bytes == text.spec_bytes(),
            len == bytes.len(),
            valid_utf8(bytes),
            as_ints(line_starts@) == starts_of(bytes),
            line_count == line_starts@.len(),
            line_count == starts_of(bytes).len(),
            0 <= row <= line_count,
            ranges_of(found@) == lines_found(matcher@, bytes, row as int, max_matches as nat),
            found@.len() <= max_matches,
            forall|i: int| 0 <= i < found@.len() ==> (#[trigger] found@[i]).start <= len,
        decreases line_count - row,
    {
        assert(ranges_of(found@).len() == found@.len());
        let remaining = max_matches - found.len();
        if remaining > 0 {
            proof {
                law_line_range(bytes, row as int);
                lemma_line_cuts_no_char(bytes, row as int);
                law_line_starts(bytes);
                assert(as_ints(line_starts@)[row as int] == line_starts@[row as int]);
                if row + 1 < line_count {
                    assert(as_ints(line_starts@)[row + 1] == line_starts@[row + 1]);
                }
            }
            let start = line_starts[row];
            let end = if row + 1 < line_count {
                line_starts[row + 1] - 1
            } else {
                len
            };
            let line = text_between(text, start, end);
            matcher.find_ranges_into(line, &mut line_matches, remaining);
            proof {
                let part = bytes.subrange(start as int, end as int);
                crate::search::pattern_rows::lemma_part_is_text(bytes, start as int, end as int);
                vstd::utf8::decode_utf8_encode_utf8(part);
                assert(line@ == line_chars(bytes, row as int));
                lemma_limit(matcher@, line@, 0, remaining as nat);
                assert(ranges_of(line_matches@).len() == line_matches@.len());
            }
            let ghost before = found@;
            append_moved(&mut found, &line_matches, start, end - start);
            proof {
                let own = moved(ranges_of(line_matches@), start as int);
                assert(ranges_of(found@).len() == found@.len());
                assert forall|i: int| 0 <= i < found@.len() implies (#[trigger] found@[i]).start
                    <= len by {
                    assert(ranges_of(found@)[i].0 == found@[i].start);
                    if i < before.len() {
                        assert(ranges_of(before)[i].0 == before[i].start);
                        assert(ranges_of(found@)[i] == ranges_of(before)[i]);
                    } else {
                        assert(ranges_of(found@)[i] == own[i - before.len()]);
                        assert(ranges_of(line_matches@)[i - before.len()].0 == line_matches@[i
                            - before.len()].start);
                    }
                }
            }
        }
        row += 1;
    }
    found
}

proof fn lemma_limit(sought: Sought, text: Seq<char>, from: int, limit: nat)
    ensures
        all_found(sought, text, from, limit).len() <= limit,
    decreases limit,
{
    if limit > 0 {
        if let Some(range) = found(sought, text, from) {
            lemma_limit(sought, text, range.1, (limit - 1) as nat);
        }
    }
}

/// The line that every match starts on.
pub fn file_editor_match_rows(text: &str, ranges: &[Range<usize>]) -> (rows: Vec<usize>)
    ensures
        rows@.len() == ranges@.len(),
        forall|i: int|
            0 <= i < rows@.len() ==> 0 <= #[trigger] rows@[i] < starts_of(text.spec_bytes()).len()
                && starts_of(text.spec_bytes())[rows@[i] as int] <= ranges@[i].start && (rows@[i] + 1
                < starts_of(text.spec_bytes()).len() ==> ranges@[i].start < starts_of(
                text.spec_bytes(),
            )[rows@[i] + 1]),
{
    let line_starts = build_line_starts(text);
    let ghost starts = starts_of(text.spec_bytes());
    let mut rows: Vec<usize> = Vec::new();
    proof {
        law_line_starts(text.spec_bytes());
        assert(as_ints(line_starts@).len() == line_starts@.len());
        assert forall|i: int| 0 <= i < line_starts@.len() implies #[trigger] line_starts@[i]
            == starts[i] by {
            assert(as_ints(line_starts@)[i] == line_starts@[i]);
        }
        assert(is_sorted(line_starts@)) by {
            assert forall|i: int, j: int| 0 <= i <= j < line_starts@.len() implies #[trigger] line_starts@[i]
                <= #[trigger] line_starts@[j] by {
                if i < j {
                    assert(starts[i] < starts[j]);
                }
            }
        }
    }
    let mut i: usize = 0;
    while i < ranges.len()
        invariant
            0 <= i <= ranges@.len(),
            is_sorted(line_starts@),
            starts == starts_of(text.spec_bytes()),
            starts.len() == line_starts@.len(),
            starts.len() > 0,
            starts[0] == 0,
            forall|k: int| 0 <= k < line_starts@.len() ==> #[trigger] line_starts@[k] == starts[k],
            rows@.len() == i,
            forall|k: int|
                0 <= k < rows@.len() ==> 0 <= #[trigger] rows@[k] < starts.len()
                    && starts[rows@[k] as int] <= ranges@[k].start && (rows@[k] + 1 < starts.len()
                    ==> ranges@[k].start < starts[rows@[k] + 1]),
        decreases ranges@.len() - i,
    {
        let row = line_index_for_byte_offset(line_starts.as_slice(), ranges[i].start);
        proof {
            crate::outline::law_line_at(line_starts@, ranges@[i as int].start as int);
            assert(line_starts@[row as int] == starts[row as int]);
            if row + 1 < starts.len() {
                assert(line_starts@[row + 1] == starts[row + 1]);
            }
        }
        rows.push(row);
        i += 1;
    }
    rows
}

/// The lines of a text as rows.
spec fn line_rows(bytes: Seq<u8>) -> Seq<(usize, Seq<u8>)> {
    Seq::new(
        starts_of(bytes).len(),
        |i: int| (i as usize, bytes.subrange(line_range(bytes, i).0, line_range(bytes, i).1)),
    )
}

proof fn lemma_line_starts_at(bytes: Seq<u8>, i: int)
    requires
        0 <= i < starts_of(bytes).len(),
    ensures
        row_start(line_rows(bytes), i) == line_range(bytes, i).0,
        row_end(line_rows(bytes), i) == line_range(bytes, i).1,
    decreases i,
{
    law_line_range(bytes, i);
    if i > 0 {
        lemma_line_starts_at(bytes, i - 1);
        law_lines_follow_each_other(bytes, i - 1);
    } else {
        law_line_starts(bytes);
    }
}

proof fn lemma_lines_make_up(bytes: Seq<u8>, n: int)
    requires
        0 < n <= starts_of(bytes).len(),
    ensures
        joined(line_rows(bytes), n) == bytes.take(line_range(bytes, n - 1).1),
    decreases n,
{
    let rows = line_rows(bytes);
    law_line_range(bytes, n - 1);
    lemma_line_starts_at(bytes, n - 1);
    if n == 1 {
        law_line_starts(bytes);
        assert(joined(rows, 1) =~= bytes.take(line_range(bytes, 0).1));
    } else {
        lemma_lines_make_up(bytes, n - 1);
        law_lines_follow_each_other(bytes, n - 2);
        law_line_range(bytes, n - 2);
        let end = line_range(bytes, n - 2).1;
        assert(bytes[end] == 10);
        assert(bytes.take(end).push(10) =~= bytes.take(end + 1));
        assert(joined(rows, n) =~= bytes.take(line_range(bytes, n - 1).1));
    }
}

proof fn lemma_lines_are_text(bytes: Seq<u8>)
    requires
        valid_utf8(bytes),
    ensures
        rows_are_text(line_rows(bytes)),
        whole(line_rows(bytes)) == bytes,
        line_rows(bytes).len() > 0,
{
    let rows = line_rows(bytes);
    law_line_starts(bytes);
    reveal(rows_are_text);
    assert forall|i: int| 0 <= i < rows.len() implies valid_utf8((#[trigger] rows[i]).1) by {
        law_line_range(bytes, i);
        lemma_line_cuts_no_char(bytes, i);
        crate::search::pattern_rows::lemma_part_is_text(
            bytes,
            line_range(bytes, i).0,
            line_range(bytes, i).1,
        );
    }
    lemma_lines_make_up(bytes, rows.len() as int);
    if rows.len() > 1 {
        law_lines_follow_each_other(bytes, rows.len() - 2);
    }
    assert(bytes.take(bytes.len() as int) =~= bytes);
}

/// Where a search goes on behind a line.
spec fn line_behind(bytes: Seq<u8>, line: int) -> int {
    if line + 1 < starts_of(bytes).len() {
        line_range(bytes, line + 1).0
    } else {
        bytes.len() as int
    }
}

/// A literal occurs in a text where it occurs in the line.
proof fn lemma_occurs_on_line(sought: Sought, bytes: Seq<u8>, line: int, at: int)
    requires
        valid_utf8(bytes),
        sought.is_one_line_literal(),
        !sought.is_idle(),
        0 <= line < starts_of(bytes).len(),
        line_range(bytes, line).0 <= at < line_behind(bytes, line),
    ensures
        ({
            let range = line_range(bytes, line);
            let literal = literal_of(sought);
            occurs_at(bytes, literal.bytes, literal.match_case, literal.whole_word, at)
                == occurs_at(
                bytes.subrange(range.0, range.1),
                literal.bytes,
                literal.match_case,
                literal.whole_word,
                at - range.0,
            )
        }),
{
    let rows = line_rows(bytes);
    lemma_lines_are_text(bytes);
    lemma_line_starts_at(bytes, line);
    if line + 1 < rows.len() {
        lemma_line_starts_at(bytes, line + 1);
    }
    let start = row_start(rows, line);
    assert(in_row(rows, line, start + (at - start)));
    lemma_occurs_on_row(rows, sought, line, at - start);
}

/// The first match from a place of a line on is that of the line, or else the
/// first one behind the line.
proof fn lemma_found_on_line(sought: Sought, bytes: Seq<u8>, line: int, from: int)
    requires
        valid_utf8(bytes),
        sought.is_one_line_literal(),
        !sought.is_idle(),
        0 <= line < starts_of(bytes).len(),
        0 <= from <= line_range(bytes, line).1 - line_range(bytes, line).0,
    ensures
        ({
            let text = decode_utf8(bytes);
            let start = line_range(bytes, line).0;
            match found(sought, line_chars(bytes, line), from) {
                Some((a, b)) => from <= a < b <= line_range(bytes, line).1 - start && found(
                    sought,
                    text,
                    start + from,
                ) == Some((start + a, start + b)),
                None => found(sought, text, start + from) == found(
                    sought,
                    text,
                    line_behind(bytes, line),
                ),
            }
        }),
{
    let range = line_range(bytes, line);
    let start = range.0;
    let literal = literal_of(sought);
    let behind = line_behind(bytes, line);
    let row = bytes.subrange(range.0, range.1);
    law_line_range(bytes, line);
    law_line_starts(bytes);
    if line + 1 < starts_of(bytes).len() {
        law_lines_follow_each_other(bytes, line);
    }
    lemma_line_cuts_no_char(bytes, line);
    crate::search::pattern_rows::lemma_part_is_text(bytes, range.0, range.1);
    vstd::utf8::decode_utf8_encode_utf8(bytes);
    vstd::utf8::decode_utf8_encode_utf8(row);
    lemma_empty_text(sought.query);
    lemma_first_occurrence(row, literal.bytes, literal.match_case, literal.whole_word, from);
    let first = first_occurrence(
        row,
        literal.bytes,
        literal.match_case,
        literal.whole_word,
        from,
    );
    let upto = if first is Some {
        start + first->Some_0
    } else {
        behind
    };
    assert forall|i: int| start + from <= i < upto implies !#[trigger] occurs_at(
        bytes,
        literal.bytes,
        literal.match_case,
        literal.whole_word,
        i,
    ) by {
        lemma_occurs_on_line(sought, bytes, line, i);
        assert(!occurs_at(
            row,
            literal.bytes,
            literal.match_case,
            literal.whole_word,
            i - start,
        ));
    }
    if first is Some {
        lemma_occurs_on_line(sought, bytes, line, upto);
        lemma_first_occurrence_is(
            bytes,
            literal.bytes,
            literal.match_case,
            literal.whole_word,
            start + from,
            upto,
        );
    } else {
        lemma_first_occurrence(
            bytes,
            literal.bytes,
            literal.match_case,
            literal.whole_word,
            behind,
        );
        match first_occurrence(
            bytes,
            literal.bytes,
            literal.match_case,
            literal.whole_word,
            behind,
        ) {
            Some(at) => {
                lemma_first_occurrence_is(
                    bytes,
                    literal.bytes,
                    literal.match_case,
                    literal.whole_word,
                    start + from,
                    at,
                );
            },
            None => {
                lemma_no_occurrence(
                    bytes,
                    literal.bytes,
                    literal.match_case,
                    literal.whole_word,
                    start + from,
                );
            },
        }
    }
}

/// The matches from a place of a line on are those of the line, and then those
/// behind it.
proof fn lemma_line_then_rest(
    sought: Sought,
    bytes: Seq<u8>,
    line: int,
    from: int,
    limit: nat,
)
    requires
        valid_utf8(bytes),
        sought.is_one_line_literal(),
        !sought.is_idle(),
        0 <= line < starts_of(bytes).len(),
        0 <= from <= line_range(bytes, line).1 - line_range(bytes, line).0,
    ensures
        ({
            let text = decode_utf8(bytes);
            let start = line_range(bytes, line).0;
            let own = moved(all_found(sought, line_chars(bytes, line), from, limit), start);
            all_found(sought, text, start + from, limit) == own + all_found(
                sought,
                text,
                line_behind(bytes, line),
                (limit - own.len()) as nat,
            )
        }),
    decreases limit,
{
    let text = decode_utf8(bytes);
    let chars = line_chars(bytes, line);
    let start = line_range(bytes, line).0;
    let behind = line_behind(bytes, line);
    lemma_limit(sought, chars, from, limit);
    if limit == 0 {
        assert(moved(Seq::empty(), start) + Seq::<(int, int)>::empty() =~= Seq::empty());
    } else {
        lemma_found_on_line(sought, bytes, line, from);
        let own = all_found(sought, chars, from, limit);
        match found(sought, chars, from) {
            Some((a, b)) => {
                let less = (limit - 1) as nat;
                lemma_line_then_rest(sought, bytes, line, b, less);
                lemma_limit(sought, chars, b, less);
                let rest = all_found(sought, chars, b, less);
                let first = seq![(start + a, start + b)];
                assert(own == seq![(a, b)] + rest);
                assert(moved(own, start) =~= first + moved(rest, start));
                let tail = all_found(sought, text, behind, (less - rest.len()) as nat);
                assert(first + (moved(rest, start) + tail) =~= (first + moved(rest, start))
                    + tail);
            },
            None => {
                assert(moved(own, start) =~= Seq::empty());
                let tail = all_found(sought, text, behind, limit);
                assert(Seq::<(int, int)>::empty() + tail =~= tail);
            },
        }
    }
}

proof fn lemma_lines_then_rest(sought: Sought, bytes: Seq<u8>, n: int, limit: nat)
    requires
        valid_utf8(bytes),
        sought.is_one_line_literal(),
        !sought.is_idle(),
        0 <= n <= starts_of(bytes).len(),
    ensures
        lines_found(sought, bytes, n, limit).len() <= limit,
        lines_found(sought, bytes, n, limit) + all_found(
            sought,
            decode_utf8(bytes),
            if n == 0 {
                0
            } else {
                line_behind(bytes, n - 1)
            },
            (limit - lines_found(sought, bytes, n, limit).len()) as nat,
        ) == all_found(sought, decode_utf8(bytes), 0, limit),
    decreases n,
{
    let text = decode_utf8(bytes);
    let all = all_found(sought, text, 0, limit);
    if n == 0 {
        assert(Seq::<(int, int)>::empty() + all =~= all);
    } else {
        lemma_lines_then_rest(sought, bytes, n - 1, limit);
        law_line_starts(bytes);
        law_line_range(bytes, n - 1);
        let before = lines_found(sought, bytes, n - 1, limit);
        let left = (limit - before.len()) as nat;
        let start = line_range(bytes, n - 1).0;
        if left > 0 {
            lemma_line_then_rest(sought, bytes, n - 1, 0, left);
            lemma_limit(sought, line_chars(bytes, n - 1), 0, left);
            let own = moved(all_found(sought, line_chars(bytes, n - 1), 0, left), start);
            let tail = all_found(
                sought,
                text,
                line_behind(bytes, n - 1),
                (left - own.len()) as nat,
            );
            assert((before + own) + tail =~= before + (own + tail));
        } else {
            assert(before + Seq::<(int, int)>::empty() =~= before);
        }
    }
}

/// Searching line by line costs nothing: a query that spans no lines is found
/// where it is found in the text as a whole.
pub proof fn law_line_by_line_is_the_whole(sought: Sought, text: Seq<char>, limit: nat)
    requires
        !sought.options.regex,
        !sought.is_idle(),
    ensures
        editor_found(sought, text, limit) == all_found(sought, text, 0, limit),
{
    let bytes = encode_utf8(text);
    vstd::utf8::encode_utf8_valid_utf8(text);
    vstd::utf8::encode_utf8_decode_utf8(text);
    if limit > 0 && !sought.query.contains('\n') {
        let n = starts_of(bytes).len() as int;
        law_line_starts(bytes);
        lemma_lines_then_rest(sought, bytes, n, limit);
        let lines = lines_found(sought, bytes, n, limit);
        lemma_empty_text(sought.query);
        let literal = literal_of(sought);
        lemma_no_occurrence(
            bytes,
            literal.bytes,
            literal.match_case,
            literal.whole_word,
            bytes.len() as int,
        );
        let tail = all_found(sought, text, bytes.len() as int, (limit - lines.len()) as nat);
        assert(tail =~= Seq::empty());
        assert(lines + tail =~= lines);
    }
}

} // verus!
