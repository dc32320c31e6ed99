//! The rows of a view in which matches start.
use crate::outside::string_push;
use crate::search::joined::in_row;
use crate::search::joined::joined;
use crate::search::joined::lemma_ascii_is_itself;
use crate::search::joined::lemma_encode_add;
use crate::search::joined::lemma_joined;
use crate::search::joined::lemma_one_row;
use crate::search::joined::lemma_starts_grow;
use crate::search::joined::normalized_stream_row_text;
use crate::search::joined::row_bytes;
use crate::search::joined::row_chars;
use crate::search::joined::row_start;
use crate::search::joined::unended;
use crate::search::joined::whole;
use crate::search::matcher::found;
use crate::search::matcher::lemma_empty_text;
use crate::search::matcher::DiffSearchMatcher;
use crate::search::matcher::Sought;
use vstd::prelude::*;
use vstd::string::*;
use vstd::utf8::decode_utf8;
use vstd::utf8::encode_utf8;

verus! {

/// The row that a place is in.
pub open spec fn row_of(rows: Seq<(usize, Seq<u8>)>, n: int, at: int) -> int
    decreases n,
{
    if n <= 1 {
        0
    } else if row_start(rows, n - 1) <= at {
        n - 1
    } else {
        row_of(rows, n - 1, at)
    }
}

/// The first match in every row, from one row on: the row's number and where in
/// the row the match starts. A match may go on over the rows below.
pub open spec fn row_offsets(sought: Sought, rows: Seq<(usize, Seq<u8>)>, k: int) -> Seq<
    (usize, usize),
>
    decreases rows.len() - k,
{
    if k < 0 || k >= rows.len() {
        Seq::empty()
    } else {
        match found(sought, decode_utf8(whole(rows)), row_start(rows, k)) {
            None => Seq::empty(),
            Some((start, end)) => {
                let row = row_of(rows, rows.len() as int, start);
                let hit = (rows[row].0, (start - row_start(rows, row)) as usize);
                if row < k || row + 1 >= rows.len() {
                    seq![hit]
                } else {
                    seq![hit] + row_offsets(sought, rows, row + 1)
                }
            },
        }
    }
}

/// The first match in every one of the first rows, each on its own.
pub open spec fn single_offsets(sought: Sought, rows: Seq<(usize, Seq<char>)>, n: int) -> Seq<
    (usize, usize),
>
    decreases n,
{
    if n <= 0 {
        Seq::empty()
    } else {
        let before = single_offsets(sought, rows, n - 1);
        match found(sought, unended(rows[n - 1].1), 0) {
            Some((start, end)) => before.push((rows[n - 1].0, start as usize)),
            None => before,
        }
    }
}

pub open spec fn offsets_of(sought: Sought, rows: Seq<(usize, Seq<char>)>) -> Seq<(usize, usize)> {
    if sought.is_one_line_literal() {
        single_offsets(sought, rows, rows.len() as int)
    } else {
        row_offsets(sought, row_bytes(rows), 0)
    }
}

pub open spec fn numbers(offsets: Seq<(usize, usize)>) -> Seq<usize> {
    Seq::new(offsets.len(), |i: int| offsets[i].0)
}

proof fn lemma_numbers_push(offsets: Seq<(usize, usize)>, hit: (usize, usize))
    ensures
        numbers(offsets.push(hit)) == numbers(offsets).push(hit.0),
{
    assert(numbers(offsets.push(hit)) =~= numbers(offsets).push(hit.0));
}

pub proof fn lemma_row_of(rows: Seq<(usize, Seq<u8>)>, n: int, at: int)
    requires
        0 < n <= rows.len(),
        0 <= at,
        n < rows.len() ==> at < row_start(rows, n),
    ensures
        0 <= row_of(rows, n, at) < n,
        in_row(rows, row_of(rows, n, at), at),
    decreases n,
{
    if n > 1 && row_start(rows, n - 1) > at {
        lemma_row_of(rows, n - 1, at);
    } else if n == 1 {
        assert(row_start(rows, 0) == 0);
    }
}

/// Puts rows together, one on each line, and notes where they start.
fn join_rows(rows: &[(usize, &str)]) -> (joined_rows: (String, Vec<usize>))
    ensures
        encode_utf8(joined_rows.0@) == whole(row_bytes(row_chars(rows@))),
        joined_rows.1@.len() == rows@.len(),
        forall|i: int|
            0 <= i < rows@.len() ==> #[trigger] joined_rows.1@[i] == row_start(row_bytes(row_chars(rows@)), i),
{
    let ghost all = row_bytes(row_chars(rows@));
    let mut text = String::new();
    let mut line_starts: Vec<usize> = Vec::new();
    let len = rows.len();
    let mut i: usize = 0;
    proof {
        lemma_empty_text(text@);
        assert(encode_utf8(text@) =~= joined(all, 0));
    }
    while i < len
        invariant
            len == rows@.len(),
            0 <= i <= len,
            all == row_bytes(row_chars(rows@)),
            encode_utf8(text@) == joined(all, i as int),
            line_starts@.len() == i,
            forall|k: int| 0 <= k < i ==> #[trigger] line_starts@[k] == row_start(all, k),
        decreases len - i,
    {
        let ghost before = text@;
        if i > 0 {
            string_push(&mut text, '\n');
            proof {
                assert(text@ =~= before + seq!['\n']);
                lemma_encode_add(before, seq!['\n']);
                lemma_ascii_is_itself('\n');
                assert(encode_utf8(text@) =~= joined(all, i as int).push(10));
                lemma_joined(all, i as int);
            }
        } else {
            assert(row_start(all, 0) == 0);
        }
        line_starts.push(text.as_str().as_bytes().len());
        let row = normalized_stream_row_text(rows[i].1);
        let ghost upto = text@;
        text.append(row);
        proof {
            lemma_encode_add(upto, row@);
            assert(all[i as int].1 == encode_utf8(row@));
            if i == 0 {
                assert(encode_utf8(upto) =~= Seq::<u8>::empty());
                assert(encode_utf8(text@) =~= joined(all, 1));
            } else {
                assert(encode_utf8(text@) =~= joined(all, i + 1));
            }
        }
        i += 1;
    }
    (text, line_starts)
}

/// The last start that is not behind a place.
fn line_at(line_starts: &[usize], at: usize) -> (line: usize)
    requires
        line_starts@.len() > 0,
        line_starts@[0] == 0,
        forall|i: int, j: int|
            0 <= i < j < line_starts@.len() ==> #[trigger] line_starts@[i] < #[trigger] line_starts@[j],
    ensures
        line < line_starts@.len(),
        line_starts@[line as int] <= at,
        line + 1 < line_starts@.len() ==> at < line_starts@[line + 1],
{
    let mut low: usize = 0;
    let mut high: usize = line_starts.len();
    while high - low > 1
        invariant
            0 <= low < high <= line_starts@.len(),
            line_starts@[low as int] <= at,
            high < line_starts@.len() ==> at < line_starts@[high as int],
        decreases high - low,
    {
        let middle = low + (high - low) / 2;
        if line_starts[middle] <= at {
            low = middle;
        } else {
            high = middle;
        }
    }
    low
}

/// Collects the first match of every row: the row's number, and where in the
/// row the match starts.
pub fn collect_stream_match_row_offsets(
    rows: &[(usize, &str)],
    matcher: &DiffSearchMatcher,
    out: &mut Vec<(usize, usize)>,
)
    requires
        matcher.wf(),
    ensures
        final(out)@ == old(out)@ + offsets_of(matcher@, row_chars(rows@)),
{
    let ghost before = out@;
    let len = rows.len();
    if matcher.can_use_single_row_literal_path() {
        let mut i: usize = 0;
        assert(before =~= before + single_offsets(matcher@, row_chars(rows@), 0));
        while i < len
            invariant
                len == rows@.len(),
                0 <= i <= len,
                matcher.wf(),
                out@ == before + single_offsets(matcher@, row_chars(rows@), i as int),
            decreases len - i,
        {
            let (visible_ix, row_text) = rows[i];
            let text = normalized_stream_row_text(row_text);
            let ghost sofar = single_offsets(matcher@, row_chars(rows@), i as int);
            match matcher.find_range_at_or_after(text, 0) {
                Some(range) => {
                    out.push((visible_ix, range.start));
                    assert(out@ =~= before + sofar.push((visible_ix, range.start)));
                },
                None => {},
            }
            i += 1;
        }
        return;
    }
    if len == 0 {
        assert(before =~= before + row_offsets(matcher@, row_bytes(row_chars(rows@)), 0));
        return;
    }
    let ghost all = row_bytes(row_chars(rows@));
    let (text, line_starts) = join_rows(rows);
    proof {
        vstd::utf8::encode_utf8_decode_utf8(text@);
        assert(text@ == decode_utf8(whole(all)));
        assert(row_start(all, 0) == 0);
        assert forall|i: int, j: int| 0 <= i < j < line_starts@.len() implies #[trigger] line_starts@[i]
            < #[trigger] line_starts@[j] by {
            lemma_starts_grow(all, i, j);
        }
    }
    let ghost wanted = row_offsets(matcher@, all, 0);
    let mut k: usize = 0;
    assert(before + wanted =~= out@ + row_offsets(matcher@, all, 0));
    let mut more = true;
    while more && k < len
        invariant
            len == rows@.len(),
            len > 0,
            0 <= k <= len,
            matcher.wf(),
            all == row_bytes(row_chars(rows@)),
            encode_utf8(text@) == whole(all),
            text@ == decode_utf8(whole(all)),
            line_starts@.len() == len,
            line_starts@[0] == 0,
            forall|i: int| 0 <= i < len ==> #[trigger] line_starts@[i] == row_start(all, i),
            forall|i: int, j: int|
                0 <= i < j < len ==> #[trigger] line_starts@[i] < #[trigger] line_starts@[j],
            more ==> before + wanted == out@ + row_offsets(matcher@, all, k as int),
            !more ==> before + wanted == out@,
        decreases len - k, if more { 1int } else { 0int },
    {
        let ghost sofar = out@;
        match matcher.find_range_at_or_after(text.as_str(), line_starts[k]) {
            Some(range) => {
                let start = range.start;
                let line = line_at(line_starts.as_slice(), start);
                proof {
                    assert(line_starts@[line as int] == row_start(all, line as int));
                    if line + 1 < len {
                        assert(line_starts@[line + 1] == row_start(all, line + 1));
                    }
                    lemma_row_of(all, len as int, start as int);
                    lemma_one_row(
                        all,
                        line as int,
                        row_of(all, len as int, start as int),
                        start as int,
                    );
                    assert(line >= k) by {
                        if line < k {
                            if line + 1 < k {
                                assert(line_starts@[line + 1] < line_starts@[k as int]);
                            }
                        }
                    }
                }
                let hit = (rows[line].0, start - line_starts[line]);
                out.push(hit);
                k = line + 1;
                proof {
                    let rest = row_offsets(matcher@, all, k as int);
                    assert(seq![hit] + Seq::<(usize, usize)>::empty() =~= seq![hit]);
                    assert(sofar + (seq![hit] + rest) =~= out@ + rest);
                }
            },
            None => {
                assert(sofar + Seq::<(usize, usize)>::empty() =~= sofar);
                more = false;
            },
        }
    }
    assert(more ==> out@ + row_offsets(matcher@, all, k as int) =~= out@);
}

#[derive(Clone, Copy, Debug, PartialEq, Eq, Structural)]
pub enum StreamMatchCollectionMode {
    SingleRowLiteral,
    MaterializedRows,
}

pub fn collect_stream_match_visible_rows_with_mode(
    rows: &[(usize, &str)],
    matcher: &DiffSearchMatcher,
    out: &mut Vec<usize>,
) -> (mode: StreamMatchCollectionMode)
    requires
        matcher.wf(),
    ensures
        final(out)@ == old(out)@ + numbers(offsets_of(matcher@, row_chars(rows@))),
        mode == (if matcher@.is_one_line_literal() {
            StreamMatchCollectionMode::SingleRowLiteral
        } else {
            StreamMatchCollectionMode::MaterializedRows
        }),
{
    let ghost before = out@;
    if matcher.can_use_single_row_literal_path() {
        let len = rows.len();
        let mut i: usize = 0;
        assert(before =~= before + numbers(single_offsets(matcher@, row_chars(rows@), 0)));
        while i < len
            invariant
                len == rows@.len(),
                0 <= i <= len,
                matcher.wf(),
                out@ == before + numbers(single_offsets(matcher@, row_chars(rows@), i as int)),
            decreases len - i,
        {
            let (visible_ix, row_text) = rows[i];
            let ghost sofar = single_offsets(matcher@, row_chars(rows@), i as int);
            match matcher.find_range_at_or_after(normalized_stream_row_text(row_text), 0) {
                Some(range) => {
                    out.push(visible_ix);
                    proof {
                        lemma_numbers_push(sofar, (visible_ix, range.start));
                        assert(out@ =~= before + numbers(sofar).push(visible_ix));
                    }
                },
                None => {},
            }
            i += 1;
        }
        return StreamMatchCollectionMode::SingleRowLiteral;
    }
    let mut row_offsets: Vec<(usize, usize)> = Vec::new();
    collect_stream_match_row_offsets(rows, matcher, &mut row_offsets);
    let ghost all = offsets_of(matcher@, row_chars(rows@));
    assert(row_offsets@ =~= all);
    let mut i: usize = 0;
    assert(before =~= before + numbers(all.take(0)));
    while i < row_offsets.len()
        invariant
            0 <= i <= row_offsets@.len(),
            row_offsets@ == all,
            out@ == before + numbers(all.take(i as int)),
        decreases row_offsets@.len() - i,
    {
        let visible_ix = row_offsets[i].0;
        out.push(visible_ix);
        assert(all.take(i + 1) =~= all.take(i as int).push(all[i as int]));
        assert(numbers(all.take(i + 1)) =~= numbers(all.take(i as int)).push(visible_ix));
        assert(out@ =~= before + numbers(all.take(i + 1)));
        i += 1;
    }
    assert(all.take(all.len() as int) =~= all);
    StreamMatchCollectionMode::MaterializedRows
}

/// Collects the rows in which a match starts.
pub fn collect_stream_match_visible_rows(
    rows: &[(usize, &str)],
    matcher: &DiffSearchMatcher,
    out: &mut Vec<usize>,
)
    requires
        matcher.wf(),
    ensures
        final(out)@ == old(out)@ + numbers(offsets_of(matcher@, row_chars(rows@))),
{
    let _ = collect_stream_match_visible_rows_with_mode(rows, matcher, out);
}

/// The text of a side, where there is one.
pub open spec fn side_chars(side: Option<&str>) -> Option<Seq<char>> {
    match side {
        Some(text) => Some(text@),
        None => None,
    }
}

/// Rows of two columns by their numbers and characters.
pub open spec fn split_chars(rows: Seq<(usize, Option<&str>, Option<&str>)>) -> Seq<
    (usize, Option<Seq<char>>, Option<Seq<char>>),
> {
    Seq::new(rows.len(), |i: int| (rows[i].0, side_chars(rows[i].1), side_chars(rows[i].2)))
}

/// A side of a row holds a match.
pub open spec fn side_matches(sought: Sought, side: Option<Seq<char>>) -> bool {
    side matches Some(text) && found(sought, unended(text), 0) is Some
}

/// The first rows of which a side holds a match.
pub open spec fn split_hits(
    sought: Sought,
    rows: Seq<(usize, Option<Seq<char>>, Option<Seq<char>>)>,
    n: int,
) -> Seq<usize>
    decreases n,
{
    if n <= 0 {
        Seq::empty()
    } else {
        let before = split_hits(sought, rows, n - 1);
        if side_matches(sought, rows[n - 1].1) || side_matches(sought, rows[n - 1].2) {
            before.push(rows[n - 1].0)
        } else {
            before
        }
    }
}

pub open spec fn side_text(side: Option<Seq<char>>) -> Seq<char> {
    match side {
        Some(text) => text,
        None => Seq::empty(),
    }
}

/// The text of one side, row by row; a row that lacks it is empty.
pub open spec fn side_rows(
    rows: Seq<(usize, Option<Seq<char>>, Option<Seq<char>>)>,
    right: bool,
) -> Seq<(usize, Seq<char>)> {
    Seq::new(
        rows.len(),
        |i: int|
            (
                rows[i].0,
                if right {
                    side_text(rows[i].2)
                } else {
                    side_text(rows[i].1)
                },
            ),
    )
}

/// The rows of two columns in which a match starts: row by row where a match
/// stays on its row, else the rows of the left column and then those of the
/// right one.
pub open spec fn split_found(
    sought: Sought,
    rows: Seq<(usize, Option<Seq<char>>, Option<Seq<char>>)>,
) -> Seq<usize> {
    if sought.is_one_line_literal() {
        split_hits(sought, rows, rows.len() as int)
    } else {
        numbers(offsets_of(sought, side_rows(rows, false))) + numbers(
            offsets_of(sought, side_rows(rows, true)),
        )
    }
}

fn has_match(matcher: &DiffSearchMatcher, side: Option<&str>) -> (answer: bool)
    requires
        matcher.wf(),
    ensures
        answer == side_matches(matcher@, side_chars(side)),
{
    match side {
        Some(text) => matcher.is_match(normalized_stream_row_text(text)),
        None => false,
    }
}

/// Collects the rows of two columns in which a match starts.
pub fn collect_split_stream_match_visible_rows(
    rows: &[(usize, Option<&str>, Option<&str>)],
    matcher: &DiffSearchMatcher,
    out: &mut Vec<usize>,
)
    requires
        matcher.wf(),
    ensures
        final(out)@ == old(out)@ + split_found(matcher@, split_chars(rows@)),
{
    let len = rows.len();
    let ghost before = out@;
    if matcher.can_use_single_row_literal_path() {
        let mut i: usize = 0;
        assert(before =~= before + split_hits(matcher@, split_chars(rows@), 0));
        while i < len
            invariant
                len == rows@.len(),
                0 <= i <= len,
                matcher.wf(),
                out@ == before + split_hits(matcher@, split_chars(rows@), i as int),
            decreases len - i,
        {
            let (visible_ix, left, right) = rows[i];
            let ghost sofar = split_hits(matcher@, split_chars(rows@), i as int);
            if has_match(matcher, left) || has_match(matcher, right) {
                out.push(visible_ix);
                assert(out@ =~= before + sofar.push(visible_ix));
            }
            i += 1;
        }
        return;
    }
    let mut left_rows: Vec<(usize, &str)> = Vec::new();
    let mut right_rows: Vec<(usize, &str)> = Vec::new();
    let mut i: usize = 0;
    proof {
        reveal_strlit("");
        assert(""@ =~= Seq::<char>::empty());
        assert(row_chars(left_rows@) =~= side_rows(split_chars(rows@), false).take(0));
        assert(row_chars(right_rows@) =~= side_rows(split_chars(rows@), true).take(0));
    }
    while i < len
        invariant
            len == rows@.len(),
            0 <= i <= len,
            ""@ == Seq::<char>::empty(),
            row_chars(left_rows@) == side_rows(split_chars(rows@), false).take(i as int),
            row_chars(right_rows@) == side_rows(split_chars(rows@), true).take(i as int),
        decreases len - i,
    {
        let (visible_ix, left, right) = rows[i];
        let left_text = match left {
            Some(text) => text,
            None => "",
        };
        let right_text = match right {
            Some(text) => text,
            None => "",
        };
        let ghost left_before = left_rows@;
        let ghost right_before = right_rows@;
        left_rows.push((visible_ix, left_text));
        right_rows.push((visible_ix, right_text));
        assert(row_chars(left_rows@) =~= row_chars(left_before).push((visible_ix, left_text@)));
        assert(row_chars(right_rows@) =~= row_chars(right_before).push((visible_ix, right_text@)));
        assert(left_text@ == side_text(side_chars(rows@[i as int].1)));
        assert(right_text@ == side_text(side_chars(rows@[i as int].2)));
        proof {
            let left_all = side_rows(split_chars(rows@), false);
            let right_all = side_rows(split_chars(rows@), true);
            assert(left_all.take(i + 1) =~= left_all.take(i as int).push(left_all[i as int]));
            assert(right_all.take(i + 1) =~= right_all.take(i as int).push(right_all[i as int]));
        }
        i += 1;
    }
    assert(row_chars(left_rows@) =~= side_rows(split_chars(rows@), false));
    assert(row_chars(right_rows@) =~= side_rows(split_chars(rows@), true));
    collect_stream_match_visible_rows(left_rows.as_slice(), matcher, out);
    collect_stream_match_visible_rows(right_rows.as_slice(), matcher, out);
    assert(out@ =~= before + (numbers(offsets_of(matcher@, side_rows(split_chars(rows@), false))) + numbers(
        offsets_of(matcher@, side_rows(split_chars(rows@), true)),
    )));
}

/// Rows that own their texts, by numbers and characters.
pub open spec fn owned_chars(rows: Seq<(usize, String)>) -> Seq<(usize, Seq<char>)> {
    Seq::new(rows.len(), |i: int| (rows[i].0, rows[i].1@))
}

pub fn row_refs<'a>(rows: &'a Vec<(usize, String)>) -> (refs: Vec<(usize, &'a str)>)
    ensures
        row_chars(refs@) == owned_chars(rows@),
{
    let mut refs: Vec<(usize, &'a str)> = Vec::new();
    let mut i: usize = 0;
    while i < rows.len()
        invariant
            0 <= i <= rows@.len(),
            refs@.len() == i,
            forall|k: int|
                0 <= k < i ==> (#[trigger] refs@[k]).0 == rows@[k].0 && refs@[k].1@ == rows@[k].1@,
        decreases rows@.len() - i,
    {
        refs.push((rows[i].0, rows[i].1.as_str()));
        i += 1;
    }
    assert(row_chars(refs@) =~= owned_chars(rows@));
    refs
}

} // verus!
