//! What fits in one window is searched as one text.
use crate::num::min;
use crate::search::collect::lemma_row_of;
use crate::search::collect::numbers;
use crate::search::collect::row_of;
use crate::search::collect::row_offsets;
use crate::search::joined::in_row;
use crate::search::joined::joined;
use crate::search::joined::lemma_ascii_is_itself;
use crate::search::joined::lemma_encode_add;
use crate::search::joined::lemma_joined;
use crate::search::joined::lemma_joined_is_text;
use crate::search::joined::lemma_joined_part;
use crate::search::joined::lemma_row_is_text;
use crate::search::joined::lemma_row_stands;
use crate::search::joined::lemma_starts_grow;
use crate::search::joined::row_start;
use crate::search::joined::rows_are_text;
use crate::search::joined::whole;
use crate::search::literal_rows::numbers_differ;
use crate::search::matcher::found;
use crate::search::matcher::Sought;
use crate::search::pattern_rows::lemma_cut_goes_on;
use crate::search::pattern_rows::lemma_part_is_text;
use crate::search::pattern_rows::lemma_start_after;
use crate::search::pattern_rows::pattern_hits;
use crate::search::pattern_rows::pattern_row_reported;
use crate::search::pattern_rows::piece_end;
use crate::search::pattern_rows::resumes_at;
use crate::search::pattern_rows::row_taken;
use crate::search::pattern_rows::rows_taken;
use crate::search::pattern_rows::text_taken;
use crate::search::pattern_rows::window_scanned;
use crate::search::pattern_rows::PatternProgress;
use crate::search::pattern_rows::FILE_PREVIEW_REGEX_SEARCH_WINDOW_BYTES;
use crate::search::literal_rows::FILE_PREVIEW_SEARCH_SCAN_CHUNK_BYTES;
use crate::search::stream::lemma_row_index;
use vstd::prelude::*;
use vstd::utf8::decode_utf8;
use vstd::utf8::encode_utf8;
use vstd::utf8::is_char_boundary;
use vstd::utf8::valid_utf8;

verus! {

spec fn known_rows(rows: Seq<(usize, Seq<u8>)>, n: int) -> Seq<(usize, usize)> {
    Seq::new(n as nat, |i: int| (row_start(rows, i) as usize, rows[i].0))
}

/// Everything so far is in the window, and nothing was searched.
spec fn gathered(rows: Seq<(usize, Seq<u8>)>, n: int, text: Seq<u8>) -> PatternProgress {
    PatternProgress {
        window: decode_utf8(text),
        window_at: 0,
        at: text.len() as int,
        rows: known_rows(rows, n),
        reported: None,
    }
}

/// Text that leaves room in the window is added to it.
proof fn lemma_text_gathered(
    sought: Sought,
    rows: Seq<(usize, Seq<u8>)>,
    n: int,
    text: Seq<u8>,
    more: Seq<u8>,
    out: Seq<usize>,
)
    requires
        valid_utf8(text),
        valid_utf8(more),
        text.len() + more.len() < FILE_PREVIEW_REGEX_SEARCH_WINDOW_BYTES,
    ensures
        valid_utf8(text + more),
        text_taken(sought, gathered(rows, n, text), out, decode_utf8(more)) == (
            gathered(rows, n, text + more),
            out,
        ),
{
    vstd::utf8::valid_utf8_concat(text, more);
    vstd::utf8::decode_utf8_encode_utf8(text);
    vstd::utf8::decode_utf8_encode_utf8(more);
    let window = decode_utf8(text) + decode_utf8(more);
    lemma_encode_add(decode_utf8(text), decode_utf8(more));
    vstd::utf8::encode_utf8_decode_utf8(window);
    assert(decode_utf8(text + more) == window);
}

/// A row that leaves room in the window is added to it, piece by piece.
proof fn lemma_row_gathered(
    sought: Sought,
    rows: Seq<(usize, Seq<u8>)>,
    n: int,
    text: Seq<u8>,
    row: Seq<u8>,
    from: int,
    out: Seq<usize>,
)
    requires
        valid_utf8(text),
        valid_utf8(row),
        0 <= from <= row.len(),
        is_char_boundary(row, from),
        text.len() + row.len() - from < FILE_PREVIEW_REGEX_SEARCH_WINDOW_BYTES,
        n > 0,
    ensures
        row_taken(sought, gathered(rows, n, text), out, rows[n - 1].0, row, from) == (
            gathered(rows, n, text + row.subrange(from, row.len() as int)),
            out,
        ),
    decreases row.len() - from,
{
    if from == row.len() {
        assert(text + row.subrange(from, row.len() as int) =~= text);
    } else {
        let wanted = min(from + FILE_PREVIEW_SEARCH_SCAN_CHUNK_BYTES, row.len() as int);
        lemma_cut_goes_on(row, from, wanted);
        let end = piece_end(row, from);
        assert(is_char_boundary(row, end)) by {
            crate::search::pattern_rows::lemma_cut_before(row, wanted);
        }
        let piece = row.subrange(from, end);
        lemma_part_is_text(row, from, end);
        lemma_text_gathered(sought, rows, n, text, piece, out);
        lemma_row_gathered(sought, rows, n, text + piece, row, end, out);
        assert((text + piece) + row.subrange(end, row.len() as int) =~= text + row.subrange(
            from,
            row.len() as int,
        ));
    }
}

proof fn lemma_rows_gathered(
    sought: Sought,
    rows: Seq<(usize, Seq<u8>)>,
    n: int,
    out: Seq<usize>,
)
    requires
        rows_are_text(rows),
        0 <= n <= rows.len(),
        whole(rows).len() < FILE_PREVIEW_REGEX_SEARCH_WINDOW_BYTES,
    ensures
        rows_taken(sought, rows, out, n) == (gathered(rows, n, joined(rows, n)), out),
    decreases n,
{
    if n == 0 {
        assert(decode_utf8(joined(rows, 0)) =~= seq![]);
        assert(known_rows(rows, 0) =~= Seq::empty());
    } else {
        lemma_rows_gathered(sought, rows, n - 1, out);
        lemma_joined_is_text(rows, n - 1);
        lemma_joined_is_text(rows, n);
        lemma_joined(rows, n - 1);
        lemma_joined(rows, n);
        lemma_joined_part(rows, n, rows.len() as int);
        let upto = joined(rows, n - 1);
        let row = rows[n - 1].1;
        lemma_row_is_text(rows, n - 1);
        vstd::utf8::is_char_boundary_start_end_of_seq(row);
        assert(row.subrange(0, row.len() as int) =~= row);
        let broken = if n > 1 {
            upto.push(10)
        } else {
            upto
        };
        if n > 1 {
            lemma_ascii_is_itself('\n');
            vstd::utf8::encode_utf8_decode_utf8(seq!['\n']);
            vstd::utf8::encode_utf8_valid_utf8(seq!['\n']);
            lemma_text_gathered(sought, rows, n - 1, upto, seq![10u8], out);
            assert(upto + seq![10u8] =~= broken);
        }
        assert(broken.len() == row_start(rows, n - 1));
        assert(known_rows(rows, n - 1).push((broken.len() as usize, rows[n - 1].0))
            =~= known_rows(rows, n));
        assert(valid_utf8(broken));
        lemma_row_gathered(sought, rows, n, broken, row, 0, out);
        if n > 1 {
            assert(broken + row =~= joined(rows, n));
        } else {
            assert(broken + row =~= joined(rows, n)) by {
                assert(upto =~= Seq::<u8>::empty());
            }
        }
    }
}

/// Matches lie within the text, from where the search starts, and are not empty.
pub open spec fn finds_within(sought: Sought, text: Seq<char>) -> bool {
    forall|from: int|
        0 <= from <= encode_utf8(text).len() ==> match #[trigger] found(sought, text, from) {
            Some((start, end)) => from <= start < end <= encode_utf8(text).len(),
            None => true,
        }
}

proof fn lemma_scan_gives_offsets(
    sought: Sought,
    rows: Seq<(usize, Seq<u8>)>,
    progress: PatternProgress,
    out: Seq<usize>,
    k: int,
)
    requires
        rows_are_text(rows),
        numbers_differ(rows),
        whole(rows).len() < FILE_PREVIEW_REGEX_SEARCH_WINDOW_BYTES,
        finds_within(sought, decode_utf8(whole(rows))),
        0 <= k < rows.len(),
        progress == (PatternProgress {
            reported: progress.reported,
            ..gathered(rows, rows.len() as int, whole(rows))
        }),
        progress.reported matches Some(number) ==> exists|i: int|
            0 <= i < k && number == (#[trigger] rows[i]).0,
    ensures
        window_scanned(sought, progress, true, out, row_start(rows, k)).1 == out + numbers(
            row_offsets(sought, rows, k),
        ),
    decreases rows.len() - k,
{
    let n = rows.len() as int;
    let text = whole(rows);
    lemma_joined_is_text(rows, n);
    vstd::utf8::decode_utf8_encode_utf8(text);
    lemma_starts_grow(rows, 0, k);
    lemma_row_stands(rows, k);
    let from = row_start(rows, k);
    let len = text.len() as int;
    let window = decode_utf8(text);
    assert(encode_utf8(progress.window).len() == len);
    if found(sought, window, from) is None {
        assert(row_offsets(sought, rows, k) =~= Seq::empty());
        assert(out + numbers(Seq::empty()) =~= out);
        assert(window_scanned(sought, progress, true, out, from) == (progress, out));
    } else {
        let (start, end) = found(sought, window, from)->Some_0;
        let row = row_of(rows, n, start);
        lemma_row_of(rows, n, start);
        if row < k {
            lemma_starts_grow(rows, row + 1, k);
        }
        lemma_match_reported(rows, progress, out, k, row, start);
        let (next, more) = pattern_row_reported(progress, out, start);
        let hit = (rows[row].0, (start - row_start(rows, row)) as usize);
        let resume = resumes_at(progress, start);
        assert(window_scanned(sought, progress, true, out, from) == window_scanned(
            sought,
            next,
            true,
            more,
            resume,
        ));
        if row + 1 < n {
            lemma_scan_gives_offsets(sought, rows, next, more, row + 1);
            let rest = row_offsets(sought, rows, row + 1);
            assert(row_offsets(sought, rows, k) == seq![hit] + rest);
            assert(numbers(seq![hit] + rest) =~= seq![rows[row].0] + numbers(rest));
            assert(out.push(rows[row].0) + numbers(rest) =~= out + (seq![rows[row].0] + numbers(
                rest,
            )));
        } else {
            assert(row_offsets(sought, rows, k) == seq![hit]);
            assert(window_scanned(sought, next, true, more, resume) == (next, more));
            assert(numbers(seq![hit]) =~= seq![rows[row].0]);
            assert(out.push(rows[row].0) =~= out + seq![rows[row].0]);
        }
    }
}

/// A match in a row below those reported is reported, and the search goes on at
/// the next row.
proof fn lemma_match_reported(
    rows: Seq<(usize, Seq<u8>)>,
    progress: PatternProgress,
    out: Seq<usize>,
    k: int,
    row: int,
    start: int,
)
    requires
        rows_are_text(rows),
        numbers_differ(rows),
        whole(rows).len() < FILE_PREVIEW_REGEX_SEARCH_WINDOW_BYTES,
        0 <= k <= row < rows.len(),
        in_row(rows, row, start),
        start < whole(rows).len(),
        progress == (PatternProgress {
            reported: progress.reported,
            ..gathered(rows, rows.len() as int, whole(rows))
        }),
        progress.reported matches Some(number) ==> exists|i: int|
            0 <= i < k && number == (#[trigger] rows[i]).0,
    ensures
        pattern_row_reported(progress, out, start) == (
            PatternProgress { reported: Some(rows[row].0), ..progress },
            out.push(rows[row].0),
        ),
        resumes_at(progress, start) == (if row + 1 < rows.len() {
            row_start(rows, row + 1)
        } else {
            whole(rows).len() as int
        }),
        start < resumes_at(progress, start) <= whole(rows).len(),
{
    let n = rows.len() as int;
    let known = known_rows(rows, n);
    lemma_joined_is_text(rows, n);
    vstd::utf8::decode_utf8_encode_utf8(whole(rows));
    assert forall|i: int| 0 <= i < n implies (#[trigger] known[i]).0 == row_start(rows, i) by {
        lemma_row_stands(rows, i);
        lemma_starts_grow(rows, 0, i);
    }
    assert forall|j: int| row < j < n implies (#[trigger] known[j]).0 > start by {
        lemma_starts_grow(rows, row + 1, j);
    }
    assert forall|j: int| 0 <= j < row + 1 implies (#[trigger] known[j]).0 <= start by {
        lemma_starts_grow(rows, j, row);
    }
    lemma_row_index(known, start, row);
    lemma_start_after(known, start, 0, row + 1);
    if progress.reported is Some {
        let i = choose|i: int| 0 <= i < k && progress.reported->Some_0 == (#[trigger] rows[i]).0;
        assert(rows[i].0 != rows[row].0) by {
            reveal(numbers_differ);
        }
    }
    if row + 1 < n {
        assert(known[row + 1].0 == row_start(rows, row + 1));
        lemma_row_stands(rows, row + 1);
    }
}

/// Rows that fit in one window are searched for a pattern as one text: the rows
/// reported are those that the whole gives.
pub proof fn law_one_window_is_the_whole(
    sought: Sought,
    rows: Seq<(usize, Seq<u8>)>,
    out: Seq<usize>,
)
    requires
        rows_are_text(rows),
        numbers_differ(rows),
        whole(rows).len() < FILE_PREVIEW_REGEX_SEARCH_WINDOW_BYTES,
        finds_within(sought, decode_utf8(whole(rows))),
    ensures
        pattern_hits(sought, rows, out) == out + numbers(row_offsets(sought, rows, 0)),
{
    let n = rows.len() as int;
    lemma_rows_gathered(sought, rows, n, out);
    if n > 0 {
        assert(row_start(rows, 0) == 0);
        lemma_scan_gives_offsets(sought, rows, gathered(rows, n, whole(rows)), out, 0);
    } else {
        assert(decode_utf8(whole(rows)) =~= seq![]);
        vstd::utf8::decode_utf8_encode_utf8(whole(rows));
        assert(out + numbers(row_offsets(sought, rows, 0)) =~= out);
    }
}

} // verus!
