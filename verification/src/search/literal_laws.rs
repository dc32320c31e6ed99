//! What it means that something is found.
use crate::outside::alphanumeric_char;
use crate::outside::regex_found;
use crate::search::bytes::folded;
use crate::search::bytes::holds;
use crate::search::bytes::lemma_first_occurrence;
use crate::search::bytes::lower_byte;
use crate::search::bytes::matches_at;
use crate::search::bytes::next_boundary;
use crate::search::bytes::occurs_at;
use crate::search::bytes::same_folded;
use crate::search::bytes::stands_alone;
use crate::search::bytes::upper_byte;
use crate::search::bytes::word_char;
use crate::search::hits::lemma_rows_where_are;
use crate::search::hits::rows_where;
use crate::search::joined::lemma_line_ends;
use crate::search::joined::lemma_row_stands;
use crate::search::joined::row_end;
use crate::search::joined::row_start;
use crate::search::joined::unended;
use crate::search::joined::whole;
use crate::search::matcher::all_found;
use crate::search::matcher::found;
use crate::search::matcher::lemma_clean_is_normal;
use crate::search::matcher::lemma_empty_text;
use crate::search::matcher::normalized;
use crate::search::matcher::Sought;
use crate::search::needle::displayed;
use crate::search::needle::query_reuse;
use crate::search::needle::DiffSearchQueryReuse;
use crate::search::wrap::is_visual_row;
use crate::search::wrap::line_ends;
use crate::search::wrap::line_holds;
use crate::search::wrap::line_of;
use crate::search::wrap::DiffWrapVisualRow;
use vstd::prelude::*;
use vstd::string::*;
use vstd::utf8::decode_utf8;
use vstd::utf8::encode_utf8;

verus! {

/// Two bytes are one letter of the alphabet, one of them large and one small.
pub open spec fn one_letter_in_two_cases(a: u8, b: u8) -> bool {
    (65 <= a <= 90 && b == a + 32) || (65 <= b <= 90 && a == b + 32)
}

/// Two bytes count as the same: they are, or case is ignored and they are one letter.
pub open spec fn bytes_agree(a: u8, b: u8, match_case: bool) -> bool {
    a == b || (!match_case && one_letter_in_two_cases(a, b))
}

/// Where case is ignored, a large and a small letter count as the same byte, and no
/// other two bytes do; where it is not, no two bytes do.
pub proof fn law_case_is_ignored_for_letters_alone(a: u8, b: u8, match_case: bool)
    ensures
        (folded(a, match_case) == folded(b, match_case)) == bytes_agree(a, b, match_case),
{
}

/// The 26 letters have a small and a large form, and nothing else has another form.
pub proof fn law_letters_have_two_forms(byte: u8)
    ensures
        forall|k: int|
            0 <= k < 26 ==> lower_byte(#[trigger] ((65 + k) as u8)) == 97 + k && lower_byte(
                (97 + k) as u8,
            ) == 97 + k && upper_byte((97 + k) as u8) == 65 + k && upper_byte((65 + k) as u8) == 65
                + k,
        !(65 <= byte <= 90) ==> lower_byte(byte) == byte,
        !(97 <= byte <= 122) ==> upper_byte(byte) == byte,
{
}

/// A literal stands at a place just where it fits and every byte of it agrees with the
/// text.
pub proof fn law_literal_stands_where_all_bytes_agree(
    text: Seq<u8>,
    needle: Seq<u8>,
    match_case: bool,
    at: int,
)
    ensures
        matches_at(text, needle, match_case, at) == (0 <= at && at + needle.len() <= text.len()
            && forall|k: int|
            0 <= k < needle.len() ==> bytes_agree(#[trigger] text[at + k], needle[k], match_case)),
        holds(text, needle, match_case) == (exists|i: int|
            #[trigger] matches_at(text, needle, match_case, i)),
{
    if matches_at(text, needle, match_case, at) {
        assert forall|k: int| 0 <= k < needle.len() implies bytes_agree(
            #[trigger] text[at + k],
            needle[k],
            match_case,
        ) by {
            law_case_is_ignored_for_letters_alone(text[at + k], needle[k], match_case);
        }
    }
    if 0 <= at && at + needle.len() <= text.len() && forall|k: int|
        0 <= k < needle.len() ==> bytes_agree(#[trigger] text[at + k], needle[k], match_case) {
        assert forall|k: int| 0 <= k < needle.len() implies folded(
            #[trigger] text[at + k],
            match_case,
        ) == folded(needle[k], match_case) by {
            law_case_is_ignored_for_letters_alone(text[at + k], needle[k], match_case);
        }
    }
}

/// Making every letter small changes nothing of where a literal is found when case is
/// ignored.
pub proof fn law_small_letters_are_found_alike(
    text: Seq<u8>,
    needle: Seq<u8>,
    small_text: Seq<u8>,
    small_needle: Seq<u8>,
    at: int,
)
    requires
        small_text.len() == text.len(),
        small_needle.len() == needle.len(),
        forall|i: int|
            0 <= i < text.len() ==> #[trigger] small_text[i] == (if 65 <= text[i] <= 90 {
                (text[i] + 32) as u8
            } else {
                text[i]
            }),
        forall|i: int|
            0 <= i < needle.len() ==> #[trigger] small_needle[i] == (if 65 <= needle[i] <= 90 {
                (needle[i] + 32) as u8
            } else {
                needle[i]
            }),
    ensures
        matches_at(text, needle, false, at) == matches_at(small_text, small_needle, true, at),
{
    if 0 <= at && at + needle.len() <= text.len() {
        assert forall|k: int| 0 <= k < needle.len() implies (folded(text[at + k], false) == folded(
            needle[k],
            false,
        )) == (small_text[at + k] == small_needle[k]) by {
            law_case_is_ignored_for_letters_alone(text[at + k], needle[k], false);
            assert(small_text[at + k] == (if 65 <= text[at + k] <= 90 {
                (text[at + k] + 32) as u8
            } else {
                text[at + k]
            }));
        }
        if matches_at(text, needle, false, at) {
            assert forall|k: int| 0 <= k < needle.len() implies folded(
                #[trigger] small_text[at + k],
                true,
            ) == folded(small_needle[k], true) by {
                assert(folded(text[at + k], false) == folded(needle[k], false));
            }
        }
        if matches_at(small_text, small_needle, true, at) {
            assert forall|k: int| 0 <= k < needle.len() implies folded(
                #[trigger] text[at + k],
                false,
            ) == folded(needle[k], false) by {
                assert(folded(small_text[at + k], true) == folded(small_needle[k], true));
            }
        }
    }
}

/// Words are made of letters, digits and underscores, and end with their line.
pub proof fn law_words_are_letters_digits_and_underscores(c: char)
    ensures
        c == '_' ==> word_char(c),
        c == '\n' ==> !word_char(c),
        c != '_' && c != '\n' ==> word_char(c) == alphanumeric_char(c),
{
}

/// A stretch is a whole word just where the character before it and the one behind it,
/// where there are any, are none that words are made of.
pub proof fn law_whole_word_touches_no_word(text: Seq<u8>, start: int, end: int)
    requires
        0 <= start <= end <= text.len(),
    ensures
        ({
            let before = decode_utf8(text.subrange(0, start));
            let behind = decode_utf8(text.subrange(end, text.len() as int));
            stands_alone(text, start, end) == ((before.len() == 0 || !word_char(
                before[before.len() - 1],
            )) && (behind.len() == 0 || !word_char(behind[0])))
        }),
{
}

/// What a literal search finds is the first place at which the literal stands, as a
/// whole word where that is asked; it finds nothing just where there is no such place.
pub proof fn law_first_literal_is_found(sought: Sought, text: Seq<char>, from: int)
    requires
        !sought.options.regex,
        !sought.refused,
        sought.query.len() > 0,
        0 <= from,
    ensures
        ({
            let bytes = encode_utf8(text);
            let needle = encode_utf8(sought.query);
            let stands = |at: int|
                matches_at(bytes, needle, sought.options.match_case, at) && (
                sought.options.whole_word ==> stands_alone(bytes, at, at + needle.len()));
            match found(sought, text, from) {
                Some((start, end)) => {
                    &&& from <= start
                    &&& end - start == needle.len()
                    &&& stands(start)
                    &&& forall|at: int| from <= at < start ==> !#[trigger] stands(at)
                },
                None => forall|at: int| from <= at ==> !#[trigger] stands(at),
            }
        }),
{
    let bytes = encode_utf8(text);
    let needle = encode_utf8(sought.query);
    let case = sought.options.match_case;
    let word = sought.options.whole_word;
    let stands = |at: int|
        matches_at(bytes, needle, case, at) && (word ==> stands_alone(
            bytes,
            at,
            at + needle.len(),
        ));
    lemma_first_occurrence(bytes, needle, case, word, from);
    assert forall|at: int| #[trigger] stands(at) == occurs_at(bytes, needle, case, word, at) by {}
}

/// An empty query finds nothing, and neither does a pattern that was refused.
pub proof fn law_nothing_sought_is_nothing_found(sought: Sought, text: Seq<char>, from: int)
    ensures
        sought.query.len() == 0 ==> found(sought, text, from) is None,
        sought.refused ==> found(sought, text, from) is None,
{
}

/// A pattern finds what the engine finds first, where that is not empty and no whole
/// word is asked for; letters match in either case just where case is ignored.
pub proof fn law_pattern_finds_what_the_engine_finds(sought: Sought, text: Seq<char>, from: int)
    requires
        sought.options.regex,
        !sought.refused,
        sought.query.len() > 0,
        0 <= from <= encode_utf8(text).len(),
    ensures
        match regex_found(sought.query, !sought.options.match_case, true, text, from) {
            None => found(sought, text, from) is None,
            Some((start, end)) => start < end && !sought.options.whole_word ==> found(
                sought,
                text,
                from,
            ) == Some((start, end)),
        },
        found(sought, text, from) matches Some((start, end)) ==> start < end && (
        sought.options.whole_word ==> stands_alone(encode_utf8(text), start, end)),
{
    lemma_pattern_match_is_good(sought, text, from, encode_utf8(text).len());
}

proof fn lemma_pattern_match_is_good(sought: Sought, text: Seq<char>, from: int, bound: nat)
    ensures
        crate::search::matcher::first_pattern_match(sought, text, from, bound) matches Some(
            (start, end),
        ) ==> start < end && (sought.options.whole_word ==> stands_alone(
            encode_utf8(text),
            start,
            end,
        )),
    decreases bound,
{
    if let Some((start, end)) = regex_found(
        sought.query,
        !sought.options.match_case,
        true,
        text,
        from,
    ) {
        if bound > 0 {
            let next = choose|next: int| next_boundary(encode_utf8(text), start, next);
            lemma_pattern_match_is_good(sought, text, next, (bound - 1) as nat);
        }
    }
}

/// The matches of a text are all that there are, taken from the left: none stands
/// between two of them, and none behind the last unless there are too many.
pub proof fn law_no_literal_is_left_out(sought: Sought, text: Seq<char>, from: int, limit: nat)
    requires
        !sought.options.regex,
        !sought.refused,
        sought.query.len() > 0,
        0 <= from,
    ensures
        ({
            let all = all_found(sought, text, from, limit);
            let needle = encode_utf8(sought.query);
            let stands = |at: int|
                occurs_at(
                    encode_utf8(text),
                    needle,
                    sought.options.match_case,
                    sought.options.whole_word,
                    at,
                );
            &&& forall|i: int| 0 <= i < all.len() ==> stands((#[trigger] all[i]).0)
            &&& forall|i: int, at: int|
                0 <= i < all.len() && (if i == 0 {
                    from
                } else {
                    all[i - 1].1
                }) <= at < (#[trigger] all[i]).0 ==> !#[trigger] stands(at)
            &&& all.len() < limit ==> forall|at: int|
                (if all.len() == 0 {
                    from
                } else {
                    all.last().1
                }) <= at ==> !#[trigger] stands(at)
        }),
    decreases limit,
{
    let needle = encode_utf8(sought.query);
    let case = sought.options.match_case;
    let word = sought.options.whole_word;
    let stands = |at: int| occurs_at(encode_utf8(text), needle, case, word, at);
    if limit > 0 {
        lemma_empty_text(sought.query);
        lemma_first_occurrence(encode_utf8(text), needle, case, word, from);
        let all = all_found(sought, text, from, limit);
        if let Some(range) = found(sought, text, from) {
            law_no_literal_is_left_out(sought, text, range.1, (limit - 1) as nat);
            let rest = all_found(sought, text, range.1, (limit - 1) as nat);
            assert(all == seq![range] + rest);
            assert forall|i: int| 0 <= i < all.len() implies stands((#[trigger] all[i]).0) by {
                if i > 0 {
                    assert(all[i] == rest[i - 1]);
                }
            }
            assert forall|i: int, at: int|
                0 <= i < all.len() && (if i == 0 {
                    from
                } else {
                    all[i - 1].1
                }) <= at < (#[trigger] all[i]).0 implies !#[trigger] stands(at) by {
                if i > 0 {
                    assert(all[i] == rest[i - 1]);
                    if i > 1 {
                        assert(all[i - 1] == rest[i - 2]);
                    }
                }
            }
            if rest.len() > 0 {
                assert(all.last() == rest.last());
            }
        }
    }
}

/// A line ending in a query is one newline, however it was written.
pub proof fn law_every_line_ending_is_a_newline(head: Seq<char>, tail: Seq<char>)
    requires
        !head.contains('\r'),
    ensures
        normalized(head) == head,
        normalized(head + seq!['\r', '\n'] + tail) == head + seq!['\n'] + normalized(tail),
        tail.len() == 0 || tail[0] != '\n' ==> normalized(head + seq!['\r'] + tail) == head + seq![
            '\n',
        ] + normalized(tail),
        normalized(head + tail) == head + normalized(tail),
    decreases head.len(),
{
    lemma_clean_is_normal(head);
    let both = head + seq!['\r', '\n'] + tail;
    let one = head + seq!['\r'] + tail;
    if head.len() == 0 {
        assert(both.skip(2) =~= tail);
        assert(one.skip(1) =~= tail);
        assert(head + tail =~= tail);
        assert(head + normalized(tail) =~= normalized(tail));
        assert(head + seq!['\n'] + normalized(tail) =~= seq!['\n'] + normalized(tail));
        assert(both[0] == '\r' && both[1] == '\n');
        assert(one[0] == '\r');
        if tail.len() > 0 {
            assert(one[1] == tail[0]);
        }
    } else {
        let rest = head.skip(1);
        assert(head[0] != '\r');
        assert forall|i: int| 0 <= i < rest.len() implies rest[i] != '\r' by {
            assert(rest[i] == head[i + 1]);
        }
        law_every_line_ending_is_a_newline(rest, tail);
        assert(both.skip(1) =~= rest + seq!['\r', '\n'] + tail);
        assert(one.skip(1) =~= rest + seq!['\r'] + tail);
        assert((head + tail).skip(1) =~= rest + tail);
        assert(both[0] == head[0] && one[0] == head[0] && (head + tail)[0] == head[0]);
        assert(seq![head[0]] + (rest + seq!['\n'] + normalized(tail)) =~= head + seq!['\n']
            + normalized(tail));
        assert(seq![head[0]] + (rest + normalized(tail)) =~= head + normalized(tail));
    }
}

/// A text is shown character by character: a tab as four spaces, everything else as it
/// is.
pub proof fn law_tabs_are_shown_as_four_spaces(a: Seq<char>, b: Seq<char>, c: char)
    ensures
        displayed(a + b) == displayed(a) + displayed(b),
        displayed(seq!['\t']) == seq![' ', ' ', ' ', ' '],
        c != '\t' ==> displayed(seq![c]) == seq![c],
        displayed(Seq::empty()).len() == 0,
    decreases b.len(),
{
    reveal_strlit("    ");
    reveal_with_fuel(displayed, 2);
    assert(seq!['\t'].drop_last() =~= Seq::<char>::empty());
    assert(seq![c].drop_last() =~= Seq::<char>::empty());
    assert(Seq::<char>::empty() + seq![c] =~= seq![c]);
    assert(displayed(seq!['\t']) =~= seq![' ', ' ', ' ', ' ']);
    if b.len() == 0 {
        assert(a + b =~= a);
        assert(displayed(a) + displayed(b) =~= displayed(a));
    } else {
        law_tabs_are_shown_as_four_spaces(a, b.drop_last(), c);
        assert((a + b).drop_last() =~= a + b.drop_last());
        assert((a + b).last() == b.last());
        let own = if b.last() == '\t' {
            "    "@
        } else {
            seq![b.last()]
        };
        assert(displayed(a) + (displayed(b.drop_last()) + own) =~= displayed(a) + displayed(
            b.drop_last(),
        ) + own);
    }
}

/// A row is read without one carriage return at its end, and otherwise as it is.
pub proof fn law_row_loses_one_carriage_return(row: Seq<char>)
    ensures
        unended(row.push('\r')) == row,
        row.len() == 0 || row.last() != '\r' ==> unended(row) == row,
{
    assert(row.push('\r').drop_last() =~= row);
}

/// Rows as one text are the rows one behind the other, with a newline between each and
/// the next, and nothing else.
pub proof fn law_joined_rows_are_lines(rows: Seq<(usize, Seq<u8>)>, i: int)
    requires
        0 <= i < rows.len(),
    ensures
        row_start(rows, 0) == 0,
        row_end(rows, i) <= whole(rows).len(),
        whole(rows).subrange(row_start(rows, i), row_end(rows, i)) == rows[i].1,
        row_end(rows, i) - row_start(rows, i) == rows[i].1.len(),
        i + 1 < rows.len() ==> row_start(rows, i + 1) == row_end(rows, i) + 1 && whole(
            rows,
        )[row_end(rows, i)] == 10,
        i + 1 == rows.len() ==> whole(rows).len() == row_end(rows, i),
{
    lemma_row_stands(rows, i);
    if i + 1 < rows.len() {
        lemma_line_ends(rows, i);
    }
    crate::search::joined::lemma_joined(rows, rows.len() as int);
}

/// The rows of which something holds are listed in order, each once: those and no
/// others.
pub proof fn law_rows_are_listed_in_order(n: int, test: spec_fn(int) -> bool)
    requires
        0 <= n <= usize::MAX,
    ensures
        ({
            let rows = rows_where(n, test);
            &&& forall|i: int, j: int|
                0 <= i < j < rows.len() ==> #[trigger] rows[i] < #[trigger] rows[j]
            &&& forall|row: usize| #[trigger] rows.contains(row) == (row < n && test(row as int))
        }),
{
    lemma_rows_where_are(n, test);
    let rows = rows_where(n, test);
    assert forall|row: usize| #[trigger] rows.contains(row) == (row < n && test(row as int)) by {
        if rows.contains(row) {
            let i = choose|i: int| 0 <= i < rows.len() && rows[i] == row;
            assert(rows[i] < n);
        }
        if row < n && test(row as int) {
            assert(rows.contains((row as int) as usize));
        }
    }
}

/// Matches serve a longer query only where it starts with the one they are of, letters
/// in either case, and are its matches just where the two are the same so.
pub proof fn law_matches_serve_what_was_typed_on(previous: Seq<char>, next: Seq<char>)
    ensures
        ({
            let a = encode_utf8(normalized(previous));
            let b = encode_utf8(normalized(next));
            let starts = a.len() <= b.len() && forall|k: int|
                0 <= k < a.len() ==> bytes_agree(#[trigger] b[k], a[k], false);
            match query_reuse(previous, next) {
                DiffSearchQueryReuse::SameSemantics => starts && a.len() == b.len(),
                DiffSearchQueryReuse::Refinement => starts && 0 < a.len() < b.len(),
                DiffSearchQueryReuse::Nothing => !starts || (a.len() == 0 && b.len() > 0),
            }
        }),
{
    let a = encode_utf8(normalized(previous));
    let b = encode_utf8(normalized(next));
    assert forall|x: u8, y: u8| #[trigger] bytes_agree(x, y, false) == (folded(x, false) == folded(
        y,
        false,
    )) by {
        law_case_is_ignored_for_letters_alone(x, y, false);
    }
    if a.len() <= b.len() {
        let head = b.take(a.len() as int);
        assert forall|k: int| 0 <= k < a.len() implies head[k] == b[k] by {}
        if a.len() == b.len() {
            assert(head =~= b);
        }
        if same_folded(head, a, false) {
            assert forall|k: int| 0 <= k < a.len() implies bytes_agree(
                #[trigger] b[k],
                a[k],
                false,
            ) by {
                assert(folded(head[k], false) == folded(a[k], false));
            }
        }
        if forall|k: int| 0 <= k < a.len() ==> bytes_agree(#[trigger] b[k], a[k], false) {
            assert forall|k: int| 0 <= k < a.len() implies folded(#[trigger] head[k], false)
                == folded(a[k], false) by {
                assert(bytes_agree(b[k], a[k], false));
            }
            assert(same_folded(head, a, false));
        }
    }
}

/// A match in a broken row is on the line of the screen that shows its first byte,
/// where one line of the row does.
pub proof fn law_match_is_on_the_line_that_shows_it(
    lines: Seq<DiffWrapVisualRow>,
    source: int,
    column: int,
    offset: int,
    ix: int,
    line: int,
)
    requires
        is_visual_row(lines, source, column, offset, ix),
        0 <= line < lines.len(),
        lines[line].source_visible_ix == source,
    ensures
        0 <= ix < lines.len(),
        lines[ix].source_visible_ix == source,
        column == 0 && lines[line].primary_start <= offset < lines[line].primary_end ==> ix <= line
            && lines[ix].primary_start <= offset <= lines[ix].primary_end,
        column == 1 && lines[line].secondary_start <= offset < lines[line].secondary_end ==> ix
            <= line && lines[ix].secondary_start <= offset <= lines[ix].secondary_end,
{
    assert(line_of(lines, source, line));
    if exists|k: int| #[trigger] line_holds(lines, source, column, offset, k) {
        assert(line_holds(lines, source, column, offset, ix));
    } else if exists|k: int| #[trigger] line_ends(lines, source, column, offset, k) {
        assert(line_ends(lines, source, column, offset, ix));
    } else {
        assert(line_of(lines, source, ix));
    }
    if (column == 0 && lines[line].primary_start <= offset < lines[line].primary_end) || (column
        == 1 && lines[line].secondary_start <= offset < lines[line].secondary_end) {
        assert(line_holds(lines, source, column, offset, line));
    }
}

} // verus!
