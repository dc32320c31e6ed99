//! The ways of collecting rows agree.
use crate::search::bytes::first_occurrence;
use crate::search::bytes::folded;
use crate::search::bytes::lemma_first_occurrence;
use crate::search::bytes::lemma_match_cuts_no_char;
use crate::search::bytes::matches_at;
use crate::search::bytes::occurs_at;
use crate::search::bytes::word_after;
use crate::search::bytes::word_before;
use crate::search::collect::lemma_row_of;
use crate::search::collect::numbers;
use crate::search::collect::offsets_of;
use crate::search::collect::row_of;
use crate::search::collect::row_offsets;
use crate::search::collect::single_offsets;
use crate::search::joined::hit_rows;
use crate::search::joined::in_row;
use crate::search::joined::is_hit;
use crate::search::joined::joined;
use crate::search::joined::lemma_ascii_is_itself;
use crate::search::joined::lemma_joined;
use crate::search::joined::lemma_joined_is_text;
use crate::search::joined::lemma_line_ends;
use crate::search::joined::lemma_row_end_cuts_no_char;
use crate::search::joined::lemma_row_is_text;
use crate::search::joined::lemma_row_stands;
use crate::search::joined::lemma_starts_grow;
use crate::search::joined::occurs;
use crate::search::joined::row_bytes;
use crate::search::joined::row_end;
use crate::search::joined::row_start;
use crate::search::joined::rows_are_text;
use crate::search::joined::unended;
use crate::search::joined::whole;
use crate::search::literal_rows::lemma_rows_are_text;
use crate::search::literal_rows::literal_of;
use crate::search::matcher::found;
use crate::search::matcher::lemma_empty_text;
use crate::search::matcher::Sought;
use vstd::prelude::*;
use vstd::utf8::decode_utf8;
use vstd::utf8::encode_utf8;
use vstd::utf8::is_char_boundary;
use vstd::utf8::valid_utf8;

verus! {

/// The rows from one on in which an occurrence starts.
spec fn hit_rows_from(
    rows: Seq<(usize, Seq<u8>)>,
    sought: Sought,
    k: int,
) -> Seq<usize>
    decreases rows.len() - k,
{
    if k >= rows.len() {
        Seq::empty()
    } else {
        let rest = hit_rows_from(rows, sought, k + 1);
        if is_hit(rows, literal_of(sought), k) {
            seq![rows[k].0] + rest
        } else {
            rest
        }
    }
}

proof fn lemma_hits_from_start(rows: Seq<(usize, Seq<u8>)>, sought: Sought, k: int)
    requires
        0 <= k <= rows.len(),
    ensures
        hit_rows(rows, literal_of(sought), k) + hit_rows_from(rows, sought, k) == hit_rows(
            rows,
            literal_of(sought),
            rows.len() as int,
        ),
    decreases rows.len() - k,
{
    let upto = hit_rows(rows, literal_of(sought), k);
    if k == rows.len() {
        assert(upto + Seq::<usize>::empty() =~= upto);
    } else {
        lemma_hits_from_start(rows, sought, k + 1);
        let rest = hit_rows_from(rows, sought, k + 1);
        if is_hit(rows, literal_of(sought), k) {
            assert(upto.push(rows[k].0) + rest =~= upto + (seq![rows[k].0] + rest));
        }
    }
}

proof fn lemma_skip_rows_without_hits(
    rows: Seq<(usize, Seq<u8>)>,
    sought: Sought,
    k: int,
    n: int,
)
    requires
        0 <= k <= n <= rows.len(),
        forall|i: int| k <= i < n ==> !#[trigger] is_hit(rows, literal_of(sought), i),
    ensures
        hit_rows_from(rows, sought, k) == hit_rows_from(rows, sought, n),
    decreases n - k,
{
    if k < n {
        lemma_skip_rows_without_hits(rows, sought, k + 1, n);
    }
}

proof fn lemma_numbers_add(a: Seq<(usize, usize)>, b: Seq<(usize, usize)>)
    ensures
        numbers(a + b) == numbers(a) + numbers(b),
{
    assert(numbers(a + b) =~= numbers(a) + numbers(b));
}

proof fn lemma_offsets_are_hits(rows: Seq<(usize, Seq<u8>)>, sought: Sought, k: int)
    requires
        rows_are_text(rows),
        !sought.options.regex,
        !sought.is_idle(),
        0 <= k <= rows.len(),
    ensures
        numbers(row_offsets(sought, rows, k)) == hit_rows_from(rows, sought, k),
    decreases rows.len() - k,
{
    let n = rows.len() as int;
    let literal = literal_of(sought);
    let text = whole(rows);
    if k == n {
        assert(numbers(row_offsets(sought, rows, k)) =~= Seq::<usize>::empty());
    } else {
        lemma_joined_is_text(rows, n);
        vstd::utf8::decode_utf8_encode_utf8(text);
        lemma_starts_grow(rows, 0, k);
        let from = row_start(rows, k);
        lemma_first_occurrence(text, literal.bytes, literal.match_case, literal.whole_word, from);
        match first_occurrence(
            text,
            literal.bytes,
            literal.match_case,
            literal.whole_word,
            from,
        ) {
            None => {
                assert forall|i: int| k <= i < n implies !#[trigger] is_hit(rows, literal, i) by {
                    if is_hit(rows, literal, i) {
                        let at = choose|at: int| #[trigger]
                            occurs(rows, literal, at) && in_row(rows, i, at);
                        lemma_starts_grow(rows, k, i);
                        assert(occurs_at(
                            text,
                            literal.bytes,
                            literal.match_case,
                            literal.whole_word,
                            at,
                        ));
                    }
                }
                lemma_skip_rows_without_hits(rows, sought, k, n);
                assert(numbers(row_offsets(sought, rows, k)) =~= Seq::<usize>::empty());
            },
            Some(at) => {
                let row = row_of(rows, n, at);
                lemma_row_of(rows, n, at);
                assert(occurs(rows, literal, at));
                assert(is_hit(rows, literal, row));
                if row < k {
                    lemma_starts_grow(rows, row + 1, k);
                }
                assert forall|i: int| k <= i < row implies !#[trigger] is_hit(
                    rows,
                    literal,
                    i,
                ) by {
                    if is_hit(rows, literal, i) {
                        let other = choose|other: int| #[trigger]
                            occurs(rows, literal, other) && in_row(rows, i, other);
                        lemma_starts_grow(rows, k, i);
                        lemma_starts_grow(rows, i + 1, row);
                        assert(occurs_at(
                            text,
                            literal.bytes,
                            literal.match_case,
                            literal.whole_word,
                            other,
                        ));
                    }
                }
                lemma_skip_rows_without_hits(rows, sought, k, row);
                lemma_offsets_are_hits(rows, sought, row + 1);
                let hit = (rows[row].0, (at - row_start(rows, row)) as usize);
                let rest = row_offsets(sought, rows, row + 1);
                assert(seq![hit] + Seq::<(usize, usize)>::empty() =~= seq![hit]);
                lemma_numbers_add(seq![hit], rest);
                assert(numbers(seq![hit]) =~= seq![rows[row].0]);
            },
        }
    }
}

/// No character but the end of a line has the byte that ends a line.
proof fn lemma_line_end_byte(chars: Seq<char>, k: int)
    requires
        0 <= k < encode_utf8(chars).len(),
        encode_utf8(chars)[k] == 10,
    ensures
        chars.contains('\n'),
    decreases chars.len(),
{
    let bytes = encode_utf8(chars);
    assert(chars.len() > 0);
    let first = encode_utf8(seq![chars[0]]);
    let rest = chars.drop_first();
    assert(chars =~= seq![chars[0]] + rest);
    crate::search::joined::lemma_encode_add(seq![chars[0]], rest);
    if k >= first.len() {
        lemma_line_end_byte(rest, k - first.len());
        let i = choose|i: int| 0 <= i < rest.len() && rest[i] == '\n';
        assert(chars[i + 1] == '\n');
    } else {
        vstd::utf8::encode_utf8_first_scalar(seq![chars[0]]);
        vstd::utf8::encode_utf8_valid_utf8(seq![chars[0]]);
        vstd::utf8::encode_utf8_decode_utf8(seq![chars[0]]);
        assert(seq![chars[0]].drop_first() =~= Seq::<char>::empty());
        reveal_with_fuel(encode_utf8, 2);
        assert(first[k] == 10);
        assert(first.len() == vstd::utf8::length_of_first_scalar(first));
        assert(first.len() == 1);
        assert(first =~= seq![10u8]);
        lemma_ascii_is_itself('\n');
        vstd::utf8::encode_utf8_decode_utf8(seq!['\n']);
        assert(seq![chars[0]][0] == seq!['\n'][0]);
    }
}

/// What comes before a row is no word, nor what comes behind it.
proof fn lemma_words_stay_on_rows(rows: Seq<(usize, Seq<u8>)>, i: int, at: int)
    requires
        rows_are_text(rows),
        0 <= i < rows.len(),
        0 <= at <= rows[i].1.len(),
        is_char_boundary(rows[i].1, at),
    ensures
        is_char_boundary(whole(rows), row_start(rows, i) + at),
        word_before(rows[i].1, at) == word_before(whole(rows), row_start(rows, i) + at),
        word_after(rows[i].1, at) == word_after(whole(rows), row_start(rows, i) + at),
{
    let text = whole(rows);
    let row = rows[i].1;
    let start = row_start(rows, i);
    let end = row_end(rows, i);
    let place = start + at;
    lemma_joined_is_text(rows, rows.len() as int);
    lemma_row_stands(rows, i);
    lemma_starts_grow(rows, 0, i);
    lemma_row_is_text(rows, i);
    vstd::utf8::valid_utf8_split(row, at);
    // The cut of the row is one of the whole.
    lemma_row_end_cuts_no_char(rows, i);
    assert(is_char_boundary(text, start)) by {
        vstd::utf8::is_char_boundary_start_end_of_seq(text);
        if i > 0 {
            lemma_row_end_cuts_no_char(rows, i - 1);
            lemma_line_ends(rows, i - 1);
            crate::utf::lemma_boundary_after_ascii(text, start - 1);
        }
    }
    assert(is_char_boundary(text, place)) by {
        if at < row.len() {
            vstd::utf8::is_char_boundary_iff_not_is_continuation_byte(row, at);
            vstd::utf8::is_char_boundary_iff_not_is_continuation_byte(text, place);
            assert(text.subrange(start, end)[at] == text[place]);
        }
    }
    vstd::utf8::valid_utf8_split(text, place);
    // Before it.
    let upto = text.subrange(0, place);
    let own = row.subrange(0, at);
    assert(upto.subrange(start, place) =~= own);
    assert(is_char_boundary(upto, start)) by {
        vstd::utf8::is_char_boundary_start_end_of_seq(upto);
        if start < place {
            vstd::utf8::is_char_boundary_iff_not_is_continuation_byte(text, start);
            vstd::utf8::is_char_boundary_iff_not_is_continuation_byte(upto, start);
        }
    }
    vstd::utf8::decode_utf8_split(upto, start);
    vstd::utf8::valid_utf8_split(upto, start);
    if at > 0 {
        assert(decode_utf8(own).len() > 0);
        assert(decode_utf8(upto).last() == decode_utf8(own).last());
    } else {
        assert(decode_utf8(own) =~= seq![]);
        if i > 0 {
            lemma_line_ends(rows, i - 1);
            let above = upto.subrange(0, start);
            assert(above =~= text.subrange(0, start));
            assert(above.last() == 10);
            vstd::utf8::is_char_boundary_start_end_of_seq(above);
            lemma_ends_with_line_end(above);
        } else {
            assert(upto =~= Seq::<u8>::empty());
        }
    }
    // Behind it.
    let rest = text.subrange(place, text.len() as int);
    let tail = row.subrange(at, row.len() as int);
    assert(rest.subrange(0, end - place) =~= tail);
    crate::utf::lemma_boundary_in_rest(text, place, end);
    vstd::utf8::decode_utf8_split(rest, end - place);
    vstd::utf8::valid_utf8_split(rest, end - place);
    if at < row.len() {
        assert(decode_utf8(tail).len() > 0);
        assert(decode_utf8(rest)[0] == decode_utf8(tail)[0]);
    } else {
        assert(decode_utf8(tail) =~= seq![]);
        if i + 1 < rows.len() {
            lemma_line_ends(rows, i);
            assert(rest[0] == 10);
            lemma_starts_with_line_end(rest);
        } else {
            lemma_joined(rows, rows.len() as int);
            assert(rest =~= Seq::<u8>::empty());
        }
    }
}

proof fn lemma_ends_with_line_end(bytes: Seq<u8>)
    requires
        valid_utf8(bytes),
        bytes.len() > 0,
        bytes.last() == 10,
    ensures
        decode_utf8(bytes).len() > 0,
        decode_utf8(bytes).last() == '\n',
{
    let cut = bytes.len() - 1;
    vstd::utf8::is_char_boundary_iff_not_is_continuation_byte(bytes, cut);
    vstd::utf8::decode_utf8_split(bytes, cut);
    vstd::utf8::valid_utf8_split(bytes, cut);
    let tail = bytes.subrange(cut, bytes.len() as int);
    assert(tail =~= seq![10u8]);
    lemma_ascii_is_itself('\n');
    vstd::utf8::encode_utf8_decode_utf8(seq!['\n']);
}

proof fn lemma_starts_with_line_end(bytes: Seq<u8>)
    requires
        valid_utf8(bytes),
        bytes.len() > 0,
        bytes[0] == 10,
    ensures
        decode_utf8(bytes).len() > 0,
        decode_utf8(bytes)[0] == '\n',
{
    vstd::utf8::is_char_boundary_start_end_of_seq(bytes);
    crate::utf::lemma_boundary_after_ascii(bytes, 0);
    vstd::utf8::decode_utf8_split(bytes, 1);
    vstd::utf8::valid_utf8_split(bytes, 1);
    let head = bytes.subrange(0, 1);
    assert(head =~= seq![10u8]);
    lemma_ascii_is_itself('\n');
    vstd::utf8::encode_utf8_decode_utf8(seq!['\n']);
}

/// A literal without the end of a line occurs in the rows where it occurs in
/// one of them.
pub proof fn lemma_occurs_on_row(
    rows: Seq<(usize, Seq<u8>)>,
    sought: Sought,
    i: int,
    at: int,
)
    requires
        rows_are_text(rows),
        sought.is_one_line_literal(),
        sought.query.len() > 0,
        0 <= i < rows.len(),
        0 <= at,
        in_row(rows, i, row_start(rows, i) + at),
    ensures
        occurs_at(
            rows[i].1,
            sought.bytes(),
            sought.options.match_case,
            sought.options.whole_word,
            at,
        ) == occurs(rows, literal_of(sought), row_start(rows, i) + at),
{
    let text = whole(rows);
    let row = rows[i].1;
    let needle = sought.bytes();
    let mc = sought.options.match_case;
    let start = row_start(rows, i);
    let end = row_end(rows, i);
    let place = start + at;
    lemma_row_stands(rows, i);
    lemma_starts_grow(rows, 0, i);
    lemma_empty_text(sought.query);
    vstd::utf8::encode_utf8_valid_utf8(sought.query);
    lemma_joined_is_text(rows, rows.len() as int);
    lemma_row_is_text(rows, i);
    assert(matches_at(text, needle, mc, place) ==> at + needle.len() <= row.len()) by {
        if matches_at(text, needle, mc, place) && at + needle.len() > row.len() {
            if i + 1 < rows.len() {
                lemma_line_ends(rows, i);
                let k = end - place;
                assert(folded(text[place + k], mc) == folded(needle[k], mc));
                assert(needle[k] == 10);
                lemma_line_end_byte(sought.query, k);
            } else {
                lemma_joined(rows, rows.len() as int);
            }
        }
    }
    if at + needle.len() <= row.len() {
        let stretch = text.subrange(start, end);
        assert(stretch == row);
        assert(matches_at(text, needle, mc, place) == matches_at(row, needle, mc, at)) by {
            if matches_at(text, needle, mc, place) {
                assert forall|k: int| 0 <= k < needle.len() implies folded(
                    #[trigger] row[at + k],
                    mc,
                ) == folded(needle[k], mc) by {
                    assert(stretch[at + k] == text[place + k]);
                }
            }
            if matches_at(row, needle, mc, at) {
                assert forall|k: int| 0 <= k < needle.len() implies folded(
                    #[trigger] text[place + k],
                    mc,
                ) == folded(needle[k], mc) by {
                    assert(stretch[at + k] == text[place + k]);
                }
            }
        }
        if matches_at(row, needle, mc, at) {
            lemma_match_cuts_no_char(row, needle, mc, at);
            lemma_words_stay_on_rows(rows, i, at);
            lemma_words_stay_on_rows(rows, i, at + needle.len());
        }
    }
}

/// A row in which a literal without the end of a line occurs is found by looking
/// at the row alone.
pub proof fn law_one_line_literal_needs_one_row(
    rows: Seq<(usize, Seq<u8>)>,
    sought: Sought,
    i: int,
)
    requires
        rows_are_text(rows),
        sought.is_one_line_literal(),
        !sought.is_idle(),
        0 <= i < rows.len(),
    ensures
        found(sought, decode_utf8(rows[i].1), 0) is Some == is_hit(rows, literal_of(sought), i),
{
    let row = rows[i].1;
    let literal = literal_of(sought);
    lemma_row_is_text(rows, i);
    vstd::utf8::decode_utf8_encode_utf8(row);
    lemma_empty_text(sought.query);
    lemma_first_occurrence(row, literal.bytes, literal.match_case, literal.whole_word, 0);
    lemma_starts_grow(rows, i, i + 1);
    if found(sought, decode_utf8(row), 0) is Some {
        let at = first_occurrence(
            row,
            literal.bytes,
            literal.match_case,
            literal.whole_word,
            0,
        )->Some_0;
        let place = row_start(rows, i) + at;
        assert(in_row(rows, i, place));
        lemma_occurs_on_row(rows, sought, i, at);
        assert(occurs(rows, literal, place));
    }
    if is_hit(rows, literal, i) {
        let place = choose|place: int| #[trigger]
            occurs(rows, literal, place) && in_row(rows, i, place);
        let at = place - row_start(rows, i);
        lemma_occurs_on_row(rows, sought, i, at);
        assert(occurs_at(row, literal.bytes, literal.match_case, literal.whole_word, at));
    }
}

proof fn lemma_single_offsets_are_hits(rows: Seq<(usize, Seq<char>)>, sought: Sought, n: int)
    requires
        sought.is_one_line_literal(),
        !sought.is_idle(),
        0 <= n <= rows.len(),
    ensures
        numbers(single_offsets(sought, rows, n)) == hit_rows(
            row_bytes(rows),
            literal_of(sought),
            n,
        ),
    decreases n,
{
    if n > 0 {
        lemma_single_offsets_are_hits(rows, sought, n - 1);
        lemma_rows_are_text(rows);
        law_one_line_literal_needs_one_row(row_bytes(rows), sought, n - 1);
        let row = unended(rows[n - 1].1);
        vstd::utf8::encode_utf8_decode_utf8(row);
        assert(row_bytes(rows)[n - 1] == (rows[n - 1].0, encode_utf8(row)));
        let before = single_offsets(sought, rows, n - 1);
        if found(sought, row, 0) is Some {
            let hit = (rows[n - 1].0, found(sought, row, 0)->Some_0.0 as usize);
            assert(numbers(before.push(hit)) =~= numbers(before).push(hit.0));
        }
    } else {
        assert(numbers(single_offsets(sought, rows, n)) =~= Seq::<usize>::empty());
    }
}

/// However the rows of a literal are collected, they are the rows in which an
/// occurrence starts when all rows are read as one text. A search through a
/// stream gives the same.
pub proof fn law_collectors_agree(rows: Seq<(usize, Seq<char>)>, sought: Sought)
    requires
        !sought.options.regex,
        !sought.is_idle(),
    ensures
        numbers(offsets_of(sought, rows)) == hit_rows(
            row_bytes(rows),
            literal_of(sought),
            rows.len() as int,
        ),
{
    let all = row_bytes(rows);
    if sought.is_one_line_literal() {
        lemma_single_offsets_are_hits(rows, sought, rows.len() as int);
    } else {
        lemma_rows_are_text(rows);
        lemma_offsets_are_hits(all, sought, 0);
        lemma_hits_from_start(all, sought, 0);
        let from = hit_rows_from(all, sought, 0);
        assert(Seq::<usize>::empty() + from =~= from);
    }
}

} // verus!
