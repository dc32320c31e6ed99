//! Rows as one text, each on a line of its own.
use crate::search::bytes::occurs_at;
use crate::search::stream::StreamLiteral;
use vstd::prelude::*;
use vstd::string::*;
use vstd::utf8::encode_utf8;
use vstd::utf8::is_char_boundary;
use vstd::utf8::valid_utf8;

verus! {

/// A row without the carriage return at its end.
pub open spec fn unended(row: Seq<char>) -> Seq<char> {
    if row.len() > 0 && row.last() == '\r' {
        row.drop_last()
    } else {
        row
    }
}

pub fn normalized_stream_row_text(row_text: &str) -> (text: &str)
    ensures
        text@ == unended(row_text@),
{
    let bytes = row_text.as_bytes();
    let len = bytes.len();
    let ghost chars = row_text@;
    proof {
        crate::utf::lemma_text_is_valid(row_text);
        vstd::utf8::encode_utf8_decode_utf8(chars);
        crate::search::matcher::lemma_empty_text(chars);
        if chars.len() > 0 {
            lemma_encode_push(chars.drop_last(), chars.last());
            assert(chars.drop_last().push(chars.last()) =~= chars);
            lemma_return_is_itself(chars.last());
        }
    }
    if len > 0 && bytes[len - 1] == 13 {
        proof {
            lemma_ends_in_return(chars);
            vstd::utf8::encode_utf8_decode_utf8(chars.drop_last());
            vstd::utf8::is_char_boundary_start_end_of_seq(bytes@);
            vstd::utf8::is_char_boundary_iff_not_is_continuation_byte(bytes@, len - 1);
            assert(bytes@.subrange(0, len - 1) =~= encode_utf8(chars.drop_last()));
        }
        crate::utf::text_between(row_text, 0, len - 1)
    } else {
        proof {
            if chars.len() > 0 && chars.last() == '\r' {
                assert(encode_utf8(chars).last() == 13);
            }
        }
        row_text
    }
}

pub proof fn lemma_encode_add(a: Seq<char>, b: Seq<char>)
    ensures
        encode_utf8(a + b) == encode_utf8(a) + encode_utf8(b),
    decreases a.len(),
{
    if a.len() == 0 {
        assert(a + b =~= b);
        assert(encode_utf8(a) + encode_utf8(b) =~= encode_utf8(b));
    } else {
        lemma_encode_add(a.drop_first(), b);
        assert((a + b).drop_first() =~= a.drop_first() + b);
        assert((a + b)[0] == a[0]);
        assert(encode_utf8(a + b) =~= encode_utf8(a) + encode_utf8(b));
    }
}

proof fn lemma_encode_push(a: Seq<char>, c: char)
    ensures
        encode_utf8(a.push(c)) == encode_utf8(a) + encode_utf8(seq![c]),
{
    assert(a.push(c) =~= a + seq![c]);
    lemma_encode_add(a, seq![c]);
}

pub proof fn lemma_ascii_is_itself(c: char)
    requires
        c as u32 <= 127,
    ensures
        encode_utf8(seq![c]) == seq![c as u8],
{
    assert(seq![c].drop_first() =~= Seq::<char>::empty());
    reveal_with_fuel(encode_utf8, 2);
    let v = c as u32;
    assert(v & 0x7F == v) by (bit_vector)
        requires
            v <= 127,
    ;
    assert(encode_utf8(seq![c]) =~= seq![c as u8]);
}

proof fn lemma_return_is_itself(c: char)
    ensures
        c == '\r' ==> encode_utf8(seq![c]) == seq![13u8],
{
    if c == '\r' {
        lemma_ascii_is_itself(c);
    }
}

/// Bytes that end in a carriage return are those of a text that does.
proof fn lemma_ends_in_return(chars: Seq<char>)
    requires
        encode_utf8(chars).len() > 0,
        encode_utf8(chars).last() == 13,
    ensures
        chars.len() > 0,
        chars.last() == '\r',
        encode_utf8(chars) == encode_utf8(chars.drop_last()).push(13),
{
    if chars.len() == 0 {
        assert(encode_utf8(chars) =~= Seq::<u8>::empty());
    }
    let c = chars.last();
    lemma_encode_push(chars.drop_last(), c);
    assert(chars.drop_last().push(c) =~= chars);
    let own = encode_utf8(seq![c]);
    vstd::utf8::encode_utf8_first_scalar(seq![c]);
    vstd::utf8::encode_utf8_decode_utf8(seq![c]);
    vstd::utf8::encode_utf8_valid_utf8(seq![c]);
    assert(seq![c].drop_first() =~= Seq::<char>::empty());
    reveal_with_fuel(encode_utf8, 2);
    assert(own.len() > 0);
    assert(own.last() == 13);
    assert(own.len() == vstd::utf8::length_of_first_scalar(own));
    assert(own.len() == 1);
    assert(own =~= seq![13u8]);
    lemma_ascii_is_itself('\r');
    vstd::utf8::encode_utf8_decode_utf8(seq!['\r']);
    assert(seq![c] == seq!['\r']);
    assert(seq![c][0] == seq!['\r'][0]);
    assert(encode_utf8(chars) =~= encode_utf8(chars.drop_last()).push(13));
}

/// Rows by their numbers and characters.
pub open spec fn row_chars(rows: Seq<(usize, &str)>) -> Seq<(usize, Seq<char>)> {
    Seq::new(rows.len(), |i: int| (rows[i].0, rows[i].1@))
}

/// Rows by their numbers and bytes.
pub open spec fn row_bytes(rows: Seq<(usize, Seq<char>)>) -> Seq<(usize, Seq<u8>)> {
    Seq::new(rows.len(), |i: int| (rows[i].0, encode_utf8(unended(rows[i].1))))
}

/// Where a row starts.
pub open spec fn row_start(rows: Seq<(usize, Seq<u8>)>, i: int) -> int
    decreases i,
{
    if i <= 0 {
        0
    } else {
        row_start(rows, i - 1) + rows[i - 1].1.len() + 1
    }
}

pub open spec fn row_end(rows: Seq<(usize, Seq<u8>)>, i: int) -> int {
    row_start(rows, i) + rows[i].1.len()
}

/// The first rows, one on each line.
pub open spec fn joined(rows: Seq<(usize, Seq<u8>)>, n: int) -> Seq<u8>
    decreases n,
{
    if n <= 0 {
        Seq::empty()
    } else if n == 1 {
        rows[0].1
    } else {
        joined(rows, n - 1).push(10) + rows[n - 1].1
    }
}

pub open spec fn whole(rows: Seq<(usize, Seq<u8>)>) -> Seq<u8> {
    joined(rows, rows.len() as int)
}

/// A place is in a row.
pub open spec fn in_row(rows: Seq<(usize, Seq<u8>)>, i: int, at: int) -> bool {
    row_start(rows, i) <= at && (i + 1 < rows.len() ==> at < row_start(rows, i + 1))
}

/// A literal occurs in the rows as one text.
pub open spec fn occurs(rows: Seq<(usize, Seq<u8>)>, literal: StreamLiteral, at: int) -> bool {
    occurs_at(whole(rows), literal.bytes, literal.match_case, literal.whole_word, at)
}

/// An occurrence starts in a row.
pub open spec fn is_hit(rows: Seq<(usize, Seq<u8>)>, literal: StreamLiteral, i: int) -> bool {
    exists|at: int| #[trigger] occurs(rows, literal, at) && in_row(rows, i, at)
}

/// The numbers of the first rows in which an occurrence starts.
pub open spec fn hit_rows(rows: Seq<(usize, Seq<u8>)>, literal: StreamLiteral, n: int) -> Seq<usize>
    decreases n,
{
    if n <= 0 {
        Seq::empty()
    } else {
        let before = hit_rows(rows, literal, n - 1);
        if is_hit(rows, literal, n - 1) {
            before.push(rows[n - 1].0)
        } else {
            before
        }
    }
}

pub proof fn lemma_starts_grow(rows: Seq<(usize, Seq<u8>)>, i: int, j: int)
    requires
        0 <= i <= j,
    ensures
        row_start(rows, i) <= row_start(rows, j),
        i < j ==> row_start(rows, i) < row_start(rows, j) && row_end(rows, i) < row_start(rows, j),
        row_start(rows, i) >= i,
    decreases j + i,
{
    if i < j {
        lemma_starts_grow(rows, i, j - 1);
    } else if i > 0 {
        lemma_starts_grow(rows, i - 1, i - 1);
    }
}

pub proof fn lemma_joined(rows: Seq<(usize, Seq<u8>)>, n: int)
    requires
        0 <= n <= rows.len(),
    ensures
        n > 0 ==> joined(rows, n).len() == row_end(rows, n - 1),
        n == 0 ==> joined(rows, n).len() == 0,
    decreases n,
{
    if n > 0 {
        lemma_joined(rows, n - 1);
    }
}

/// The first rows are what the whole starts with, and the next line starts
/// behind them.
pub proof fn lemma_joined_part(rows: Seq<(usize, Seq<u8>)>, n: int, m: int)
    requires
        0 < n <= m <= rows.len(),
    ensures
        row_end(rows, n - 1) <= joined(rows, m).len(),
        joined(rows, m).take(row_end(rows, n - 1)) == joined(rows, n),
        n < m ==> row_end(rows, n - 1) < joined(rows, m).len() && joined(rows, m)[row_end(
            rows,
            n - 1,
        )] == 10,
    decreases m,
{
    lemma_joined(rows, n);
    lemma_joined(rows, m);
    if n == m {
        assert(joined(rows, m).take(row_end(rows, n - 1)) =~= joined(rows, n));
    } else {
        lemma_joined_part(rows, n, m - 1);
        lemma_joined(rows, m - 1);
        assert(joined(rows, m).take(row_end(rows, n - 1)) =~= joined(rows, m - 1).take(
            row_end(rows, n - 1),
        ));
    }
}

/// The bytes of a row stand where the row does.
pub proof fn lemma_row_stands(rows: Seq<(usize, Seq<u8>)>, i: int)
    requires
        0 <= i < rows.len(),
    ensures
        row_end(rows, i) <= whole(rows).len(),
        whole(rows).subrange(row_start(rows, i), row_end(rows, i)) == rows[i].1,
{
    let n = rows.len() as int;
    lemma_joined_part(rows, i + 1, n);
    lemma_joined(rows, i);
    lemma_joined(rows, i + 1);
    lemma_starts_grow(rows, 0, i);
    let part = joined(rows, i + 1);
    assert(part.subrange(row_start(rows, i), row_end(rows, i)) =~= rows[i].1);
    let head = whole(rows).take(row_end(rows, i));
    assert(head == part);
    assert(whole(rows).subrange(row_start(rows, i), row_end(rows, i)) =~= head.subrange(
        row_start(rows, i),
        row_end(rows, i),
    ));
}

/// Where a row ends and another one follows, a line ends.
pub proof fn lemma_line_ends(rows: Seq<(usize, Seq<u8>)>, i: int)
    requires
        0 <= i < rows.len() - 1,
    ensures
        row_end(rows, i) < whole(rows).len(),
        whole(rows)[row_end(rows, i)] == 10,
{
    lemma_joined_part(rows, i + 1, rows.len() as int);
}

/// Every row is text.
#[verifier::opaque]
pub open spec fn rows_are_text(rows: Seq<(usize, Seq<u8>)>) -> bool {
    forall|i: int| 0 <= i < rows.len() ==> valid_utf8((#[trigger] rows[i]).1)
}

pub proof fn lemma_joined_is_text(rows: Seq<(usize, Seq<u8>)>, n: int)
    requires
        rows_are_text(rows),
        0 <= n <= rows.len(),
    ensures
        valid_utf8(joined(rows, n)),
    decreases n,
{
    if n > 1 {
        lemma_joined_is_text(rows, n - 1);
        let line_end = seq![10u8];
        lemma_ascii_is_itself('\n');
        vstd::utf8::encode_utf8_valid_utf8(seq!['\n']);
        vstd::utf8::valid_utf8_concat(joined(rows, n - 1), line_end);
        assert(joined(rows, n - 1).push(10) =~= joined(rows, n - 1) + line_end);
        lemma_row_is_text(rows, n - 1);
        vstd::utf8::valid_utf8_concat(joined(rows, n - 1).push(10), rows[n - 1].1);
    } else if n == 1 {
        lemma_row_is_text(rows, 0);
    }
}

pub proof fn lemma_row_is_text(rows: Seq<(usize, Seq<u8>)>, i: int)
    requires
        rows_are_text(rows),
        0 <= i < rows.len(),
    ensures
        valid_utf8(rows[i].1),
{
    reveal(rows_are_text);
}

/// A row ends between two characters.
pub proof fn lemma_row_end_cuts_no_char(rows: Seq<(usize, Seq<u8>)>, i: int)
    requires
        rows_are_text(rows),
        0 <= i < rows.len(),
    ensures
        0 <= row_end(rows, i) <= whole(rows).len(),
        is_char_boundary(whole(rows), row_end(rows, i)),
{
    let n = rows.len() as int;
    lemma_joined_is_text(rows, n);
    lemma_starts_grow(rows, 0, i);
    vstd::utf8::is_char_boundary_start_end_of_seq(whole(rows));
    if i < n - 1 {
        lemma_line_ends(rows, i);
        vstd::utf8::is_char_boundary_iff_not_is_continuation_byte(whole(rows), row_end(rows, i));
    } else {
        lemma_joined(rows, n);
    }
}

pub proof fn lemma_one_row(rows: Seq<(usize, Seq<u8>)>, i: int, j: int, at: int)
    requires
        0 <= i < rows.len(),
        0 <= j < rows.len(),
        in_row(rows, i, at),
        in_row(rows, j, at),
    ensures
        i == j,
{
    if i < j {
        lemma_starts_grow(rows, i + 1, j);
    } else if j < i {
        lemma_starts_grow(rows, j + 1, i);
    }
}

/// Every place is in a row.
pub proof fn lemma_some_row(rows: Seq<(usize, Seq<u8>)>, n: int, at: int) -> (i: int)
    requires
        0 < n <= rows.len(),
        0 <= at,
        n < rows.len() ==> at < row_start(rows, n),
    ensures
        0 <= i < n,
        in_row(rows, i, at),
    decreases n,
{
    if row_start(rows, n - 1) <= at {
        n - 1
    } else {
        assert(n > 1) by {
            if n == 1 {
                assert(row_start(rows, 0) == 0);
            }
        }
        lemma_some_row(rows, n - 1, at)
    }
}

} // verus!
