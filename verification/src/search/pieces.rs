//! Searching rows that come in pieces from a file, some of which may be no text or
//! may not be there.
use crate::search::matcher::DiffSearchMatcher;
use crate::search::pattern_rows::RegexFileDiffLineTextStreamSearch;
use crate::search::stream::LiteralFileDiffLineTextStreamSearch;
use vstd::prelude::*;
use vstd::string::*;

verus! {

/// A piece of a row, as it was read.
#[derive(Clone, Copy, Debug)]
pub enum StoredPiece<'a> {
    Bytes(&'a [u8]),
    /// So many bytes that could not be read.
    Missing(usize),
}

/// A row without its line end, in pieces.
#[derive(Debug)]
pub struct StoredRow<'a> {
    pub visible_ix: usize,
    pub pieces: Vec<StoredPiece<'a>>,
}

/// A piece of a row, as text.
#[derive(Clone, Copy, Debug)]
pub enum TextPiece<'a> {
    Text(&'a str),
    /// So many bytes that are no text.
    Gap(usize),
}

/// A row without its line end, in pieces of text; reading may have stopped before
/// its end.
#[derive(Debug)]
pub struct TextRow<'a> {
    pub visible_ix: usize,
    pub len: usize,
    pub pieces: Vec<TextPiece<'a>>,
}

/// The length of a row without a return at its end.
pub fn normalized_file_diff_line_text_len(len: usize, last_byte: Option<u8>) -> (row_len: usize)
    ensures
        row_len == (if len > 0 && last_byte == Some(13u8) {
            len - 1
        } else {
            len as int
        }),
{
    if len == 0 {
        return 0;
    }
    match last_byte {
        Some(byte) => if byte == 13 {
            len - 1
        } else {
            len
        },
        None => len,
    }
}

pub open spec fn stored_len(piece: StoredPiece<'_>) -> nat {
    match piece {
        StoredPiece::Bytes(bytes) => bytes@.len(),
        StoredPiece::Missing(len) => len as nat,
    }
}

/// The length of the pieces from one on.
pub open spec fn stored_rest(pieces: Seq<StoredPiece<'_>>, k: int) -> nat
    decreases pieces.len() - k,
{
    if !(0 <= k < pieces.len()) {
        0
    } else {
        stored_len(pieces[k]) + stored_rest(pieces, k + 1)
    }
}

/// The length of the first rows, with a line end behind each.
pub open spec fn stored_total(rows: Seq<StoredRow<'_>>, n: int) -> nat
    decreases n,
{
    if n <= 0 {
        0
    } else {
        stored_total(rows, n - 1) + stored_rest(rows[n - 1].pieces@, 0) + 1
    }
}

/// Leaves out bytes.
pub open spec fn stream_skipped(progress: crate::search::stream::StreamProgress, count: int) -> crate::search::stream::StreamProgress {
    crate::search::stream::StreamProgress {
        seen: Seq::empty(),
        at: progress.at + count,
        pending: None,
        after: Seq::empty(),
        ..progress
    }
}

/// Takes a row from a piece on, until the row is reported.
pub open spec fn stored_row_taken(
    literal: crate::search::stream::StreamLiteral,
    progress: crate::search::stream::StreamProgress,
    out: Seq<usize>,
    row: StoredRow<'_>,
    k: int,
) -> (crate::search::stream::StreamProgress, Seq<usize>)
    decreases row.pieces@.len() - k,
{
    if !(0 <= k < row.pieces@.len()) {
        (progress, out)
    } else {
        let (next, more) = match row.pieces@[k] {
            StoredPiece::Bytes(bytes) => crate::search::stream::bytes_taken(
                literal,
                progress,
                out,
                bytes@,
            ),
            StoredPiece::Missing(len) => (stream_skipped(progress, len as int), out),
        };
        if next.reported == Some(row.visible_ix) {
            (stream_skipped(next, stored_rest(row.pieces@, k + 1) as int), more)
        } else {
            stored_row_taken(literal, next, more, row, k + 1)
        }
    }
}

/// Takes the first rows, one on each line.
pub open spec fn stored_rows_taken(
    literal: crate::search::stream::StreamLiteral,
    rows: Seq<StoredRow<'_>>,
    out: Seq<usize>,
    n: int,
) -> (crate::search::stream::StreamProgress, Seq<usize>)
    decreases n,
{
    if n <= 0 {
        (
            crate::search::stream::StreamProgress {
                seen: Seq::empty(),
                at: 0,
                rows: Seq::empty(),
                pending: None,
                after: Seq::empty(),
                reported: None,
            },
            out,
        )
    } else {
        let (before, upto) = stored_rows_taken(literal, rows, out, n - 1);
        let (broken, more) = if n > 1 {
            crate::search::stream::byte_taken(literal, before, upto, 10)
        } else {
            (before, upto)
        };
        let started = crate::search::stream::StreamProgress {
            rows: broken.rows.push((broken.at as usize, rows[n - 1].visible_ix)),
            ..broken
        };
        stored_row_taken(literal, started, more, rows[n - 1], 0)
    }
}

/// The rows in which a literal is found; at the end nothing follows what still
/// waits for the character behind it.
pub open spec fn stored_hits(
    literal: crate::search::stream::StreamLiteral,
    rows: Seq<StoredRow<'_>>,
    out: Seq<usize>,
) -> Seq<usize> {
    let (last, upto) = stored_rows_taken(literal, rows, out, rows.len() as int);
    match last.pending {
        Some(at) => crate::search::stream::row_reported_at(last, upto, at).1,
        None => upto,
    }
}

proof fn lemma_bytes_move_on(
    literal: crate::search::stream::StreamLiteral,
    progress: crate::search::stream::StreamProgress,
    out: Seq<usize>,
    bytes: Seq<u8>,
)
    ensures
        crate::search::stream::bytes_taken(literal, progress, out, bytes).0.at == progress.at
            + bytes.len(),
        crate::search::stream::bytes_taken(literal, progress, out, bytes).0.rows == progress.rows,
    decreases bytes.len(),
{
    if bytes.len() > 0 {
        lemma_bytes_move_on(literal, progress, out, bytes.drop_last());
        let (before, upto) = crate::search::stream::bytes_taken(
            literal,
            progress,
            out,
            bytes.drop_last(),
        );
        crate::search::stream::lemma_byte_moves_on(literal, before, upto, bytes.last());
    }
}

fn push_stored_row(
    search: &mut LiteralFileDiffLineTextStreamSearch,
    row: &StoredRow<'_>,
    out: &mut Vec<usize>,
)
    requires
        old(search).wf(),
        old(search)@.at + stored_rest(row.pieces@, 0) <= usize::MAX,
    ensures
        final(search).wf(),
        final(search).literal() == old(search).literal(),
        (final(search)@, final(out)@) == stored_row_taken(
            old(search).literal(),
            old(search)@,
            old(out)@,
            *row,
            0,
        ),
        final(search)@.at == old(search)@.at + stored_rest(row.pieces@, 0),
        final(search)@.rows == old(search)@.rows,
{
    let ghost literal = search.literal();
    let ghost whole = stored_row_taken(literal, search@, out@, *row, 0);
    let ghost end = search@.at + stored_rest(row.pieces@, 0);
    let ghost starts = search@.rows;
    let mut k: usize = 0;
    while k < row.pieces.len()
        invariant
            search.wf(),
            search.literal() == literal,
            literal == old(search).literal(),
            whole == stored_row_taken(literal, old(search)@, old(out)@, *row, 0),
            end == old(search)@.at + stored_rest(row.pieces@, 0),
            starts == old(search)@.rows,
            0 <= k <= row.pieces@.len(),
            stored_row_taken(literal, search@, out@, *row, k as int) == whole,
            search@.at + stored_rest(row.pieces@, k as int) == end,
            search@.rows == starts,
            end <= usize::MAX,
        decreases row.pieces@.len() - k,
    {
        match row.pieces[k] {
            StoredPiece::Bytes(bytes) => {
                proof {
                    lemma_bytes_move_on(literal, search@, out@, bytes@);
                }
                search.push_bytes(bytes, out);
            },
            StoredPiece::Missing(len) => {
                search.skip_bytes_until_next_row(len);
            },
        }
        k += 1;
        if search.row_reported(row.visible_ix) {
            proof {
                search.lemma_shape();
            }
            let rest = rest_len(row, k);
            search.skip_bytes_until_next_row(rest);
            return;
        }
    }
}

/// The length of the pieces from one on.
fn rest_len(row: &StoredRow<'_>, from: usize) -> (len: usize)
    requires
        from <= row.pieces@.len(),
        stored_rest(row.pieces@, from as int) <= usize::MAX,
    ensures
        len == stored_rest(row.pieces@, from as int),
{
    let mut len: usize = 0;
    let mut k: usize = from;
    while k < row.pieces.len()
        invariant
            from <= k <= row.pieces@.len(),
            len + stored_rest(row.pieces@, k as int) == stored_rest(row.pieces@, from as int),
            stored_rest(row.pieces@, from as int) <= usize::MAX,
        decreases row.pieces@.len() - k,
    {
        let piece_len = match row.pieces[k] {
            StoredPiece::Bytes(bytes) => bytes.len(),
            StoredPiece::Missing(missing) => missing,
        };
        len = len + piece_len;
        k += 1;
    }
    len
}

proof fn lemma_total_grows(rows: Seq<StoredRow<'_>>, n: int, m: int)
    requires
        0 <= n <= m,
    ensures
        stored_total(rows, n) <= stored_total(rows, m),
    decreases m - n,
{
    if n < m {
        lemma_total_grows(rows, n, m - 1);
    }
}

/// Collects the rows in which a literal is found, of rows that need not be text.
pub fn collect_stored_rows(
    rows: &[StoredRow<'_>],
    matcher: &DiffSearchMatcher,
    out: &mut Vec<usize>,
)
    requires
        stored_total(rows@, rows@.len() as int) <= usize::MAX,
    ensures
        final(out)@ == (if matcher@.options.regex || matcher@.query.len() == 0 {
            old(out)@
        } else {
            stored_hits(crate::search::literal_rows::literal_of(matcher@), rows@, old(out)@)
        }),
{
    let mut search = match LiteralFileDiffLineTextStreamSearch::new(matcher) {
        Some(search) => search,
        None => {
            return;
        },
    };
    let ghost literal = crate::search::literal_rows::literal_of(matcher@);
    let ghost before = out@;
    let len = rows.len();
    let mut i: usize = 0;
    while i < len
        invariant
            len == rows@.len(),
            0 <= i <= len,
            search.wf(),
            search.literal() == literal,
            search@.rows.len() == i,
            stored_total(rows@, len as int) <= usize::MAX,
            search@.at + (if i > 0 {
                1int
            } else {
                0
            }) == stored_total(rows@, i as int),
            (search@, out@) == stored_rows_taken(literal, rows@, before, i as int),
        decreases len - i,
    {
        proof {
            search.lemma_shape();
            lemma_total_grows(rows@, i + 1, len as int);
        }
        if search.has_rows() {
            proof {
                crate::search::stream::lemma_byte_moves_on(literal, search@, out@, 10);
            }
            search.push_byte(10, out);
        }
        search.push_row_start(rows[i].visible_ix);
        push_stored_row(&mut search, &rows[i], out);
        i += 1;
    }
    search.finish(out);
}

pub open spec fn text_len(piece: TextPiece<'_>) -> nat {
    match piece {
        TextPiece::Text(text) => vstd::utf8::encode_utf8(text@).len(),
        TextPiece::Gap(len) => len as nat,
    }
}

/// The length of the first pieces.
pub open spec fn text_upto(pieces: Seq<TextPiece<'_>>, k: int) -> nat
    decreases k,
{
    if k <= 0 {
        0
    } else {
        text_upto(pieces, k - 1) + text_len(pieces[k - 1])
    }
}

/// The length of the first rows, with a line end behind each.
pub open spec fn text_total(rows: Seq<TextRow<'_>>, n: int) -> nat
    decreases n,
{
    if n <= 0 {
        0
    } else {
        text_total(rows, n - 1) + rows[n - 1].len as nat + 1
    }
}

/// Takes a row of text from a piece on, until the row is reported.
pub open spec fn text_row_taken(
    sought: crate::search::matcher::Sought,
    progress: crate::search::pattern_rows::PatternProgress,
    out: Seq<usize>,
    row: TextRow<'_>,
    k: int,
) -> (crate::search::pattern_rows::PatternProgress, Seq<usize>)
    decreases row.pieces@.len() - k,
{
    if !(0 <= k < row.pieces@.len()) {
        (progress, out)
    } else {
        let (next, more) = match row.pieces@[k] {
            TextPiece::Text(text) => if text@.len() > 0 {
                crate::search::pattern_rows::text_taken(sought, progress, out, text@)
            } else {
                (progress, out)
            },
            TextPiece::Gap(_) => (progress, out),
        };
        if next.reported == Some(row.visible_ix) {
            (
                crate::search::pattern_rows::bytes_skipped(
                    next,
                    row.len - text_upto(row.pieces@, k + 1),
                ),
                more,
            )
        } else {
            text_row_taken(sought, next, more, row, k + 1)
        }
    }
}

/// Takes the first rows of text, one on each line.
pub open spec fn text_rows_taken(
    sought: crate::search::matcher::Sought,
    rows: Seq<TextRow<'_>>,
    out: Seq<usize>,
    n: int,
) -> (crate::search::pattern_rows::PatternProgress, Seq<usize>)
    decreases n,
{
    if n <= 0 {
        (crate::search::pattern_rows::no_pattern_progress(), out)
    } else {
        let (before, upto) = text_rows_taken(sought, rows, out, n - 1);
        let (broken, more) = if n > 1 {
            crate::search::pattern_rows::text_taken(sought, before, upto, seq!['\n'])
        } else {
            (before, upto)
        };
        let started = crate::search::pattern_rows::PatternProgress {
            rows: broken.rows.push((broken.at as usize, rows[n - 1].visible_ix)),
            ..broken
        };
        text_row_taken(sought, started, more, rows[n - 1], 0)
    }
}

/// The rows in which a match of a pattern starts, as the window finds them.
pub open spec fn text_row_hits(
    sought: crate::search::matcher::Sought,
    rows: Seq<TextRow<'_>>,
    out: Seq<usize>,
) -> Seq<usize> {
    let (last, upto) = text_rows_taken(sought, rows, out, rows.len() as int);
    crate::search::pattern_rows::window_scanned(sought, last, true, upto, 0).1
}

proof fn lemma_text_upto_grows(pieces: Seq<TextPiece<'_>>, n: int, m: int)
    requires
        0 <= n <= m,
    ensures
        text_upto(pieces, n) <= text_upto(pieces, m),
    decreases m - n,
{
    if n < m {
        lemma_text_upto_grows(pieces, n, m - 1);
    }
}

proof fn lemma_text_total_grows(rows: Seq<TextRow<'_>>, n: int, m: int)
    requires
        0 <= n <= m,
    ensures
        text_total(rows, n) <= text_total(rows, m),
    decreases m - n,
{
    if n < m {
        lemma_text_total_grows(rows, n, m - 1);
    }
}

fn push_text_row(
    search: &mut RegexFileDiffLineTextStreamSearch<'_>,
    row: &TextRow<'_>,
    out: &mut Vec<usize>,
)
    requires
        old(search).wf(),
        text_upto(row.pieces@, row.pieces@.len() as int) <= row.len,
        old(search)@.at + row.len <= usize::MAX,
    ensures
        final(search).wf(),
        final(search).sought() == old(search).sought(),
        (final(search)@, final(out)@) == text_row_taken(
            old(search).sought(),
            old(search)@,
            old(out)@,
            *row,
            0,
        ),
        final(search)@.at <= old(search)@.at + row.len,
        final(search)@.rows == old(search)@.rows,
{
    let ghost sought = search.sought();
    let ghost whole = text_row_taken(sought, search@, out@, *row, 0);
    let ghost start = search@.at;
    let ghost starts = search@.rows;
    let mut k: usize = 0;
    let mut chunk_start: usize = 0;
    while k < row.pieces.len()
        invariant
            search.wf(),
            search.sought() == sought,
            sought == old(search).sought(),
            whole == text_row_taken(sought, old(search)@, old(out)@, *row, 0),
            start == old(search)@.at,
            starts == old(search)@.rows,
            0 <= k <= row.pieces@.len(),
            text_upto(row.pieces@, row.pieces@.len() as int) <= row.len,
            chunk_start == text_upto(row.pieces@, k as int),
            chunk_start <= row.len,
            start <= search@.at <= start + chunk_start,
            start + row.len <= usize::MAX,
            search@.rows == starts,
            text_row_taken(sought, search@, out@, *row, k as int) == whole,
        decreases row.pieces@.len() - k,
    {
        proof {
            lemma_text_upto_grows(row.pieces@, k + 1, row.pieces@.len() as int);
        }
        match row.pieces[k] {
            TextPiece::Text(text) => {
                proof {
                    crate::search::matcher::lemma_empty_text(text@);
                }
                let len = text.as_bytes().len();
                if !text.is_empty() {
                    proof {
                        crate::search::pattern_rows::lemma_text_moves_on(
                            sought,
                            search@,
                            out@,
                            text@,
                        );
                    }
                    search.push_str(text, out);
                }
                chunk_start = chunk_start + len;
            },
            TextPiece::Gap(len) => {
                chunk_start = chunk_start + len;
            },
        }
        k += 1;
        if search.row_reported(row.visible_ix) {
            search.skip_bytes_until_next_row(row.len - chunk_start);
            return;
        }
    }
}

/// Collects the rows in which a match of a pattern starts, of rows with gaps.
pub fn collect_text_rows(rows: &[TextRow<'_>], matcher: &DiffSearchMatcher, out: &mut Vec<usize>)
    requires
        matcher.wf(),
        text_total(rows@, rows@.len() as int) <= usize::MAX,
        forall|i: int|
            0 <= i < rows@.len() ==> text_upto(
                (#[trigger] rows@[i]).pieces@,
                rows@[i].pieces@.len() as int,
            ) <= rows@[i].len,
    ensures
        final(out)@ == text_row_hits(matcher@, rows@, old(out)@),
{
    let mut search = RegexFileDiffLineTextStreamSearch::new(matcher);
    let ghost before = out@;
    let len = rows.len();
    let mut i: usize = 0;
    while i < len
        invariant
            len == rows@.len(),
            0 <= i <= len,
            search.wf(),
            search.sought() == matcher@,
            search@.rows.len() == i,
            text_total(rows@, len as int) <= usize::MAX,
            search@.at + (if i > 0 {
                1int
            } else {
                0
            }) <= text_total(rows@, i as int),
            forall|i: int|
                0 <= i < rows@.len() ==> text_upto(
                    (#[trigger] rows@[i]).pieces@,
                    rows@[i].pieces@.len() as int,
                ) <= rows@[i].len,
            (search@, out@) == text_rows_taken(matcher@, rows@, before, i as int),
        decreases len - i,
    {
        proof {
            search.lemma_shape();
            lemma_text_total_grows(rows@, i + 1, len as int);
            reveal_strlit("\n");
            assert("\n"@ =~= seq!['\n']);
            crate::search::joined::lemma_ascii_is_itself('\n');
            if i > 0 {
                crate::search::pattern_rows::lemma_text_moves_on(
                    matcher@,
                    search@,
                    out@,
                    seq!['\n'],
                );
            }
        }
        if search.has_rows() {
            search.push_str("\n", out);
        }
        search.push_row_start(rows[i].visible_ix);
        push_text_row(&mut search, &rows[i], out);
        i += 1;
    }
    search.finish(out);
}

} // verus!
