//! Long rows, searched in pieces.
use crate::num::less_usize;
use crate::num::min_usize;
use crate::search::bytes::first_occurrence;
use crate::search::bytes::folded;
use crate::search::bytes::holds;
use crate::search::bytes::lemma_first_occurrence;
use crate::search::bytes::lemma_match_cuts_no_char;
use crate::search::bytes::matches_at;
use crate::search::bytes::occurs_at;
use crate::search::joined::hit_rows;
use crate::search::joined::row_bytes;
use crate::search::joined::row_chars;
use crate::search::joined::whole;
use crate::search::literal_rows::collect_file_diff_line_text_literal_stream_match_visible_rows;
use crate::search::literal_rows::literal_of;
use crate::search::literal_rows::numbers_differ;
use crate::search::literal_rows::FILE_PREVIEW_SEARCH_SCAN_CHUNK_BYTES;
use crate::search::matcher::found;
use crate::search::matcher::DiffSearchMatcher;
use crate::search::needle::AsciiCaseInsensitiveNeedle;
use crate::search::pattern_rows::collect_file_diff_line_text_regex_stream_match_visible_rows;
use crate::search::pattern_rows::cut_at_or_before;
use crate::search::pattern_rows::lemma_cut_goes_on;
use crate::search::pattern_rows::pattern_hits;
use crate::utf::lemma_text_is_valid;
use crate::utf::text_between;
use vstd::prelude::*;
use vstd::string::*;
use vstd::utf8::encode_utf8;
use vstd::utf8::is_char_boundary;
use vstd::utf8::valid_utf8;

verus! {

/// Collects the rows in which a match starts, without putting the rows together.
pub fn collect_file_diff_line_text_stream_match_visible_rows(
    rows: &[(usize, &str)],
    matcher: &DiffSearchMatcher,
    out: &mut Vec<usize>,
)
    requires
        matcher.wf(),
        numbers_differ(row_bytes(row_chars(rows@))),
        whole(row_bytes(row_chars(rows@))).len() <= usize::MAX,
    ensures
        final(out)@ == (if matcher@.options.regex {
            pattern_hits(matcher@, row_bytes(row_chars(rows@)), old(out)@)
        } else if matcher@.query.len() == 0 {
            old(out)@
        } else {
            old(out)@ + hit_rows(row_bytes(row_chars(rows@)), literal_of(matcher@), rows@.len() as int)
        }),
{
    if matcher.options.regex {
        collect_file_diff_line_text_regex_stream_match_visible_rows(rows, matcher, out);
    } else {
        collect_file_diff_line_text_literal_stream_match_visible_rows(rows, matcher, out);
        assert(old(out)@ + Seq::empty() =~= old(out)@);
    }
}

/// The nearest cut between characters at a place or behind it.
fn cut_at_or_behind(text: &str, at: usize) -> (cut: usize)
    requires
        at <= text.spec_bytes().len(),
    ensures
        at <= cut <= text.spec_bytes().len(),
        is_char_boundary(text.spec_bytes(), cut as int),
        forall|i: int| at <= i < cut ==> !is_char_boundary(text.spec_bytes(), i),
{
    let len = text.as_bytes().len();
    proof {
        lemma_text_is_valid(text);
        vstd::utf8::is_char_boundary_start_end_of_seq(text.spec_bytes());
    }
    let mut cut = at;
    while cut < len && !text.is_char_boundary(cut)
        invariant
            len == text.spec_bytes().len(),
            at <= cut <= len,
            is_char_boundary(text.spec_bytes(), len as int),
            forall|i: int| at <= i < cut ==> !is_char_boundary(text.spec_bytes(), i),
        ensures
            at <= cut <= len,
            is_char_boundary(text.spec_bytes(), cut as int),
            forall|i: int| at <= i < cut ==> !is_char_boundary(text.spec_bytes(), i),
        decreases len - cut,
    {
        cut += 1;
    }
    cut
}

/// A literal stands in a stretch of a text just when it stands in the text
/// within that stretch.
proof fn lemma_holds_in_part(text: Seq<u8>, needle: Seq<u8>, from: int, to: int)
    requires
        0 <= from <= to <= text.len(),
    ensures
        holds(text.subrange(from, to), needle, false) <==> exists|at: int|
            from <= at && at + needle.len() <= to && #[trigger] matches_at(text, needle, false, at),
{
    let part = text.subrange(from, to);
    if holds(part, needle, false) {
        let at = choose|at: int| #[trigger] matches_at(part, needle, false, at);
        let place = from + at;
        assert forall|k: int| 0 <= k < needle.len() implies folded(
            #[trigger] text[place + k],
            false,
        ) == folded(needle[k], false) by {
            assert(part[at + k] == text[place + k]);
        }
        assert(matches_at(text, needle, false, place));
    }
    if exists|at: int|
        from <= at && at + needle.len() <= to && #[trigger] matches_at(text, needle, false, at) {
        let place = choose|at: int|
            from <= at && at + needle.len() <= to && #[trigger] matches_at(
                text,
                needle,
                false,
                at,
            );
        let at = place - from;
        assert forall|k: int| 0 <= k < needle.len() implies folded(
            #[trigger] part[at + k],
            false,
        ) == folded(needle[k], false) by {
            assert(part[at + k] == text[place + k]);
        }
        assert(matches_at(part, needle, false, at));
    }
}

/// Looks for a literal in a long line, piece by piece. The pieces overlap by as
/// much as a match can hang over, and none of them cuts a character.
pub fn line_text_chunks_any(text: &str, query: AsciiCaseInsensitiveNeedle<'_>) -> (answer: bool)
    requires
        query.wf(),
    ensures
        answer == holds(text.spec_bytes(), query.bytes@, false),
{
    let ghost bytes = text.spec_bytes();
    let ghost needle = query.bytes@;
    let len = text.as_bytes().len();
    let overlap = query.as_bytes().len() - 1;
    let mut start: usize = 0;
    proof {
        lemma_text_is_valid(text);
        vstd::utf8::is_char_boundary_start_end_of_seq(bytes);
    }
    while start < len
        invariant
            query.wf(),
            bytes == text.spec_bytes(),
            needle == query.bytes@,
            valid_utf8(bytes),
            len == bytes.len(),
            overlap == needle.len() - 1,
            0 <= start <= len,
            is_char_boundary(bytes, start as int),
            forall|at: int|
                at + needle.len() <= start ==> !#[trigger] matches_at(bytes, needle, false, at),
        decreases len - start,
    {
        let wanted = start + min_usize(len - start, FILE_PREVIEW_SEARCH_SCAN_CHUNK_BYTES);
        let from = cut_at_or_behind(text, less_usize(start, overlap));
        let end = cut_at_or_before(text, wanted);
        proof {
            lemma_cut_goes_on(bytes, start as int, wanted as int);
            assert(from <= start) by {
                if from > start {
                    assert(!is_char_boundary(bytes, start as int));
                }
            }
        }
        let chunk = text_between(text, from, end);
        proof {
            let part = bytes.subrange(from as int, end as int);
            crate::search::pattern_rows::lemma_part_is_text(bytes, from as int, end as int);
            vstd::utf8::decode_utf8_encode_utf8(part);
            assert(chunk.spec_bytes() == part);
            lemma_holds_in_part(bytes, needle, from as int, end as int);
        }
        if query.is_match(chunk) {
            return true;
        }
        proof {
            assert forall|at: int| at + needle.len() <= end implies !#[trigger] matches_at(
                bytes,
                needle,
                false,
                at,
            ) by {
                if matches_at(bytes, needle, false, at) {
                    lemma_match_cuts_no_char(bytes, needle, false, at);
                    assert(at >= start - overlap);
                    assert(at >= from);
                }
            }
        }
        start = end;
    }
    assert forall|at: int| !#[trigger] matches_at(bytes, needle, false, at) by {
        if matches_at(bytes, needle, false, at) {
            assert(at + needle.len() <= start);
        }
    }
    false
}

/// Whether a line of the output holds a literal.
pub fn resolved_output_line_ix_matches_query(
    raw_text: &str,
    query: AsciiCaseInsensitiveNeedle<'_>,
) -> (answer: bool)
    requires
        query.wf(),
    ensures
        answer == holds(raw_text.spec_bytes(), query.bytes@, false),
{
    if raw_text.as_bytes().len() <= FILE_PREVIEW_SEARCH_SCAN_CHUNK_BYTES {
        return query.is_match(raw_text);
    }
    line_text_chunks_any(raw_text, query)
}

/// A plain query is found in a text just when the text holds it.
pub proof fn lemma_plain_found(matcher: &DiffSearchMatcher, text: Seq<char>)
    requires
        matcher.wf(),
        matcher@.is_plain(),
        matcher@.query.len() > 0,
    ensures
        (found(matcher@, text, 0) is Some) == holds(encode_utf8(text), matcher@.bytes(), false),
{
    let bytes = encode_utf8(text);
    let needle = matcher@.bytes();
    lemma_first_occurrence(bytes, needle, false, false, 0);
    assert(!matcher@.refused);
    if holds(bytes, needle, false) {
        let at = choose|at: int| #[trigger] matches_at(bytes, needle, false, at);
        assert(occurs_at(bytes, needle, false, false, at));
    }
    if found(matcher@, text, 0) is Some {
        let at = first_occurrence(bytes, needle, false, false, 0)->Some_0;
        assert(occurs_at(bytes, needle, false, false, at));
        assert(matches_at(bytes, needle, false, at));
    }
}

/// Whether a row holds a plain query.
pub fn matches_text(matcher: &DiffSearchMatcher, text: &str) -> (answer: bool)
    requires
        matcher.wf(),
        matcher@.is_plain(),
    ensures
        answer == (found(matcher@, text@, 0) is Some),
{
    match AsciiCaseInsensitiveNeedle::new(matcher.query()) {
        Some(query) => {
            proof {
                lemma_plain_found(matcher, text@);
            }
            line_text_chunks_any(text, query)
        },
        None => false,
    }
}

} // verus!
