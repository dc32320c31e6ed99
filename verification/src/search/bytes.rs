//! Where a literal occurs in a text.
use crate::diff::hunk_header::chars_of;
use crate::outside::alphanumeric_char;
use crate::outside::char_is_alphanumeric;
use crate::outside::first_byte;
use crate::outside::first_of_two_bytes;
use crate::utf::lemma_boundary_in_rest;
use crate::utf::lemma_text_is_valid;
use crate::utf::text_between;
use std::ops::Range;
use vstd::prelude::*;
use vstd::string::*;
use vstd::utf8::decode_utf8;
use vstd::utf8::is_char_boundary;
use vstd::utf8::is_continuation_byte;
use vstd::utf8::length_of_first_scalar;
use vstd::utf8::pop_first_scalar;
use vstd::utf8::valid_first_scalar;
use vstd::utf8::valid_utf8;

verus! {

/// A capital letter of ASCII as a small one, any other byte as it is.
pub open spec fn lower_byte(byte: u8) -> u8 {
    if 65 <= byte <= 90 {
        (byte + 32) as u8
    } else {
        byte
    }
}

pub open spec fn upper_byte(byte: u8) -> u8 {
    if 97 <= byte <= 122 {
        (byte - 32) as u8
    } else {
        byte
    }
}

/// A byte as it is compared.
pub open spec fn folded(byte: u8, match_case: bool) -> u8 {
    if match_case {
        byte
    } else {
        lower_byte(byte)
    }
}

pub fn to_lower(byte: u8) -> (lower: u8)
    ensures
        lower == lower_byte(byte),
{
    if 65 <= byte && byte <= 90 {
        byte + 32
    } else {
        byte
    }
}

pub fn to_upper(byte: u8) -> (upper: u8)
    ensures
        upper == upper_byte(byte),
{
    if 97 <= byte && byte <= 122 {
        byte - 32
    } else {
        byte
    }
}

pub fn folded_search_byte(byte: u8, match_case: bool) -> (byte_as_compared: u8)
    ensures
        byte_as_compared == folded(byte, match_case),
{
    if match_case {
        byte
    } else {
        to_lower(byte)
    }
}

pub open spec fn same_folded(a: Seq<u8>, b: Seq<u8>, match_case: bool) -> bool {
    a.len() == b.len() && forall|k: int|
        0 <= k < a.len() ==> folded(#[trigger] a[k], match_case) == folded(b[k], match_case)
}

/// A literal stands in a text at a byte.
pub open spec fn matches_at(text: Seq<u8>, needle: Seq<u8>, match_case: bool, at: int) -> bool {
    &&& 0 <= at
    &&& at + needle.len() <= text.len()
    &&& forall|k: int|
        0 <= k < needle.len() ==> folded(#[trigger] text[at + k], match_case) == folded(
            needle[k],
            match_case,
        )
}

/// A literal stands somewhere in a text.
pub open spec fn holds(text: Seq<u8>, needle: Seq<u8>, match_case: bool) -> bool {
    exists|at: int| #[trigger] matches_at(text, needle, match_case, at)
}

/// A character that words are made of. The end of a line is none.
pub open spec fn word_char(c: char) -> bool {
    c != '\n' && (alphanumeric_char(c) || c == '_')
}

pub fn is_word_char(ch: char) -> (answer: bool)
    ensures
        answer == word_char(ch),
{
    ch != '\n' && (char_is_alphanumeric(ch) || ch == '_')
}

/// A word goes on before a byte.
pub open spec fn word_before(text: Seq<u8>, at: int) -> bool {
    let chars = decode_utf8(text.subrange(0, at));
    chars.len() > 0 && word_char(chars.last())
}

/// A word goes on from a byte.
pub open spec fn word_after(text: Seq<u8>, at: int) -> bool {
    let chars = decode_utf8(text.subrange(at, text.len() as int));
    chars.len() > 0 && word_char(chars.first())
}

/// A stretch is no part of a longer word.
pub open spec fn stands_alone(text: Seq<u8>, start: int, end: int) -> bool {
    !word_before(text, start) && !word_after(text, end)
}

/// A literal occurs in a text at a byte, as a whole word where that is asked.
pub open spec fn occurs_at(
    text: Seq<u8>,
    needle: Seq<u8>,
    match_case: bool,
    whole_word: bool,
    at: int,
) -> bool {
    matches_at(text, needle, match_case, at) && (whole_word ==> stands_alone(
        text,
        at,
        at + needle.len(),
    ))
}

/// The first occurrence from a byte on.
pub open spec fn first_occurrence(
    text: Seq<u8>,
    needle: Seq<u8>,
    match_case: bool,
    whole_word: bool,
    from: int,
) -> Option<int>
    decreases text.len() - from,
{
    if from < 0 || from + needle.len() > text.len() {
        None
    } else if occurs_at(text, needle, match_case, whole_word, from) {
        Some(from)
    } else if from >= text.len() {
        None
    } else {
        first_occurrence(text, needle, match_case, whole_word, from + 1)
    }
}

pub proof fn lemma_first_occurrence(
    text: Seq<u8>,
    needle: Seq<u8>,
    match_case: bool,
    whole_word: bool,
    from: int,
)
    requires
        0 <= from,
    ensures
        match first_occurrence(text, needle, match_case, whole_word, from) {
            Some(at) => from <= at && occurs_at(text, needle, match_case, whole_word, at)
                && forall|i: int|
                from <= i < at ==> !#[trigger] occurs_at(text, needle, match_case, whole_word, i),
            None => forall|i: int|
                from <= i ==> !#[trigger] occurs_at(text, needle, match_case, whole_word, i),
        },
    decreases text.len() - from,
{
    if from + needle.len() <= text.len() && !occurs_at(
        text,
        needle,
        match_case,
        whole_word,
        from,
    ) && from < text.len() {
        lemma_first_occurrence(text, needle, match_case, whole_word, from + 1);
    }
}

pub proof fn lemma_first_occurrence_is(
    text: Seq<u8>,
    needle: Seq<u8>,
    match_case: bool,
    whole_word: bool,
    from: int,
    at: int,
)
    requires
        0 <= from <= at,
        occurs_at(text, needle, match_case, whole_word, at),
        forall|i: int|
            from <= i < at ==> !#[trigger] occurs_at(text, needle, match_case, whole_word, i),
    ensures
        first_occurrence(text, needle, match_case, whole_word, from) == Some(at),
{
    lemma_first_occurrence(text, needle, match_case, whole_word, from);
}

pub proof fn lemma_no_occurrence(
    text: Seq<u8>,
    needle: Seq<u8>,
    match_case: bool,
    whole_word: bool,
    from: int,
)
    requires
        0 <= from,
        forall|i: int|
            from <= i ==> !#[trigger] occurs_at(text, needle, match_case, whole_word, i),
    ensures
        first_occurrence(text, needle, match_case, whole_word, from) is None,
{
    lemma_first_occurrence(text, needle, match_case, whole_word, from);
}

/// Text that starts like another one, letters of ASCII in either case, can be
/// cut where the other one ends.
pub proof fn lemma_prefix_ends_char(text: Seq<u8>, needle: Seq<u8>, match_case: bool)
    requires
        valid_utf8(text),
        valid_utf8(needle),
        matches_at(text, needle, match_case, 0),
    ensures
        is_char_boundary(text, needle.len() as int),
    decreases needle.len(),
{
    if needle.len() > 0 {
        assert(folded(text[0int + 0], match_case) == folded(needle[0], match_case));
        let first = length_of_first_scalar(needle);
        assert(valid_first_scalar(needle));
        assert(valid_first_scalar(text));
        if needle.len() > 1 {
            assert(folded(text[0int + 1], match_case) == folded(needle[1], match_case));
        }
        assert(length_of_first_scalar(text) == first);
        let rest = pop_first_scalar(text);
        let needle_rest = pop_first_scalar(needle);
        assert(matches_at(rest, needle_rest, match_case, 0)) by {
            assert forall|k: int| 0 <= k < needle_rest.len() implies folded(
                #[trigger] rest[0 + k],
                match_case,
            ) == folded(needle_rest[k], match_case) by {
                assert(rest[k] == text[0 + (first + k)]);
                assert(needle_rest[k] == needle[first + k]);
            }
        }
        lemma_prefix_ends_char(rest, needle_rest, match_case);
        reveal_with_fuel(is_char_boundary, 2);
    } else {
        reveal_with_fuel(is_char_boundary, 2);
    }
}

/// A literal that is text cuts no character where it stands.
pub proof fn lemma_match_cuts_no_char(
    text: Seq<u8>,
    needle: Seq<u8>,
    match_case: bool,
    at: int,
)
    requires
        valid_utf8(text),
        valid_utf8(needle),
        needle.len() > 0,
        matches_at(text, needle, match_case, at),
    ensures
        is_char_boundary(text, at),
        is_char_boundary(text, at + needle.len()),
{
    assert(folded(text[at + 0], match_case) == folded(needle[0], match_case));
    vstd::utf8::is_char_boundary_start_end_of_seq(needle);
    vstd::utf8::is_char_boundary_iff_not_is_continuation_byte(needle, 0);
    vstd::utf8::is_char_boundary_iff_not_is_continuation_byte(text, at);
    assert(is_continuation_byte(text[at]) == is_continuation_byte(needle[0]));
    vstd::utf8::valid_utf8_split(text, at);
    let rest = text.subrange(at, text.len() as int);
    assert(matches_at(rest, needle, match_case, 0)) by {
        assert forall|k: int| 0 <= k < needle.len() implies folded(
            #[trigger] rest[0 + k],
            match_case,
        ) == folded(needle[k], match_case) by {
            assert(rest[k] == text[at + k]);
        }
    }
    lemma_prefix_ends_char(rest, needle, match_case);
    lemma_boundary_from_rest(text, at, needle.len() as int);
}

/// Where a character starts in what is left of a text, one starts in the text.
pub proof fn lemma_boundary_from_rest(text: Seq<u8>, cut: int, at: int)
    requires
        valid_utf8(text),
        is_char_boundary(text, cut),
        0 <= at,
        0 <= cut <= text.len(),
        is_char_boundary(text.subrange(cut, text.len() as int), at),
    ensures
        is_char_boundary(text, cut + at),
{
    vstd::utf8::valid_utf8_split(text, cut);
    let rest = text.subrange(cut, text.len() as int);
    vstd::utf8::is_char_boundary_start_end_of_seq(text);
    if at < rest.len() {
        vstd::utf8::is_char_boundary_iff_not_is_continuation_byte(rest, at);
        vstd::utf8::is_char_boundary_iff_not_is_continuation_byte(text, cut + at);
        assert(rest[at] == text[cut + at]);
    } else {
        assert(at == rest.len()) by {
            if at > rest.len() {
                reveal_with_fuel(is_char_boundary, 2);
            }
        }
    }
}

/// The nearest place before one at which a character starts.
fn boundary_before(text: &str, at: usize) -> (before: usize)
    requires
        0 < at <= text.spec_bytes().len(),
    ensures
        before < at,
        is_char_boundary(text.spec_bytes(), before as int),
{
    proof {
        lemma_text_is_valid(text);
        vstd::utf8::is_char_boundary_start_end_of_seq(text.spec_bytes());
    }
    let mut before = at - 1;
    while before > 0 && !text.is_char_boundary(before)
        invariant
            before < at,
            is_char_boundary(text.spec_bytes(), 0),
        ensures
            before < at,
            is_char_boundary(text.spec_bytes(), before as int),
        decreases before,
    {
        before -= 1;
    }
    before
}

/// The nearest place behind one at which a character starts.
fn boundary_behind(text: &str, at: usize) -> (behind: usize)
    requires
        at < text.spec_bytes().len(),
    ensures
        at < behind <= text.spec_bytes().len(),
        is_char_boundary(text.spec_bytes(), behind as int),
        forall|i: int| at < i < behind ==> !is_char_boundary(text.spec_bytes(), i),
{
    let len = text.as_bytes().len();
    proof {
        lemma_text_is_valid(text);
        vstd::utf8::is_char_boundary_start_end_of_seq(text.spec_bytes());
    }
    let mut behind = at + 1;
    while behind < len && !text.is_char_boundary(behind)
        invariant
            len == text.spec_bytes().len(),
            at < behind <= len,
            is_char_boundary(text.spec_bytes(), len as int),
            forall|i: int| at < i < behind ==> !is_char_boundary(text.spec_bytes(), i),
        ensures
            at < behind <= len,
            is_char_boundary(text.spec_bytes(), behind as int),
            forall|i: int| at < i < behind ==> !is_char_boundary(text.spec_bytes(), i),
        decreases len - behind,
    {
        behind += 1;
    }
    behind
}

proof fn lemma_some_chars(bytes: Seq<u8>)
    requires
        valid_utf8(bytes),
        bytes.len() > 0,
    ensures
        decode_utf8(bytes).len() > 0,
{
    reveal_with_fuel(decode_utf8, 1);
}

fn has_word_before(text: &str, at: usize) -> (answer: bool)
    requires
        is_char_boundary(text.spec_bytes(), at as int),
        at <= text.spec_bytes().len(),
    ensures
        answer == word_before(text.spec_bytes(), at as int),
{
    let ghost bytes = text.spec_bytes();
    proof {
        lemma_text_is_valid(text);
        vstd::utf8::valid_utf8_split(bytes, at as int);
    }
    if at == 0 {
        assert(bytes.subrange(0, 0) =~= Seq::<u8>::empty());
        return false;
    }
    let before = boundary_before(text, at);
    let chars = chars_of(text_between(text, before, at));
    proof {
        let upto = bytes.subrange(0, at as int);
        lemma_boundary_within(bytes, at as int, before as int);
        vstd::utf8::decode_utf8_split(upto, before as int);
        vstd::utf8::valid_utf8_split(upto, before as int);
        let part = bytes.subrange(before as int, at as int);
        assert(upto.subrange(before as int, upto.len() as int) =~= part);
        lemma_some_chars(part);
        assert(decode_utf8(upto).last() == chars@.last());
    }
    is_word_char(chars[chars.len() - 1])
}

proof fn lemma_boundary_within(bytes: Seq<u8>, cut: int, at: int)
    requires
        valid_utf8(bytes),
        0 <= at < cut <= bytes.len(),
        is_char_boundary(bytes, cut),
        is_char_boundary(bytes, at),
    ensures
        valid_utf8(bytes.subrange(0, cut)),
        is_char_boundary(bytes.subrange(0, cut), at),
{
    vstd::utf8::valid_utf8_split(bytes, cut);
    let upto = bytes.subrange(0, cut);
    vstd::utf8::is_char_boundary_iff_not_is_continuation_byte(bytes, at);
    vstd::utf8::is_char_boundary_iff_not_is_continuation_byte(upto, at);
    assert(upto[at] == bytes[at]);
}

fn has_word_after(text: &str, at: usize) -> (answer: bool)
    requires
        is_char_boundary(text.spec_bytes(), at as int),
        at <= text.spec_bytes().len(),
    ensures
        answer == word_after(text.spec_bytes(), at as int),
{
    let ghost bytes = text.spec_bytes();
    let len = text.as_bytes().len();
    proof {
        lemma_text_is_valid(text);
        vstd::utf8::valid_utf8_split(bytes, at as int);
    }
    if at == len {
        assert(bytes.subrange(at as int, len as int) =~= Seq::<u8>::empty());
        return false;
    }
    let behind = boundary_behind(text, at);
    let chars = chars_of(text_between(text, at, behind));
    proof {
        let rest = bytes.subrange(at as int, len as int);
        lemma_boundary_in_rest(bytes, at as int, behind as int);
        vstd::utf8::decode_utf8_split(rest, behind - at);
        vstd::utf8::valid_utf8_split(rest, behind - at);
        let part = bytes.subrange(at as int, behind as int);
        assert(rest.subrange(0, behind - at) =~= part);
        lemma_some_chars(part);
        assert(decode_utf8(rest).first() == chars@.first());
    }
    is_word_char(chars[0])
}

/// Whether a stretch is no part of a longer word.
pub fn is_alone(text: &str, start: usize, end: usize) -> (answer: bool)
    requires
        start <= text.spec_bytes().len(),
        end <= text.spec_bytes().len(),
        is_char_boundary(text.spec_bytes(), start as int),
        is_char_boundary(text.spec_bytes(), end as int),
    ensures
        answer == stands_alone(text.spec_bytes(), start as int, end as int),
{
    !has_word_before(text, start) && !has_word_after(text, end)
}

/// The next place behind one at which a character starts; none at the end.
pub open spec fn next_boundary(text: Seq<u8>, at: int, behind: int) -> bool {
    at < behind <= text.len() && is_char_boundary(text, behind) && forall|i: int|
        at < i < behind ==> !is_char_boundary(text, i)
}

pub fn next_char_boundary_after(s: &str, ix: usize) -> (behind: Option<usize>)
    requires
        ix >= s.spec_bytes().len() || is_char_boundary(s.spec_bytes(), ix as int),
    ensures
        match behind {
            Some(behind) => ix < s.spec_bytes().len() && next_boundary(
                s.spec_bytes(),
                ix as int,
                behind as int,
            ),
            None => ix >= s.spec_bytes().len(),
        },
{
    if ix >= s.as_bytes().len() {
        return None;
    }
    Some(boundary_behind(s, ix))
}

pub fn stands_folded(
    text: &[u8],
    needle: &[u8],
    match_case: bool,
    at: usize,
) -> (answer: bool)
    requires
        at + needle@.len() <= text@.len(),
        text@.len() <= usize::MAX,
    ensures
        answer == matches_at(text@, needle@, match_case, at as int),
{
    let mut k: usize = 0;
    while k < needle.len()
        invariant
            0 <= k <= needle@.len(),
            at + needle@.len() <= text@.len(),
            text@.len() <= usize::MAX,
            forall|j: int|
                0 <= j < k ==> folded(#[trigger] text@[at + j], match_case) == folded(
                    needle@[j],
                    match_case,
                ),
        decreases needle@.len() - k,
    {
        if folded_search_byte(text[at + k], match_case) != folded_search_byte(
            needle[k],
            match_case,
        ) {
            assert(folded(text@[at + k], match_case) != folded(needle@[k as int], match_case));
            return false;
        }
        k += 1;
    }
    true
}

/// The first place from one on at which a byte can be that of a literal.
pub fn next_candidate(text: &[u8], first: u8, match_case: bool, from: usize, behind: usize) -> (at:
    Option<usize>)
    requires
        from <= behind <= text@.len(),
    ensures
        match at {
            Some(at) => from <= at < behind && folded(text@[at as int], match_case) == folded(
                first,
                match_case,
            ) && forall|i: int|
                from <= i < at ==> folded(#[trigger] text@[i], match_case) != folded(
                    first,
                    match_case,
                ),
            None => forall|i: int|
                from <= i < behind ==> folded(#[trigger] text@[i], match_case) != folded(
                    first,
                    match_case,
                ),
        },
{
    let part = vstd::slice::slice_subrange(text, from, behind);
    let found = if match_case {
        first_byte(first, part)
    } else {
        first_of_two_bytes(to_lower(first), to_upper(first), part)
    };
    match found {
        Some(offset) => {
            proof {
                assert(text@[from + offset] == part@[offset as int]);
                assert forall|i: int| from <= i < from + offset implies folded(
                    #[trigger] text@[i],
                    match_case,
                ) != folded(first, match_case) by {
                    assert(text@[i] == part@[i - from]);
                }
            }
            Some(from + offset)
        },
        None => {
            assert forall|i: int| from <= i < behind implies folded(
                #[trigger] text@[i],
                match_case,
            ) != folded(first, match_case) by {
                assert(text@[i] == part@[i - from]);
            }
            None
        },
    }
}

/// Finds the first occurrence of a literal from a byte on.
pub fn find_literal(
    haystack: &str,
    needle: &str,
    match_case: bool,
    whole_word: bool,
    start_at: usize,
) -> (range: Option<Range<usize>>)
    requires
        needle.spec_bytes().len() > 0,
    ensures
        match range {
            Some(range) => first_occurrence(
                haystack.spec_bytes(),
                needle.spec_bytes(),
                match_case,
                whole_word,
                start_at as int,
            ) == Some(range.start as int) && range.end == range.start + needle.spec_bytes().len()
                && range.end <= haystack.spec_bytes().len(),
            None => first_occurrence(
                haystack.spec_bytes(),
                needle.spec_bytes(),
                match_case,
                whole_word,
                start_at as int,
            ) is None,
        },
{
    let text = haystack.as_bytes();
    let pattern = needle.as_bytes();
    let text_len = text.len();
    let needle_len = pattern.len();
    if needle_len > text_len || start_at > text_len - needle_len {
        proof {
            lemma_no_occurrence(text@, pattern@, match_case, whole_word, start_at as int);
        }
        return None;
    }
    let behind = text_len - needle_len + 1;
    let first = pattern[0];
    let mut from = start_at;
    proof {
        lemma_text_is_valid(haystack);
        lemma_text_is_valid(needle);
    }
    while from < behind
        invariant
            text@ == haystack.spec_bytes(),
            pattern@ == needle.spec_bytes(),
            valid_utf8(text@),
            valid_utf8(pattern@),
            text_len == text@.len(),
            needle_len == pattern@.len(),
            needle_len > 0,
            first == pattern@[0],
            behind == text_len - needle_len + 1,
            start_at <= from <= behind,
            forall|i: int|
                start_at <= i < from ==> !#[trigger] occurs_at(
                    text@,
                    pattern@,
                    match_case,
                    whole_word,
                    i,
                ),
        decreases behind - from,
    {
        match next_candidate(text, first, match_case, from, behind) {
            Some(at) => {
                proof {
                    assert forall|i: int| start_at <= i < at implies !#[trigger] occurs_at(
                        text@,
                        pattern@,
                        match_case,
                        whole_word,
                        i,
                    ) by {
                        if from <= i && matches_at(text@, pattern@, match_case, i) {
                            assert(folded(text@[i + 0], match_case) == folded(
                                pattern@[0],
                                match_case,
                            ));
                        }
                    }
                }
                if stands_folded(text, pattern, match_case, at) {
                    proof {
                        lemma_match_cuts_no_char(text@, pattern@, match_case, at as int);
                    }
                    if !whole_word || is_alone(haystack, at, at + needle_len) {
                        proof {
                            lemma_first_occurrence_is(
                                text@,
                                pattern@,
                                match_case,
                                whole_word,
                                start_at as int,
                                at as int,
                            );
                        }
                        return Some(at..at + needle_len);
                    }
                }
                from = at + 1;
            },
            None => {
                proof {
                    assert forall|i: int| start_at <= i implies !#[trigger] occurs_at(
                        text@,
                        pattern@,
                        match_case,
                        whole_word,
                        i,
                    ) by {
                        if from <= i && matches_at(text@, pattern@, match_case, i) {
                            assert(folded(text@[i + 0], match_case) == folded(
                                pattern@[0],
                                match_case,
                            ));
                        }
                    }
                    lemma_no_occurrence(
                        text@,
                        pattern@,
                        match_case,
                        whole_word,
                        start_at as int,
                    );
                }
                return None;
            },
        }
    }
    proof {
        assert forall|i: int| start_at <= i implies !#[trigger] occurs_at(
            text@,
            pattern@,
            match_case,
            whole_word,
            i,
        ) by {}
        lemma_no_occurrence(text@, pattern@, match_case, whole_word, start_at as int);
    }
    None
}

} // verus!
