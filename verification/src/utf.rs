//! Cutting texts between characters.
use vstd::prelude::*;
use vstd::string::*;
use vstd::utf8::decode_utf8;
use vstd::utf8::is_char_boundary;
use vstd::utf8::length_of_first_scalar;
use vstd::utf8::pop_first_scalar;
use vstd::utf8::valid_utf8;

verus! {

/// The characters of a stretch of bytes.
pub open spec fn chars_within(bytes: Seq<u8>, start: int, end: int) -> Seq<char> {
    decode_utf8(bytes.subrange(start, end))
}

pub proof fn lemma_text_is_valid(text: &str)
    ensures
        valid_utf8(text.spec_bytes()),
{
    vstd::utf8::encode_utf8_valid_utf8(text@);
}

/// A character starts behind a byte that is a character of its own.
pub proof fn lemma_boundary_after_ascii(bytes: Seq<u8>, at: int)
    requires
        valid_utf8(bytes),
        0 <= at < bytes.len(),
        bytes[at] < 128,
    ensures
        is_char_boundary(bytes, at + 1),
        is_char_boundary(bytes, at),
    decreases bytes.len(),
{
    vstd::utf8::is_char_boundary_iff_not_is_continuation_byte(bytes, at);
    let first = length_of_first_scalar(bytes);
    if at < first {
        reveal_with_fuel(is_char_boundary, 2);
    } else {
        let rest = pop_first_scalar(bytes);
        assert(rest[at - first] == bytes[at]);
        lemma_boundary_after_ascii(rest, at - first);
    }
}

/// Where a character starts stays so when a text is cut before it.
pub proof fn lemma_boundary_in_rest(bytes: Seq<u8>, cut: int, at: int)
    requires
        valid_utf8(bytes),
        cut <= at,
        is_char_boundary(bytes, cut),
        is_char_boundary(bytes, at),
    ensures
        0 <= cut <= bytes.len(),
        at <= bytes.len(),
        valid_utf8(bytes.subrange(cut, bytes.len() as int)),
        is_char_boundary(bytes.subrange(cut, bytes.len() as int), at - cut),
    decreases bytes.len(),
{
    if cut == 0 {
        assert(bytes.subrange(0, bytes.len() as int) =~= bytes);
        if at != 0 {
            reveal_with_fuel(is_char_boundary, 2);
        }
    } else {
        vstd::utf8::valid_utf8_split(bytes, cut);
        let first = length_of_first_scalar(bytes);
        let rest = pop_first_scalar(bytes);
        lemma_boundary_in_rest(rest, cut - first, at - first);
        assert(rest.subrange(cut - first, rest.len() as int) =~= bytes.subrange(
            cut,
            bytes.len() as int,
        ));
    }
}

/// The bytes of a text between two places at which characters start.
pub fn text_between(text: &str, start: usize, end: usize) -> (part: &str)
    requires
        start <= end,
        is_char_boundary(text.spec_bytes(), start as int),
        is_char_boundary(text.spec_bytes(), end as int),
    ensures
        part.spec_bytes() == text.spec_bytes().subrange(start as int, end as int),
        part@ == chars_within(text.spec_bytes(), start as int, end as int),
{
    proof {
        lemma_text_is_valid(text);
        lemma_boundary_in_rest(text.spec_bytes(), start as int, end as int);
    }
    let (_, rest) = text.split_at(start);
    let (part, _) = rest.split_at(end - start);
    proof {
        assert(part.spec_bytes() =~= text.spec_bytes().subrange(start as int, end as int));
        vstd::utf8::encode_utf8_decode_utf8(part@);
    }
    part
}

} // verus!
