//! Single characters at the ends of a stretch of bytes.
use crate::diff::hunk_header::chars_of;
use crate::outside::bytes_as_str;
use crate::search::bytes::is_word_char;
use crate::search::bytes::word_char;
use vstd::prelude::*;
use vstd::utf8::codepoint_width_2;
use vstd::utf8::codepoint_width_4;
use vstd::utf8::decode_first_scalar;
use vstd::utf8::decode_utf8;
use vstd::utf8::encode_utf8;
use vstd::utf8::encode_utf8_decode_utf8;
use vstd::utf8::encode_utf8_valid_utf8;
use vstd::utf8::is_char_boundary;
use vstd::utf8::is_continuation_byte;
use vstd::utf8::length_of_first_scalar;
use vstd::utf8::pop_first_scalar;
use vstd::utf8::valid_first_scalar;
use vstd::utf8::valid_utf8;

verus! {

/// No character takes more bytes.
pub const MAX_UTF8_CHAR_BYTES: usize = 4;

#[derive(Clone, Copy, Debug, PartialEq, Eq, Structural)]
pub enum Utf8CharDecode {
    Complete(char),
    /// The bytes that are there can start a character.
    Incomplete,
    Invalid,
}

/// How many bytes a character has that starts with a byte; none where no
/// character starts with it.
pub open spec fn lead_len(first: u8) -> int {
    if first <= 0x7f {
        1
    } else if 0xc2 <= first <= 0xdf {
        2
    } else if 0xe0 <= first <= 0xef {
        3
    } else if 0xf0 <= first <= 0xf4 {
        4
    } else {
        0
    }
}

pub open spec fn first_char(bytes: Seq<u8>) -> Utf8CharDecode {
    if bytes.len() == 0 {
        Utf8CharDecode::Incomplete
    } else if valid_first_scalar(bytes) {
        Utf8CharDecode::Complete(decode_first_scalar(bytes) as char)
    } else if bytes.len() < lead_len(bytes[0]) {
        Utf8CharDecode::Incomplete
    } else {
        Utf8CharDecode::Invalid
    }
}

proof fn lemma_lead_of_two(a: u8, b: u8)
    by (bit_vector)
    requires
        0xc0 <= a <= 0xc1,
    ensures
        codepoint_width_2(a, b) < 0x80,
{
}

proof fn lemma_lead_of_four(a: u8, b: u8, c: u8, d: u8)
    by (bit_vector)
    requires
        0xf5 <= a <= 0xf7,
    ensures
        codepoint_width_4(a, b, c, d) > 0x10ffff,
{
}

proof fn lemma_valid_lead(bytes: Seq<u8>)
    requires
        bytes.len() > 0,
        valid_first_scalar(bytes),
    ensures
        lead_len(bytes[0]) == length_of_first_scalar(bytes),
        length_of_first_scalar(bytes) <= bytes.len(),
{
    if 0xc0 <= bytes[0] <= 0xc1 {
        lemma_lead_of_two(bytes[0], bytes[1]);
    }
    if 0xf5 <= bytes[0] <= 0xf7 {
        lemma_lead_of_four(bytes[0], bytes[1], bytes[2], bytes[3]);
    }
}

/// The first character of a text.
proof fn lemma_first_of_text(bytes: Seq<u8>)
    requires
        valid_utf8(bytes),
        bytes.len() > 0,
    ensures
        decode_utf8(bytes).len() > 0,
        decode_utf8(bytes)[0] == decode_first_scalar(bytes) as char,
{
}

pub fn decode_first_utf8_char(bytes: &[u8]) -> (decoded: Utf8CharDecode)
    ensures
        decoded == first_char(bytes@),
{
    let len = bytes.len();
    if len == 0 {
        return Utf8CharDecode::Incomplete;
    }
    let first = bytes[0];
    proof {
        if valid_first_scalar(bytes@) {
            lemma_valid_lead(bytes@);
        }
    }
    let expected_len: usize = if first <= 0x7f {
        1
    } else if 0xc2 <= first && first <= 0xdf {
        2
    } else if 0xe0 <= first && first <= 0xef {
        3
    } else if 0xf0 <= first && first <= 0xf4 {
        4
    } else {
        return Utf8CharDecode::Invalid;
    };
    if len < expected_len {
        return Utf8CharDecode::Incomplete;
    }
    let head = vstd::slice::slice_subrange(bytes, 0, expected_len);
    proof {
        assert(valid_first_scalar(head@) == valid_first_scalar(bytes@));
        assert(pop_first_scalar(head@).len() == 0 || !valid_first_scalar(head@)) by {
            if valid_first_scalar(head@) {
                lemma_valid_lead(head@);
            }
        }
        assert(valid_utf8(head@) == valid_first_scalar(head@)) by {
            if valid_first_scalar(head@) {
                assert(valid_utf8(pop_first_scalar(head@)));
            }
        }
    }
    match bytes_as_str(head) {
        Some(text) => {
            proof {
                vstd::utf8::encode_utf8_valid_utf8(text@);
                vstd::utf8::encode_utf8_decode_utf8(text@);
                lemma_first_of_text(head@);
            }
            let chars = chars_of(text);
            Utf8CharDecode::Complete(chars[0])
        },
        None => Utf8CharDecode::Invalid,
    }
}

/// Bytes that are one character and no more.
pub open spec fn one_char(bytes: Seq<u8>) -> bool {
    bytes.len() > 0 && valid_first_scalar(bytes) && length_of_first_scalar(bytes) == bytes.len()
}

/// Bytes end in a character that words are made of.
pub open spec fn ends_in_word(bytes: Seq<u8>) -> bool {
    exists|n: int|
        1 <= n <= bytes.len() && n <= MAX_UTF8_CHAR_BYTES && one_char(#[trigger] bytes.skip(bytes.len() - n)) && word_char(
            decode_first_scalar(bytes.skip(bytes.len() - n)) as char,
        )
}

proof fn lemma_one_last_char(bytes: Seq<u8>, a: int, b: int)
    requires
        1 <= a <= b <= bytes.len(),
        one_char(bytes.skip(bytes.len() - a)),
        one_char(bytes.skip(bytes.len() - b)),
    ensures
        a == b,
{
    let short = bytes.skip(bytes.len() - a);
    let long = bytes.skip(bytes.len() - b);
    if a < b {
        assert(long[b - a] == short[0]);
        assert(is_continuation_byte(long[b - a]));
    }
}

pub fn trailing_utf8_char_is_word(bytes: &[u8]) -> (answer: bool)
    ensures
        answer == ends_in_word(bytes@),
{
    let len = bytes.len();
    let mut n: usize = if len < MAX_UTF8_CHAR_BYTES {
        len
    } else {
        MAX_UTF8_CHAR_BYTES
    };
    while n > 0
        invariant
            len == bytes@.len(),
            n <= len,
            n <= MAX_UTF8_CHAR_BYTES,
            forall|k: int|
                n < k <= bytes@.len() && k <= MAX_UTF8_CHAR_BYTES ==> !one_char(
                    #[trigger] bytes@.skip(bytes@.len() - k),
                ),
        decreases n,
    {
        let tail = vstd::slice::slice_subrange(bytes, len - n, len);
        assert(tail@ =~= bytes@.skip(bytes@.len() - n));
        match decode_first_utf8_char(tail) {
            Utf8CharDecode::Complete(ch) => {
                proof {
                    lemma_valid_lead(tail@);
                }
                if char_len(tail[0]) == n {
                    let word = is_word_char(ch);
                    proof {
                        assert(one_char(bytes@.skip(bytes@.len() - n)));
                        if ends_in_word(bytes@) {
                            let k = choose|k: int|
                                1 <= k <= bytes@.len() && k <= MAX_UTF8_CHAR_BYTES && one_char(
                                    #[trigger] bytes@.skip(bytes@.len() - k),
                                ) && word_char(
                                    decode_first_scalar(bytes@.skip(bytes@.len() - k)) as char,
                                );
                            if k < n {
                                lemma_one_last_char(bytes@, k, n as int);
                            }
                        }
                    }
                    return word;
                }
            },
            _ => {},
        }
        n -= 1;
    }
    false
}

/// How many bytes a character has that starts with a byte.
fn char_len(first: u8) -> (len: usize)
    requires
        lead_len(first) > 0,
    ensures
        len == lead_len(first),
{
    if first <= 0x7f {
        1
    } else if first <= 0xdf {
        2
    } else if first <= 0xef {
        3
    } else {
        4
    }
}

/// A text ends in a word where its last character is one that words are made of.
pub proof fn lemma_text_ends_in_word(bytes: Seq<u8>)
    requires
        valid_utf8(bytes),
    ensures
        ends_in_word(bytes) == (decode_utf8(bytes).len() > 0 && word_char(
            decode_utf8(bytes).last(),
        )),
{
    if bytes.len() > 0 {
        lemma_last_char(bytes);
        let n = choose|n: int|
            1 <= n <= bytes.len() && n <= MAX_UTF8_CHAR_BYTES && one_char(
                #[trigger] bytes.skip(bytes.len() - n),
            ) && decode_utf8(bytes).last() == decode_first_scalar(
                bytes.skip(bytes.len() - n),
            ) as char;
        if ends_in_word(bytes) {
            let k = choose|k: int|
                1 <= k <= bytes.len() && k <= MAX_UTF8_CHAR_BYTES && one_char(
                    #[trigger] bytes.skip(bytes.len() - k),
                ) && word_char(decode_first_scalar(bytes.skip(bytes.len() - k)) as char);
            if k < n {
                lemma_one_last_char(bytes, k, n);
            } else if n < k {
                lemma_one_last_char(bytes, n, k);
            }
        }
    }
}

proof fn lemma_last_char(bytes: Seq<u8>)
    requires
        valid_utf8(bytes),
        bytes.len() > 0,
    ensures
        decode_utf8(bytes).len() > 0,
        exists|n: int|
            1 <= n <= bytes.len() && n <= MAX_UTF8_CHAR_BYTES && one_char(
                #[trigger] bytes.skip(bytes.len() - n),
            ) && decode_utf8(bytes).last() == decode_first_scalar(
                bytes.skip(bytes.len() - n),
            ) as char,
    decreases bytes.len(),
{
    let rest = pop_first_scalar(bytes);
    lemma_valid_lead(bytes);
    if rest.len() == 0 {
        assert(bytes.skip(bytes.len() - bytes.len()) =~= bytes);
        assert(decode_utf8(rest) =~= seq![]);
        assert(one_char(bytes.skip(bytes.len() - bytes.len())));
        assert(decode_utf8(bytes).last() == decode_first_scalar(bytes) as char);
    } else {
        lemma_last_char(rest);
        let n = choose|n: int|
            1 <= n <= rest.len() && n <= MAX_UTF8_CHAR_BYTES && one_char(
                #[trigger] rest.skip(rest.len() - n),
            ) && decode_utf8(rest).last() == decode_first_scalar(rest.skip(rest.len() - n)) as char;
        assert(bytes.skip(bytes.len() - n) =~= rest.skip(rest.len() - n));
        assert(decode_utf8(bytes).last() == decode_utf8(rest).last());
    }
}

/// What is known of a text once some of its bytes are there: nothing before the
/// first character is complete, and then that character.
pub proof fn lemma_first_char_of_part(text: Seq<u8>, n: int)
    requires
        valid_utf8(text),
        0 <= n <= text.len(),
    ensures
        match first_char(text.take(n)) {
            Utf8CharDecode::Complete(c) => text.len() > 0 && decode_utf8(text).len() > 0
                && decode_utf8(text)[0] == c,
            Utf8CharDecode::Incomplete => n == 0 || !is_char_boundary(text, n),
            Utf8CharDecode::Invalid => false,
        },
{
    let part = text.take(n);
    if n > 0 {
        lemma_valid_lead(text);
        let len = length_of_first_scalar(text);
        if n >= len {
            assert(valid_first_scalar(part));
            assert(decode_first_scalar(part) == decode_first_scalar(text));
        } else {
            assert(!valid_first_scalar(part)) by {
                if valid_first_scalar(part) {
                    lemma_valid_lead(part);
                }
            }
            vstd::utf8::is_char_boundary_iff_not_is_continuation_byte(text, n);
        }
    }
}

/// The bytes of a character are one character and no more.
proof fn lemma_encoded_is_one(c: char)
    ensures
        ({
            let bytes = encode_utf8(seq![c]);
            &&& bytes.len() > 0
            &&& valid_first_scalar(bytes)
            &&& decode_first_scalar(bytes) as char == c
            &&& lead_len(bytes[0]) == bytes.len()
        }),
{
    let bytes = encode_utf8(seq![c]);
    encode_utf8_valid_utf8(seq![c]);
    encode_utf8_decode_utf8(seq![c]);
    if bytes.len() == 0 {
        assert(decode_utf8(bytes).len() == 0);
    }
    lemma_first_of_text(bytes);
    lemma_valid_lead(bytes);
    let rest = pop_first_scalar(bytes);
    assert(decode_utf8(bytes) == seq![decode_first_scalar(bytes) as char] + decode_utf8(rest));
    if rest.len() > 0 {
        lemma_first_of_text(rest);
    }
}

/// A character is read back from its bytes, whatever follows them.
pub proof fn law_char_is_read_back(c: char, tail: Seq<u8>)
    ensures
        first_char(encode_utf8(seq![c]) + tail) == Utf8CharDecode::Complete(c),
{
    let bytes = encode_utf8(seq![c]);
    lemma_encoded_is_one(c);
    let all = bytes + tail;
    assert(forall|i: int| 0 <= i < bytes.len() ==> #[trigger] all[i] == bytes[i]);
    lemma_valid_lead(bytes);
}

/// A character whose last bytes are still to come is incomplete, even where none of
/// its bytes has come.
pub proof fn law_cut_char_is_incomplete(c: char, k: int)
    requires
        0 <= k < encode_utf8(seq![c]).len(),
    ensures
        first_char(encode_utf8(seq![c]).take(k)) == Utf8CharDecode::Incomplete,
{
    let bytes = encode_utf8(seq![c]);
    lemma_encoded_is_one(c);
    let cut = bytes.take(k);
    if k > 0 {
        assert(cut[0] == bytes[0]);
        if valid_first_scalar(cut) {
            lemma_valid_lead(cut);
        }
    }
}

/// Bytes whose first one starts no character are invalid, whatever follows it.
pub proof fn law_no_char_starts_so(bytes: Seq<u8>)
    requires
        bytes.len() > 0,
        0x80 <= bytes[0] <= 0xc1 || 0xf5 <= bytes[0],
    ensures
        first_char(bytes) == Utf8CharDecode::Invalid,
{
    if valid_first_scalar(bytes) {
        lemma_valid_lead(bytes);
    }
}

} // verus!
