//! The header line that opens a hunk of a unified diff.
use crate::outside::char_is_whitespace;
use crate::outside::whitespace_char;
use vstd::prelude::*;

verus! {

/// The characters of a string, one by one.
pub fn chars_of(text: &str) -> (chars: Vec<char>)
    ensures
        chars@ == text@,
{
    let mut chars: Vec<char> = Vec::new();
    for c in iter: text.chars()
        invariant
            iter.seq() == text@,
            chars@ == text@.take(iter.index()),
    {
        chars.push(c);
        assert(chars@ =~= text@.take(iter.index() + 1));
    }
    assert(text@.take(text@.len() as int) =~= text@);
    chars
}

/// The first position from `i` on that holds no whitespace.
pub open spec fn after_spaces(s: Seq<char>, i: int) -> int
    decreases s.len() - i,
{
    if 0 <= i < s.len() && whitespace_char(s[i]) {
        after_spaces(s, i + 1)
    } else {
        i
    }
}

/// The end of the run without whitespace that starts at `i`.
pub open spec fn word_end(s: Seq<char>, i: int) -> int
    decreases s.len() - i,
{
    if 0 <= i < s.len() && !whitespace_char(s[i]) {
        word_end(s, i + 1)
    } else {
        i
    }
}

/// The position of the first `@@` from `i` on, or the end where there is none.
pub open spec fn marker_position(s: Seq<char>, i: int) -> int
    decreases s.len() - i,
{
    if 0 <= i && i + 1 < s.len() && !(s[i] == '@' && s[i + 1] == '@') {
        marker_position(s, i + 1)
    } else if 0 <= i && i + 1 < s.len() {
        i
    } else {
        s.len() as int
    }
}

/// The position of the first comma from `i` on, or the end.
pub open spec fn comma_position(s: Seq<char>, i: int) -> int
    decreases s.len() - i,
{
    if 0 <= i < s.len() && s[i] != ',' {
        comma_position(s, i + 1)
    } else {
        i
    }
}

pub open spec fn is_digit(c: char) -> bool {
    '0' <= c && c <= '9'
}

/// The number that `acc` grows to when the digits from `i` on are appended to
/// it; `None` where one of them is no digit.
pub open spec fn digits_value(s: Seq<char>, i: int, acc: nat) -> Option<nat>
    decreases s.len() - i,
{
    if !(0 <= i < s.len()) {
        Some(acc)
    } else if is_digit(s[i]) {
        digits_value(s, i + 1, (acc * 10 + (s[i] as int - '0' as int)) as nat)
    } else {
        None
    }
}

/// The `u32` that a decimal numeral stands for: one digit or more, after an
/// optional plus sign, of a value that fits.
pub open spec fn decimal_u32(s: Seq<char>) -> Option<u32> {
    let first = if s.len() > 0 && s[0] == '+' {
        1int
    } else {
        0int
    };
    if first >= s.len() {
        None
    } else {
        match digits_value(s, first, 0) {
            Some(v) => if v <= u32::MAX {
                Some(v as u32)
            } else {
                None
            },
            None => None,
        }
    }
}

/// The line number in a range such as `-12,4`: the numeral between the sign and
/// the comma, in a word that starts with `sign`.
pub open spec fn range_start(word: Seq<char>, sign: char) -> Option<u32> {
    if word.len() == 0 || word[0] != sign {
        None
    } else {
        decimal_u32(word.subrange(1, comma_position(word, 1)))
    }
}

/// The two first lines that a hunk header names: its text up to the second
/// `@@` holds a word that starts with `-` and then one that starts with `+`.
pub open spec fn hunk_start(text: Seq<char>) -> Option<(u32, u32)> {
    if text.len() < 2 || text[0] != '@' || text[1] != '@' {
        None
    } else {
        let body = text.subrange(2, marker_position(text, 2));
        let a = after_spaces(body, 0);
        let b = word_end(body, a);
        let c = after_spaces(body, b);
        let d = word_end(body, c);
        match (range_start(body.subrange(a, b), '-'), range_start(body.subrange(c, d), '+')) {
            (Some(old_start), Some(new_start)) => Some((old_start, new_start)),
            _ => None,
        }
    }
}

proof fn lemma_digits_value_grows(s: Seq<char>, i: int, acc: nat)
    requires
        0 <= i <= s.len(),
    ensures
        digits_value(s, i, acc) matches Some(v) ==> v >= acc,
    decreases s.len() - i,
{
    if i < s.len() && is_digit(s[i]) {
        lemma_digits_value_grows(s, i + 1, (acc * 10 + (s[i] as int - '0' as int)) as nat);
    }
}

fn skip_spaces(s: &Vec<char>, from: usize) -> (at: usize)
    requires
        from <= s@.len(),
    ensures
        at == after_spaces(s@, from as int),
        from <= at <= s@.len(),
{
    let mut i: usize = from;
    while i < s.len() && char_is_whitespace(s[i])
        invariant
            from <= i <= s@.len(),
            after_spaces(s@, i as int) == after_spaces(s@, from as int),
        decreases s@.len() - i,
    {
        i += 1;
    }
    i
}

fn skip_word(s: &Vec<char>, from: usize) -> (at: usize)
    requires
        from <= s@.len(),
    ensures
        at == word_end(s@, from as int),
        from <= at <= s@.len(),
{
    let mut i: usize = from;
    while i < s.len() && !char_is_whitespace(s[i])
        invariant
            from <= i <= s@.len(),
            word_end(s@, i as int) == word_end(s@, from as int),
        decreases s@.len() - i,
    {
        i += 1;
    }
    i
}

fn copy_chars(s: &Vec<char>, from: usize, to: usize) -> (part: Vec<char>)
    requires
        from <= to <= s@.len(),
    ensures
        part@ == s@.subrange(from as int, to as int),
{
    let mut part: Vec<char> = Vec::new();
    let mut i: usize = from;
    while i < to
        invariant
            from <= i <= to <= s@.len(),
            part@ == s@.subrange(from as int, i as int),
        decreases to - i,
    {
        part.push(s[i]);
        i += 1;
        assert(part@ =~= s@.subrange(from as int, i as int));
    }
    part
}

fn parse_decimal(s: &Vec<char>) -> (value: Option<u32>)
    ensures
        value == decimal_u32(s@),
{
    let first: usize = if s.len() > 0 && s[0] == '+' {
        1
    } else {
        0
    };
    if first >= s.len() {
        return None;
    }
    let mut acc: u64 = 0;
    let mut i: usize = first;
    while i < s.len()
        invariant
            first <= i <= s@.len(),
            first < s@.len(),
            first == (if s@.len() > 0 && s@[0] == '+' {
                1int
            } else {
                0int
            }),
            acc <= u32::MAX,
            digits_value(s@, i as int, acc as nat) == digits_value(s@, first as int, 0),
        decreases s@.len() - i,
    {
        let c = s[i];
        if !('0' <= c && c <= '9') {
            return None;
        }
        let digit: u64 = (c as u32 - '0' as u32) as u64;
        acc = acc * 10 + digit;
        i += 1;
        proof {
            lemma_digits_value_grows(s@, i as int, acc as nat);
        }
        if acc > 0xffff_ffff {
            return None;
        }
    }
    Some(acc as u32)
}

fn parse_range_start(word: &Vec<char>, sign: char) -> (start: Option<u32>)
    ensures
        start == range_start(word@, sign),
{
    if word.len() == 0 || word[0] != sign {
        return None;
    }
    let mut i: usize = 1;
    while i < word.len() && word[i] != ','
        invariant
            1 <= i <= word@.len(),
            comma_position(word@, i as int) == comma_position(word@, 1),
        decreases word@.len() - i,
    {
        i += 1;
    }
    let digits = copy_chars(word, 1, i);
    parse_decimal(&digits)
}

/// Reads the first old and the first new line off a hunk header.
pub fn parse_hunk_start(text: &str) -> (start: Option<(u32, u32)>)
    ensures
        start == hunk_start(text@),
{
    let chars = chars_of(text);
    if chars.len() < 2 || chars[0] != '@' || chars[1] != '@' {
        return None;
    }
    let mut end: usize = 2;
    while chars.len() - end > 1 && !(chars[end] == '@' && chars[end + 1] == '@')
        invariant
            2 <= end <= chars@.len(),
            marker_position(chars@, end as int) == marker_position(chars@, 2),
        decreases chars@.len() - end,
    {
        end += 1;
    }
    if chars.len() - end <= 1 {
        end = chars.len();
    }
    let body = copy_chars(&chars, 2, end);
    let a = skip_spaces(&body, 0);
    let b = skip_word(&body, a);
    let c = skip_spaces(&body, b);
    let d = skip_word(&body, c);
    let old_word = copy_chars(&body, a, b);
    let new_word = copy_chars(&body, c, d);
    match (parse_range_start(&old_word, '-'), parse_range_start(&new_word, '+')) {
        (Some(old_start), Some(new_start)) => Some((old_start, new_start)),
        _ => None,
    }
}

} // verus!
