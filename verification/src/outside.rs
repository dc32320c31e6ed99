//! What the library takes from other crates and from parts of std that have no
//! specification of their own. Nothing in this file is proved: each item says
//! what it believes of the code that it calls.
use crate::diff::patch_rows::AnnotatedDiffLine;
use crate::diff::split_rows::PatchSplitRow;
use regex::Regex;
use regex::RegexBuilder;
use rustc_hash::FxBuildHasher;
use rustc_hash::FxHashMap;
use rustc_hash::FxHasher;
use smallvec::SmallVec;
use std::hash::Hash;
use std::hash::Hasher;
use vstd::prelude::*;
use vstd::std_specs::hash::obeys_key_model;
use vstd::utf8::encode_utf8;
use vstd::utf8::is_char_boundary;
use vstd::utf8::valid_utf8;

verus! {

/// `rustc_hash::FxBuildHasher`, the hasher factory behind `FxHashMap`.
#[verifier::external_type_specification]
#[verifier::external_body]
pub struct ExFxBuildHasher(FxBuildHasher);

/// `HashMap::insert` on a `rustc_hash::FxHashMap`.
///
/// Believed: afterwards the key maps to the value and no other key changed.
/// The value that was there before is dropped.
#[verifier::external_body]
pub(crate) fn fx_insert<K: Eq + Hash, V>(map: &mut FxHashMap<K, V>, key: K, value: V)
    requires
        obeys_key_model::<K>(),
    ensures
        final(map)@ == old(map)@.insert(key, value),
{
    map.insert(key, value);
}

/// `HashMap::get` on a `rustc_hash::FxHashMap`.
///
/// Believed: the value under the key, or `None` where the key is absent.
#[verifier::external_body]
pub(crate) fn fx_get<'a, K: Eq + Hash, V>(map: &'a FxHashMap<K, V>, key: &K) -> (value: Option<
    &'a V,
>)
    requires
        obeys_key_model::<K>(),
    ensures
        value == (if map@.dom().contains(*key) {
            Some(&map@[*key])
        } else {
            None
        }),
{
    map.get(key)
}

/// `HashMap::remove` on a `rustc_hash::FxHashMap`.
///
/// Believed: afterwards the key is absent and no other key changed. The value
/// that was there is handed back.
#[verifier::external_body]
pub(crate) fn fx_remove<K: Eq + Hash, V>(map: &mut FxHashMap<K, V>, key: &K) -> (value: Option<V>)
    requires
        obeys_key_model::<K>(),
    ensures
        final(map)@ == old(map)@.remove(*key),
        value == (if old(map)@.dom().contains(*key) {
            Some(old(map)@[*key])
        } else {
            None
        }),
{
    map.remove(key)
}

/// `HashMap::len` on a `rustc_hash::FxHashMap`.
///
/// Believed: the number of keys that the map holds.
#[verifier::external_body]
pub(crate) fn fx_len<K: Eq + Hash, V>(map: &FxHashMap<K, V>) -> (len: usize)
    requires
        obeys_key_model::<K>(),
    ensures
        len == map@.dom().len(),
{
    map.len()
}

/// `rustc_hash::FxHasher`, a digest under way.
#[verifier::external_type_specification]
#[verifier::external_body]
pub struct ExFxHasher(FxHasher);

/// The one number that an `FxHasher` holds.
pub uninterp spec fn fx_state(hasher: FxHasher) -> usize;

/// Adds a machine word to a state and multiplies the sum, both modulo the word.
pub open spec fn fx_added(state: int, part: int) -> int {
    if usize::BITS == 64 {
        ((state + part) * 0xf1357aea2e62a9c5) % 0x1_0000_0000_0000_0000
    } else {
        ((state + part) * 0x93d765dd) % 0x1_0000_0000
    }
}

/// The state once a number was added: at once, or the lower half before the upper one
/// where words have 32 bits.
pub open spec fn fx_step(state: usize, word: u64) -> usize {
    if usize::BITS == 64 {
        fx_added(state as int, word as int) as usize
    } else {
        fx_added(
            fx_added(state as int, word as int % 0x1_0000_0000),
            word as int / 0x1_0000_0000,
        ) as usize
    }
}

/// The digest of a state: its bits turned to the left, by 26 places or by 15.
pub open spec fn fx_turned(state: usize) -> u64 {
    if usize::BITS == 64 {
        ((state * 0x400_0000) % 0x1_0000_0000_0000_0000 + state as int / 0x40_0000_0000) as u64
    } else {
        ((state * 0x8000) % 0x1_0000_0000 + state as int / 0x2_0000) as u64
    }
}

/// `FxHasher::default`.
///
/// Believed: a new digest starts at zero.
#[verifier::external_body]
pub(crate) fn fx_hasher() -> (hasher: FxHasher)
    ensures
        fx_state(hasher) == 0,
{
    FxHasher::default()
}

/// `Hasher::write_u64` of an `FxHasher`.
///
/// Believed: the number is added to the state, which is then multiplied by a constant;
/// in two halves where machine words have 32 bits.
#[verifier::external_body]
pub(crate) fn fx_write(hasher: &mut FxHasher, word: u64)
    ensures
        fx_state(*final(hasher)) == fx_step(fx_state(*old(hasher)), word),
{
    hasher.write_u64(word);
}

/// The number that an `FxHasher` makes of a string of bytes before it adds it. It
/// multiplies in full width on some targets and in halves on the others; which, `wide`
/// says.
pub uninterp spec fn fx_bytes_word(bytes: Seq<u8>, wide: bool) -> u64;

/// `Hasher::write` of an `FxHasher`.
///
/// Believed: one number is made of the bytes and added as any other. It depends on the
/// bytes alone, but for how the target multiplies.
#[verifier::external_body]
pub(crate) fn fx_write_bytes(hasher: &mut FxHasher, bytes: &[u8])
    ensures
        exists|wide: bool|
            fx_state(*final(hasher)) == fx_step(
                fx_state(*old(hasher)),
                #[trigger] fx_bytes_word(bytes@, wide),
            ),
{
    hasher.write(bytes);
}

/// `Hasher::finish` of an `FxHasher`.
///
/// Believed: the bits of the state, turned.
#[verifier::external_body]
pub(crate) fn fx_finish(hasher: &FxHasher) -> (digest: u64)
    ensures
        digest == fx_turned(fx_state(*hasher)),
{
    hasher.finish()
}

/// The characters with the Unicode property `White_Space`.
pub open spec fn whitespace_char(c: char) -> bool {
    let code = c as u32;
    ||| 0x9 <= code <= 0xd
    ||| code == 0x20
    ||| code == 0x85
    ||| code == 0xa0
    ||| code == 0x1680
    ||| 0x2000 <= code <= 0x200a
    ||| 0x2028 <= code <= 0x2029
    ||| code == 0x202f
    ||| code == 0x205f
    ||| code == 0x3000
}

/// `char::is_whitespace`.
///
/// Believed: it holds of the characters with the Unicode property `White_Space`,
/// and of no others.
#[verifier::external_body]
pub(crate) fn char_is_whitespace(c: char) -> (answer: bool)
    ensures
        answer == whitespace_char(c),
{
    c.is_whitespace()
}

/// Whether `char::is_alphanumeric` holds of a character (the Unicode properties
/// `Alphabetic` and `Numeric`).
pub uninterp spec fn alphanumeric_char(c: char) -> bool;

/// `char::is_alphanumeric`.
///
/// Believed: the answer depends on the character alone.
#[verifier::external_body]
pub(crate) fn char_is_alphanumeric(c: char) -> (answer: bool)
    ensures
        answer == alphanumeric_char(c),
{
    c.is_alphanumeric()
}

/// `String::push`.
///
/// Believed: the character is added at the end.
#[verifier::external_body]
pub(crate) fn string_push(text: &mut String, c: char)
    ensures
        final(text)@ == old(text)@.push(c),
{
    text.push(c);
}

/// `std::str::from_utf8`.
///
/// Believed: bytes are handed out as text where they are valid UTF-8, and not
/// otherwise.
#[verifier::external_body]
pub(crate) fn bytes_as_str<'a>(bytes: &'a [u8]) -> (text: Option<&'a str>)
    ensures
        match text {
            Some(text) => encode_utf8(text@) == bytes@,
            None => !valid_utf8(bytes@),
        },
{
    std::str::from_utf8(bytes).ok()
}

/// The first item of `memchr::memchr_iter`.
///
/// Believed: the first place at which the byte stands.
#[verifier::external_body]
pub(crate) fn first_byte(needle: u8, haystack: &[u8]) -> (at: Option<usize>)
    ensures
        match at {
            Some(at) => at < haystack@.len() && haystack@[at as int] == needle && forall|i: int|
                0 <= i < at ==> #[trigger] haystack@[i] != needle,
            None => forall|i: int| 0 <= i < haystack@.len() ==> #[trigger] haystack@[i] != needle,
        },
{
    memchr::memchr_iter(needle, haystack).next()
}

/// The first item of `memchr::memchr2_iter`.
///
/// Believed: the first place at which one of the two bytes stands.
#[verifier::external_body]
pub(crate) fn first_of_two_bytes(one: u8, other: u8, haystack: &[u8]) -> (at: Option<usize>)
    ensures
        match at {
            Some(at) => at < haystack@.len() && (haystack@[at as int] == one || haystack@[at as int]
                == other) && forall|i: int|
                0 <= i < at ==> #[trigger] haystack@[i] != one && haystack@[i] != other,
            None => forall|i: int|
                0 <= i < haystack@.len() ==> #[trigger] haystack@[i] != one && haystack@[i]
                    != other,
        },
{
    memchr::memchr2_iter(one, other, haystack).next()
}

/// `regex::Regex`, a compiled pattern.
#[verifier::external_type_specification]
#[verifier::external_body]
pub struct ExRegex(Regex);

/// A compiled pattern and what it was compiled from. Only [`compile_regex`]
/// makes one.
pub struct CompiledRegex {
    regex: Regex,
    pattern: String,
    case_insensitive: bool,
    multi_line: bool,
}

impl CompiledRegex {
    /// The pattern, as it was written.
    pub closed spec fn pattern(&self) -> Seq<char> {
        self.pattern@
    }

    /// Whether letters match in either case.
    pub closed spec fn ignores_case(&self) -> bool {
        self.case_insensitive
    }

    /// Whether line anchors match at every line.
    pub closed spec fn anchors_lines(&self) -> bool {
        self.multi_line
    }
}

/// `regex::RegexBuilder::build`.
///
/// Believed: what comes of it is made of this pattern and these settings. Which
/// patterns are refused, and in which words, is left unsaid: that rests on the
/// grammar of patterns, and on a limit on size that machines do not share.
#[verifier::external_body]
pub(crate) fn compile_regex(pattern: &str, case_insensitive: bool, multi_line: bool) -> (compiled:
    Result<CompiledRegex, String>)
    ensures
        compiled matches Ok(regex) ==> regex.pattern() == pattern@ && regex.ignores_case()
            == case_insensitive && regex.anchors_lines() == multi_line,
{
    RegexBuilder::new(pattern)
        .case_insensitive(case_insensitive)
        .multi_line(multi_line)
        .build()
        .map(|regex| CompiledRegex {
            regex,
            pattern: pattern.to_owned(),
            case_insensitive,
            multi_line,
        })
        .map_err(|error| error.to_string())
}

/// Where `regex::Regex::find_at` finds a pattern in a text, from a byte on; letters in
/// either case or not, line anchors at every line or not.
pub uninterp spec fn regex_found(
    pattern: Seq<char>,
    ignores_case: bool,
    anchors_lines: bool,
    text: Seq<char>,
    start: int,
) -> Option<(int, int)>;

/// `regex::Regex::find_at`, by the bounds of the match.
///
/// Believed: the match depends on the pattern with its settings, the text and the start
/// alone. It is not before the start, not turned round, within the text, and cuts no
/// character.
#[verifier::external_body]
pub(crate) fn regex_find_at(regex: &CompiledRegex, text: &str, start: usize) -> (found: Option<
    (usize, usize),
>)
    requires
        start <= encode_utf8(text@).len(),
    ensures
        regex_found(
            regex.pattern(),
            regex.ignores_case(),
            regex.anchors_lines(),
            text@,
            start as int,
        ) == (match found {
            Some((from, to)) => Some((from as int, to as int)),
            None => None,
        }),
        found matches Some((from, to)) ==> start <= from <= to <= encode_utf8(text@).len()
            && is_char_boundary(encode_utf8(text@), from as int) && is_char_boundary(
            encode_utf8(text@),
            to as int,
        ),
{
    regex.regex.find_at(text, start).map(|found| (found.start(), found.end()))
}

/// Split rows in a `smallvec::SmallVec` that keeps one page of them inline.
#[verifier::external_body]
#[derive(Debug)]
pub struct SplitRowBuffer {
    rows: SmallVec<[PatchSplitRow; 256]>,
}

/// The rows that a [`SplitRowBuffer`] holds, first to last.
pub uninterp spec fn split_rows_held(buffer: SplitRowBuffer) -> Seq<PatchSplitRow>;

/// `SmallVec::new`.
///
/// Believed: a new vector holds nothing.
#[verifier::external_body]
pub(crate) fn split_row_buffer() -> (buffer: SplitRowBuffer)
    ensures
        split_rows_held(buffer) == Seq::<PatchSplitRow>::empty(),
{
    SplitRowBuffer { rows: SmallVec::new() }
}

/// `SmallVec::push`.
///
/// Believed: the row is added at the end.
#[verifier::external_body]
pub(crate) fn split_row_buffer_push(buffer: &mut SplitRowBuffer, row: PatchSplitRow)
    ensures
        split_rows_held(*final(buffer)) == split_rows_held(*old(buffer)).push(row),
{
    buffer.rows.push(row);
}

/// `SmallVec::clear`.
///
/// Believed: nothing is left in the vector.
#[verifier::external_body]
pub(crate) fn split_row_buffer_clear(buffer: &mut SplitRowBuffer)
    ensures
        split_rows_held(*final(buffer)) == Seq::<PatchSplitRow>::empty(),
{
    buffer.rows.clear();
}

/// `SmallVec::as_slice`.
///
/// Believed: the slice is what the vector holds.
#[verifier::external_body]
pub(crate) fn split_row_buffer_slice(buffer: &SplitRowBuffer) -> (rows: &[PatchSplitRow])
    ensures
        rows@ == split_rows_held(*buffer),
{
    buffer.rows.as_slice()
}

/// Changed lines that wait for their partners, each with its place in the
/// patch, in a `smallvec::SmallVec` that keeps eight of them inline.
#[verifier::external_body]
#[derive(Debug)]
pub struct PendingLines {
    lines: SmallVec<[(usize, AnnotatedDiffLine); 8]>,
}

/// The lines that a [`PendingLines`] holds, first to last.
pub uninterp spec fn pending_lines_held(buffer: PendingLines) -> Seq<(usize, AnnotatedDiffLine)>;

/// `SmallVec::new`.
///
/// Believed: a new vector holds nothing.
#[verifier::external_body]
pub(crate) fn pending_lines() -> (buffer: PendingLines)
    ensures
        pending_lines_held(buffer) == Seq::<(usize, AnnotatedDiffLine)>::empty(),
{
    PendingLines { lines: SmallVec::new() }
}

/// `SmallVec::push`.
///
/// Believed: the line is added at the end.
#[verifier::external_body]
pub(crate) fn pending_lines_push(buffer: &mut PendingLines, line: (usize, AnnotatedDiffLine))
    ensures
        pending_lines_held(*final(buffer)) == pending_lines_held(*old(buffer)).push(line),
{
    buffer.lines.push(line);
}

/// `SmallVec::clear`.
///
/// Believed: nothing is left in the vector.
#[verifier::external_body]
pub(crate) fn pending_lines_clear(buffer: &mut PendingLines)
    ensures
        pending_lines_held(*final(buffer)) == Seq::<(usize, AnnotatedDiffLine)>::empty(),
{
    buffer.lines.clear();
}

/// `SmallVec::as_slice`.
///
/// Believed: the slice is what the vector holds.
#[verifier::external_body]
pub(crate) fn pending_lines_slice(buffer: &PendingLines) -> (lines: &[(usize, AnnotatedDiffLine)])
    ensures
        lines@ == pending_lines_held(*buffer),
{
    buffer.lines.as_slice()
}

/// Numbers in a `smallvec::SmallVec` that keeps some of them inline.
#[verifier::external_body]
pub struct TrigramBuffer {
    codes: SmallVec<[u32; 64]>,
}

/// The numbers that a [`TrigramBuffer`] holds, first to last.
pub uninterp spec fn trigrams_held(buffer: TrigramBuffer) -> Seq<u32>;

/// `SmallVec::new`.
///
/// Believed: a new vector holds nothing.
#[verifier::external_body]
pub(crate) fn trigram_buffer() -> (buffer: TrigramBuffer)
    ensures
        trigrams_held(buffer) == Seq::<u32>::empty(),
{
    TrigramBuffer { codes: SmallVec::new() }
}

/// `SmallVec::push`.
///
/// Believed: the number is added at the end.
#[verifier::external_body]
pub(crate) fn trigram_buffer_push(buffer: &mut TrigramBuffer, code: u32)
    ensures
        trigrams_held(*final(buffer)) == trigrams_held(*old(buffer)).push(code),
{
    buffer.codes.push(code);
}

/// `SmallVec::clear`.
///
/// Believed: nothing is left.
#[verifier::external_body]
pub(crate) fn trigram_buffer_clear(buffer: &mut TrigramBuffer)
    ensures
        trigrams_held(*final(buffer)) == Seq::<u32>::empty(),
{
    buffer.codes.clear();
}

/// `slice::sort_unstable` on what the vector holds.
///
/// Believed: the same numbers, as often each, are in order.
#[verifier::external_body]
pub(crate) fn trigram_buffer_sort(buffer: &mut TrigramBuffer)
    ensures
        trigrams_held(*final(buffer)).to_multiset() == trigrams_held(*old(buffer)).to_multiset(),
        forall|i: int, j: int|
            0 <= i <= j < trigrams_held(*final(buffer)).len() ==> trigrams_held(*final(buffer))[i]
                <= trigrams_held(*final(buffer))[j],
{
    buffer.codes.sort_unstable();
}

/// Items without those that equal the one before them.
pub open spec fn without_repeats<A>(items: Seq<A>) -> Seq<A>
    decreases items.len(),
{
    if items.len() <= 1 {
        items
    } else if items[items.len() - 2] == items.last() {
        without_repeats(items.drop_last())
    } else {
        without_repeats(items.drop_last()).push(items.last())
    }
}

/// `SmallVec::dedup`.
///
/// Believed: of equal numbers that follow each other the first is kept.
#[verifier::external_body]
pub(crate) fn trigram_buffer_dedup(buffer: &mut TrigramBuffer)
    ensures
        trigrams_held(*final(buffer)) == without_repeats(trigrams_held(*old(buffer))),
{
    buffer.codes.dedup();
}

/// `SmallVec::as_slice`.
///
/// Believed: what the vector holds, first to last.
#[verifier::external_body]
pub(crate) fn trigram_buffer_slice(buffer: &TrigramBuffer) -> (codes: &[u32])
    ensures
        codes@ == trigrams_held(*buffer),
{
    buffer.codes.as_slice()
}

/// `slice::sort_unstable`.
///
/// Believed: the same numbers, as often each, are in order.
#[verifier::external_body]
pub(crate) fn sort_rows(rows: &mut Vec<usize>)
    ensures
        final(rows)@.to_multiset() == old(rows)@.to_multiset(),
        forall|i: int, j: int|
            0 <= i <= j < final(rows)@.len() ==> final(rows)@[i] <= final(rows)@[j],
{
    rows.sort_unstable();
}

/// `Vec::dedup`.
///
/// Believed: of equal numbers that follow each other the first is kept.
#[verifier::external_body]
pub(crate) fn dedup_rows(rows: &mut Vec<usize>)
    ensures
        final(rows)@ == without_repeats(old(rows)@),
{
    rows.dedup();
}

} // verus!
