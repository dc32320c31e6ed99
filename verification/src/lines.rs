//! Texts as lines: where they start, how many there are, what they hold.
//!
//! Unless said otherwise lines are what stands between newlines, so a trailing
//! newline leaves an empty last line. Offsets count bytes.
use crate::diff::split_meta::as_ints;
use crate::num::less;
use crate::num::less_usize;
use crate::num::max;
use crate::num::max_usize;
use crate::num::min;
use crate::num::min_usize;
use std::ops::Range;
use vstd::prelude::*;
use vstd::string::*;
use vstd::utf8::encode_utf8;
use vstd::utf8::is_char_boundary;

verus! {

pub const NEWLINE: u8 = 10;

pub const TAB: u8 = 9;

pub const LARGE_RESOLVED_OUTLINE_THREE_WAY_PROVENANCE_MAX_LINES: usize = 50000;

pub const LARGE_RESOLVED_OUTLINE_TWO_WAY_PROVENANCE_MAX_LINES: usize = 200000;

pub const PREVIEW_LINE_FLAG_ASCII_ONLY: u8 = 1;

pub const PREVIEW_LINE_FLAG_HAS_TABS: u8 = 2;

#[derive(Clone, Copy, Debug, PartialEq, Eq, Structural)]
pub enum ConflictResolverViewMode {
    ThreeWay,
    TwoWayDiff,
}

/// How many newlines there are.
pub open spec fn newlines(bytes: Seq<u8>) -> nat
    decreases bytes.len(),
{
    if bytes.len() == 0 {
        0
    } else {
        newlines(bytes.drop_last()) + (if bytes.last() == NEWLINE {
            1nat
        } else {
            0nat
        })
    }
}

/// Where each line starts: at the top, and after every newline.
pub open spec fn starts_of(bytes: Seq<u8>) -> Seq<int>
    decreases bytes.len(),
{
    if bytes.len() == 0 {
        seq![0int]
    } else {
        let before = starts_of(bytes.drop_last());
        if bytes.last() == NEWLINE {
            before.push(bytes.len() as int)
        } else {
            before
        }
    }
}

pub proof fn lemma_newlines_bound(bytes: Seq<u8>)
    ensures
        newlines(bytes) <= bytes.len(),
    decreases bytes.len(),
{
    if bytes.len() > 0 {
        lemma_newlines_bound(bytes.drop_last());
    }
}

pub proof fn lemma_newlines_add(a: Seq<u8>, b: Seq<u8>)
    ensures
        newlines(a + b) == newlines(a) + newlines(b),
    decreases b.len(),
{
    if b.len() == 0 {
        assert(a + b =~= a);
    } else {
        assert((a + b).drop_last() =~= a + b.drop_last());
        lemma_newlines_add(a, b.drop_last());
    }
}

/// There is one line more than there are newlines, lines start at the top and
/// right after the newlines, in order.
pub proof fn law_line_starts(bytes: Seq<u8>)
    ensures
        starts_of(bytes).len() == newlines(bytes) + 1,
        starts_of(bytes)[0] == 0,
        forall|i: int|
            1 <= i < starts_of(bytes).len() ==> 1 <= #[trigger] starts_of(bytes)[i] <= bytes.len()
                && bytes[starts_of(bytes)[i] - 1] == NEWLINE,
        forall|i: int, j: int|
            0 <= i < j < starts_of(bytes).len() ==> #[trigger] starts_of(bytes)[i]
                < #[trigger] starts_of(bytes)[j],
        forall|at: int|
            0 <= at < bytes.len() && #[trigger] bytes[at] == NEWLINE ==> starts_of(bytes).contains(
                at + 1,
            ),
    decreases bytes.len(),
{
    if bytes.len() > 0 {
        let shorter = bytes.drop_last();
        law_line_starts(shorter);
        let before = starts_of(shorter);
        let all = starts_of(bytes);
        assert forall|i: int| 1 <= i < all.len() implies 1 <= #[trigger] all[i] <= bytes.len()
            && bytes[all[i] - 1] == NEWLINE by {
            if i < before.len() {
                assert(all[i] == before[i]);
                assert(shorter[before[i] - 1] == NEWLINE);
            }
        }
        assert forall|i: int, j: int| 0 <= i < j < all.len() implies #[trigger] all[i]
            < #[trigger] all[j] by {
            assert(all[i] == before[i]);
            if j < before.len() {
                assert(all[j] == before[j]);
            } else if i > 0 {
                assert(before[i] <= shorter.len());
            }
        }
        assert forall|at: int|
            0 <= at < bytes.len() && #[trigger] bytes[at] == NEWLINE implies all.contains(at + 1) by {
            if at < shorter.len() {
                assert(shorter[at] == NEWLINE);
                assert(before.contains(at + 1));
                let i = choose|i: int| 0 <= i < before.len() && before[i] == at + 1;
                assert(all[i] == at + 1);
            } else {
                assert(all[all.len() - 1] == at + 1);
            }
        }
    }
}

/// Counts the newlines of a text.
pub fn count_newlines(text: &str) -> (count: usize)
    ensures
        count == newlines(text.spec_bytes()),
{
    count_newline_bytes(text.as_bytes())
}

pub fn count_newline_bytes(bytes: &[u8]) -> (count: usize)
    ensures
        count == newlines(bytes@),
{
    let mut count: usize = 0;
    let mut i: usize = 0;
    assert(bytes@.take(0) =~= Seq::empty());
    while i < bytes.len()
        invariant
            0 <= i <= bytes@.len(),
            count <= i,
            count == newlines(bytes@.take(i as int)),
        decreases bytes@.len() - i,
    {
        proof {
            let next = bytes@.take(i + 1);
            assert(next.drop_last() =~= bytes@.take(i as int));
            assert(next.last() == bytes@[i as int]);
        }
        if bytes[i] == NEWLINE {
            count += 1;
        }
        i += 1;
    }
    assert(bytes@.take(bytes@.len() as int) =~= bytes@);
    count
}

/// Where the lines of a text start.
pub fn build_line_starts(text: &str) -> (line_starts: Vec<usize>)
    ensures
        as_ints(line_starts@) == starts_of(text.spec_bytes()),
{
    build_line_starts_with_count(text).0
}

pub fn line_starts_of_bytes(bytes: &[u8]) -> (line_starts: Vec<usize>)
    ensures
        as_ints(line_starts@) == starts_of(bytes@),
{
    let mut line_starts: Vec<usize> = Vec::with_capacity(bytes.len() / 64 + 1);
    line_starts.push(0);
    let mut ix: usize = 0;
    assert(bytes@.take(0) =~= Seq::empty());
    assert(as_ints(line_starts@) =~= seq![0int]);
    while ix < bytes.len()
        invariant
            0 <= ix <= bytes@.len(),
            as_ints(line_starts@) == starts_of(bytes@.take(ix as int)),
        decreases bytes@.len() - ix,
    {
        proof {
            let next = bytes@.take(ix + 1);
            assert(next.drop_last() =~= bytes@.take(ix as int));
            assert(next.last() == bytes@[ix as int]);
        }
        let ghost before = as_ints(line_starts@);
        if bytes[ix] == NEWLINE {
            line_starts.push(ix + 1);
            assert(as_ints(line_starts@) =~= before.push(ix + 1));
        }
        ix += 1;
    }
    assert(bytes@.take(bytes@.len() as int) =~= bytes@);
    line_starts
}

/// Where the lines of a text start, and how many rows it is shown as: none for
/// an empty text.
pub fn build_line_starts_with_count(text: &str) -> (built: (Vec<usize>, usize))
    ensures
        as_ints(built.0@) == starts_of(text.spec_bytes()),
        built.1 == (if text.spec_bytes().len() == 0 {
            0
        } else {
            newlines(text.spec_bytes()) + 1
        }),
{
    let bytes = text.as_bytes();
    let line_starts = line_starts_of_bytes(bytes);
    proof {
        law_line_starts(bytes@);
        assert(as_ints(line_starts@).len() == line_starts@.len());
    }
    let line_count = if bytes.len() == 0 {
        0
    } else {
        line_starts.len()
    };
    (line_starts, line_count)
}

/// The lines one after the other, with a newline between them.
pub open spec fn joined_lines(lines: Seq<String>, n: int) -> Seq<char>
    decreases n,
{
    if n <= 0 {
        Seq::empty()
    } else if n == 1 {
        lines[0]@
    } else {
        joined_lines(lines, n - 1) + "\n"@ + lines[n - 1]@
    }
}

/// The text that lines were taken from, of a length in bytes that tells whether
/// it ended with a newline.
pub open spec fn source_text(lines: Seq<String>, source_len: int) -> Seq<char> {
    let joined = joined_lines(lines, lines.len() as int);
    if encode_utf8(joined).len() < source_len {
        joined + "\n"@
    } else {
        joined
    }
}

fn join_lines(lines: &[String]) -> (text: String)
    ensures
        text@ == joined_lines(lines@, lines@.len() as int),
{
    let mut text = String::new();
    let mut i: usize = 0;
    while i < lines.len()
        invariant
            0 <= i <= lines@.len(),
            text@ == joined_lines(lines@, i as int),
        decreases lines@.len() - i,
    {
        if i > 0 {
            text.append("\n");
        }
        text.append(lines[i].as_str());
        i += 1;
        assert(i == 1 ==> text@ =~= lines@[0]@);
    }
    text
}

/// Puts a text together from its lines.
pub fn preview_source_text_from_lines(lines: &[String], source_len: usize) -> (text: String)
    ensures
        text@ == source_text(lines@, source_len as int),
{
    let mut text = join_lines(lines);
    if text.as_str().as_bytes().len() < source_len {
        text.append("\n");
    }
    text
}

/// Puts a text together from its lines and says where they start. No lines
/// give an empty text without a first line.
pub fn preview_source_text_and_line_starts_from_lines(
    lines: &[String],
    source_len: usize,
) -> (built: (String, Vec<usize>))
    ensures
        lines@.len() == 0 ==> built.0@.len() == 0 && built.1@.len() == 0,
        lines@.len() > 0 ==> built.0@ == source_text(lines@, source_len as int) && as_ints(
            built.1@,
        ) == starts_of(encode_utf8(built.0@)),
{
    if lines.len() == 0 {
        return (String::new(), Vec::new());
    }
    let text = preview_source_text_from_lines(lines, source_len);
    let line_starts = build_line_starts(text.as_str());
    (text, line_starts)
}

pub open spec fn is_ascii_bytes(bytes: Seq<u8>) -> bool {
    forall|i: int| 0 <= i < bytes.len() ==> #[trigger] bytes[i] < 128
}

/// The flags of a line: 1 where it is plain ASCII, plus 2 where it has tabs.
pub open spec fn line_flags(bytes: Seq<u8>) -> u8 {
    ((if is_ascii_bytes(bytes) {
        1int
    } else {
        0int
    }) + (if bytes.contains(TAB) {
        2int
    } else {
        0int
    })) as u8
}

fn bytes_are_ascii(bytes: &[u8]) -> (answer: bool)
    ensures
        answer == is_ascii_bytes(bytes@),
{
    let mut i: usize = 0;
    while i < bytes.len()
        invariant
            0 <= i <= bytes@.len(),
            forall|k: int| 0 <= k < i ==> #[trigger] bytes@[k] < 128,
        decreases bytes@.len() - i,
    {
        if bytes[i] >= 128 {
            return false;
        }
        i += 1;
    }
    true
}

fn bytes_hold(bytes: &[u8], wanted: u8) -> (answer: bool)
    ensures
        answer == bytes@.contains(wanted),
{
    let mut i: usize = 0;
    while i < bytes.len()
        invariant
            0 <= i <= bytes@.len(),
            forall|k: int| 0 <= k < i ==> #[trigger] bytes@[k] != wanted,
        decreases bytes@.len() - i,
    {
        if bytes[i] == wanted {
            assert(bytes@[i as int] == wanted);
            return true;
        }
        i += 1;
    }
    false
}

pub fn preview_line_flags_from_bools(ascii_only: bool, has_tabs: bool) -> (flags: u8)
    ensures
        flags == (if ascii_only {
            1int
        } else {
            0int
        }) + (if has_tabs {
            2int
        } else {
            0int
        }),
{
    let mut flags: u8 = 0;
    assert(0u8 | 1u8 == 1u8) by (bit_vector);
    assert(0u8 | 2u8 == 2u8) by (bit_vector);
    assert(1u8 | 2u8 == 3u8) by (bit_vector);
    if ascii_only {
        flags = flags | PREVIEW_LINE_FLAG_ASCII_ONLY;
    }
    if has_tabs {
        flags = flags | PREVIEW_LINE_FLAG_HAS_TABS;
    }
    flags
}

fn flags_of_bytes(bytes: &[u8]) -> (flags: u8)
    ensures
        flags == line_flags(bytes@),
{
    preview_line_flags_from_bools(bytes_are_ascii(bytes), bytes_hold(bytes, TAB))
}

pub fn preview_line_flags_for_text(text: &str) -> (flags: u8)
    ensures
        flags == line_flags(text.spec_bytes()),
{
    flags_of_bytes(text.as_bytes())
}

pub open spec fn flag_set(flags: u8, flag: u8) -> bool {
    flags & flag != 0
}

pub fn preview_line_is_ascii_without_loading(flags: u8) -> (answer: bool)
    ensures
        answer == flag_set(flags, PREVIEW_LINE_FLAG_ASCII_ONLY),
{
    (flags & PREVIEW_LINE_FLAG_ASCII_ONLY) != 0
}

pub fn preview_line_has_tabs_without_loading(flags: u8) -> (answer: bool)
    ensures
        answer == flag_set(flags, PREVIEW_LINE_FLAG_HAS_TABS),
{
    (flags & PREVIEW_LINE_FLAG_HAS_TABS) != 0
}

/// What is read off the flags of a line is what they were made from.
pub proof fn law_line_flags_read_back(bytes: Seq<u8>)
    ensures
        flag_set(line_flags(bytes), PREVIEW_LINE_FLAG_ASCII_ONLY) == is_ascii_bytes(bytes),
        flag_set(line_flags(bytes), PREVIEW_LINE_FLAG_HAS_TABS) == bytes.contains(TAB),
{
    assert(0u8 & 1u8 == 0u8) by (bit_vector);
    assert(1u8 & 1u8 == 1u8) by (bit_vector);
    assert(2u8 & 1u8 == 0u8) by (bit_vector);
    assert(3u8 & 1u8 == 1u8) by (bit_vector);
    assert(0u8 & 2u8 == 0u8) by (bit_vector);
    assert(1u8 & 2u8 == 0u8) by (bit_vector);
    assert(2u8 & 2u8 == 2u8) by (bit_vector);
    assert(3u8 & 2u8 == 2u8) by (bit_vector);
}

/// How many rows indexed text is shown as.
pub open spec fn indexed_rows(source_len: int, starts: Seq<usize>) -> int {
    if source_len == 0 {
        0
    } else {
        max(starts.len() as int, 1)
    }
}

/// The bytes of a line: from its start up to the newline before the next line.
pub open spec fn indexed_range(starts: Seq<usize>, source_len: int, line_ix: int) -> (int, int) {
    let start = min(
        if line_ix < starts.len() {
            starts[line_ix] as int
        } else {
            source_len
        },
        source_len,
    );
    let end = max(
        min(
            if line_ix + 1 < starts.len() {
                less(starts[line_ix + 1] as int, 1)
            } else {
                source_len
            },
            source_len,
        ),
        start,
    );
    (start, end)
}

pub fn line_start_offset_for_index(
    line_starts: &[usize],
    text_len: usize,
    line_ix: usize,
) -> (offset: usize)
    ensures
        offset == (if line_ix < line_starts@.len() {
            line_starts@[line_ix as int]
        } else {
            text_len
        }),
{
    if line_ix < line_starts.len() {
        line_starts[line_ix]
    } else {
        text_len
    }
}

pub fn indexed_line_count_from_len(source_len: usize, line_starts: &[usize]) -> (count: usize)
    ensures
        count == indexed_rows(source_len as int, line_starts@),
{
    if source_len == 0 {
        0
    } else {
        max_usize(line_starts.len(), 1)
    }
}

pub fn indexed_line_count(text: &str, line_starts: &[usize]) -> (count: usize)
    ensures
        count == indexed_rows(text.spec_bytes().len() as int, line_starts@),
{
    indexed_line_count_from_len(text.as_bytes().len(), line_starts)
}

pub fn indexed_line_byte_range(
    line_starts: &[usize],
    source_len: usize,
    line_ix: usize,
) -> (range: Option<Range<usize>>)
    ensures
        match range {
            Some(range) => line_ix < indexed_rows(source_len as int, line_starts@) && (
                range.start as int,
                range.end as int,
            ) == indexed_range(line_starts@, source_len as int, line_ix as int) && range.start
                <= range.end <= source_len,
            None => line_ix >= indexed_rows(source_len as int, line_starts@),
        },
{
    let line_count = indexed_line_count_from_len(source_len, line_starts);
    if line_ix >= line_count {
        return None;
    }
    let start = min_usize(
        if line_ix < line_starts.len() {
            line_starts[line_ix]
        } else {
            source_len
        },
        source_len,
    );
    let end = max_usize(
        min_usize(
            if line_ix < line_starts.len() && line_ix + 1 < line_starts.len() {
                less_usize(line_starts[line_ix + 1], 1)
            } else {
                source_len
            },
            source_len,
        ),
        start,
    );
    Some(start..end)
}

/// Whether two texts hold the same bytes.
pub fn same_bytes(a: &[u8], b: &[u8]) -> (same: bool)
    ensures
        same == (a@ == b@),
{
    if a.len() != b.len() {
        return false;
    }
    let mut i: usize = 0;
    while i < a.len()
        invariant
            0 <= i <= a@.len(),
            a@.len() == b@.len(),
            forall|k: int| 0 <= k < i ==> #[trigger] a@[k] == b@[k],
        decreases a@.len() - i,
    {
        if a[i] != b[i] {
            assert(a@[i as int] != b@[i as int]);
            return false;
        }
        i += 1;
    }
    assert(a@ =~= b@);
    true
}

/// Whether two texts read the same.
pub fn same_str(a: &str, b: &str) -> (same: bool)
    ensures
        same == (a@ == b@),
        same == (a.spec_bytes() == b.spec_bytes()),
{
    proof {
        vstd::utf8::encode_utf8_decode_utf8(a@);
        vstd::utf8::encode_utf8_decode_utf8(b@);
    }
    same_bytes(a.as_bytes(), b.as_bytes())
}

/// What `get` hands out: the bytes of a range, or nothing where an end of it
/// lies within a character.
pub open spec fn text_within(bytes: Seq<u8>, start: int, end: int) -> Seq<u8> {
    if 0 <= start <= end <= bytes.len() && is_char_boundary(bytes, start) && is_char_boundary(
        bytes,
        end,
    ) {
        bytes.subrange(start, end)
    } else {
        Seq::empty()
    }
}

/// The flags of every row of a text.
pub fn preview_line_flags_from_source(text: &str, line_starts: &[usize]) -> (flags: Vec<u8>)
    ensures
        flags@.len() == indexed_rows(text.spec_bytes().len() as int, line_starts@),
        forall|i: int|
            0 <= i < flags@.len() ==> #[trigger] flags@[i] == ({
                let range = indexed_range(line_starts@, text.spec_bytes().len() as int, i);
                line_flags(text_within(text.spec_bytes(), range.0, range.1))
            }),
{
    let bytes = text.as_bytes();
    let line_count = indexed_line_count_from_len(bytes.len(), line_starts);
    let mut flags: Vec<u8> = Vec::with_capacity(line_count);
    let mut line_ix: usize = 0;
    while line_ix < line_count
        invariant
            0 <= line_ix <= line_count,
            bytes@ == text.spec_bytes(),
            line_count == indexed_rows(bytes@.len() as int, line_starts@),
            flags@.len() == line_ix,
            forall|i: int|
                0 <= i < line_ix ==> #[trigger] flags@[i] == ({
                    let range = indexed_range(line_starts@, bytes@.len() as int, i);
                    line_flags(text_within(bytes@, range.0, range.1))
                }),
        decreases line_count - line_ix,
    {
        let (start, end) = match indexed_line_byte_range(line_starts, bytes.len(), line_ix) {
            Some(range) => (range.start, range.end),
            None => (bytes.len(), bytes.len()),
        };
        let flag = if text.is_char_boundary(start) && text.is_char_boundary(end) {
            flags_of_bytes(vstd::slice::slice_subrange(bytes, start, end))
        } else {
            preview_line_flags_from_bools(true, false)
        };
        flags.push(flag);
        line_ix += 1;
    }
    flags
}

/// How many lines a text has where a trailing newline ends the last line.
pub open spec fn terminated_lines(bytes: Seq<u8>) -> nat {
    if bytes.len() == 0 {
        0
    } else if bytes.last() == NEWLINE {
        newlines(bytes)
    } else {
        newlines(bytes) + 1
    }
}

pub fn source_line_count(text: &str) -> (count: usize)
    ensures
        count == terminated_lines(text.spec_bytes()),
{
    let bytes = text.as_bytes();
    if bytes.len() == 0 {
        return 0;
    }
    let count = count_newline_bytes(bytes);
    if bytes[bytes.len() - 1] == NEWLINE {
        count
    } else {
        proof {
            lemma_newlines_bound(bytes@.drop_last());
        }
        count + 1
    }
}

/// How many lines a text has; at least one.
pub fn split_line_count(text: &str) -> (count: usize)
    requires
        text.spec_bytes().len() < usize::MAX,
    ensures
        count == newlines(text.spec_bytes()) + 1,
{
    proof {
        lemma_newlines_bound(text.spec_bytes());
    }
    count_newlines(text) + 1
}

/// Whether a text is too long for its lines to be traced to their sources.
pub fn should_skip_resolved_outline_provenance(
    view_mode: ConflictResolverViewMode,
    output_line_count: usize,
) -> (skip: bool)
    ensures
        skip == (output_line_count > (match view_mode {
            ConflictResolverViewMode::ThreeWay => {
                LARGE_RESOLVED_OUTLINE_THREE_WAY_PROVENANCE_MAX_LINES
            },
            ConflictResolverViewMode::TwoWayDiff => {
                LARGE_RESOLVED_OUTLINE_TWO_WAY_PROVENANCE_MAX_LINES
            },
        })),
{
    match view_mode {
        ConflictResolverViewMode::ThreeWay => output_line_count
            > LARGE_RESOLVED_OUTLINE_THREE_WAY_PROVENANCE_MAX_LINES,
        ConflictResolverViewMode::TwoWayDiff => output_line_count
            > LARGE_RESOLVED_OUTLINE_TWO_WAY_PROVENANCE_MAX_LINES,
    }
}

/// The bytes of a line of a text, without its newline.
pub open spec fn line_range(bytes: Seq<u8>, line_ix: int) -> (int, int) {
    let starts = starts_of(bytes);
    (
        starts[line_ix],
        if line_ix + 1 < starts.len() {
            starts[line_ix + 1] - 1
        } else {
            bytes.len() as int
        },
    )
}

/// A line starts where a line starts, holds no newline, and ends at one or at
/// the end of the text.
pub proof fn law_line_range(bytes: Seq<u8>, line_ix: int)
    requires
        0 <= line_ix < starts_of(bytes).len(),
    ensures
        ({
            let range = line_range(bytes, line_ix);
            &&& 0 <= range.0 <= range.1 <= bytes.len()
            &&& range.1 == bytes.len() || bytes[range.1] == NEWLINE
            &&& range.0 == 0 || bytes[range.0 - 1] == NEWLINE
            &&& forall|at: int| range.0 <= at < range.1 ==> #[trigger] bytes[at] != NEWLINE
        }),
{
    law_line_starts(bytes);
    let starts = starts_of(bytes);
    let range = line_range(bytes, line_ix);
    if line_ix > 0 {
        assert(1 <= starts[line_ix] <= bytes.len());
    }
    if line_ix + 1 < starts.len() {
        assert(starts[line_ix] < starts[line_ix + 1]);
        assert(1 <= starts[line_ix + 1] <= bytes.len());
    }
    assert forall|at: int| range.0 <= at < range.1 implies #[trigger] bytes[at] != NEWLINE by {
        if bytes[at] == NEWLINE {
            assert(starts.contains(at + 1));
            let j = choose|j: int| 0 <= j < starts.len() && starts[j] == at + 1;
            if j <= line_ix {
                if j < line_ix {
                    assert(starts[j] < starts[line_ix]);
                }
            } else if line_ix + 1 < starts.len() {
                if line_ix + 1 < j {
                    assert(starts[line_ix + 1] < starts[j]);
                }
            }
        }
    }
}

/// Each line but the first starts right after the newline that ends the line
/// before it, so the lines and their newlines make up the text.
pub proof fn law_lines_follow_each_other(bytes: Seq<u8>, line_ix: int)
    requires
        0 <= line_ix,
        line_ix + 1 < starts_of(bytes).len(),
    ensures
        line_range(bytes, line_ix + 1).0 == line_range(bytes, line_ix).1 + 1,
        line_range(bytes, 0).0 == 0,
        line_range(bytes, starts_of(bytes).len() - 1).1 == bytes.len(),
{
    law_line_starts(bytes);
}

pub fn line_content_byte_range_for_index(text: &str, line_ix: usize) -> (range: Option<
    Range<usize>,
>)
    requires
        text.spec_bytes().len() < usize::MAX,
    ensures
        match range {
            Some(range) => line_ix <= newlines(text.spec_bytes()) && (
                range.start as int,
                range.end as int,
            ) == line_range(text.spec_bytes(), line_ix as int),
            None => line_ix > newlines(text.spec_bytes()),
        },
{
    let line_count = split_line_count(text);
    if line_ix >= line_count {
        return None;
    }
    let line_starts = build_line_starts(text);
    let bytes = text.as_bytes();
    let text_len = bytes.len();
    proof {
        law_line_starts(bytes@);
        law_line_range(bytes@, line_ix as int);
        assert(as_ints(line_starts@).len() == line_starts@.len());
        assert(as_ints(line_starts@)[line_ix as int] == line_starts@[line_ix as int]);
        if line_ix + 1 < line_starts@.len() {
            assert(as_ints(line_starts@)[line_ix + 1] == line_starts@[line_ix + 1]);
            assert(starts_of(bytes@)[line_ix as int] < starts_of(bytes@)[line_ix + 1]);
        }
    }
    let start = line_starts[line_ix];
    let mut end = if line_starts.len() - line_ix > 1 {
        min_usize(line_starts[line_ix + 1], text_len)
    } else {
        text_len
    };
    if end > start && bytes[end - 1] == NEWLINE {
        end = end - 1;
    }
    Some(start..end)
}

/// What has to be put at the end of a text to give it one more line.
pub fn append_line_insertion_text(existing: &str, line: &str) -> (inserted: String)
    ensures
        inserted@ == (if existing.spec_bytes().len() > 0 && existing.spec_bytes().last() != NEWLINE {
            "\n"@ + line@ + "\n"@
        } else {
            line@ + "\n"@
        }),
{
    let bytes = existing.as_bytes();
    let mut out = String::new();
    if bytes.len() > 0 && bytes[bytes.len() - 1] != NEWLINE {
        out.append("\n");
    }
    out.append(line);
    out.append("\n");
    assert(Seq::<char>::empty() + line@ =~= line@);
    assert(Seq::<char>::empty() + "\n"@ =~= "\n"@);
    out
}

} // verus!
