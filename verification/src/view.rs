//! Small decisions of the pane.
use crate::diff::hunk_header::chars_of;
use crate::diff::visible_rows::DiffVisibleLayoutKey;
use crate::outside::char_is_whitespace;
use crate::outside::whitespace_char;
use std::ops::Range;
use vstd::prelude::*;

verus! {

/// Which sides of a diff a row, or a whole block, changes.
#[derive(Clone, Copy, Debug, PartialEq, Eq, Structural)]
pub struct DiffChangeSides {
    pub removed: bool,
    pub added: bool,
}

impl DiffChangeSides {
    pub fn union(self, other: Self) -> (sides: Self)
        ensures
            sides.removed == (self.removed || other.removed),
            sides.added == (self.added || other.added),
    {
        DiffChangeSides {
            removed: self.removed || other.removed,
            added: self.added || other.added,
        }
    }
}

/// The change last navigated to.
#[derive(Debug)]
pub struct DiffFocusedChangeBlock {
    pub anchor: usize,
    pub rows: Range<usize>,
    pub sides: DiffChangeSides,
    pub layout: DiffVisibleLayoutKey,
}

#[derive(Clone, Copy, Debug, PartialEq, Eq, Structural)]
pub enum DiffChangeSide {
    Removed,
    Added,
}

/// How one row paints its part of the marks round a change.
#[derive(Clone, Copy, Debug, PartialEq, Eq, Structural)]
pub struct FocusedChangeBlockRow {
    pub top: bool,
    pub bottom: bool,
    pub row_sides: DiffChangeSides,
    pub block_sides: DiffChangeSides,
}

impl FocusedChangeBlockRow {
    /// A row is outlined in its own colour; one that changes nothing borrows
    /// that of the block.
    pub fn inline_outline(self) -> (side: DiffChangeSide)
        ensures
            side == (if self.row_sides.removed {
                DiffChangeSide::Removed
            } else if self.row_sides.added || !self.block_sides.removed {
                DiffChangeSide::Added
            } else {
                DiffChangeSide::Removed
            }),
    {
        if self.row_sides.removed {
            DiffChangeSide::Removed
        } else if self.row_sides.added || !self.block_sides.removed {
            DiffChangeSide::Added
        } else {
            DiffChangeSide::Removed
        }
    }

    /// A column is outlined only where the block changes that side.
    pub fn column_outline(self, old_side: bool) -> (side: Option<DiffChangeSide>)
        ensures
            side == (if old_side {
                if self.block_sides.removed {
                    Some(DiffChangeSide::Removed)
                } else {
                    None
                }
            } else if self.block_sides.added {
                Some(DiffChangeSide::Added)
            } else {
                None
            }),
    {
        if old_side {
            if self.block_sides.removed {
                Some(DiffChangeSide::Removed)
            } else {
                None
            }
        } else if self.block_sides.added {
            Some(DiffChangeSide::Added)
        } else {
            None
        }
    }
}

/// The documents that pictures are shown for, by number.
#[derive(Clone, Copy, Debug)]
pub enum RemoteMarkdownImageDocumentSet {
    Nothing,
    Worktree(u64),
    Diff(u64),
    Conflict { base: Option<u64>, ours: Option<u64>, theirs: Option<u64> },
}

fn same_document(a: Option<u64>, b: Option<u64>) -> (same: bool)
    ensures
        same == (a == b),
{
    match (a, b) {
        (Some(a), Some(b)) => a == b,
        (None, None) => true,
        _ => false,
    }
}

impl RemoteMarkdownImageDocumentSet {
    /// Whether two sets are of the very same documents.
    pub fn has_same_identity(&self, other: &Self) -> (same: bool)
        ensures
            same == (*self == *other),
    {
        match (self, other) {
            (
                RemoteMarkdownImageDocumentSet::Nothing,
                RemoteMarkdownImageDocumentSet::Nothing,
            ) => true,
            (
                RemoteMarkdownImageDocumentSet::Worktree(a),
                RemoteMarkdownImageDocumentSet::Worktree(b),
            ) => *a == *b,
            (
                RemoteMarkdownImageDocumentSet::Diff(a),
                RemoteMarkdownImageDocumentSet::Diff(b),
            ) => *a == *b,
            (
                RemoteMarkdownImageDocumentSet::Conflict { base, ours, theirs },
                RemoteMarkdownImageDocumentSet::Conflict {
                    base: other_base,
                    ours: other_ours,
                    theirs: other_theirs,
                },
            ) => same_document(*base, *other_base) && same_document(*ours, *other_ours)
                && same_document(*theirs, *other_theirs),
            _ => false,
        }
    }
}

/// A text without the white space at its start.
pub open spec fn without_leading_space(text: Seq<char>) -> Seq<char>
    decreases text.len(),
{
    if text.len() > 0 && whitespace_char(text.first()) {
        without_leading_space(text.drop_first())
    } else {
        text
    }
}

/// A text without the white space at its end.
pub open spec fn without_trailing_space(text: Seq<char>) -> Seq<char>
    decreases text.len(),
{
    if text.len() > 0 && whitespace_char(text.last()) {
        without_trailing_space(text.drop_last())
    } else {
        text
    }
}

pub open spec fn ascii_lower(c: char) -> char {
    if 'A' <= c <= 'Z' {
        (c as int + 32) as char
    } else {
        c
    }
}

/// A text in the letters of a word, capital or not.
pub open spec fn reads_as(text: Seq<char>, word: Seq<char>) -> bool {
    text.map_values(|c: char| ascii_lower(c)) == word
}

/// A setting that switches something off.
pub open spec fn says_off(value: Seq<char>) -> bool {
    let word = without_trailing_space(without_leading_space(value));
    reads_as(word, "0"@) || reads_as(word, "false"@) || reads_as(word, "off"@) || reads_as(
        word,
        "no"@,
    )
}

fn is_letter(c: char, lower: char) -> (same: bool)
    ensures
        same == (ascii_lower(c) == lower),
{
    if 'A' <= c && c <= 'Z' {
        let code = c as u32 + 32;
        code == lower as u32
    } else {
        c == lower
    }
}

fn chars_read_as(chars: &Vec<char>, start: usize, end: usize, word: &str) -> (answer: bool)
    requires
        start <= end <= chars@.len(),
    ensures
        answer == reads_as(chars@.subrange(start as int, end as int), word@),
{
    let letters = chars_of(word);
    let ghost text = chars@.subrange(start as int, end as int);
    let ghost lowered = text.map_values(|c: char| ascii_lower(c));
    if letters.len() != end - start {
        assert(lowered.len() != word@.len());
        return false;
    }
    let mut i: usize = 0;
    while i < letters.len()
        invariant
            0 <= i <= letters@.len(),
            letters@ == word@,
            start + letters@.len() == end,
            end <= chars@.len(),
            text == chars@.subrange(start as int, end as int),
            lowered == text.map_values(|c: char| ascii_lower(c)),
            forall|k: int| 0 <= k < i ==> #[trigger] lowered[k] == word@[k],
        decreases letters@.len() - i,
    {
        assert(lowered[i as int] == ascii_lower(chars@[start + i]));
        if !is_letter(chars[start + i], letters[i]) {
            return false;
        }
        i += 1;
    }
    assert(lowered =~= word@);
    true
}

/// Whether a setting leaves conflict rows drawn on a canvas: it does unless it
/// says off.
pub fn parse_conflict_canvas_rows_env(value: &str) -> (enabled: bool)
    ensures
        enabled == !says_off(value@),
{
    let chars = chars_of(value);
    let mut start: usize = 0;
    assert(chars@.skip(0) =~= chars@);
    while start < chars.len() && char_is_whitespace(chars[start])
        invariant
            0 <= start <= chars@.len(),
            without_leading_space(chars@) == without_leading_space(chars@.skip(start as int)),
        decreases chars@.len() - start,
    {
        assert(chars@.skip(start as int).drop_first() =~= chars@.skip(start + 1));
        start += 1;
    }
    let ghost word = chars@.skip(start as int);
    let mut end: usize = chars.len();
    assert(chars@.subrange(start as int, end as int) =~= word);
    while end > start && char_is_whitespace(chars[end - 1])
        invariant
            start <= end <= chars@.len(),
            without_trailing_space(word) == without_trailing_space(
                chars@.subrange(start as int, end as int),
            ),
        decreases end,
    {
        assert(chars@.subrange(start as int, end as int).drop_last() =~= chars@.subrange(
            start as int,
            end - 1,
        ));
        end -= 1;
    }
    !(chars_read_as(&chars, start, end, "0") || chars_read_as(&chars, start, end, "false")
        || chars_read_as(&chars, start, end, "off") || chars_read_as(&chars, start, end, "no"))
}

} // verus!
