//! What the small decisions of the pane come to: where it scrolls, which bytes
//! and lines an edit touches, and which settings switch something off.
use crate::num::less;
use crate::num::max;
use crate::num::min;
use crate::num::plus;
use crate::outline::affixes;
use crate::outline::char_affixes;
use crate::outline::common_prefix;
use crate::outline::common_suffix;
use crate::outline::dirty_lines;
use crate::outline::is_sorted;
use crate::outline::law_line_at;
use crate::outline::line_at;
use crate::outline::prefix_boundary;
use crate::outline::remapped;
use crate::outline::shifted;
use crate::outline::suffix_boundary;
use crate::outside::whitespace_char;
use crate::scroll::centered_top;
use crate::scroll::reveal_left;
use crate::scroll::reveal_margin;
use crate::scroll::DiffHorizontalScrollColumn;
use crate::view::ascii_lower;
use crate::view::reads_as;
use crate::view::says_off;
use crate::view::without_leading_space;
use crate::view::without_trailing_space;
use std::ops::Range;
use vstd::prelude::*;
use vstd::utf8::is_char_boundary;

verus! {

/// The smaller of two numbers is one of them and above neither, the larger one
/// of them and below neither. What is taken from a number stops at nothing, and
/// what is added to one stops at the largest index.
pub proof fn law_numbers_stop_at_their_ends(a: int, b: int)
    ensures
        min(a, b) == a || min(a, b) == b,
        min(a, b) <= a && min(a, b) <= b,
        max(a, b) == a || max(a, b) == b,
        max(a, b) >= a && max(a, b) >= b,
        b <= a ==> less(a, b) == a - b,
        a <= b ==> less(a, b) == 0,
        a + b <= usize::MAX ==> plus(a, b) == a + b,
        a + b >= usize::MAX ==> plus(a, b) == usize::MAX,
{
}

/// A row that is scrolled to stands in the middle of the view, half above it
/// and half below up to what rounding takes. Where the top of the text is too
/// near the text is shown from its top, and where its end is too near up to
/// its end.
pub proof fn law_row_comes_to_the_middle(
    row_top: int,
    row_height: int,
    viewport_height: int,
    max_offset_y: int,
)
    requires
        max_offset_y >= 0,
    ensures
        ({
            let top = centered_top(row_top, row_height, viewport_height, max_offset_y);
            let above = 2 * (row_top - top);
            let below = 2 * (top + viewport_height - (row_top + row_height));
            &&& 0 <= top <= max_offset_y
            &&& 0 < top < max_offset_y ==> -2 <= below - above <= 2
            &&& top == 0 && max_offset_y > 0 ==> above <= below + 2
            &&& top == max_offset_y && max_offset_y > 0 ==> below <= above + 2
        }),
{
}

/// A row no higher than the view, within the text, is wholly in view once it is
/// scrolled to.
pub proof fn law_row_scrolled_to_is_in_view(
    row_top: int,
    row_height: int,
    viewport_height: int,
    max_offset_y: int,
)
    requires
        0 <= row_top,
        0 <= row_height <= viewport_height,
        0 <= max_offset_y,
        row_top + row_height <= max_offset_y + viewport_height,
    ensures
        ({
            let top = centered_top(row_top, row_height, viewport_height, max_offset_y);
            top <= row_top && row_top + row_height <= top + viewport_height
        }),
{
}

/// Beside a match that is scrolled to there is room: twenty-four pixels, or a
/// quarter of a view that is too narrow for that.
pub proof fn law_match_has_room_beside_it(viewport_width: int)
    requires
        viewport_width > 0,
    ensures
        4 * 24576 <= viewport_width ==> reveal_margin(viewport_width) == 24 * 1024,
        viewport_width <= 4 * 24576 ==> reveal_margin(viewport_width) == viewport_width / 4,
{
}

/// A match that is in view with room on both sides leaves the view where it is.
/// Any other is scrolled to. One that fits then has its room on both sides, and
/// the view has not moved further than that takes: the room on the side it came
/// from is just that much. One that does not fit is shown from its start.
pub proof fn law_view_moves_no_further_than_needed(
    match_left: int,
    match_right: int,
    viewport_width: int,
    current_x: int,
)
    requires
        viewport_width > 0,
        match_left <= match_right,
    ensures
        ({
            let room = reveal_margin(viewport_width);
            let view_left = -current_x;
            let fits = match_right - match_left + 2 * room <= viewport_width;
            let in_view = view_left + room <= match_left && match_right + room <= view_left
                + viewport_width;
            match reveal_left(match_left, match_right, viewport_width, current_x) {
                None => in_view,
                Some(left) => {
                    &&& !in_view
                    &&& left + room <= match_left
                    &&& fits ==> match_right + room <= left + viewport_width
                    &&& match_left < view_left + room ==> match_left - left == room
                    &&& fits && match_left >= view_left + room ==> left + viewport_width
                        - match_right == room
                    &&& !fits ==> match_left - left == room
                },
            }
        }),
{
}

/// A text spells a word in small letters, each of its letters capital or small.
pub open spec fn spells(text: Seq<char>, word: Seq<char>) -> bool {
    &&& text.len() == word.len()
    &&& forall|i: int|
        0 <= i < word.len() ==> #[trigger] text[i] == word[i] || ('a' <= word[i] <= 'z'
            && text[i] as int == word[i] as int - 32)
}

proof fn lemma_spells(text: Seq<char>, word: Seq<char>)
    requires
        forall|i: int| 0 <= i < word.len() ==> !('A' <= #[trigger] word[i] <= 'Z'),
    ensures
        reads_as(text, word) == spells(text, word),
{
    let lowered = text.map_values(|c: char| ascii_lower(c));
    if reads_as(text, word) {
        assert forall|i: int| 0 <= i < word.len() implies #[trigger] text[i] == word[i] || ('a'
            <= word[i] <= 'z' && text[i] as int == word[i] as int - 32) by {
            assert(lowered[i] == ascii_lower(text[i]));
        }
    }
    if spells(text, word) {
        assert forall|i: int| 0 <= i < word.len() implies lowered[i] == word[i] by {
            assert(lowered[i] == ascii_lower(text[i]));
            assert(text[i] == word[i] || ('a' <= word[i] <= 'z' && text[i] as int == word[i] as int
                - 32));
        }
        assert(lowered =~= word);
    }
}

proof fn lemma_leading(before: Seq<char>, text: Seq<char>)
    requires
        forall|i: int| 0 <= i < before.len() ==> whitespace_char(#[trigger] before[i]),
        text.len() > 0 ==> !whitespace_char(text.first()),
    ensures
        without_leading_space(before + text) == text,
    decreases before.len(),
{
    if before.len() == 0 {
        assert(before + text =~= text);
    } else {
        let rest = before.drop_first();
        assert((before + text).drop_first() =~= rest + text);
        assert((before + text).first() == before[0]);
        assert forall|i: int| 0 <= i < rest.len() implies whitespace_char(#[trigger] rest[i]) by {
            assert(rest[i] == before[i + 1]);
        }
        lemma_leading(rest, text);
    }
}

proof fn lemma_trailing(text: Seq<char>, after: Seq<char>)
    requires
        forall|i: int| 0 <= i < after.len() ==> whitespace_char(#[trigger] after[i]),
        text.len() > 0 ==> !whitespace_char(text.last()),
    ensures
        without_trailing_space(text + after) == text,
    decreases after.len(),
{
    if after.len() == 0 {
        assert(text + after =~= text);
    } else {
        let rest = after.drop_last();
        assert((text + after).drop_last() =~= text + rest);
        assert((text + after).last() == after.last());
        assert(after.last() == after[after.len() - 1]);
        assert forall|i: int| 0 <= i < rest.len() implies whitespace_char(#[trigger] rest[i]) by {
            assert(rest[i] == after[i]);
        }
        lemma_trailing(text, rest);
    }
}

/// A setting says off where it is a nought or spells false, off or no, in
/// letters capital or small, whatever white space stands round it. Anything
/// else does not.
pub proof fn law_four_words_say_off(before: Seq<char>, word: Seq<char>, after: Seq<char>)
    requires
        forall|i: int| 0 <= i < before.len() ==> whitespace_char(#[trigger] before[i]),
        forall|i: int| 0 <= i < after.len() ==> whitespace_char(#[trigger] after[i]),
        word.len() > 0 ==> !whitespace_char(word.first()) && !whitespace_char(word.last()),
        word.len() == 0 ==> after.len() == 0,
    ensures
        says_off(before + word + after) == (spells(word, seq!['0']) || spells(
            word,
            seq!['f', 'a', 'l', 's', 'e'],
        ) || spells(word, seq!['o', 'f', 'f']) || spells(word, seq!['n', 'o'])),
{
    reveal_strlit("0");
    reveal_strlit("false");
    reveal_strlit("off");
    reveal_strlit("no");
    assert(before + word + after =~= before + (word + after));
    if word.len() > 0 {
        assert((word + after).first() == word.first());
    }
    lemma_leading(before, word + after);
    lemma_trailing(word, after);
    assert("0"@ =~= seq!['0']);
    assert("false"@ =~= seq!['f', 'a', 'l', 's', 'e']);
    assert("off"@ =~= seq!['o', 'f', 'f']);
    assert("no"@ =~= seq!['n', 'o']);
    lemma_spells(word, "0"@);
    lemma_spells(word, "false"@);
    lemma_spells(word, "off"@);
    lemma_spells(word, "no"@);
}

proof fn lemma_prefix_ends(a: Seq<u8>, b: Seq<u8>, from: int)
    requires
        0 <= from <= a.len(),
        from <= b.len(),
    ensures
        ({
            let end = common_prefix(a, b, from);
            &&& from <= end <= a.len()
            &&& end <= b.len()
            &&& end == a.len() || end == b.len() || a[end] != b[end]
            &&& forall|k: int| from <= k < end ==> #[trigger] a[k] == b[k]
        }),
    decreases a.len() - from,
{
    if 0 <= from < a.len() && from < b.len() && a[from] == b[from] {
        lemma_prefix_ends(a, b, from + 1);
    }
}

proof fn lemma_suffix_ends(a: Seq<u8>, b: Seq<u8>, room: int, from: int)
    requires
        0 <= from <= room,
        room <= a.len(),
        room <= b.len(),
    ensures
        ({
            let count = common_suffix(a, b, room, from);
            &&& from <= count <= room
            &&& count == room || a[a.len() - 1 - count] != b[b.len() - 1 - count]
            &&& forall|k: int|
                from <= k < count ==> #[trigger] a[a.len() - 1 - k] == b[b.len() - 1 - k]
        }),
    decreases room - from,
{
    if from < room && a[a.len() - 1 - from] == b[b.len() - 1 - from] {
        lemma_suffix_ends(a, b, room, from + 1);
    }
}

/// What two texts are said to share at their starts and ends they do share, and
/// it is as much as can be: behind the shared start, and before the shared end,
/// stand bytes that differ, unless one of the texts has no more.
pub proof fn law_texts_share_as_much_as_can_be(a: Seq<u8>, b: Seq<u8>)
    ensures
        ({
            let (start, end) = affixes(a, b);
            &&& 0 <= start && 0 <= end
            &&& start + end <= a.len() && start + end <= b.len()
            &&& forall|k: int| 0 <= k < start ==> #[trigger] a[k] == b[k]
            &&& forall|k: int| 0 <= k < end ==> #[trigger] a[a.len() - 1 - k] == b[b.len() - 1 - k]
            &&& start == a.len() || start == b.len() || a[start] != b[start]
            &&& start + end == a.len() || start + end == b.len() || a[a.len() - 1 - end]
                != b[b.len() - 1 - end]
        }),
{
    lemma_prefix_ends(a, b, 0);
    let start = common_prefix(a, b, 0);
    lemma_suffix_ends(a, b, min(a.len() as int, b.len() as int) - start, 0);
}

proof fn lemma_prefix_boundary_is_last(a: Seq<u8>, b: Seq<u8>, at: int)
    requires
        at >= 0,
    ensures
        0 <= prefix_boundary(a, b, at) <= at,
        forall|k: int|
            prefix_boundary(a, b, at) < k <= at ==> !(#[trigger] is_char_boundary(a, k)
                && is_char_boundary(b, k)),
    decreases at,
{
    if at > 0 && !(is_char_boundary(a, at) && is_char_boundary(b, at)) {
        lemma_prefix_boundary_is_last(a, b, at - 1);
    }
}

proof fn lemma_suffix_boundary_is_last(a: Seq<u8>, b: Seq<u8>, count: int)
    requires
        count >= 0,
    ensures
        0 <= suffix_boundary(a, b, count) <= count,
        forall|k: int|
            suffix_boundary(a, b, count) < k <= count ==> !(#[trigger] is_char_boundary(
                a,
                a.len() - k,
            ) && is_char_boundary(b, b.len() - k)),
    decreases count,
{
    if count > 0 && !(is_char_boundary(a, a.len() - count) && is_char_boundary(
        b,
        b.len() - count,
    )) {
        lemma_suffix_boundary_is_last(a, b, count - 1);
    }
}

/// A change in whole characters is no wider than it has to be: a longer shared
/// start, or a longer shared end beside that start, would cut a character or
/// take in bytes that differ.
pub proof fn law_change_of_characters_is_the_least(a: Seq<u8>, b: Seq<u8>, longer: int)
    ensures
        ({
            let (start, end) = char_affixes(a, b);
            &&& start < longer <= a.len() && longer <= b.len() && is_char_boundary(a, longer)
                && is_char_boundary(b, longer) ==> exists|k: int|
                0 <= k < longer && #[trigger] a[k] != b[k]
            &&& end < longer <= a.len() - start && longer <= b.len() - start && is_char_boundary(
                a,
                a.len() - longer,
            ) && is_char_boundary(b, b.len() - longer) ==> exists|k: int|
                0 <= k < longer && #[trigger] a[a.len() - 1 - k] != b[b.len() - 1 - k]
        }),
{
    let (start, end) = char_affixes(a, b);
    let shared = common_prefix(a, b, 0);
    lemma_prefix_ends(a, b, 0);
    lemma_prefix_boundary_is_last(a, b, shared);
    if start < longer <= a.len() && longer <= b.len() && is_char_boundary(a, longer)
        && is_char_boundary(b, longer) {
        assert(longer > shared);
        assert(a[shared] != b[shared]);
    }
    let room = min(a.len() as int, b.len() as int) - start;
    let shared_end = common_suffix(a, b, room, 0);
    lemma_suffix_ends(a, b, room, 0);
    lemma_suffix_boundary_is_last(a, b, shared_end);
    if end < longer <= a.len() - start && longer <= b.len() - start && is_char_boundary(
        a,
        a.len() - longer,
    ) && is_char_boundary(b, b.len() - longer) {
        assert(longer > shared_end);
        assert(a[a.len() - 1 - shared_end] != b[b.len() - 1 - shared_end]);
    }
}

/// The lines that a change of bytes touches reach from the line that its first
/// byte is in to the line that its end is in, both within; a change of no bytes
/// touches the one line that it is in.
pub proof fn law_touched_lines_hold_the_change(
    starts: Seq<usize>,
    text_len: int,
    start: int,
    end: int,
)
    requires
        starts.len() > 0,
        is_sorted(starts),
        starts[0] == 0,
        0 <= start <= end <= text_len,
    ensures
        ({
            let (first, past) = dirty_lines(starts, text_len, start, end);
            &&& 0 <= first < past <= starts.len()
            &&& starts[first] <= start
            &&& first + 1 < starts.len() ==> starts[first + 1] > start
            &&& start < end ==> starts[past - 1] <= end && (past < starts.len() ==> starts[past]
                > end)
            &&& start == end ==> past == first + 1
        }),
{
    law_line_at(starts, start);
    law_line_at(starts, end);
    let first = line_at(starts, start);
    let last = line_at(starts, end);
    if start < end && last < first {
        assert(starts[last + 1] <= starts[first]);
    }
}

/// A line moves by as many lines as were put in or taken out, and not past the
/// first.
pub proof fn law_line_moves_with_the_text(ix: int, delta: int)
    requires
        0 <= ix,
        ix + delta <= usize::MAX,
    ensures
        ix + delta >= 0 ==> shifted(ix, delta) == ix + delta,
        ix + delta < 0 ==> shifted(ix, delta) == 0,
{
}

/// Where the lines of a conflict stand after lines were replaced by others. A
/// conflict above the edit stays, and one below it moves by the lines that the
/// edit added. One that the edit takes in wholly is where the new lines are. One
/// that it only reaches into keeps its lines on the other side of the edit.
pub proof fn law_conflict_follows_an_edit(
    block: Range<usize>,
    edit: Range<usize>,
    new_lines: int,
    new_end: usize,
    line_count: int,
)
    requires
        block.start <= block.end,
        edit.start <= edit.end,
        new_lines >= 0,
        new_end == edit.start + new_lines,
        line_count <= usize::MAX,
        block.end <= line_count,
        block.end + new_lines - (edit.end - edit.start) <= line_count,
        new_end <= line_count,
    ensures
        ({
            let added = new_lines - (edit.end - edit.start);
            let moved = remapped(block, edit, Range { start: edit.start, end: new_end }, line_count);
            &&& block.end <= edit.start ==> moved == (block.start as int, block.end as int)
            &&& edit.end <= block.start && edit.start < block.end ==> moved == (
                block.start + added,
                block.end + added,
            )
            &&& edit.start <= block.start < edit.end && block.end <= edit.end && edit.start
                < block.end ==> moved == (edit.start as int, new_end as int)
            &&& block.start < edit.start && edit.end < block.end ==> moved == (
                block.start as int,
                block.end + added,
            )
            &&& block.start < edit.start < block.end && block.end <= edit.end ==> moved == (
                block.start as int,
                new_end as int,
            )
            &&& edit.start <= block.start < edit.end && edit.end < block.end ==> moved == (
                edit.start as int,
                block.end + added,
            )
        }),
{
}

/// Each column has a width of its own.
pub proof fn law_columns_have_widths_of_their_own()
    ensures
        DiffHorizontalScrollColumn::Primary.spec_index() == 0,
        DiffHorizontalScrollColumn::SplitRight.spec_index() == 1,
{
}

} // verus!
