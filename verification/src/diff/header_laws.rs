//! Where a jump to a hunk lands, and which lines its header names.
use super::collapsed::gap_bottom;
use super::collapsed::gap_top;
use super::collapsed::hunk_line_bounds;
use super::collapsed::hunk_position;
use super::collapsed::line_bounds;
use super::collapsed::range_display;
use super::collapsed::range_text;
use super::collapsed::reveals_context;
use super::collapsed::rows_above_hunk;
use super::collapsed::rows_before_hunk;
use super::collapsed::rows_of_hunk;
use super::collapsed::visible_rows;
use super::collapsed::CollapsedDiffHunk;
use super::collapsed::CollapsedDiffSource;
use super::collapsed::CollapsedDiffVisibleRow;
use crate::text::decimal_text;
use vstd::prelude::*;

verus! {

proof fn lemma_hunks_stand_above(hunks: Seq<CollapsedDiffHunk>, i: int, n: int)
    requires
        0 <= i < n <= hunks.len(),
    ensures
        ({
            let upto = rows_above_hunk(hunks, i) + rows_before_hunk(hunks, i) + rows_of_hunk(
                hunks,
                i,
            );
            let all = rows_above_hunk(hunks, n);
            &&& upto.len() <= all.len()
            &&& forall|k: int| 0 <= k < upto.len() ==> #[trigger] all[k] == upto[k]
        }),
    decreases n,
{
    if i < n - 1 {
        lemma_hunks_stand_above(hunks, i, n - 1);
        let upto = rows_above_hunk(hunks, i) + rows_before_hunk(hunks, i) + rows_of_hunk(hunks, i);
        let before = rows_above_hunk(hunks, n - 1);
        let all = rows_above_hunk(hunks, n);
        assert forall|k: int| 0 <= k < upto.len() implies #[trigger] all[k] == upto[k] by {
            assert(all[k] == before[k]);
        }
    }
}

/// A jump to a hunk lands on its header, or on its first row where it has no
/// header because nothing is hidden above it.
pub proof fn law_jump_lands_on_its_hunk(
    hunks: Seq<CollapsedDiffHunk>,
    total_rows: int,
    i: int,
)
    requires
        0 <= i < hunks.len(),
        hunks[i].base_row_start < hunks[i].base_row_end_exclusive,
    ensures
        ({
            let rows = visible_rows(hunks, total_rows);
            let at = hunk_position(hunks, i);
            &&& 0 <= at < rows.len()
            &&& match rows[at] {
                CollapsedDiffVisibleRow::HunkHeader { src_ix, .. } => src_ix == hunks[i].src_ix,
                CollapsedDiffVisibleRow::FileRow { row_ix } => row_ix == hunks[i].base_row_start,
            }
        }),
{
    lemma_hunks_stand_above(hunks, i, hunks.len() as int);
    let rows = visible_rows(hunks, total_rows);
    let above = rows_above_hunk(hunks, hunks.len() as int);
    let upto = rows_above_hunk(hunks, i) + rows_before_hunk(hunks, i) + rows_of_hunk(hunks, i);
    let at = hunk_position(hunks, i);
    let own = rows_of_hunk(hunks, i);
    assert(own.len() > 0);
    assert(upto[at] == own[0]);
    assert(above[at] == upto[at]);
    assert(rows[at] == above[at]);
}

/// A row stands with a hunk: in it, or in the text above or below it that is
/// revealed.
pub open spec fn stands_with(
    hunks: Seq<CollapsedDiffHunk>,
    i: int,
    total_rows: int,
    row: int,
) -> bool {
    let hunk = hunks[i];
    let gap_start: int = if i > 0 {
        hunks[i - 1].base_row_end_exclusive as int
    } else {
        0
    };
    let gap_end: int = if i + 1 < hunks.len() {
        hunks[i + 1].base_row_start as int
    } else {
        total_rows
    };
    ||| hunk.base_row_start <= row < hunk.base_row_end_exclusive
    ||| i > 0 && gap_start <= row < hunk.base_row_start && row < gap_start
        + hunks[i - 1].reveal_down_lines
    ||| gap_start <= row < hunk.base_row_start && hunk.base_row_start - hunk.reveal_up_lines <= row
    ||| hunk.base_row_end_exclusive <= row < gap_end && row < hunk.base_row_end_exclusive
        + hunk.reveal_down_lines
}

/// The number of the line that a row shows on one side.
pub open spec fn number_on(
    lines: Seq<(Option<u32>, Option<u32>)>,
    old_side: bool,
    row: int,
) -> Option<u32> {
    if 0 <= row < lines.len() {
        if old_side {
            lines[row].0
        } else {
            lines[row].1
        }
    } else {
        None
    }
}

spec fn is_from(
    lines: Seq<(Option<u32>, Option<u32>)>,
    old_side: bool,
    bounds: Option<(u32, u32)>,
    from: int,
    to: int,
    number: u32,
    row: int,
) -> bool {
    from <= row < to && number_on(lines, old_side, row) == Some(number)
}

proof fn lemma_bounds_hold(
    lines: Seq<(Option<u32>, Option<u32>)>,
    old_side: bool,
    bounds: Option<(u32, u32)>,
    from: int,
    to: int,
)
    requires
        bounds is Some ==> bounds->Some_0.0 <= bounds->Some_0.1,
    ensures
        ({
            let after = line_bounds(lines, old_side, bounds, from, to);
            &&& after is Some ==> after->Some_0.0 <= after->Some_0.1
            &&& bounds is Some ==> after is Some && after->Some_0.0 <= bounds->Some_0.0
                && bounds->Some_0.1 <= after->Some_0.1
            &&& forall|row: int|
                from <= row < to && (#[trigger] number_on(lines, old_side, row)) is Some ==> after
                    is Some && after->Some_0.0 <= number_on(lines, old_side, row)->Some_0
                    <= after->Some_0.1
            &&& after is Some ==> {
                &&& (bounds is Some && after->Some_0.0 == bounds->Some_0.0) || exists|row: int|
                    #[trigger] is_from(lines, old_side, bounds, from, to, after->Some_0.0, row)
                &&& (bounds is Some && after->Some_0.1 == bounds->Some_0.1) || exists|row: int|
                    #[trigger] is_from(lines, old_side, bounds, from, to, after->Some_0.1, row)
            }
        }),
    decreases to - from,
{
    if from < to {
        lemma_bounds_hold(lines, old_side, bounds, from, to - 1);
        let before = line_bounds(lines, old_side, bounds, from, to - 1);
        let after = line_bounds(lines, old_side, bounds, from, to);
        let last = number_on(lines, old_side, to - 1);
        assert(after == crate::diff::collapsed::widened(before, last));
        if after is Some {
            let low = after->Some_0.0;
            let high = after->Some_0.1;
            if last == Some(low) {
                assert(is_from(lines, old_side, bounds, from, to, low, to - 1));
            } else if !(bounds is Some && low == bounds->Some_0.0) {
                let row = choose|row: int| #[trigger]
                    is_from(lines, old_side, bounds, from, to - 1, low, row);
                assert(is_from(lines, old_side, bounds, from, to, low, row));
            }
            if last == Some(high) {
                assert(is_from(lines, old_side, bounds, from, to, high, to - 1));
            } else if !(bounds is Some && high == bounds->Some_0.1) {
                let row = choose|row: int| #[trigger]
                    is_from(lines, old_side, bounds, from, to - 1, high, row);
                assert(is_from(lines, old_side, bounds, from, to, high, row));
            }
        }
    }
}

/// Hunks follow each other within a file.
pub open spec fn hunks_follow(hunks: Seq<CollapsedDiffHunk>, i: int, total_rows: int) -> bool {
    &&& hunks[i].base_row_start <= hunks[i].base_row_end_exclusive <= total_rows
    &&& total_rows <= usize::MAX
    &&& i > 0 ==> hunks[i - 1].base_row_end_exclusive <= hunks[i].base_row_start
    &&& i + 1 < hunks.len() ==> hunks[i].base_row_end_exclusive <= hunks[i + 1].base_row_start
        <= total_rows
}

/// The lines that a hunk's header names reach over every line of the rows that
/// stand with the hunk, and begin and end with such a line.
pub proof fn law_header_reaches_over_what_is_revealed(
    source: CollapsedDiffSource,
    hunks: Seq<CollapsedDiffHunk>,
    i: int,
    old_side: bool,
)
    requires
        0 <= i < hunks.len(),
        hunks_follow(hunks, i, source.total_rows as int),
    ensures
        ({
            let total = source.total_rows as int;
            let lines = source.row_lines@;
            let bounds = hunk_line_bounds(source, hunks, i, old_side);
            &&& forall|row: int|
                stands_with(hunks, i, total, row) && (#[trigger] number_on(lines, old_side, row))
                    is Some ==> bounds is Some && bounds->Some_0.0 <= number_on(
                    lines,
                    old_side,
                    row,
                )->Some_0 <= bounds->Some_0.1
            &&& bounds is Some ==> {
                &&& exists|row: int|
                    stands_with(hunks, i, total, row) && #[trigger] number_on(lines, old_side, row)
                        == Some(bounds->Some_0.0)
                &&& exists|row: int|
                    stands_with(hunks, i, total, row) && #[trigger] number_on(lines, old_side, row)
                        == Some(bounds->Some_0.1)
            }
        }),
{
    let total = source.total_rows as int;
    let lines = source.row_lines@;
    let top = gap_top(hunks, i);
    let bottom = gap_bottom(hunks, i);
    let after = crate::diff::collapsed::below(hunks, i, total);
    let first = hunks[i].base_row_start as int;
    let past = hunks[i].base_row_end_exclusive as int;
    let a = line_bounds(lines, old_side, None, top.0, top.1);
    let b = line_bounds(lines, old_side, a, bottom.0, bottom.1);
    let c = line_bounds(lines, old_side, b, first, past);
    lemma_bounds_hold(lines, old_side, None, top.0, top.1);
    lemma_bounds_hold(lines, old_side, a, bottom.0, bottom.1);
    lemma_bounds_hold(lines, old_side, b, first, past);
    lemma_bounds_hold(lines, old_side, c, after.0, after.1);
    let bounds = hunk_line_bounds(source, hunks, i, old_side);
    assert forall|row: int| stands_with(hunks, i, total, row) implies top.0 <= row < top.1
        || bottom.0 <= row < bottom.1 || first <= row < past || after.0 <= row < after.1 by {}
    assert forall|row: int|
        top.0 <= row < top.1 || bottom.0 <= row < bottom.1 || first <= row < past || after.0 <= row
            < after.1 implies stands_with(hunks, i, total, row) by {}
    if let Some((low, high)) = bounds {
        lemma_some_row(lines, old_side, a, b, c, bounds, top, bottom, (first, past), after, low);
        lemma_some_row(lines, old_side, a, b, c, bounds, top, bottom, (first, past), after, high);
    }
}

proof fn lemma_some_row(
    lines: Seq<(Option<u32>, Option<u32>)>,
    old_side: bool,
    a: Option<(u32, u32)>,
    b: Option<(u32, u32)>,
    c: Option<(u32, u32)>,
    d: Option<(u32, u32)>,
    top: (int, int),
    bottom: (int, int),
    own: (int, int),
    after: (int, int),
    number: u32,
)
    requires
        a == line_bounds(lines, old_side, None, top.0, top.1),
        b == line_bounds(lines, old_side, a, bottom.0, bottom.1),
        c == line_bounds(lines, old_side, b, own.0, own.1),
        d == line_bounds(lines, old_side, c, after.0, after.1),
        d is Some,
        number == d->Some_0.0 || number == d->Some_0.1,
    ensures
        exists|row: int|
            (top.0 <= row < top.1 || bottom.0 <= row < bottom.1 || own.0 <= row < own.1 || after.0
                <= row < after.1) && #[trigger] number_on(lines, old_side, row) == Some(number),
{
    lemma_bounds_hold(lines, old_side, None, top.0, top.1);
    lemma_bounds_hold(lines, old_side, a, bottom.0, bottom.1);
    lemma_bounds_hold(lines, old_side, b, own.0, own.1);
    lemma_bounds_hold(lines, old_side, c, after.0, after.1);
    if exists|row: int| #[trigger]
        is_from(lines, old_side, c, after.0, after.1, number, row) {
        let row = choose|row: int| #[trigger]
            is_from(lines, old_side, c, after.0, after.1, number, row);
        assert(number_on(lines, old_side, row) == Some(number));
    } else if exists|row: int| #[trigger] is_from(lines, old_side, b, own.0, own.1, number, row) {
        let row = choose|row: int| #[trigger]
            is_from(lines, old_side, b, own.0, own.1, number, row);
        assert(number_on(lines, old_side, row) == Some(number));
    } else if exists|row: int| #[trigger]
        is_from(lines, old_side, a, bottom.0, bottom.1, number, row) {
        let row = choose|row: int| #[trigger]
            is_from(lines, old_side, a, bottom.0, bottom.1, number, row);
        assert(number_on(lines, old_side, row) == Some(number));
    } else {
        let row = choose|row: int| #[trigger]
            is_from(lines, old_side, None, top.0, top.1, number, row);
        assert(number_on(lines, old_side, row) == Some(number));
    }
}

/// A range in a header is its first line and, behind a comma, how many lines it
/// has, which is left out of one line alone. A range without lines names the line
/// that the patch gave and none.
pub proof fn law_header_names_first_line_and_count(
    sign: Seq<char>,
    fallback: u32,
    low: u32,
    high: u32,
)
    requires
        low <= high,
    ensures
        low == high ==> range_text(sign, fallback, Some((low, high))) == sign + decimal_text(
            low as nat,
        ),
        low < high ==> range_text(sign, fallback, Some((low, high))) == sign + decimal_text(
            low as nat,
        ) + seq![','] + decimal_text((high - low + 1) as nat),
        range_text(sign, fallback, None) == sign + decimal_text(fallback as nat) + seq![',']
            + decimal_text(0),
{
    reveal_strlit(",");
    assert(","@ =~= seq![',']);
}

/// A hunk's header names its lines anew just where some row beside the hunk is
/// revealed and the patch's own header could be read: the old lines behind a minus,
/// the new ones behind a plus, and a space between them.
pub proof fn law_header_is_named_anew_where_more_is_shown(
    source: CollapsedDiffSource,
    hunks: Seq<CollapsedDiffHunk>,
    i: int,
)
    requires
        0 <= i < hunks.len(),
        hunks_follow(hunks, i, source.total_rows as int),
        hunks[i].src_ix < source.headers@.len(),
    ensures
        ({
            let total = source.total_rows as int;
            let header = source.headers@[hunks[i].src_ix as int];
            let more = exists|row: int|
                !(hunks[i].base_row_start <= row < hunks[i].base_row_end_exclusive)
                    && #[trigger] stands_with(hunks, i, total, row);
            let shown = range_display(source, hunks, i);
            &&& shown is Some <==> more && header is Some
            &&& shown is Some ==> shown->Some_0 == range_text(
                seq!['-'],
                header->Some_0.old_start_line,
                hunk_line_bounds(source, hunks, i, true),
            ) + seq![' '] + range_text(
                seq!['+'],
                header->Some_0.new_start_line,
                hunk_line_bounds(source, hunks, i, false),
            )
        }),
{
    reveal_strlit("-");
    reveal_strlit("+");
    reveal_strlit(" ");
    assert("-"@ =~= seq!['-']);
    assert("+"@ =~= seq!['+']);
    assert(" "@ =~= seq![' ']);
    let total = source.total_rows as int;
    let first = hunks[i].base_row_start as int;
    let past = hunks[i].base_row_end_exclusive as int;
    if reveals_context(hunks, i, total) {
        let gap_start: int = if i > 0 {
            hunks[i - 1].base_row_end_exclusive as int
        } else {
            0
        };
        if hunks[i].reveal_up_lines > 0 && gap_start < first {
            assert(stands_with(hunks, i, total, first - 1));
        } else if i > 0 && hunks[i - 1].reveal_down_lines > 0 && gap_start < first {
            assert(stands_with(hunks, i, total, gap_start));
        } else {
            assert(stands_with(hunks, i, total, past));
        }
    }
}

} // verus!
