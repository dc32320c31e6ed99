//! What is marked, painted and kept from editing in a merge result.
use crate::conflict::blocks::block_line_ranges;
use crate::conflict::blocks::block_marker_ranges;
use crate::conflict::blocks::block_markers;
use crate::conflict::blocks::lines_of_bytes;
use crate::conflict::blocks::strict_lines;
use crate::conflict::blocks::BlockAnalysis;
use crate::conflict::blocks::marked;
use crate::conflict::blocks::marked_all;
use crate::conflict::blocks::marker_ranges;
use crate::conflict::blocks::nav_entries;
use crate::conflict::blocks::ResolvedOutputConflictMarker;
use crate::conflict::highlights::clamped;
use crate::conflict::highlights::comes_after;
use crate::conflict::highlights::joined;
use crate::conflict::highlights::law_unresolved_rows_hide_syntax;
use crate::conflict::highlights::ordered;
use crate::conflict::highlights::paints;
use crate::conflict::highlights::placed;
use crate::conflict::highlights::span_paints;
use crate::conflict::highlights::span_style;
use crate::conflict::highlights::unresolved_highlights;
use crate::conflict::highlights::within_spans;
use crate::conflict::highlights::Painted;
use crate::conflict::highlights::ResolvedOutputUnresolvedSpans;
use crate::conflict::model::block_count;
use crate::conflict::model::blocks_of;
use crate::conflict::model::BlockView;
use crate::conflict::model::SegmentView;
use crate::conflict::output::active_rows;
use crate::conflict::output::flagged_rows;
use crate::conflict::output::folded;
use crate::conflict::output::full_row;
use crate::conflict::output::masked;
use crate::conflict::output::moved;
use crate::conflict::output::overlapped_rows;
use crate::conflict::output::resolution_word;
use crate::conflict::output::row_bytes;
use crate::conflict::output::row_of;
use crate::conflict::output::row_shows;
use crate::conflict::output::lemma_row_of;
use crate::conflict::output::rows_of_blocks;
use crate::conflict::output::rows_of_ranges;
use crate::conflict::output::unresolved_rows;
use crate::conflict::output::rows_painted;
use crate::conflict::output::rows_within;
use crate::conflict::output::without_ending;
use crate::conflict::output::without_returns;
use crate::conflict::output::Edit;
use crate::lines::law_line_range;
use crate::lines::law_line_starts;
use crate::lines::line_range;
use crate::lines::starts_of;
use std::ops::Range;
use vstd::prelude::*;

verus! {

/// Marking lines marks each of them, as a line of that conflict and of that
/// stretch, the first as its start and the last as its end, and leaves all
/// other lines as they were.
pub proof fn law_each_line_of_a_stretch_is_marked(
    markers: Seq<Option<ResolvedOutputConflictMarker>>,
    conflict_ix: usize,
    unresolved: bool,
    start: usize,
    end: usize,
    line: int,
)
    requires
        0 <= line < markers.len(),
        start < end,
    ensures
        ({
            let after = marked(markers, conflict_ix, unresolved, (start as int, end as int));
            &&& after.len() == markers.len()
            &&& !(start <= line < end) ==> after[line] == markers[line]
            &&& start <= line < end ==> (after[line] matches Some(marker) && marker.conflict_ix
                == conflict_ix && marker.unresolved == unresolved && marker.range_start == start
                && marker.range_end == end && marker.is_start == (line == start)
                && marker.is_end == (line == end - 1))
        }),
{
}

/// A stretch without lines is marked on the line it stands before, as its start
/// and its end, or on the last line where it stands behind all.
pub proof fn law_empty_stretch_is_marked_on_one_line(
    markers: Seq<Option<ResolvedOutputConflictMarker>>,
    conflict_ix: usize,
    unresolved: bool,
    at: usize,
    line: int,
)
    requires
        0 <= line < markers.len(),
    ensures
        ({
            let after = marked(markers, conflict_ix, unresolved, (at as int, at as int));
            let here = if at < markers.len() {
                line == at
            } else {
                line == markers.len() - 1
            };
            &&& after.len() == markers.len()
            &&& !here ==> after[line] == markers[line]
            &&& here ==> (after[line] matches Some(marker) && marker.conflict_ix == conflict_ix
                && marker.unresolved == unresolved && marker.range_start == at && marker.range_end
                == at && marker.is_start && marker.is_end)
        }),
{
}

/// Where conflicts stand on lines of their own, a line carries the mark of the
/// conflict that it is in, open or resolved as that is, and a line in none has
/// no mark.
pub proof fn law_line_carries_the_mark_of_its_conflict(
    blocks: Seq<BlockView>,
    lines: Seq<(int, int)>,
    count: int,
    n: int,
    line: int,
)
    requires
        0 <= line < count,
        0 <= n <= lines.len(),
        n <= blocks.len(),
        n <= usize::MAX,
        forall|i: int|
            0 <= i < lines.len() ==> 0 <= (#[trigger] lines[i]).0 < lines[i].1 <= usize::MAX,
        forall|i: int, j: int|
            0 <= i < j < lines.len() ==> (#[trigger] lines[i]).1 <= (#[trigger] lines[j]).0,
    ensures
        ({
            let markers = block_markers(blocks, lines, count, n);
            &&& markers.len() == count
            &&& forall|i: int|
                0 <= i < n && (#[trigger] lines[i]).0 <= line < lines[i].1 ==> (
                markers[line] matches Some(marker) && marker.conflict_ix == i && marker.unresolved
                    == !blocks[i].resolved && marker.range_start == lines[i].0 && marker.range_end
                    == lines[i].1)
            &&& (forall|i: int| 0 <= i < n ==> !((#[trigger] lines[i]).0 <= line < lines[i].1))
                ==> markers[line] is None
        }),
    decreases n,
{
    if n > 0 {
        law_line_carries_the_mark_of_its_conflict(blocks, lines, count, n - 1, line);
        let before = block_markers(blocks, lines, count, n - 1);
        let range = lines[n - 1];
        let one = seq![range];
        assert(one[0] == range);
        assert(marked_all(before, (n - 1) as usize, !blocks[n - 1].resolved, one, 0) == before);
        assert(marked_all(before, (n - 1) as usize, !blocks[n - 1].resolved, one, 1) == marked(
            before,
            (n - 1) as usize,
            !blocks[n - 1].resolved,
            range,
        ));
        law_each_line_of_a_stretch_is_marked(
            before,
            (n - 1) as usize,
            !blocks[n - 1].resolved,
            range.0 as usize,
            range.1 as usize,
            line,
        );
        assert forall|i: int| 0 <= i < n && (#[trigger] lines[i]).0 <= line < lines[i].1 implies (
        block_markers(blocks, lines, count, n)[line] matches Some(marker) && marker.conflict_ix
            == i && marker.unresolved == !blocks[i].resolved && marker.range_start == lines[i].0
            && marker.range_end == lines[i].1) by {
            if i < n - 1 {
                assert(lines[i].1 <= lines[n - 1].0);
            }
        }
    }
}

/// A conflict that is resolved, or has nothing picked yet, is marked as a whole.
/// One with a pick that is still open is marked at its decisions, or else at its
/// finer pieces, counted from its first line and never past its last; as a
/// whole again where it has neither.
pub proof fn law_open_pick_is_marked_at_its_parts(
    block: BlockView,
    decisions: Option<Seq<(int, int)>>,
    subchunks: Option<Seq<(int, int)>>,
    lines: (int, int),
    i: int,
)
    requires
        0 <= lines.0 <= lines.1 <= usize::MAX,
    ensures
        ({
            let ranges = marker_ranges(block, decisions, subchunks, lines);
            let parts = match decisions {
                Some(decisions) => decisions,
                None => match subchunks {
                    Some(subchunks) => subchunks,
                    None => Seq::empty(),
                },
            };
            let whole = block.resolved || block.choice.sources().len() == 0 || parts.len() == 0;
            &&& block.choice.picks_nothing() == (block.choice.sources().len() == 0)
            &&& whole ==> ranges.len() == 1 && ranges[0] == lines
            &&& !whole ==> ranges.len() == parts.len()
            &&& !whole && 0 <= i < parts.len() && 0 <= parts[i].0 <= parts[i].1 && lines.0
                + parts[i].1 <= lines.1 ==> ranges[i] == (
                lines.0 + parts[i].0,
                lines.0 + parts[i].1,
            )
            &&& !whole && 0 <= i < parts.len() && 0 <= parts[i].0 <= parts[i].1 ==> lines.0
                <= ranges[i].0 <= ranges[i].1 <= lines.1
        }),
{
}

/// The lines to step through are those at which a conflict starts for the first
/// time, from the top.
pub proof fn law_steps_lead_to_where_conflicts_start(
    markers: Seq<Option<ResolvedOutputConflictMarker>>,
    n: int,
)
    requires
        0 <= n <= markers.len(),
        n <= usize::MAX,
    ensures
        ({
            let entries = nav_entries(markers, n);
            &&& forall|i: int, j: int|
                0 <= i < j < entries.len() ==> #[trigger] entries[i] < #[trigger] entries[j]
            &&& forall|i: int|
                0 <= i < entries.len() ==> #[trigger] entries[i] < n && (
                markers[entries[i] as int] matches Some(marker) && marker.is_start && forall|k: int|
                    0 <= k < entries[i] ==> !((#[trigger] markers[k]) matches Some(other)
                        && other.conflict_ix == marker.conflict_ix && other.is_start))
            &&& forall|line: int|
                0 <= line < n && ((#[trigger] markers[line]) matches Some(marker)
                    && marker.is_start) && (forall|k: int|
                    0 <= k < line ==> !((#[trigger] markers[k]) matches Some(other)
                        && other.conflict_ix == markers[line]->Some_0.conflict_ix
                        && other.is_start)) ==> entries.contains(line as usize)
        }),
    decreases n,
{
    if n > 0 {
        law_steps_lead_to_where_conflicts_start(markers, n - 1);
        let before = nav_entries(markers, n - 1);
        let entries = nav_entries(markers, n);
        let is_entry = crate::conflict::blocks::is_nav_entry(markers, n - 1);
        assert forall|i: int| 0 <= i < entries.len() implies #[trigger] entries[i] < n && (
        markers[entries[i] as int] matches Some(marker) && marker.is_start && forall|k: int|
            0 <= k < entries[i] ==> !((#[trigger] markers[k]) matches Some(other)
                && other.conflict_ix == marker.conflict_ix && other.is_start)) by {
            if i < before.len() {
                assert(entries[i] == before[i]);
            } else {
                assert(is_entry);
                let marker = markers[n - 1]->Some_0;
                assert forall|k: int| 0 <= k < entries[i] implies !((
                #[trigger] markers[k]) matches Some(other) && other.conflict_ix
                    == marker.conflict_ix && other.is_start) by {
                    assert(!crate::conflict::blocks::starts_conflict(
                        markers[k],
                        marker.conflict_ix,
                    ));
                }
            }
        }
        assert forall|line: int|
            0 <= line < n && ((#[trigger] markers[line]) matches Some(marker) && marker.is_start)
                && (forall|k: int|
                0 <= k < line ==> !((#[trigger] markers[k]) matches Some(other)
                    && other.conflict_ix == markers[line]->Some_0.conflict_ix
                    && other.is_start)) implies entries.contains(line as usize) by {
            if line < n - 1 {
                assert(before.contains(line as usize));
                let i = choose|i: int| 0 <= i < before.len() && before[i] == line as usize;
                assert(entries[i] == line as usize);
            } else {
                let marker = markers[line]->Some_0;
                assert forall|k: int| 0 <= k < line implies !crate::conflict::blocks::starts_conflict(
                    #[trigger] markers[k],
                    marker.conflict_ix,
                ) by {}
                assert(is_entry);
                assert(entries[entries.len() - 1] == line as usize);
            }
        }
    }
}

proof fn lemma_without_returns(bytes: Seq<u8>, start: int, end: int)
    requires
        0 <= start <= end <= bytes.len(),
    ensures
        ({
            let (from, to) = without_returns(bytes, start, end);
            &&& from == start
            &&& start <= to <= end
            &&& to == start || bytes[to - 1] != 13
            &&& forall|k: int| to <= k < end ==> #[trigger] bytes[k] == 13
        }),
    decreases end - start,
{
    if start < end && bytes[end - 1] == 13 {
        lemma_without_returns(bytes, start, end - 1);
    }
}

/// What a row shows of its line: all of it but the newline, and the carriage
/// returns before that.
pub proof fn law_row_shows_its_line(bytes: Seq<u8>, row: int)
    requires
        0 <= row < starts_of(bytes).len(),
    ensures
        ({
            let (from, to) = row_bytes(bytes, row);
            let end = line_range(bytes, row).1;
            &&& 0 <= from <= to <= end <= bytes.len()
            &&& from == 0 || bytes[from - 1] == 10
            &&& end == bytes.len() || bytes[end] == 10
            &&& forall|k: int| from <= k < end ==> #[trigger] bytes[k] != 10
            &&& forall|k: int| to <= k < end ==> #[trigger] bytes[k] == 13
            &&& to == from || bytes[to - 1] != 13
            &&& row_shows(bytes, row) <==> from < to && row <= u32::MAX
        }),
{
    law_line_range(bytes, row);
    let (start, end) = line_range(bytes, row);
    lemma_without_returns(bytes, start, end);
}

/// A row of those lines shows just that, for that conflict.
pub open spec fn is_row_among(
    bytes: Seq<u8>,
    conflict_ix: int,
    start: int,
    end: int,
    item: Painted,
) -> bool {
    exists|row: int|
        start <= row < end && #[trigger] row_shows(bytes, row) && item == (
            row_bytes(bytes, row).0,
            row_bytes(bytes, row).1,
            conflict_ix as u64,
        )
}

/// The open rows of a stretch of lines are its rows that show something, each
/// with its bytes and the number of the conflict, and no others.
pub proof fn law_open_rows_are_the_rows_of_their_lines(
    bytes: Seq<u8>,
    conflict_ix: int,
    start: int,
    end: int,
)
    requires
        0 <= start <= end,
    ensures
        ({
            let rows = rows_within(bytes, conflict_ix, start, end);
            &&& forall|row: int|
                start <= row < end && #[trigger] row_shows(bytes, row) ==> rows.contains(
                    (row_bytes(bytes, row).0, row_bytes(bytes, row).1, conflict_ix as u64),
                )
            &&& forall|i: int|
                0 <= i < rows.len() ==> is_row_among(
                    bytes,
                    conflict_ix,
                    start,
                    end,
                    #[trigger] rows[i],
                )
        }),
    decreases end - start,
{
    if start < end {
        law_open_rows_are_the_rows_of_their_lines(bytes, conflict_ix, start, end - 1);
        let before = rows_within(bytes, conflict_ix, start, end - 1);
        let rows = rows_within(bytes, conflict_ix, start, end);
        assert forall|row: int|
            start <= row < end && #[trigger] row_shows(bytes, row) implies rows.contains(
            (row_bytes(bytes, row).0, row_bytes(bytes, row).1, conflict_ix as u64),
        ) by {
            let item = (row_bytes(bytes, row).0, row_bytes(bytes, row).1, conflict_ix as u64);
            if row < end - 1 {
                assert(before.contains(item));
                let i = choose|i: int| 0 <= i < before.len() && before[i] == item;
                assert(rows[i] == item);
            } else {
                assert(rows[rows.len() - 1] == item);
            }
        }
        assert forall|i: int| 0 <= i < rows.len() implies is_row_among(
            bytes,
            conflict_ix,
            start,
            end,
            #[trigger] rows[i],
        ) by {
            if i < before.len() {
                assert(rows[i] == before[i]);
                assert(is_row_among(bytes, conflict_ix, start, end - 1, before[i]));
                let row = choose|row: int|
                    start <= row < end - 1 && #[trigger] row_shows(bytes, row) && before[i] == (
                        row_bytes(bytes, row).0,
                        row_bytes(bytes, row).1,
                        conflict_ix as u64,
                    );
                assert(row_shows(bytes, row));
            } else {
                assert(row_shows(bytes, end - 1));
            }
        }
    }
}

/// Rows that are in hand are those of the open rows that belong to the conflict
/// in hand, as they stand.
pub proof fn law_rows_in_hand_are_of_the_conflict_in_hand(
    rows: Seq<Painted>,
    active: Option<usize>,
    n: int,
    i: int,
)
    requires
        0 <= i < n <= rows.len(),
    ensures
        active == Some(rows[i].2 as usize) && rows[i].2 <= usize::MAX ==> active_rows(
            rows,
            active,
            n,
        ).contains((rows[i].0, rows[i].1)),
        active is None ==> active_rows(rows, active, n).len() == 0,
        (forall|k: int| 0 <= k < n ==> (#[trigger] rows[k]).2 == active->Some_0) && active is Some
            ==> active_rows(rows, active, n).len() == n,
        (forall|k: int| 0 <= k < n ==> (#[trigger] rows[k]).2 != active->Some_0) && active is Some
            ==> active_rows(rows, active, n).len() == 0,
    decreases n,
{
    if n > 1 {
        law_rows_in_hand_are_of_the_conflict_in_hand(rows, active, n - 1, if i < n - 1 {
            i
        } else {
            0
        });
    }
    let before = active_rows(rows, active, n - 1);
    let all = active_rows(rows, active, n);
    let item = (rows[i].0, rows[i].1);
    if active == Some(rows[i].2 as usize) && rows[i].2 <= usize::MAX {
        if i < n - 1 {
            assert(before.contains(item));
            let k = choose|k: int| 0 <= k < before.len() && before[k] == item;
            assert(all[k] == item);
        } else {
            assert(all[all.len() - 1] == item);
        }
    }
    assert(rows[n - 1] == rows[n - 1]);
}

/// A row with its line ending reaches up to where the next one starts, and the
/// last one to the end of the text.
pub proof fn law_full_rows_follow_each_other(bytes: Seq<u8>, row: int)
    requires
        0 <= row < starts_of(bytes).len(),
    ensures
        ({
            let (from, to) = full_row(bytes, row);
            &&& 0 <= from <= to <= bytes.len()
            &&& from == 0 || bytes[from - 1] == 10
            &&& to == bytes.len() || bytes[to - 1] == 10
            &&& forall|k: int| from <= k < to - 1 ==> #[trigger] bytes[k] != 10
            &&& row + 1 < starts_of(bytes).len() ==> to > from && bytes[to - 1] == 10
                && full_row(bytes, row + 1).0 == to
            &&& row + 1 == starts_of(bytes).len() ==> to == bytes.len()
        }),
{
    law_line_starts(bytes);
    law_line_range(bytes, row);
    if row + 1 < starts_of(bytes).len() {
        assert(starts_of(bytes)[row] < starts_of(bytes)[row + 1]);
        assert(bytes[starts_of(bytes)[row + 1] - 1] == 10);
    } else if row > 0 {
        assert(starts_of(bytes)[row] <= bytes.len());
    }
}

/// A flagged row has just those bytes.
pub open spec fn is_flagged_row(
    bytes: Seq<u8>,
    flags: Seq<bool>,
    n: int,
    item: (int, int),
) -> bool {
    exists|row: int| 0 <= row < n && #[trigger] flags[row] && item == full_row(bytes, row)
}

/// The rows that are kept from editing are those that are flagged, all of each
/// with its line ending, and no others.
pub proof fn law_flagged_rows_are_kept(bytes: Seq<u8>, flags: Seq<bool>, n: int)
    requires
        0 <= n <= flags.len(),
    ensures
        ({
            let kept = flagged_rows(bytes, flags, n);
            &&& forall|row: int|
                0 <= row < n && #[trigger] flags[row] ==> kept.contains(full_row(bytes, row))
            &&& forall|i: int|
                0 <= i < kept.len() ==> is_flagged_row(bytes, flags, n, #[trigger] kept[i])
        }),
    decreases n,
{
    if n > 0 {
        law_flagged_rows_are_kept(bytes, flags, n - 1);
        let before = flagged_rows(bytes, flags, n - 1);
        let kept = flagged_rows(bytes, flags, n);
        assert forall|row: int| 0 <= row < n && #[trigger] flags[row] implies kept.contains(
            full_row(bytes, row),
        ) by {
            let item = full_row(bytes, row);
            if row < n - 1 {
                assert(before.contains(item));
                let i = choose|i: int| 0 <= i < before.len() && before[i] == item;
                assert(kept[i] == item);
            } else {
                assert(kept[kept.len() - 1] == item);
            }
        }
        assert forall|i: int| 0 <= i < kept.len() implies is_flagged_row(
            bytes,
            flags,
            n,
            #[trigger] kept[i],
        ) by {
            if i < before.len() {
                assert(kept[i] == before[i]);
                assert(is_flagged_row(bytes, flags, n - 1, before[i]));
                let row = choose|row: int|
                    0 <= row < n - 1 && #[trigger] flags[row] && before[i] == full_row(bytes, row);
                assert(flags[row]);
            } else {
                assert(flags[n - 1]);
            }
        }
    }
}

/// Of a row that is kept from editing a parser misses all but its line ending:
/// a newline, and one carriage return before it.
pub proof fn law_parser_misses_all_but_the_ending(bytes: Seq<u8>, start: int, end: int)
    requires
        0 <= start <= end <= bytes.len(),
    ensures
        ({
            let (from, to) = without_ending(bytes, (start, end));
            let has_newline = start < end && bytes[end - 1] == 10;
            let before = if has_newline {
                end - 1
            } else {
                end
            };
            let has_return = start < before && bytes[before - 1] == 13;
            &&& from == start
            &&& has_return ==> to == before - 1
            &&& !has_return ==> to == before
        }),
{
}

/// What a parser misses is that of every kept row that has any.
pub proof fn law_every_kept_row_is_missed(
    bytes: Seq<u8>,
    ranges: Seq<(int, int)>,
    n: int,
    i: int,
)
    requires
        0 <= i < n <= ranges.len(),
    ensures
        ({
            let (from, to) = without_ending(bytes, ranges[i]);
            from < to ==> masked(bytes, ranges, n).contains((from, to))
        }),
        forall|k: int|
            0 <= k < masked(bytes, ranges, n).len() ==> (#[trigger] masked(bytes, ranges, n)[k]).0
                < masked(bytes, ranges, n)[k].1,
    decreases n,
{
    let before = masked(bytes, ranges, n - 1);
    let all = masked(bytes, ranges, n);
    let item = without_ending(bytes, ranges[i]);
    if n > 1 {
        law_every_kept_row_is_missed(bytes, ranges, n - 1, if i < n - 1 {
            i
        } else {
            0
        });
        assert forall|k: int| 0 <= k < all.len() implies (#[trigger] all[k]).0 < all[k].1 by {
            if k < before.len() {
                assert(all[k] == before[k]);
            }
        }
    }
    if item.0 < item.1 {
        if i < n - 1 {
            let k = choose|k: int| 0 <= k < before.len() && before[k] == item;
            assert(all[k] == item);
        } else {
            assert(all[all.len() - 1] == item);
        }
    }
}

/// The edit that covers others starts where the first of them does.
pub proof fn law_covering_edit_is_no_wider(edits: Seq<Edit>, n: int)
    requires
        1 <= n <= edits.len(),
    ensures
        forall|k: int| 0 <= k < n ==> folded(edits, n).start <= (#[trigger] edits[k]).0.0,
        exists|k: int| 0 <= k < n && folded(edits, n).start == (#[trigger] edits[k]).0.0,
        n == 1 ==> folded(edits, n).old_len == edits[0].0.1 - edits[0].0.0 && folded(
            edits,
            n,
        ).new_len == edits[0].1.1 - edits[0].1.0,
    decreases n,
{
    if n > 1 {
        law_covering_edit_is_no_wider(edits, n - 1);
        let before = folded(edits, n - 1);
        let k = choose|k: int| 0 <= k < n - 1 && before.start == (#[trigger] edits[k]).0.0;
        if before.start <= edits[n - 1].0.0 {
            assert(folded(edits, n).start == edits[k].0.0);
        } else {
            assert(folded(edits, n).start == edits[n - 1].0.0);
        }
    } else {
        assert(folded(edits, n).start == edits[0].0.0);
    }
}

/// A byte that was asked for and is in an open row has the one style of open
/// rows, or the other where its row is in hand, and no other; any other byte
/// has the syntax colours it had.
pub proof fn law_open_rows_have_one_style(
    syntax: Seq<Painted>,
    spans: &ResolvedOutputUnresolvedSpans,
    asked: Range<usize>,
    style: u64,
    active_style: u64,
    byte: int,
    wanted: u64,
)
    requires
        spans.is_ordered(),
    ensures
        ({
            let asked_for = asked.start <= byte < asked.end;
            let open = exists|i: int|
                0 <= i < spans.all@.len() && (#[trigger] spans.all@[i]).start <= byte
                    < spans.all@[i].end;
            let painted = paints(
                unresolved_highlights(syntax, spans, asked, style, active_style),
                byte,
                wanted,
            );
            &&& !(asked_for && open) ==> painted == paints(syntax, byte, wanted)
            &&& asked_for && open ==> (painted <==> exists|i: int|
                0 <= i < spans.all@.len() && (#[trigger] spans.all@[i]).start <= byte
                    < spans.all@[i].end && wanted == (if exists|k: int|
                    0 <= k < spans.active@.len() && (#[trigger] spans.active@[k]).start
                        == spans.all@[i].start && spans.active@[k].end == spans.all@[i].end {
                    active_style
                } else {
                    style
                }))
        }),
{
    law_unresolved_rows_hide_syntax(syntax, spans, asked, style, active_style, byte, wanted);
    let asked_for = asked.start <= byte < asked.end;
    let open = exists|i: int|
        0 <= i < spans.all@.len() && (#[trigger] spans.all@[i]).start <= byte < spans.all@[i].end;
    assert forall|i: int|
        0 <= i < spans.all@.len() implies (clamped(#[trigger] spans.all@[i], asked).0 <= byte
        < clamped(spans.all@[i], asked).1) == (asked_for && spans.all@[i].start <= byte
        < spans.all@[i].end) by {}
    if within_spans(spans.all@, asked, byte) {
        let i = choose|i: int|
            0 <= i < spans.all@.len() && clamped(#[trigger] spans.all@[i], asked).0 <= byte
                < clamped(spans.all@[i], asked).1;
        assert(spans.all@[i].start <= byte < spans.all@[i].end);
        assert(asked_for && open);
    }
    if asked_for && open {
        let i = choose|i: int|
            0 <= i < spans.all@.len() && (#[trigger] spans.all@[i]).start <= byte
                < spans.all@[i].end;
        assert(clamped(spans.all@[i], asked).0 <= byte < clamped(spans.all@[i], asked).1);
        assert(within_spans(spans.all@, asked, byte));
    }
    assert forall|i: int| 0 <= i < spans.all@.len() implies #[trigger] span_style(
        spans,
        spans.all@[i],
        style,
        active_style,
    ) == (if exists|k: int|
        0 <= k < spans.active@.len() && (#[trigger] spans.active@[k]).start == spans.all@[i].start
            && spans.active@[k].end == spans.all@[i].end {
        active_style
    } else {
        style
    }) by {}
    if span_paints(spans, asked, style, active_style, byte, wanted) {
        let i = choose|i: int|
            0 <= i < spans.all@.len() && clamped(#[trigger] spans.all@[i], asked).0 <= byte
                < clamped(spans.all@[i], asked).1 && wanted == span_style(
                spans,
                spans.all@[i],
                style,
                active_style,
            );
        assert(spans.all@[i].start <= byte < spans.all@[i].end);
        assert(wanted == span_style(spans, spans.all@[i], style, active_style));
    }
}

/// No stretch of a list stands before one that it should stand behind.
pub open spec fn come_in_order(items: Seq<Painted>) -> bool {
    forall|i: int, j: int|
        0 <= i < j < items.len() ==> (#[trigger] items[i]).0 < (#[trigger] items[j]).0
            || (items[i].0 == items[j].0 && items[i].1 <= items[j].1)
}

proof fn lemma_placed_in_order(sorted: Seq<Painted>, item: Painted)
    requires
        come_in_order(sorted),
    ensures
        come_in_order(placed(sorted, item)),
        placed(sorted, item).to_multiset() =~= sorted.to_multiset().insert(item),
        placed(sorted, item).len() == sorted.len() + 1,
        forall|k: int|
            0 <= k < placed(sorted, item).len() ==> #[trigger] placed(sorted, item)[k] == item
                || sorted.contains(placed(sorted, item)[k]),
    decreases sorted.len(),
{
    broadcast use vstd::seq_lib::group_to_multiset_ensures;

    let all = placed(sorted, item);
    if sorted.len() == 0 || !comes_after(sorted.last(), item) {
        if sorted.len() > 0 {
            let last = sorted.len() - 1;
            assert(sorted.last() == sorted[last]);
            assert forall|i: int, j: int| 0 <= i < j < all.len() implies (#[trigger] all[i]).0 < (
            #[trigger] all[j]).0 || (all[i].0 == all[j].0 && all[i].1 <= all[j].1) by {
                if j == sorted.len() && i < last {
                    assert(sorted[i].0 < sorted[last].0 || (sorted[i].0 == sorted[last].0
                        && sorted[i].1 <= sorted[last].1));
                }
            }
        }
        assert forall|k: int| 0 <= k < all.len() implies #[trigger] all[k] == item
            || sorted.contains(all[k]) by {
            if k < sorted.len() {
                assert(sorted[k] == all[k]);
            }
        }
    } else {
        let shorter = sorted.drop_last();
        let last = sorted.last();
        assert forall|i: int, j: int| 0 <= i < j < shorter.len() implies (#[trigger] shorter[i]).0
            < (#[trigger] shorter[j]).0 || (shorter[i].0 == shorter[j].0 && shorter[i].1
            <= shorter[j].1) by {
            assert(sorted[i].0 < sorted[j].0 || (sorted[i].0 == sorted[j].0 && sorted[i].1
                <= sorted[j].1));
        }
        lemma_placed_in_order(shorter, item);
        let before = placed(shorter, item);
        assert(sorted =~= shorter.push(last));
        assert forall|k: int| 0 <= k < before.len() implies (#[trigger] before[k]).0 < last.0 || (
        before[k].0 == last.0 && before[k].1 <= last.1) by {
            if before[k] != item {
                assert(shorter.contains(before[k]));
                let m = choose|m: int| 0 <= m < shorter.len() && shorter[m] == before[k];
                assert(sorted[m] == before[k]);
                assert(sorted[m].0 < sorted[sorted.len() - 1].0 || (sorted[m].0
                    == sorted[sorted.len() - 1].0 && sorted[m].1 <= sorted[sorted.len() - 1].1));
            }
        }
        assert forall|k: int| 0 <= k < all.len() implies #[trigger] all[k] == item
            || sorted.contains(all[k]) by {
            if k < before.len() {
                assert(before[k] == all[k]);
                if before[k] != item {
                    let m = choose|m: int| 0 <= m < shorter.len() && shorter[m] == before[k];
                    assert(sorted[m] == all[k]);
                }
            } else {
                assert(sorted[sorted.len() - 1] == all[k]);
            }
        }
        assert(all.to_multiset() =~= sorted.to_multiset().insert(item)) by {
            assert(all == before.push(last));
            assert(all.to_multiset() =~= before.to_multiset().insert(last));
            assert(sorted.to_multiset() =~= shorter.to_multiset().insert(last));
        }
    }
}

/// Putting stretches in order keeps them all, each as often as it came, and
/// none before one that starts before it, or ends before it where both start
/// together.
pub proof fn law_order_keeps_every_stretch(items: Seq<Painted>, n: int)
    requires
        0 <= n <= items.len(),
    ensures
        come_in_order(ordered(items, n)),
        ordered(items, n).to_multiset() =~= items.take(n).to_multiset(),
    decreases n,
{
    broadcast use vstd::seq_lib::group_to_multiset_ensures;

    if n > 0 {
        law_order_keeps_every_stretch(items, n - 1);
        lemma_placed_in_order(ordered(items, n - 1), items[n - 1]);
        assert(items.take(n) =~= items.take(n - 1).push(items[n - 1]));
    } else {
        assert(items.take(0) =~= Seq::<Painted>::empty());
    }
}

/// Of stretches in order that are made one where they touch, none touches the
/// next in the same style, and they start in the same order.
pub proof fn law_joined_stretches_are_apart(items: Seq<Painted>, n: int)
    requires
        0 <= n <= items.len(),
        forall|i: int, j: int|
            0 <= i < j < items.len() ==> (#[trigger] items[i]).0 <= (#[trigger] items[j]).0,
    ensures
        ({
            let all = joined(items, n);
            &&& all.len() <= n
            &&& n > 0 ==> all.len() > 0 && all[0].0 == items[0].0 && all.last().1 == items[n - 1].1
                && all.last().2 == items[n - 1].2 && all.last().0 <= items[n - 1].0
            &&& forall|i: int|
                0 < i < all.len() ==> !(all[i - 1].1 == (#[trigger] all[i]).0 && all[i - 1].2
                    == all[i].2)
            &&& forall|i: int, j: int|
                0 <= i < j < all.len() ==> (#[trigger] all[i]).0 <= (#[trigger] all[j]).0
        }),
    decreases n,
{
    if n > 0 {
        law_joined_stretches_are_apart(items, n - 1);
        let before = joined(items, n - 1);
        let all = joined(items, n);
        let item = items[n - 1];
        if n > 1 {
            assert(items[n - 2].0 <= items[n - 1].0);
        }
        if before.len() > 0 && before.last().1 == item.0 && before.last().2 == item.2 {
            let last = before.len() - 1;
            assert forall|i: int| 0 < i < all.len() implies !(all[i - 1].1 == (#[trigger] all[i]).0
                && all[i - 1].2 == all[i].2) by {
                assert(!(before[i - 1].1 == before[i].0 && before[i - 1].2 == before[i].2));
            }
            assert forall|i: int, j: int| 0 <= i < j < all.len() implies (#[trigger] all[i]).0 <= (
            #[trigger] all[j]).0 by {
                assert(before[i].0 <= before[j].0);
            }
        } else {
            assert forall|i: int| 0 < i < all.len() implies !(all[i - 1].1 == (#[trigger] all[i]).0
                && all[i - 1].2 == all[i].2) by {
                if i < before.len() {
                    assert(!(before[i - 1].1 == before[i].0 && before[i - 1].2 == before[i].2));
                }
            }
            assert forall|i: int, j: int| 0 <= i < j < all.len() implies (#[trigger] all[i]).0 <= (
            #[trigger] all[j]).0 by {
                if j < before.len() {
                    assert(before[i].0 <= before[j].0);
                } else if i < before.len() - 1 {
                    assert(before[i].0 <= before[before.len() - 1].0);
                }
            }
        }
    }
}

/// A byte is painted as its row is painted at that place.
pub proof fn law_rows_are_painted_where_they_stand(
    bytes: Seq<u8>,
    per_row: Seq<Seq<Painted>>,
    first: int,
    end: int,
    byte: int,
    style: u64,
)
    requires
        0 <= first <= end <= per_row.len(),
    ensures
        paints(rows_painted(bytes, per_row, first, end), byte, style) <==> exists|row: int|
            first <= row < end && #[trigger] paints(
                per_row[row],
                byte - starts_of(bytes)[row],
                style,
            ),
    decreases end - first,
{
    if first < end {
        law_rows_are_painted_where_they_stand(bytes, per_row, first, end - 1, byte, style);
        let before = rows_painted(bytes, per_row, first, end - 1);
        let by = starts_of(bytes)[end - 1];
        let row = per_row[end - 1];
        let here = moved(row, by);
        let all = rows_painted(bytes, per_row, first, end);
        assert(all == before + here);
        assert forall|i: int| 0 <= i < row.len() implies #[trigger] here[i] == (
            row[i].0 + by,
            row[i].1 + by,
            row[i].2,
        ) by {}
        if paints(all, byte, style) {
            let i = choose|i: int|
                0 <= i < all.len() && (#[trigger] all[i]).0 <= byte < all[i].1 && all[i].2 == style;
            if i < before.len() {
                assert(before[i] == all[i]);
                assert(paints(before, byte, style));
                let r = choose|r: int|
                    first <= r < end - 1 && #[trigger] paints(
                        per_row[r],
                        byte - starts_of(bytes)[r],
                        style,
                    );
                assert(paints(per_row[r], byte - starts_of(bytes)[r], style));
            } else {
                let k = i - before.len();
                assert(here[k] == all[i]);
                assert(row[k].0 <= byte - by < row[k].1);
                assert(paints(per_row[end - 1], byte - starts_of(bytes)[end - 1], style));
            }
        }
        if exists|r: int|
            first <= r < end && #[trigger] paints(
                per_row[r],
                byte - starts_of(bytes)[r],
                style,
            ) {
            let r = choose|r: int|
                first <= r < end && #[trigger] paints(
                    per_row[r],
                    byte - starts_of(bytes)[r],
                    style,
                );
            if r < end - 1 {
                assert(paints(before, byte, style));
                let i = choose|i: int|
                    0 <= i < before.len() && (#[trigger] before[i]).0 <= byte < before[i].1
                        && before[i].2 == style;
                assert(all[i] == before[i]);
            } else {
                let k = choose|k: int|
                    0 <= k < row.len() && (#[trigger] row[k]).0 <= byte - by < row[k].1 && row[k].2
                        == style;
                assert(all[before.len() + k] == here[k]);
            }
        }
    }
}

/// A byte is on the row that starts at it or before, and whose next row starts
/// behind it. The rows that a stretch overlaps are those of its bytes, and none
/// that starts behind the stretch.
pub proof fn law_stretch_overlaps_the_rows_of_its_bytes(
    bytes: Seq<u8>,
    start: int,
    end: int,
    at: int,
)
    requires
        0 <= start <= at < end <= bytes.len(),
    ensures
        ({
            let (first, past) = overlapped_rows(bytes, start, end);
            let row = row_of(bytes, at);
            &&& 0 <= row < starts_of(bytes).len()
            &&& starts_of(bytes)[row] <= at
            &&& row + 1 < starts_of(bytes).len() ==> at < starts_of(bytes)[row + 1]
            &&& 0 <= first <= row < past <= starts_of(bytes).len()
            &&& starts_of(bytes)[past - 1] <= end
            &&& at == start ==> row == first
        }),
{
    law_line_starts(bytes);
    lemma_row_of(bytes, at);
    lemma_row_of(bytes, start);
    lemma_row_of(bytes, end);
    let starts = starts_of(bytes);
    let row = row_of(bytes, at);
    let first = row_of(bytes, start);
    let last = row_of(bytes, end);
    if row < first {
        assert(starts[row + 1] <= starts[first]);
    }
    if last < row {
        assert(starts[last + 1] <= starts[row]);
    }
}

/// Every row of the first ranges of lines is of that conflict, and those of each
/// range are there.
pub proof fn law_rows_of_all_its_ranges_are_open(
    bytes: Seq<u8>,
    conflict_ix: int,
    ranges: Seq<(int, int)>,
    n: int,
    i: int,
)
    requires
        0 <= i < n <= ranges.len(),
    ensures
        ({
            let rows = rows_of_ranges(bytes, conflict_ix, ranges, n);
            let own = rows_within(bytes, conflict_ix, ranges[i].0, ranges[i].1);
            &&& forall|k: int| 0 <= k < own.len() ==> rows.contains(#[trigger] own[k])
            &&& forall|k: int| 0 <= k < rows.len() ==> (#[trigger] rows[k]).2 == conflict_ix as u64
        }),
    decreases n,
{
    let rows = rows_of_ranges(bytes, conflict_ix, ranges, n);
    let own = rows_within(bytes, conflict_ix, ranges[i].0, ranges[i].1);
    let before = rows_of_ranges(bytes, conflict_ix, ranges, n - 1);
    let last = rows_within(bytes, conflict_ix, ranges[n - 1].0, ranges[n - 1].1);
    lemma_rows_are_of(bytes, conflict_ix, ranges[n - 1].0, ranges[n - 1].1);
    if n > 1 {
        law_rows_of_all_its_ranges_are_open(bytes, conflict_ix, ranges, n - 1, if i < n - 1 {
            i
        } else {
            0
        });
    } else {
        assert(before.len() == 0);
    }
    assert forall|k: int| 0 <= k < own.len() implies rows.contains(#[trigger] own[k]) by {
        if i < n - 1 {
            assert(before.contains(own[k]));
            let m = choose|m: int| 0 <= m < before.len() && before[m] == own[k];
            assert(rows[m] == own[k]);
        } else {
            assert(rows[before.len() + k] == own[k]);
        }
    }
    assert forall|k: int| 0 <= k < rows.len() implies (#[trigger] rows[k]).2
        == conflict_ix as u64 by {
        if k < before.len() {
            assert(rows[k] == before[k]);
        } else {
            assert(rows[k] == last[k - before.len()]);
        }
    }
}

proof fn lemma_rows_are_of(bytes: Seq<u8>, conflict_ix: int, start: int, end: int)
    ensures
        forall|k: int|
            0 <= k < rows_within(bytes, conflict_ix, start, end).len() ==> (#[trigger] rows_within(
                bytes,
                conflict_ix,
                start,
                end,
            )[k]).2 == conflict_ix as u64,
    decreases end - start,
{
    if start < end {
        lemma_rows_are_of(bytes, conflict_ix, start, end - 1);
        let before = rows_within(bytes, conflict_ix, start, end - 1);
        let all = rows_within(bytes, conflict_ix, start, end);
        assert forall|k: int| 0 <= k < all.len() implies (#[trigger] all[k]).2
            == conflict_ix as u64 by {
            if k < before.len() {
                assert(all[k] == before[k]);
            }
        }
    }
}

/// The rows that are painted as open are those of conflicts that are not resolved:
/// of each such conflict all that are marked for it, and of a resolved one none.
pub proof fn law_only_unresolved_conflicts_have_open_rows(
    bytes: Seq<u8>,
    blocks: Seq<BlockView>,
    analyses: Seq<BlockAnalysis>,
    lines: Seq<(int, int)>,
    n: int,
    i: int,
)
    requires
        0 <= i < n <= blocks.len(),
        n <= u64::MAX,
    ensures
        ({
            let rows = rows_of_blocks(bytes, blocks, analyses, lines, n);
            let ranges = block_marker_ranges(blocks[i], &analyses[i], lines[i]);
            let own = rows_of_ranges(bytes, i, ranges, ranges.len() as int);
            &&& !blocks[i].resolved ==> forall|k: int|
                0 <= k < own.len() ==> rows.contains(#[trigger] own[k])
            &&& forall|k: int|
                0 <= k < rows.len() ==> (#[trigger] rows[k]).2 < n
                    && !blocks[rows[k].2 as int].resolved
        }),
    decreases n,
{
    let rows = rows_of_blocks(bytes, blocks, analyses, lines, n);
    let before = rows_of_blocks(bytes, blocks, analyses, lines, n - 1);
    let ranges = block_marker_ranges(blocks[i], &analyses[i], lines[i]);
    let own = rows_of_ranges(bytes, i, ranges, ranges.len() as int);
    let last_ranges = block_marker_ranges(blocks[n - 1], &analyses[n - 1], lines[n - 1]);
    let last = rows_of_ranges(bytes, n - 1, last_ranges, last_ranges.len() as int);
    if n > 1 {
        law_only_unresolved_conflicts_have_open_rows(
            bytes,
            blocks,
            analyses,
            lines,
            n - 1,
            if i < n - 1 {
                i
            } else {
                0
            },
        );
    } else {
        assert(before.len() == 0);
    }
    if last_ranges.len() > 0 {
        law_rows_of_all_its_ranges_are_open(
            bytes,
            n - 1,
            last_ranges,
            last_ranges.len() as int,
            0,
        );
    }
    if !blocks[i].resolved {
        assert forall|k: int| 0 <= k < own.len() implies rows.contains(#[trigger] own[k]) by {
            if i < n - 1 {
                assert(before.contains(own[k]));
                let m = choose|m: int| 0 <= m < before.len() && before[m] == own[k];
                assert(rows[m] == own[k]);
            } else {
                assert(rows[before.len() + k] == own[k]);
            }
        }
    }
    assert forall|k: int| 0 <= k < rows.len() implies (#[trigger] rows[k]).2 < n
        && !blocks[rows[k].2 as int].resolved by {
        if k < before.len() {
            assert(rows[k] == before[k]);
        } else {
            assert(rows[k] == last[k - before.len()]);
            assert(last[k - before.len()].2 == (n - 1) as u64);
        }
    }
}

/// The open rows of a text are those of its conflicts, in order; there are none
/// where every conflict is resolved, or where the conflicts are not found.
pub proof fn law_open_rows_are_listed_in_order(
    segments: Seq<SegmentView>,
    drawn: Seq<Seq<u8>>,
    analyses: Seq<BlockAnalysis>,
    bytes: Seq<u8>,
    map: Seq<(int, int)>,
)
    ensures
        ({
            let rows = unresolved_rows(segments, drawn, analyses, bytes, map);
            let some_open = exists|i: int|
                0 <= i < segments.len() && ((#[trigger] segments[i]) matches SegmentView::Block(
                    block,
                ) && !block.resolved);
            let found = block_line_ranges(segments, drawn, bytes, map);
            &&& come_in_order(rows)
            &&& !some_open || found is None ==> rows.len() == 0
            &&& some_open ==> (found matches Some(lines) ==> {
                let count = if analyses.len() <= lines.len() {
                    analyses.len() as int
                } else {
                    lines.len() as int
                };
                rows.to_multiset() =~= rows_of_blocks(
                    bytes,
                    blocks_of(segments, segments.len() as int),
                    analyses,
                    lines,
                    count,
                ).to_multiset()
            })
        }),
{
    let some_open = exists|i: int|
        0 <= i < segments.len() && crate::conflict::output::is_unresolved(#[trigger] segments[i]);
    if some_open {
        let i = choose|i: int|
            0 <= i < segments.len() && crate::conflict::output::is_unresolved(
                #[trigger] segments[i],
            );
        assert(segments[i] is Block);
    }
    if let Some(lines) = block_line_ranges(segments, drawn, bytes, map) {
        let count = if analyses.len() <= lines.len() {
            analyses.len() as int
        } else {
            lines.len() as int
        };
        let rows = rows_of_blocks(
            bytes,
            blocks_of(segments, segments.len() as int),
            analyses,
            lines,
            count,
        );
        law_order_keeps_every_stretch(rows, rows.len() as int);
        assert(rows.take(rows.len() as int) =~= rows);
    }
    if exists|i: int|
        0 <= i < segments.len() && ((#[trigger] segments[i]) matches SegmentView::Block(block)
            && !block.resolved) {
        let i = choose|i: int|
            0 <= i < segments.len() && ((#[trigger] segments[i]) matches SegmentView::Block(block)
                && !block.resolved);
        assert(crate::conflict::output::is_unresolved(segments[i]));
    }
}

/// Conflicts are where the text has them, if it reads as its segments do, and else
/// where the map has them, if it fits the text.
pub proof fn law_conflicts_are_found_in_the_text_first(
    segments: Seq<SegmentView>,
    drawn: Seq<Seq<u8>>,
    out: Seq<u8>,
    map: Seq<(int, int)>,
)
    ensures
        strict_lines(segments, drawn, out) is Some ==> block_line_ranges(segments, drawn, out, map)
            == strict_lines(segments, drawn, out),
        strict_lines(segments, drawn, out) is None ==> {
            let found = block_line_ranges(segments, drawn, out, map);
            let count = block_count(segments, segments.len() as int);
            let fits = map.len() == count && (forall|i: int|
                0 <= i < map.len() ==> 0 <= (#[trigger] map[i]).0 <= map[i].1 <= out.len()) && (
            forall|i: int, j: int|
                0 <= i < j < map.len() ==> (#[trigger] map[i]).1 <= (#[trigger] map[j]).0);
            &&& found is Some <==> fits
            &&& found matches Some(lines) ==> lines.len() == map.len() && forall|i: int|
                0 <= i < map.len() ==> #[trigger] lines[i] == lines_of_bytes(out, map[i])
        },
{
}

/// What is digested of text is not what is digested of any conflict.
pub proof fn law_text_is_told_from_conflicts(text: Seq<char>, block: BlockView)
    ensures
        resolution_word(SegmentView::Text(text)) != resolution_word(SegmentView::Block(block)),
{
}

} // verus!
