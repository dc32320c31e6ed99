//! What is written when a merge result is saved, where its decisions are, and
//! when a text in the worktree is someone's own.
use crate::conflict::blocks::map_fits;
use crate::conflict::model::blocks_of;
use crate::conflict::model::ConflictChoice;
use crate::conflict::model::PickSlot;
use crate::conflict::model::SegmentView;
use crate::conflict::model::SubchunkView;
use crate::conflict::protection::content_lines;
use crate::conflict::protection::has_conflict;
use crate::conflict::protection::text_line;
use crate::conflict::protection::text_lines;
use crate::conflict::protection::ConflictSegmentRanges;
use crate::conflict::provenance_laws::law_pick_writes_its_versions_in_order;
use crate::conflict::regions::block_decision_ranges;
use crate::conflict::regions::block_decisions;
use crate::conflict::regions::block_subchunk_ranges;
use crate::conflict::regions::gathered;
use crate::conflict::regions::merged_decisions;
use crate::conflict::regions::plan_decision;
use crate::conflict::regions::subchunk_lines;
use crate::conflict::regions::subchunk_ranges;
use crate::conflict::regions::subchunk_text;
use crate::conflict::regions::PlanRegion;
use crate::conflict::regions::RegionView;
use crate::conflict::regions::SideBySidePlan;
use crate::conflict::save::behind;
use crate::conflict::save::between_chars;
use crate::conflict::save::resolved_among;
use crate::conflict::save::resolved_blocks;
use crate::conflict::save::with_markers;
use crate::conflict::save::RegionResolution;
use crate::conflict::split::lemma_chars_split;
use crate::conflict::split::split_mode;
use crate::conflict::split::split_segments;
use crate::conflict::split::split_target;
use crate::conflict::split::SplitMode;
use crate::lines::law_line_range;
use crate::lines::lemma_newlines_add;
use crate::lines::lemma_newlines_bound;
use crate::lines::line_range;
use crate::lines::newlines;
use crate::lines::starts_of;
use crate::lines::text_within;
use crate::search::joined::lemma_encode_add;
use crate::utf::chars_within;
use std::ops::Range;
use vstd::prelude::*;
use vstd::utf8::decode_utf8;
use vstd::utf8::encode_utf8;
use vstd::utf8::is_char_boundary;
use vstd::utf8::valid_utf8;

verus! {

/// What is saved of an edited text.
pub open spec fn saved_text(
    bytes: Seq<u8>,
    ranges: Seq<(int, int)>,
    resolutions: Seq<RegionResolution>,
    markers: Seq<String>,
) -> Seq<char> {
    let n = resolutions.len() as int;
    with_markers(bytes, ranges, resolutions, markers, n) + chars_within(
        bytes,
        behind(ranges, n),
        bytes.len() as int,
    )
}

proof fn lemma_all_resolved(
    bytes: Seq<u8>,
    ranges: Seq<(int, int)>,
    resolutions: Seq<RegionResolution>,
    markers: Seq<String>,
    n: int,
)
    requires
        valid_utf8(bytes),
        map_fits(ranges, resolutions.len() as int, bytes.len() as int),
        between_chars(bytes, ranges),
        0 <= n <= resolutions.len(),
        forall|i: int|
            0 <= i < resolutions.len() ==> #[trigger] resolutions[i] == RegionResolution::Resolved,
    ensures
        0 <= behind(ranges, n) <= bytes.len(),
        is_char_boundary(bytes, behind(ranges, n)),
        with_markers(bytes, ranges, resolutions, markers, n) == chars_within(
            bytes,
            0,
            behind(ranges, n),
        ),
    decreases n,
{
    vstd::utf8::is_char_boundary_start_end_of_seq(bytes);
    if n == 0 {
        assert(bytes.subrange(0, 0) =~= Seq::<u8>::empty());
        reveal_with_fuel(vstd::utf8::decode_utf8, 1);
    } else {
        lemma_all_resolved(bytes, ranges, resolutions, markers, n - 1);
        let (start, end) = ranges[n - 1];
        let before = behind(ranges, n - 1);
        assert(0 <= start <= end <= bytes.len());
        assert(is_char_boundary(bytes, start) && is_char_boundary(bytes, end));
        if n > 1 {
            assert(ranges[n - 2].1 <= ranges[n - 1].0);
        }
        assert(resolutions[n - 1] == RegionResolution::Resolved);
        lemma_chars_split(bytes, 0, before, start);
        lemma_chars_split(bytes, 0, start, end);
    }
}

/// A text whose conflicts are all resolved is saved letter for letter.
pub proof fn law_resolved_text_is_saved_as_it_is(
    bytes: Seq<u8>,
    ranges: Seq<(int, int)>,
    resolutions: Seq<RegionResolution>,
    markers: Seq<String>,
)
    requires
        valid_utf8(bytes),
        map_fits(ranges, resolutions.len() as int, bytes.len() as int),
        between_chars(bytes, ranges),
        forall|i: int|
            0 <= i < resolutions.len() ==> #[trigger] resolutions[i] == RegionResolution::Resolved,
    ensures
        saved_text(bytes, ranges, resolutions, markers) == decode_utf8(bytes),
{
    let n = resolutions.len() as int;
    lemma_all_resolved(bytes, ranges, resolutions, markers, n);
    vstd::utf8::is_char_boundary_start_end_of_seq(bytes);
    lemma_chars_split(bytes, 0, behind(ranges, n), bytes.len() as int);
    assert(bytes.subrange(0, bytes.len() as int) =~= bytes);
}

spec fn saved_between(
    bytes: Seq<u8>,
    ranges: Seq<(int, int)>,
    resolutions: Seq<RegionResolution>,
    markers: Seq<String>,
    from: int,
    n: int,
) -> Seq<char>
    decreases n - from,
{
    if n <= from {
        Seq::empty()
    } else {
        saved_between(bytes, ranges, resolutions, markers, from, n - 1) + chars_within(
            bytes,
            behind(ranges, n - 1),
            ranges[n - 1].0,
        ) + (if resolutions[n - 1] == RegionResolution::Unresolved {
            markers[n - 1]@
        } else {
            chars_within(bytes, ranges[n - 1].0, ranges[n - 1].1)
        })
    }
}

proof fn lemma_saved_on(
    bytes: Seq<u8>,
    ranges: Seq<(int, int)>,
    resolutions: Seq<RegionResolution>,
    markers: Seq<String>,
    from: int,
    n: int,
)
    requires
        0 <= from <= n,
    ensures
        with_markers(bytes, ranges, resolutions, markers, n) == with_markers(
            bytes,
            ranges,
            resolutions,
            markers,
            from,
        ) + saved_between(bytes, ranges, resolutions, markers, from, n),
    decreases n - from,
{
    let head = with_markers(bytes, ranges, resolutions, markers, from);
    if n == from {
        assert(head + Seq::<char>::empty() =~= head);
    } else {
        lemma_saved_on(bytes, ranges, resolutions, markers, from, n - 1);
        let middle = saved_between(bytes, ranges, resolutions, markers, from, n - 1);
        let gap = chars_within(bytes, behind(ranges, n - 1), ranges[n - 1].0);
        let last = if resolutions[n - 1] == RegionResolution::Unresolved {
            markers[n - 1]@
        } else {
            chars_within(bytes, ranges[n - 1].0, ranges[n - 1].1)
        };
        assert((head + middle) + gap + last =~= head + (middle + gap + last));
    }
}

proof fn lemma_saved_alike(
    bytes: Seq<u8>,
    ranges: Seq<(int, int)>,
    a: Seq<RegionResolution>,
    b: Seq<RegionResolution>,
    markers: Seq<String>,
    from: int,
    n: int,
)
    requires
        0 <= from <= n <= a.len(),
        a.len() == b.len(),
        forall|k: int| from <= k < n ==> #[trigger] a[k] == b[k],
    ensures
        from == 0 ==> with_markers(bytes, ranges, a, markers, n) == with_markers(
            bytes,
            ranges,
            b,
            markers,
            n,
        ),
        saved_between(bytes, ranges, a, markers, from, n) == saved_between(
            bytes,
            ranges,
            b,
            markers,
            from,
            n,
        ),
    decreases n - from,
{
    if from < n {
        lemma_saved_alike(bytes, ranges, a, b, markers, from, n - 1);
        assert(a[n - 1] == b[n - 1]);
    }
}

/// Two texts are the same but for one place, where they have this and that.
pub open spec fn differ_in_one_place(
    a: Seq<char>,
    b: Seq<char>,
    this: Seq<char>,
    that: Seq<char>,
) -> bool {
    exists|head: Seq<char>, tail: Seq<char>|
        a == #[trigger] ((head + this) + tail) && b == ((head + that) + tail)
}

/// An open conflict is saved as its markers: the saved text is the one that
/// would be saved were the conflict resolved, with the markers in place of what
/// the text holds there.
pub proof fn law_open_conflict_is_saved_as_its_markers(
    bytes: Seq<u8>,
    ranges: Seq<(int, int)>,
    resolutions: Seq<RegionResolution>,
    markers: Seq<String>,
    i: int,
)
    requires
        0 <= i < resolutions.len(),
        resolutions[i] == RegionResolution::Unresolved,
    ensures
        differ_in_one_place(
            saved_text(bytes, ranges, resolutions, markers),
            saved_text(
                bytes,
                ranges,
                resolutions.update(i, RegionResolution::Resolved),
                markers,
            ),
            markers[i]@,
            decode_utf8(bytes.subrange(ranges[i].0, ranges[i].1)),
        ),
{
    let n = resolutions.len() as int;
    let other = resolutions.update(i, RegionResolution::Resolved);
    let own = chars_within(bytes, ranges[i].0, ranges[i].1);
    lemma_saved_on(bytes, ranges, resolutions, markers, i + 1, n);
    lemma_saved_on(bytes, ranges, other, markers, i + 1, n);
    lemma_saved_alike(bytes, ranges, resolutions, other, markers, 0, i);
    lemma_saved_alike(bytes, ranges, resolutions, other, markers, i + 1, n);
    let head = with_markers(bytes, ranges, resolutions, markers, i) + chars_within(
        bytes,
        behind(ranges, i),
        ranges[i].0,
    );
    let rest = chars_within(bytes, behind(ranges, n), bytes.len() as int);
    let tail = saved_between(bytes, ranges, resolutions, markers, i + 1, n) + rest;
    assert(saved_text(bytes, ranges, resolutions, markers) =~= (head + markers[i]@) + tail);
    assert(saved_text(bytes, ranges, other, markers) =~= (head + own) + tail);
}

/// Resolved conflicts are counted one by one.
pub proof fn law_resolved_conflicts_are_counted(resolutions: Seq<RegionResolution>, n: int)
    requires
        0 <= n <= resolutions.len(),
    ensures
        resolved_among(resolutions, n) == resolutions.take(n).filter(
            |r: RegionResolution| r == RegionResolution::Resolved,
        ).len(),
    decreases n,
{
    reveal(Seq::filter);
    if n > 0 {
        law_resolved_conflicts_are_counted(resolutions, n - 1);
        assert(resolutions.take(n).drop_last() =~= resolutions.take(n - 1));
        assert(resolutions.take(n).last() == resolutions[n - 1]);
    }
}

/// So are the conflicts among segments that are resolved.
pub proof fn law_resolved_segments_are_counted(segments: Seq<SegmentView>, n: int)
    requires
        0 <= n <= segments.len(),
    ensures
        resolved_blocks(segments, n) == segments.take(n).filter(
            |s: SegmentView| s is Block && s->Block_0.resolved,
        ).len(),
    decreases n,
{
    reveal(Seq::filter);
    if n > 0 {
        law_resolved_segments_are_counted(segments, n - 1);
        assert(segments.take(n).drop_last() =~= segments.take(n - 1));
        assert(segments.take(n).last() == segments[n - 1]);
    }
}

/// Differing rows are a decision on the lines that stand on them: of each side
/// those from as many as are above the first row to as many as are above the row
/// behind the last. Some row shows no picked line where there are fewer picked
/// lines than rows.
pub proof fn law_decision_is_on_the_lines_of_its_rows(
    region: PlanRegion,
    row_count: int,
    selected: Seq<usize>,
    alternate: Seq<usize>,
)
    requires
        region.row_start <= region.row_end_exclusive <= row_count,
        selected.len() == row_count + 1,
        alternate.len() == row_count + 1,
        selected[region.row_start as int] <= selected[region.row_end_exclusive as int],
    ensures
        ({
            let decision = plan_decision(region, row_count, selected, alternate);
            let first = region.row_start as int;
            let past = region.row_end_exclusive as int;
            &&& decision.rows == (first, past)
            &&& decision.selected == (selected[first] as int, selected[past] as int)
            &&& decision.alternate == (alternate[first] as int, alternate[past] as int)
            &&& decision.gaps <==> selected[past] - selected[first] < past - first
        }),
{
}

/// The decisions within a conflict are on the lines of the side that was picked:
/// with ours picked the lines of the left side are the picked ones, with theirs
/// those of the right side. Without a pick of one side there are none.
pub proof fn law_decisions_are_of_the_picked_side(
    choice: ConflictChoice,
    plan: &SideBySidePlan,
    region: PlanRegion,
)
    requires
        plan.is_complete(),
        plan.regions@ == seq![region],
        region.row_start <= region.row_end_exclusive <= plan.row_count,
        plan.row_count > 0,
    ensures
        ({
            let first = region.row_start as int;
            let past = region.row_end_exclusive as int;
            let left = (plan.old_prefix@[first] as int, plan.old_prefix@[past] as int);
            let right = (plan.new_prefix@[first] as int, plan.new_prefix@[past] as int);
            let alone = choice.second == PickSlot::Nothing && choice.third == PickSlot::Nothing;
            let decisions = block_decisions(choice, plan);
            &&& alone && choice.first == PickSlot::Ours ==> (decisions matches Some(all)
                && all.len() == 1 && all[0].selected == left && all[0].alternate == right)
            &&& alone && choice.first == PickSlot::Theirs ==> (decisions matches Some(all)
                && all.len() == 1 && all[0].selected == right && all[0].alternate == left)
            &&& !(alone && (choice.first == PickSlot::Ours || choice.first == PickSlot::Theirs))
                ==> decisions is None
        }),
{
    reveal_with_fuel(gathered, 2);
    reveal_with_fuel(merged_decisions, 2);
}

/// Two decisions one behind the other are one where both only insert, or where
/// both replace line for line, and no more than one line is between them. The
/// one then reaches over both; any other two stay two.
pub proof fn law_close_decisions_are_one(a: RegionView, b: RegionView)
    requires
        0 <= a.selected.0 <= a.selected.1 <= b.selected.0 <= b.selected.1,
        a.selected.1 < usize::MAX,
    ensures
        ({
            let both = merged_decisions(seq![a, b], 2);
            let close = b.selected.0 - a.selected.1 <= 1;
            let inserts = a.selected.0 == a.selected.1 && b.selected.0 == b.selected.1;
            let replaces = a.selected.0 < a.selected.1 && b.selected.0 < b.selected.1 && !a.gaps
                && !b.gaps;
            &&& close && (inserts || replaces) ==> both.len() == 1 && both[0].selected == (
                a.selected.0,
                b.selected.1,
            ) && both[0].rows == (a.rows.0, b.rows.1) && both[0].alternate.0 == a.alternate.0
                && both[0].alternate.1 >= a.alternate.1 && both[0].alternate.1 >= b.alternate.1
            &&& !(close && (inserts || replaces)) ==> both == seq![a, b]
        }),
{
    reveal_with_fuel(merged_decisions, 3);
    let all = seq![a, b];
    assert(all[0] == a && all[1] == b);
    assert(merged_decisions(all, 0) =~= Seq::<RegionView>::empty());
    let one = merged_decisions(all, 1);
    assert(one =~= seq![a]);
    assert(one.last() == a);
    assert(one.push(b) =~= seq![a, b]);
}

/// Differing rows that leave the same picked lines are one decision, which takes
/// in the other side's lines of both.
pub proof fn law_rows_on_the_same_lines_are_one_decision(
    a: PlanRegion,
    b: PlanRegion,
    row_count: int,
    selected: Seq<usize>,
    alternate: Seq<usize>,
)
    requires
        a.row_start <= a.row_end_exclusive <= row_count,
        b.row_start <= b.row_end_exclusive <= row_count,
    ensures
        ({
            let all = gathered(seq![a, b], row_count, selected, alternate, 2);
            let first = plan_decision(a, row_count, selected, alternate);
            let second = plan_decision(b, row_count, selected, alternate);
            &&& first.selected != second.selected ==> all == seq![first, second]
            &&& first.selected == second.selected ==> all.len() == 1 && all[0].selected
                == first.selected && all[0].rows == (first.rows.0, second.rows.1)
                && all[0].alternate.0 == first.alternate.0 && all[0].alternate.1
                >= first.alternate.1 && all[0].alternate.1 >= second.alternate.1 && all[0].gaps
                == (first.gaps || second.gaps)
        }),
{
    reveal_with_fuel(gathered, 3);
    let regions = seq![a, b];
    assert(regions[0] == a && regions[1] == b);
    let first = plan_decision(a, row_count, selected, alternate);
    let second = plan_decision(b, row_count, selected, alternate);
    let one = gathered(regions, row_count, selected, alternate, 1);
    assert(one =~= seq![first]);
    assert(one.last() == first);
    assert(one.push(second) =~= seq![first, second]);
}

/// What finer pieces of a conflict write one behind the other under a pick.
pub open spec fn written(
    subchunks: Seq<SubchunkView>,
    choice: ConflictChoice,
    n: int,
) -> Seq<char>
    decreases n,
{
    if n <= 0 {
        Seq::empty()
    } else {
        written(subchunks, choice, n - 1) + (match subchunks[n - 1] {
            SubchunkView::Resolved(text) => text,
            SubchunkView::Conflict { base, ours, theirs } => {
                let text = |slot: PickSlot|
                    match slot {
                        PickSlot::Nothing => Seq::<char>::empty(),
                        PickSlot::Base => base,
                        PickSlot::Ours => ours,
                        PickSlot::Theirs => theirs,
                    };
                text(choice.first) + text(choice.second) + text(choice.third)
            },
        })
    }
}

proof fn lemma_written(subchunks: Seq<SubchunkView>, choice: ConflictChoice, n: int)
    requires
        0 < n <= subchunks.len(),
    ensures
        written(subchunks, choice, n) == written(subchunks, choice, n - 1) + subchunk_text(
            subchunks[n - 1],
            choice,
        ),
{
    if let SubchunkView::Conflict { base, ours, theirs } = subchunks[n - 1] {
        law_pick_writes_its_versions_in_order(base, ours, theirs, choice);
    }
}

/// The lines above a finer piece are as many as the pieces before it end.
pub proof fn law_finer_pieces_stand_below_each_other(
    subchunks: Seq<SubchunkView>,
    choice: ConflictChoice,
    n: int,
)
    requires
        0 <= n <= subchunks.len(),
        encode_utf8(written(subchunks, choice, n)).len() <= usize::MAX,
    ensures
        subchunk_lines(subchunks, choice, n) == newlines(
            encode_utf8(written(subchunks, choice, n)),
        ),
    decreases n,
{
    if n > 0 {
        let before = written(subchunks, choice, n - 1);
        let last = subchunk_text(subchunks[n - 1], choice);
        lemma_written(subchunks, choice, n);
        lemma_encode_add(before, last);
        law_finer_pieces_stand_below_each_other(subchunks, choice, n - 1);
        lemma_newlines_add(encode_utf8(before), encode_utf8(last));
        lemma_newlines_bound(encode_utf8(written(subchunks, choice, n)));
    } else {
        assert(encode_utf8(Seq::<char>::empty()) =~= Seq::<u8>::empty()) by {
            reveal_with_fuel(vstd::utf8::encode_utf8, 1);
        }
    }
}

/// Each finer conflict is named with the lines that it writes.
pub proof fn law_each_finer_conflict_is_named(
    subchunks: Seq<SubchunkView>,
    choice: ConflictChoice,
    n: int,
    i: int,
)
    requires
        0 <= i < n <= subchunks.len(),
        subchunks[i] is Conflict,
    ensures
        subchunk_ranges(subchunks, choice, n).contains(
            (subchunk_lines(subchunks, choice, i), subchunk_lines(subchunks, choice, i + 1)),
        ),
    decreases n,
{
    let before = subchunk_ranges(subchunks, choice, n - 1);
    let all = subchunk_ranges(subchunks, choice, n);
    let item = (subchunk_lines(subchunks, choice, i), subchunk_lines(subchunks, choice, i + 1));
    if i < n - 1 {
        law_each_finer_conflict_is_named(subchunks, choice, n - 1, i);
        let k = choose|k: int| 0 <= k < before.len() && before[k] == item;
        assert(all[k] == item);
    } else {
        assert(all[all.len() - 1] == item);
    }
}

/// Finer conflicts are named one by one, and settled text is not.
pub proof fn law_only_finer_conflicts_are_named(
    subchunks: Seq<SubchunkView>,
    choice: ConflictChoice,
    n: int,
)
    requires
        0 <= n <= subchunks.len(),
    ensures
        subchunk_ranges(subchunks, choice, n).len() == subchunks.take(n).filter(
            |s: SubchunkView| s is Conflict,
        ).len(),
    decreases n,
{
    reveal(Seq::filter);
    if n > 0 {
        law_only_finer_conflicts_are_named(subchunks, choice, n - 1);
        assert(subchunks.take(n).drop_last() =~= subchunks.take(n - 1));
        assert(subchunks.take(n).last() == subchunks[n - 1]);
    }
}

/// Finer conflicts are named only for a conflict with a base that was cut into
/// pieces of which one is a conflict.
pub proof fn law_finer_conflicts_need_a_base(
    has_base: bool,
    choice: ConflictChoice,
    subchunks: Option<Seq<SubchunkView>>,
)
    ensures
        ({
            let ranges = block_subchunk_ranges(has_base, choice, subchunks);
            &&& ranges is Some <==> has_base && (subchunks matches Some(all) && exists|i: int|
                0 <= i < all.len() && (#[trigger] all[i]) is Conflict)
            &&& ranges matches Some(found) ==> (subchunks matches Some(all) && found
                == subchunk_ranges(all, choice, all.len() as int))
        }),
{
    if let Some(all) = subchunks {
        lemma_some_range(all, choice, all.len() as int);
    }
}

proof fn lemma_some_range(subchunks: Seq<SubchunkView>, choice: ConflictChoice, n: int)
    requires
        0 <= n <= subchunks.len(),
    ensures
        subchunk_ranges(subchunks, choice, n).len() > 0 <==> exists|i: int|
            0 <= i < n && (#[trigger] subchunks[i]) is Conflict,
    decreases n,
{
    if n > 0 {
        lemma_some_range(subchunks, choice, n - 1);
    }
}

/// A line is read from where it starts up to its newline, without that and
/// without one carriage return before it; the last line of a text, which no
/// newline ends, is read to the end.
pub proof fn law_line_is_read_without_its_ending(bytes: Seq<u8>, line_ix: int)
    requires
        0 <= line_ix < starts_of(bytes).len(),
    ensures
        ({
            let start = starts_of(bytes)[line_ix];
            let line = text_line(bytes, line_ix);
            let end = start + line.len();
            &&& 0 <= start <= end <= bytes.len()
            &&& line == bytes.subrange(start, end)
            &&& forall|k: int| 0 <= k < line.len() ==> #[trigger] line[k] != 10
            &&& end == bytes.len() || bytes[end] == 10 || (end + 1 < bytes.len() && bytes[end]
                == 13 && bytes[end + 1] == 10)
            &&& end < bytes.len() && bytes[end] == 10 && start < end ==> bytes[end - 1] != 13
        }),
{
    law_line_range(bytes, line_ix);
    let (start, end) = line_range(bytes, line_ix);
    assert(start == starts_of(bytes)[line_ix]);
    let line = text_line(bytes, line_ix);
    assert forall|k: int| 0 <= k < line.len() implies #[trigger] line[k] != 10 by {
        assert(line[k] == bytes[start + k]);
    }
}

/// A text has one line for every newline, and one more where it does not end
/// with one; nothing has no lines.
pub proof fn law_text_is_read_line_by_line(bytes: Seq<u8>, i: int)
    ensures
        bytes.len() == 0 ==> text_lines(bytes).len() == 0,
        bytes.len() > 0 && bytes.last() == 10 ==> text_lines(bytes).len() == newlines(bytes),
        bytes.len() > 0 && bytes.last() != 10 ==> text_lines(bytes).len() == newlines(bytes) + 1,
        0 <= i < text_lines(bytes).len() ==> text_lines(bytes)[i] == text_line(bytes, i),
{
}

proof fn lemma_content_has(
    bytes: Seq<u8>,
    segments: Seq<ConflictSegmentRanges>,
    n: int,
    i: int,
    line: Seq<u8>,
)
    requires
        0 <= i < n <= segments.len(),
        crate::conflict::protection::segment_lines(bytes, segments[i]).contains(line),
    ensures
        content_lines(bytes, segments, n).contains(line),
    decreases n,
{
    let before = content_lines(bytes, segments, n - 1);
    let own = crate::conflict::protection::segment_lines(bytes, segments[n - 1]);
    let all = content_lines(bytes, segments, n);
    if i < n - 1 {
        lemma_content_has(bytes, segments, n - 1, i, line);
        let k = choose|k: int| 0 <= k < before.len() && before[k] == line;
        assert(all[k] == line);
    } else {
        let k = choose|k: int| 0 <= k < own.len() && own[k] == line;
        assert(all[before.len() + k] == line);
    }
}

/// Every line between the markers of a document is looked at: those of its text,
/// and those of ours, of the base and of theirs in each conflict.
pub proof fn law_every_part_of_a_document_is_looked_at(
    bytes: Seq<u8>,
    segments: Seq<ConflictSegmentRanges>,
    i: int,
    part: Range<usize>,
    line: Seq<u8>,
)
    requires
        0 <= i < segments.len(),
        match segments[i] {
            ConflictSegmentRanges::Text(range) => part == range,
            ConflictSegmentRanges::Conflict { ours, base, theirs } => part == ours || base == Some(
                part,
            ) || part == theirs,
        },
        part.start <= part.end <= bytes.len(),
        is_char_boundary(bytes, part.start as int),
        is_char_boundary(bytes, part.end as int),
        text_lines(bytes.subrange(part.start as int, part.end as int)).contains(line),
    ensures
        content_lines(bytes, segments, segments.len() as int).contains(line),
{
    let own = text_lines(bytes.subrange(part.start as int, part.end as int));
    assert(text_within(bytes, part.start as int, part.end as int) == bytes.subrange(
        part.start as int,
        part.end as int,
    ));
    let all = crate::conflict::protection::segment_lines(bytes, segments[i]);
    let k = choose|k: int| 0 <= k < own.len() && own[k] == line;
    if let ConflictSegmentRanges::Conflict { ours, base, theirs } = segments[i] {
        let first = crate::conflict::protection::range_lines(bytes, ours);
        let middle = match base {
            Some(base) => crate::conflict::protection::range_lines(bytes, base),
            None => Seq::empty(),
        };
        if part == ours {
            assert(all[k] == line);
        } else if base == Some(part) {
            assert(all[first.len() + k] == line);
        } else {
            assert(all[first.len() + middle.len() + k] == line);
        }
    }
    lemma_content_has(bytes, segments, segments.len() as int, i, line);
}

/// The lines of a conflict's decisions are their picked lines.
pub proof fn law_decisions_are_marked_on_their_picked_lines(
    choice: ConflictChoice,
    plan: &SideBySidePlan,
    i: int,
)
    ensures
        block_decision_ranges(choice, plan) is Some <==> block_decisions(choice, plan) is Some,
        block_decisions(choice, plan) matches Some(decisions) ==> {
            let ranges = block_decision_ranges(choice, plan)->Some_0;
            &&& ranges.len() == decisions.len()
            &&& 0 <= i < decisions.len() ==> ranges[i] == decisions[i].selected
        },
{
}

/// A document has a conflict where one of its stretches is one.
pub proof fn law_document_has_the_conflicts_it_holds(segments: Seq<ConflictSegmentRanges>, i: int)
    ensures
        0 <= i < segments.len() && segments[i] is Conflict ==> has_conflict(segments),
        (forall|k: int| 0 <= k < segments.len() ==> (#[trigger] segments[k]) is Text)
            ==> !has_conflict(segments),
{
}

/// A conflict that is resolved, that there is none of, or that is one decision is
/// not cut.
pub proof fn law_resolved_conflict_is_not_cut(
    segments: Seq<SegmentView>,
    regions: Seq<usize>,
    target_ix: int,
    subchunks: Option<Seq<SubchunkView>>,
    plan: &SideBySidePlan,
)
    ensures
        ({
            let blocks = blocks_of(segments, segments.len() as int);
            let cut = split_target(segments, regions, target_ix, subchunks, plan);
            &&& target_ix >= blocks.len() ==> cut is None
            &&& target_ix < blocks.len() && blocks[target_ix].resolved ==> cut is None
            &&& target_ix < blocks.len() && !blocks[target_ix].resolved ==> match split_mode(
                blocks[target_ix],
                subchunks,
                plan,
            ) {
                SplitMode::Whole => cut is None,
                mode => cut == Some(
                    split_segments(segments, regions, target_ix, mode, segments.len() as int),
                ),
            }
        }),
{
}

} // verus!
