//! The smaller decisions within an unresolved conflict.
use crate::conflict::model::conflict_fragment_text_for_choice;
use crate::conflict::model::picked_text;
use crate::conflict::model::subchunk_views;
use crate::conflict::model::ConflictBlock;
use crate::conflict::model::ConflictChoice;
use crate::conflict::model::PickSlot;
use crate::conflict::model::Subchunk;
use crate::conflict::model::SubchunkView;
use crate::lines::count_newlines;
use crate::lines::newlines;
use crate::num::less;
use crate::num::less_usize;
use crate::num::max;
use crate::num::max_usize;
use crate::num::min;
use crate::num::min_usize;
use crate::num::plus;
use crate::num::plus_usize;
use std::ops::Range;
use vstd::prelude::*;
use vstd::utf8::encode_utf8;

verus! {

/// Regions of a pick that are that many lines apart are one decision.
pub const MERGE_GAP_LINES: usize = 1;

/// The text that a finer piece of a conflict writes.
pub open spec fn subchunk_text(subchunk: SubchunkView, choice: ConflictChoice) -> Seq<char> {
    match subchunk {
        SubchunkView::Resolved(text) => text,
        SubchunkView::Conflict { base, ours, theirs } => picked_text(
            base,
            ours,
            theirs,
            choice.sources(),
            choice.sources().len() as int,
        ),
    }
}

/// How many lines the first `n` pieces end.
pub open spec fn subchunk_lines(
    subchunks: Seq<SubchunkView>,
    choice: ConflictChoice,
    n: int,
) -> int
    decreases n,
{
    if n <= 0 {
        0
    } else {
        plus(
            subchunk_lines(subchunks, choice, n - 1),
            newlines(encode_utf8(subchunk_text(subchunks[n - 1], choice))) as int,
        )
    }
}

/// The lines of those of the first `n` pieces that are conflicts.
pub open spec fn subchunk_ranges(
    subchunks: Seq<SubchunkView>,
    choice: ConflictChoice,
    n: int,
) -> Seq<(int, int)>
    decreases n,
{
    if n <= 0 {
        Seq::empty()
    } else {
        let before = subchunk_ranges(subchunks, choice, n - 1);
        if subchunks[n - 1] is Conflict {
            before.push(
                (
                    subchunk_lines(subchunks, choice, n - 1),
                    subchunk_lines(subchunks, choice, n),
                ),
            )
        } else {
            before
        }
    }
}

pub open spec fn as_pairs(ranges: Seq<Range<usize>>) -> Seq<(int, int)> {
    ranges.map_values(|range: Range<usize>| (range.start as int, range.end as int))
}

pub open spec fn optional_pairs(ranges: Option<Vec<Range<usize>>>) -> Option<Seq<(int, int)>> {
    match ranges {
        Some(ranges) => Some(as_pairs(ranges@)),
        None => None,
    }
}

/// The lines of the finer conflicts of a block, where it has a base, was cut
/// into pieces, and one of them is a conflict.
pub open spec fn block_subchunk_ranges(
    has_base: bool,
    choice: ConflictChoice,
    subchunks: Option<Seq<SubchunkView>>,
) -> Option<Seq<(int, int)>> {
    match subchunks {
        Some(subchunks) => {
            let ranges = subchunk_ranges(subchunks, choice, subchunks.len() as int);
            if has_base && ranges.len() > 0 {
                Some(ranges)
            } else {
                None
            }
        },
        None => None,
    }
}

pub open spec fn optional_subchunks(subchunks: Option<Vec<Subchunk>>) -> Option<
    Seq<SubchunkView>,
> {
    match subchunks {
        Some(subchunks) => Some(subchunk_views(subchunks@)),
        None => None,
    }
}

/// The lines of the finer conflicts of a block. The pieces are what the block
/// was cut into.
pub fn unresolved_subchunk_conflict_ranges_for_block(
    block: &ConflictBlock,
    subchunks: &Option<Vec<Subchunk>>,
) -> (ranges: Option<Vec<Range<usize>>>)
    ensures
        optional_pairs(ranges) == block_subchunk_ranges(
            block.base is Some,
            block.choice,
            optional_subchunks(*subchunks),
        ),
{
    if block.base.is_none() {
        return None;
    }
    let subchunks = match subchunks {
        Some(subchunks) => subchunks,
        None => {
            return None;
        },
    };
    let ghost views = subchunk_views(subchunks@);
    let mut ranges: Vec<Range<usize>> = Vec::new();
    let mut line_offset: usize = 0;
    let mut i: usize = 0;
    assert(as_pairs(ranges@) =~= Seq::<(int, int)>::empty());
    while i < subchunks.len()
        invariant
            0 <= i <= subchunks@.len(),
            views == subchunk_views(subchunks@),
            line_offset == subchunk_lines(views, block.choice, i as int),
            as_pairs(ranges@) == subchunk_ranges(views, block.choice, i as int),
        decreases subchunks@.len() - i,
    {
        let ghost before = as_pairs(ranges@);
        assert(views[i as int] == subchunks@[i as int]@);
        match &subchunks[i] {
            Subchunk::Resolved(text) => {
                line_offset = plus_usize(line_offset, count_newlines(text.as_str()));
            },
            Subchunk::Conflict { base, ours, theirs } => {
                let fragment = conflict_fragment_text_for_choice(
                    base.as_str(),
                    ours.as_str(),
                    theirs.as_str(),
                    block.choice,
                );
                let start = line_offset;
                line_offset = plus_usize(line_offset, count_newlines(fragment.as_str()));
                ranges.push(start..line_offset);
                assert(as_pairs(ranges@) =~= before.push((start as int, line_offset as int)));
            },
        }
        i += 1;
    }
    assert(as_pairs(ranges@).len() == ranges@.len());
    if ranges.len() == 0 {
        None
    } else {
        Some(ranges)
    }
}

/// Rows that differ, in a plan that puts two texts side by side.
#[derive(Clone, Copy, Debug, PartialEq, Eq, Structural)]
pub struct PlanRegion {
    pub row_start: usize,
    pub row_end_exclusive: usize,
}

/// How the two sides of a conflict stand side by side, ours on the left and theirs
/// on the right: how many rows there are, which differ, and how many lines of each
/// side stand above each row.
#[derive(Debug)]
pub struct SideBySidePlan {
    pub row_count: usize,
    pub regions: Vec<PlanRegion>,
    pub old_prefix: Vec<usize>,
    pub new_prefix: Vec<usize>,
}

impl SideBySidePlan {
    pub open spec fn is_complete(&self) -> bool {
        &&& self.old_prefix@.len() == self.row_count + 1
        &&& self.new_prefix@.len() == self.row_count + 1
    }
}

/// One decision within a conflict: rows of the plan, lines of the picked text
/// and of the other one, and whether some rows show no line of the picked text.
#[derive(Debug)]
pub struct UnresolvedDecisionRegion {
    pub row_range: Range<usize>,
    pub selected_line_range: Range<usize>,
    pub alternate_line_range: Range<usize>,
    pub has_non_emitting_rows: bool,
}

pub struct RegionView {
    pub rows: (int, int),
    pub selected: (int, int),
    pub alternate: (int, int),
    pub gaps: bool,
}

impl View for UnresolvedDecisionRegion {
    type V = RegionView;

    open spec fn view(&self) -> RegionView {
        RegionView {
            rows: (self.row_range.start as int, self.row_range.end as int),
            selected: (
                self.selected_line_range.start as int,
                self.selected_line_range.end as int,
            ),
            alternate: (
                self.alternate_line_range.start as int,
                self.alternate_line_range.end as int,
            ),
            gaps: self.has_non_emitting_rows,
        }
    }
}

pub open spec fn region_views(regions: Seq<UnresolvedDecisionRegion>) -> Seq<RegionView> {
    regions.map_values(|region: UnresolvedDecisionRegion| region@)
}

/// Differing rows as a decision.
pub open spec fn plan_decision(
    region: PlanRegion,
    row_count: int,
    selected: Seq<usize>,
    alternate: Seq<usize>,
) -> RegionView {
    let start = min(region.row_start as int, row_count);
    let end = max(min(region.row_end_exclusive as int, row_count), start);
    RegionView {
        rows: (start, end),
        selected: (selected[start] as int, selected[end] as int),
        alternate: (alternate[start] as int, alternate[end] as int),
        gaps: less(selected[end] as int, selected[start] as int) < end - start,
    }
}

/// Two decisions on the same picked lines are one.
pub open spec fn with_decision(before: Seq<RegionView>, next: RegionView) -> Seq<RegionView> {
    if before.len() > 0 && before.last().selected == next.selected {
        let last = before.last();
        before.drop_last().push(
            (RegionView {
                rows: (last.rows.0, next.rows.1),
                selected: last.selected,
                alternate: (last.alternate.0, max(last.alternate.1, next.alternate.1)),
                gaps: last.gaps || next.gaps,
            }),
        )
    } else {
        before.push(next)
    }
}

/// The decisions of the first `n` regions of a plan.
pub open spec fn gathered(
    regions: Seq<PlanRegion>,
    row_count: int,
    selected: Seq<usize>,
    alternate: Seq<usize>,
    n: int,
) -> Seq<RegionView>
    decreases n,
{
    if n <= 0 {
        Seq::empty()
    } else {
        with_decision(
            gathered(regions, row_count, selected, alternate, n - 1),
            plan_decision(regions[n - 1], row_count, selected, alternate),
        )
    }
}

pub open spec fn no_lines(region: RegionView) -> bool {
    region.selected.0 == region.selected.1
}

/// Whether a decision goes with the one before it: where both are places to
/// insert at, or both replace lines one for one, and they are close.
pub open spec fn goes_with(prev: RegionView, next: RegionView) -> bool {
    let close = next.selected.0 <= plus(prev.selected.1, MERGE_GAP_LINES as int);
    if no_lines(prev) || no_lines(next) {
        no_lines(prev) && no_lines(next) && close
    } else {
        !prev.gaps && !next.gaps && close
    }
}

pub open spec fn with_close(before: Seq<RegionView>, next: RegionView) -> Seq<RegionView> {
    if before.len() > 0 && goes_with(before.last(), next) {
        let prev = before.last();
        before.drop_last().push(
            (RegionView {
                rows: (prev.rows.0, next.rows.1),
                selected: (prev.selected.0, max(prev.selected.1, next.selected.1)),
                alternate: (prev.alternate.0, max(prev.alternate.1, next.alternate.1)),
                gaps: prev.gaps || next.gaps,
            }),
        )
    } else {
        before.push(next)
    }
}

/// The first `n` decisions, those that go together made one.
pub open spec fn merged_decisions(decisions: Seq<RegionView>, n: int) -> Seq<RegionView>
    decreases n,
{
    if n <= 0 {
        Seq::empty()
    } else {
        with_close(merged_decisions(decisions, n - 1), decisions[n - 1])
    }
}

/// The decisions of a plan, where its left side was picked or its right one.
pub open spec fn plan_decisions(plan: &SideBySidePlan, choose_left: bool) -> Seq<RegionView> {
    let (selected, alternate) = if choose_left {
        (plan.old_prefix@, plan.new_prefix@)
    } else {
        (plan.new_prefix@, plan.old_prefix@)
    };
    let all = gathered(
        plan.regions@,
        plan.row_count as int,
        selected,
        alternate,
        plan.regions@.len() as int,
    );
    merged_decisions(all, all.len() as int)
}

/// The decisions within a block: none where neither side alone was picked, or
/// the plan has no rows or no differing ones.
pub open spec fn block_decisions(choice: ConflictChoice, plan: &SideBySidePlan) -> Option<
    Seq<RegionView>,
> {
    if (choice == ConflictChoice::spec_single(PickSlot::Ours) || choice
        == ConflictChoice::spec_single(PickSlot::Theirs)) && plan.row_count > 0
        && plan.regions@.len() > 0 {
        Some(plan_decisions(plan, choice == ConflictChoice::spec_single(PickSlot::Ours)))
    } else {
        None
    }
}

pub open spec fn optional_regions(regions: Option<Vec<UnresolvedDecisionRegion>>) -> Option<
    Seq<RegionView>,
> {
    match regions {
        Some(regions) => Some(region_views(regions@)),
        None => None,
    }
}

fn push_decision(regions: &mut Vec<UnresolvedDecisionRegion>, next: UnresolvedDecisionRegion)
    ensures
        region_views(final(regions)@) == with_decision(region_views(old(regions)@), next@),
{
    let ghost before = region_views(regions@);
    if regions.len() > 0 {
        let at = regions.len() - 1;
        assert(before.last() == regions@[at as int]@);
        let last = &regions[at];
        if last.selected_line_range.start == next.selected_line_range.start
            && last.selected_line_range.end == next.selected_line_range.end {
            let joined = UnresolvedDecisionRegion {
                row_range: last.row_range.start..next.row_range.end,
                selected_line_range: next.selected_line_range,
                alternate_line_range: last.alternate_line_range.start..max_usize(
                    last.alternate_line_range.end,
                    next.alternate_line_range.end,
                ),
                has_non_emitting_rows: last.has_non_emitting_rows || next.has_non_emitting_rows,
            };
            let ghost joined_view = joined@;
            regions.set(at, joined);
            assert(region_views(regions@) =~= before.drop_last().push(joined_view));
            return;
        }
    }
    let ghost next_view = next@;
    regions.push(next);
    assert(region_views(regions@) =~= before.push(next_view));
}

fn push_close(regions: &mut Vec<UnresolvedDecisionRegion>, next: UnresolvedDecisionRegion)
    ensures
        region_views(final(regions)@) == with_close(region_views(old(regions)@), next@),
{
    let ghost before = region_views(regions@);
    if regions.len() > 0 {
        let at = regions.len() - 1;
        assert(before.last() == regions@[at as int]@);
        let prev = &regions[at];
        let prev_zero = prev.selected_line_range.start == prev.selected_line_range.end;
        let next_zero = next.selected_line_range.start == next.selected_line_range.end;
        let close = next.selected_line_range.start <= plus_usize(
            prev.selected_line_range.end,
            MERGE_GAP_LINES,
        );
        let can_merge = if prev_zero || next_zero {
            prev_zero && next_zero && close
        } else {
            !prev.has_non_emitting_rows && !next.has_non_emitting_rows && close
        };
        if can_merge {
            let joined = UnresolvedDecisionRegion {
                row_range: prev.row_range.start..next.row_range.end,
                selected_line_range: prev.selected_line_range.start..max_usize(
                    prev.selected_line_range.end,
                    next.selected_line_range.end,
                ),
                alternate_line_range: prev.alternate_line_range.start..max_usize(
                    prev.alternate_line_range.end,
                    next.alternate_line_range.end,
                ),
                has_non_emitting_rows: prev.has_non_emitting_rows || next.has_non_emitting_rows,
            };
            let ghost joined_view = joined@;
            regions.set(at, joined);
            assert(region_views(regions@) =~= before.drop_last().push(joined_view));
            return;
        }
    }
    let ghost next_view = next@;
    regions.push(next);
    assert(region_views(regions@) =~= before.push(next_view));
}

fn gather_decisions(
    plan: &SideBySidePlan,
    selected_prefix: &Vec<usize>,
    alternate_prefix: &Vec<usize>,
) -> (decisions: Vec<UnresolvedDecisionRegion>)
    requires
        selected_prefix@.len() == plan.row_count + 1,
        alternate_prefix@.len() == plan.row_count + 1,
    ensures
        region_views(decisions@) == gathered(
            plan.regions@,
            plan.row_count as int,
            selected_prefix@,
            alternate_prefix@,
            plan.regions@.len() as int,
        ),
{
    let mut decisions: Vec<UnresolvedDecisionRegion> = Vec::with_capacity(plan.regions.len());
    let mut i: usize = 0;
    assert(region_views(decisions@) =~= Seq::<RegionView>::empty());
    while i < plan.regions.len()
        invariant
            0 <= i <= plan.regions@.len(),
            selected_prefix@.len() == plan.row_count + 1,
            alternate_prefix@.len() == plan.row_count + 1,
            region_views(decisions@) == gathered(
                plan.regions@,
                plan.row_count as int,
                selected_prefix@,
                alternate_prefix@,
                i as int,
            ),
        decreases plan.regions@.len() - i,
    {
        let region = plan.regions[i];
        let row_start = min_usize(region.row_start, plan.row_count);
        let row_end = max_usize(min_usize(region.row_end_exclusive, plan.row_count), row_start);
        let emitted_rows = less_usize(selected_prefix[row_end], selected_prefix[row_start]);
        push_decision(
            &mut decisions,
            UnresolvedDecisionRegion {
                row_range: row_start..row_end,
                selected_line_range: selected_prefix[row_start]..selected_prefix[row_end],
                alternate_line_range: alternate_prefix[row_start]..alternate_prefix[row_end],
                has_non_emitting_rows: emitted_rows < row_end - row_start,
            },
        );
        i += 1;
    }
    decisions
}

/// The decisions within a block. The plan has ours on the left and theirs on the
/// right, so the lines of the picked side are those of the side that was picked.
pub fn unresolved_decision_regions_for_block(
    block: &ConflictBlock,
    plan: &SideBySidePlan,
) -> (regions: Option<Vec<UnresolvedDecisionRegion>>)
    requires
        plan.is_complete(),
    ensures
        optional_regions(regions) == block_decisions(block.choice, plan),
{
    let choose_left = if block.choice == ConflictChoice::ours() {
        true
    } else if block.choice == ConflictChoice::theirs() {
        false
    } else {
        return None;
    };
    if plan.row_count == 0 || plan.regions.len() == 0 {
        return None;
    }
    let mut decisions = if choose_left {
        gather_decisions(plan, &plan.old_prefix, &plan.new_prefix)
    } else {
        gather_decisions(plan, &plan.new_prefix, &plan.old_prefix)
    };
    let ghost all = region_views(decisions@);
    let mut merged: Vec<UnresolvedDecisionRegion> = Vec::with_capacity(decisions.len());
    let mut rest: Vec<UnresolvedDecisionRegion> = Vec::with_capacity(decisions.len());
    // Turned round, so that they can be taken off the end in order.
    let ghost count = decisions@.len();
    while decisions.len() > 0
        invariant
            all.len() == count,
            decisions@.len() + rest@.len() == count,
            region_views(decisions@) == all.take(decisions@.len() as int),
            forall|k: int|
                0 <= k < rest@.len() ==> (#[trigger] rest@[k])@ == all[count - 1 - k],
        decreases decisions@.len(),
    {
        let ghost before = decisions@;
        assert(region_views(before)[before.len() - 1] == all[before.len() - 1]);
        if let Some(last) = decisions.pop() {
            assert(region_views(decisions@) =~= all.take(decisions@.len() as int));
            rest.push(last);
        }
    }
    assert(region_views(merged@) =~= Seq::<RegionView>::empty());
    while rest.len() > 0
        invariant
            all.len() == count,
            rest@.len() <= count,
            forall|k: int|
                0 <= k < rest@.len() ==> (#[trigger] rest@[k])@ == all[count - 1 - k],
            region_views(merged@) == merged_decisions(all, count - rest@.len()),
        decreases rest@.len(),
    {
        let ghost before = rest@;
        assert(before[before.len() - 1]@ == all[count - before.len()]);
        if let Some(next) = rest.pop() {
            push_close(&mut merged, next);
        }
    }
    Some(merged)
}

/// The picked lines of the decisions within a block.
pub open spec fn block_decision_ranges(choice: ConflictChoice, plan: &SideBySidePlan) -> Option<
    Seq<(int, int)>,
> {
    match block_decisions(choice, plan) {
        Some(regions) => Some(regions.map_values(|region: RegionView| region.selected)),
        None => None,
    }
}

pub fn unresolved_decision_ranges_for_block(
    block: &ConflictBlock,
    plan: &SideBySidePlan,
) -> (ranges: Option<Vec<Range<usize>>>)
    requires
        plan.is_complete(),
    ensures
        optional_pairs(ranges) == block_decision_ranges(block.choice, plan),
{
    let regions = match unresolved_decision_regions_for_block(block, plan) {
        Some(regions) => regions,
        None => {
            return None;
        },
    };
    let mut ranges: Vec<Range<usize>> = Vec::with_capacity(regions.len());
    let mut i: usize = 0;
    while i < regions.len()
        invariant
            0 <= i <= regions@.len(),
            ranges@.len() == i,
            forall|k: int|
                0 <= k < i ==> (
                    (#[trigger] ranges@[k]).start as int,
                    ranges@[k].end as int,
                ) == region_views(regions@)[k].selected,
        decreases regions@.len() - i,
    {
        let selected = &regions[i].selected_line_range;
        ranges.push(selected.start..selected.end);
        i += 1;
    }
    assert(as_pairs(ranges@) =~= region_views(regions@).map_values(
        |region: RegionView| region.selected,
    ));
    Some(ranges)
}

/// Picked lines come in order.
pub open spec fn in_line_order(decisions: Seq<RegionView>) -> bool {
    forall|i: int, j: int|
        0 <= i <= j < decisions.len() ==> (#[trigger] decisions[i]).selected.0 <= (
        #[trigger] decisions[j]).selected.0
}

pub open spec fn holds_lines(merged: Seq<RegionView>, region: RegionView) -> bool {
    exists|i: int|
        0 <= i < merged.len() && (#[trigger] merged[i]).selected.0 <= region.selected.0
            && region.selected.1 <= merged[i].selected.1
}

/// Making decisions one loses no line: every decision's lines are within one of
/// the merged ones.
pub proof fn law_merged_decisions_hold_all_lines(decisions: Seq<RegionView>, n: int, k: int)
    requires
        0 <= k < n <= decisions.len(),
        in_line_order(decisions),
    ensures
        holds_lines(merged_decisions(decisions, n), decisions[k]),
{
    lemma_merged_holds(decisions, n, k);
}

proof fn lemma_merged_holds(decisions: Seq<RegionView>, n: int, k: int)
    requires
        0 <= n <= decisions.len(),
        in_line_order(decisions),
    ensures
        0 <= k < n ==> holds_lines(merged_decisions(decisions, n), decisions[k]),
        n > 0 ==> merged_decisions(decisions, n).len() > 0 && merged_decisions(
            decisions,
            n,
        ).last().selected.0 <= decisions[n - 1].selected.0,
    decreases n,
{
    if n > 0 {
        lemma_merged_holds(decisions, n - 1, k);
        let before = merged_decisions(decisions, n - 1);
        let next = decisions[n - 1];
        let after = merged_decisions(decisions, n);
        if n > 1 {
            assert(decisions[n - 2].selected.0 <= decisions[n - 1].selected.0);
        }
        if k == n - 1 {
            assert(after[after.len() - 1].selected.0 <= next.selected.0 && next.selected.1
                <= after[after.len() - 1].selected.1);
        } else if 0 <= k < n - 1 {
            let i = choose|i: int|
                0 <= i < before.len() && (#[trigger] before[i]).selected.0
                    <= decisions[k].selected.0 && decisions[k].selected.1 <= before[i].selected.1;
            assert(after[i].selected.0 <= decisions[k].selected.0 && decisions[k].selected.1
                <= after[i].selected.1);
        }
    }
}

} // verus!
