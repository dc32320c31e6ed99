//! Several picks for one conflict: blocks that stand side by side for it.
use crate::conflict::model::block_count;
use crate::conflict::model::blocks_of;
use crate::conflict::model::lemma_block_count;
use crate::conflict::model::lemma_blocks_grow;
use crate::conflict::model::segment_views;
use crate::conflict::model::BlockView;
use crate::conflict::model::ConflictBlock;
use crate::conflict::model::ConflictChoice;
use crate::conflict::model::ConflictOutputSource;
use crate::conflict::model::ConflictSegment;
use crate::conflict::model::PickSlot;
use crate::conflict::model::SegmentView;
use crate::conflict::split::nth_block;
use crate::conflict::split::push_conflict_text_segment;
use crate::conflict::split::region_at;
use crate::conflict::split::region_index;
use crate::conflict::split::with_block;
use crate::conflict::split::with_text;
use crate::conflict::split::Regioned;
use crate::lines::same_str;
use vstd::prelude::*;
use vstd::string::*;
use vstd::utf8::encode_utf8;

verus! {

pub fn conflict_region_index_is_unique(
    conflict_region_indices: &[usize],
    region_ix: usize,
) -> (unique: bool)
    ensures
        unique == (forall|i: int, j: int|
            0 <= i < j < conflict_region_indices@.len() && #[trigger] conflict_region_indices@[i]
                == region_ix ==> #[trigger] conflict_region_indices@[j] != region_ix),
{
    let mut found = false;
    let ghost mut at: int = 0;
    let mut i: usize = 0;
    while i < conflict_region_indices.len()
        invariant
            0 <= i <= conflict_region_indices@.len(),
            found ==> 0 <= at < i && conflict_region_indices@[at] == region_ix,
            forall|k: int|
                0 <= k < i && #[trigger] conflict_region_indices@[k] == region_ix ==> found && k
                    == at,
        decreases conflict_region_indices@.len() - i,
    {
        if conflict_region_indices[i] == region_ix {
            if found {
                assert(conflict_region_indices@[at] == region_ix);
                assert(conflict_region_indices@[i as int] == region_ix);
                return false;
            }
            found = true;
            proof {
                at = i as int;
            }
        }
        i += 1;
    }
    true
}

/// Two blocks stand for the same conflict.
pub open spec fn same_conflict(a: BlockView, a_region: usize, b: BlockView, b_region: usize) -> bool {
    a_region == b_region && a.base == b.base && a.ours == b.ours && a.theirs == b.theirs
}

pub fn conflict_block_matches_group(
    block: &ConflictBlock,
    region_ix: usize,
    target_block: &ConflictBlock,
    target_region_ix: usize,
) -> (matches: bool)
    ensures
        matches == same_conflict(block@, region_ix, target_block@, target_region_ix),
{
    let same_base = match (&block.base, &target_block.base) {
        (Some(a), Some(b)) => same_str(a.as_str(), b.as_str()),
        (None, None) => true,
        _ => false,
    };
    region_ix == target_region_ix && same_base && same_str(
        block.ours.as_str(),
        target_block.ours.as_str(),
    ) && same_str(block.theirs.as_str(), target_block.theirs.as_str())
}

/// Among the first `n` segments, there is text behind the last conflict.
pub open spec fn text_behind(segments: Seq<SegmentView>, n: int) -> bool
    decreases n,
{
    if n <= 0 {
        false
    } else {
        match segments[n - 1] {
            SegmentView::Text(text) => text.len() > 0 || text_behind(segments, n - 1),
            SegmentView::Block(_) => false,
        }
    }
}

/// For each conflict among the first `n` segments, whether there is text
/// between it and the one before it.
pub open spec fn separations(segments: Seq<SegmentView>, n: int) -> Seq<bool>
    decreases n,
{
    if n <= 0 {
        Seq::empty()
    } else {
        match segments[n - 1] {
            SegmentView::Text(_) => separations(segments, n - 1),
            SegmentView::Block(_) => separations(segments, n - 1).push(
                text_behind(segments, n - 1),
            ),
        }
    }
}

proof fn lemma_separations(segments: Seq<SegmentView>, n: int)
    requires
        0 <= n <= segments.len(),
    ensures
        separations(segments, n).len() == block_count(segments, n),
    decreases n,
{
    if n > 0 {
        lemma_separations(segments, n - 1);
    }
}

/// The first block of a group that reaches up to here.
pub open spec fn group_start(
    blocks: Seq<BlockView>,
    separated: Seq<bool>,
    regions: Seq<usize>,
    target: int,
    start: int,
) -> int
    decreases start,
{
    if start > 0 && !separated[start] && same_conflict(
        blocks[start - 1],
        region_at(regions, start - 1),
        blocks[target],
        region_at(regions, target),
    ) {
        group_start(blocks, separated, regions, target, start - 1)
    } else {
        start
    }
}

/// The block behind a group that reaches from here.
pub open spec fn group_end(
    blocks: Seq<BlockView>,
    separated: Seq<bool>,
    regions: Seq<usize>,
    target: int,
    end: int,
) -> int
    decreases blocks.len() - end,
{
    if 0 <= end < blocks.len() && !separated[end] && same_conflict(
        blocks[end],
        region_at(regions, end),
        blocks[target],
        region_at(regions, target),
    ) {
        group_end(blocks, separated, regions, target, end + 1)
    } else {
        end
    }
}

proof fn lemma_group_bounds(
    blocks: Seq<BlockView>,
    separated: Seq<bool>,
    regions: Seq<usize>,
    target: int,
    start: int,
    end: int,
)
    requires
        0 <= start < end <= blocks.len(),
    ensures
        0 <= group_start(blocks, separated, regions, target, start) <= start,
        end <= group_end(blocks, separated, regions, target, end) <= blocks.len(),
    decreases start, blocks.len() - end,
{
    if start > 0 {
        lemma_group_bounds(blocks, separated, regions, target, start - 1, end);
    } else if end < blocks.len() {
        lemma_group_bounds(blocks, separated, regions, target, start, end + 1);
    }
}

/// The blocks that stand for the same conflict as one of them and side by side
/// with it: from the first on, up to but not with the second. Nothing where
/// there is no such block.
pub open spec fn group(segments: Seq<SegmentView>, regions: Seq<usize>, conflict_ix: int) -> (
    int,
    int,
) {
    let blocks = blocks_of(segments, segments.len() as int);
    let separated = separations(segments, segments.len() as int);
    if 0 <= conflict_ix < blocks.len() {
        (
            group_start(blocks, separated, regions, conflict_ix, conflict_ix),
            group_end(blocks, separated, regions, conflict_ix, conflict_ix + 1),
        )
    } else {
        (0, 0)
    }
}

/// A block is in its own group, and groups are within what there is.
pub proof fn law_group_holds_its_block(
    segments: Seq<SegmentView>,
    regions: Seq<usize>,
    conflict_ix: int,
)
    requires
        0 <= conflict_ix < block_count(segments, segments.len() as int),
    ensures
        ({
            let (start, end) = group(segments, regions, conflict_ix);
            0 <= start <= conflict_ix < end <= block_count(segments, segments.len() as int)
        }),
{
    let blocks = blocks_of(segments, segments.len() as int);
    let separated = separations(segments, segments.len() as int);
    lemma_block_count(segments, segments.len() as int);
    lemma_group_bounds(blocks, separated, regions, conflict_ix, conflict_ix, conflict_ix + 1);
}

/// All blocks of a group stand for the same conflict.
pub proof fn law_group_is_one_conflict(
    segments: Seq<SegmentView>,
    regions: Seq<usize>,
    conflict_ix: int,
    other: int,
)
    requires
        0 <= conflict_ix < block_count(segments, segments.len() as int),
        group(segments, regions, conflict_ix).0 <= other < group(segments, regions, conflict_ix).1,
    ensures
        ({
            let blocks = blocks_of(segments, segments.len() as int);
            same_conflict(
                blocks[other],
                region_at(regions, other),
                blocks[conflict_ix],
                region_at(regions, conflict_ix),
            )
        }),
{
    let blocks = blocks_of(segments, segments.len() as int);
    let separated = separations(segments, segments.len() as int);
    lemma_block_count(segments, segments.len() as int);
    if other < conflict_ix {
        lemma_start_matches(blocks, separated, regions, conflict_ix, conflict_ix, other);
    } else if other > conflict_ix {
        lemma_end_matches(blocks, separated, regions, conflict_ix, conflict_ix + 1, other);
    }
}

proof fn lemma_start_matches(
    blocks: Seq<BlockView>,
    separated: Seq<bool>,
    regions: Seq<usize>,
    target: int,
    start: int,
    other: int,
)
    requires
        group_start(blocks, separated, regions, target, start) <= other < start,
    ensures
        same_conflict(
            blocks[other],
            region_at(regions, other),
            blocks[target],
            region_at(regions, target),
        ),
    decreases start,
{
    if other < start - 1 {
        lemma_start_matches(blocks, separated, regions, target, start - 1, other);
    }
}

proof fn lemma_end_matches(
    blocks: Seq<BlockView>,
    separated: Seq<bool>,
    regions: Seq<usize>,
    target: int,
    end: int,
    other: int,
)
    requires
        0 <= end <= other < group_end(blocks, separated, regions, target, end),
    ensures
        same_conflict(
            blocks[other],
            region_at(regions, other),
            blocks[target],
            region_at(regions, target),
        ),
    decreases blocks.len() - end,
{
    if end < other {
        lemma_end_matches(blocks, separated, regions, target, end + 1, other);
    }
}

pub open spec fn views_of(blocks: Seq<&ConflictBlock>) -> Seq<BlockView> {
    blocks.map_values(|block: &ConflictBlock| block@)
}

proof fn lemma_empty_text(text: Seq<char>)
    ensures
        (encode_utf8(text).len() == 0) == (text.len() == 0),
{
    vstd::utf8::encode_utf8_decode_utf8(text);
    if encode_utf8(text).len() == 0 {
        reveal_with_fuel(vstd::utf8::decode_utf8, 1);
    }
}

/// The blocks of a group, in order.
pub fn conflict_group_member_indices_for_ix(
    marker_segments: &Vec<ConflictSegment>,
    conflict_region_indices: &Vec<usize>,
    conflict_ix: usize,
) -> (members: Vec<usize>)
    ensures
        ({
            let (start, end) = group(
                segment_views(marker_segments@),
                conflict_region_indices@,
                conflict_ix as int,
            );
            &&& 0 <= start
            &&& members@.len() == end - start
            &&& forall|i: int| 0 <= i < members@.len() ==> #[trigger] members@[i] == start + i
            &&& end <= block_count(
                segment_views(marker_segments@),
                marker_segments@.len() as int,
            )
            &&& members@.len() > 0 <==> conflict_ix < block_count(
                segment_views(marker_segments@),
                marker_segments@.len() as int,
            )
        }),
{
    let ghost views = segment_views(marker_segments@);
    let mut blocks: Vec<&ConflictBlock> = Vec::new();
    let mut separated_before: Vec<bool> = Vec::new();
    let mut saw_text = false;
    let mut i: usize = 0;
    assert(views_of(blocks@) =~= Seq::<BlockView>::empty());
    assert(separated_before@ =~= Seq::<bool>::empty());
    while i < marker_segments.len()
        invariant
            0 <= i <= marker_segments@.len(),
            views == segment_views(marker_segments@),
            views_of(blocks@) == blocks_of(views, i as int),
            separated_before@ == separations(views, i as int),
            saw_text == text_behind(views, i as int),
        decreases marker_segments@.len() - i,
    {
        assert(views[i as int] == marker_segments@[i as int]@);
        match &marker_segments[i] {
            ConflictSegment::Text(text) => {
                proof {
                    lemma_empty_text(text@);
                }
                if !text.as_str().is_empty() {
                    saw_text = true;
                }
            },
            ConflictSegment::Block(block) => {
                let ghost before = views_of(blocks@);
                separated_before.push(saw_text);
                blocks.push(block);
                saw_text = false;
                assert(views_of(blocks@) =~= before.push(block@));
            },
        }
        i += 1;
    }
    let ghost all = blocks_of(views, views.len() as int);
    let ghost separated = separations(views, views.len() as int);
    let ghost regions = conflict_region_indices@;
    proof {
        lemma_block_count(views, views.len() as int);
        lemma_separations(views, views.len() as int);
        assert(views_of(blocks@).len() == blocks@.len());
    }
    let mut members: Vec<usize> = Vec::new();
    if conflict_ix >= blocks.len() {
        return members;
    }
    let target = blocks[conflict_ix];
    assert(all[conflict_ix as int] == target@);
    let target_region = region_index(conflict_region_indices, conflict_ix);
    let mut start = conflict_ix;
    let mut more = true;
    while start > 0 && more
        invariant
            0 <= start <= conflict_ix < blocks@.len(),
            all == views_of(blocks@),
            separated == separated_before@,
            separated.len() == blocks@.len(),
            regions == conflict_region_indices@,
            all[conflict_ix as int] == target@,
            target_region == region_at(regions, conflict_ix as int),
            more ==> group_start(all, separated, regions, conflict_ix as int, conflict_ix as int)
                == group_start(all, separated, regions, conflict_ix as int, start as int),
            !more ==> group_start(all, separated, regions, conflict_ix as int, conflict_ix as int)
                == start,
        decreases
                start,
                if more {
                    1int
                } else {
                    0int
                },
    {
        assert(all[start - 1] == blocks@[start - 1]@);
        if separated_before[start] {
            more = false;
        } else if conflict_block_matches_group(
            blocks[start - 1],
            region_index(conflict_region_indices, start - 1),
            target,
            target_region,
        ) {
            start -= 1;
        } else {
            more = false;
        }
    }
    let mut end = conflict_ix + 1;
    more = true;
    while end < blocks.len() && more
        invariant
            conflict_ix < end <= blocks@.len(),
            all == views_of(blocks@),
            separated == separated_before@,
            separated.len() == blocks@.len(),
            regions == conflict_region_indices@,
            all[conflict_ix as int] == target@,
            target_region == region_at(regions, conflict_ix as int),
            more ==> group_end(all, separated, regions, conflict_ix as int, conflict_ix + 1)
                == group_end(all, separated, regions, conflict_ix as int, end as int),
            !more ==> group_end(all, separated, regions, conflict_ix as int, conflict_ix + 1)
                == end,
        decreases
                blocks@.len() - end,
                if more {
                    1int
                } else {
                    0int
                },
    {
        assert(all[end as int] == blocks@[end as int]@);
        if separated_before[end] {
            more = false;
        } else if conflict_block_matches_group(
            blocks[end],
            region_index(conflict_region_indices, end),
            target,
            target_region,
        ) {
            end += 1;
        } else {
            more = false;
        }
    }
    let mut next = start;
    while next < end
        invariant
            start <= next <= end,
            members@.len() == next - start,
            forall|k: int| 0 <= k < members@.len() ==> #[trigger] members@[k] == start + k,
        decreases end - next,
    {
        members.push(next);
        next += 1;
    }
    members
}

/// Some block of a range is resolved and its pick holds a version.
pub open spec fn some_picks(
    blocks: Seq<BlockView>,
    start: int,
    end: int,
    source: ConflictOutputSource,
) -> bool {
    exists|i: int|
        start <= i < end && (#[trigger] blocks[i]).resolved && blocks[i].choice.sources().contains(
            source,
        )
}

/// The versions picked in a group, each for itself.
pub open spec fn group_choices(blocks: Seq<BlockView>, start: int, end: int) -> Seq<
    ConflictChoice,
> {
    let base = if some_picks(blocks, start, end, ConflictOutputSource::Base) {
        seq![ConflictChoice::spec_single(PickSlot::Base)]
    } else {
        Seq::empty()
    };
    let ours = if some_picks(blocks, start, end, ConflictOutputSource::Ours) {
        seq![ConflictChoice::spec_single(PickSlot::Ours)]
    } else {
        Seq::empty()
    };
    let theirs = if some_picks(blocks, start, end, ConflictOutputSource::Theirs) {
        seq![ConflictChoice::spec_single(PickSlot::Theirs)]
    } else {
        Seq::empty()
    };
    base + ours + theirs
}

fn block_refs<'a>(marker_segments: &'a Vec<ConflictSegment>) -> (blocks: Vec<&'a ConflictBlock>)
    ensures
        views_of(blocks@) == blocks_of(
            segment_views(marker_segments@),
            marker_segments@.len() as int,
        ),
        blocks@.len() == block_count(segment_views(marker_segments@), marker_segments@.len() as int),
{
    let ghost views = segment_views(marker_segments@);
    let mut blocks: Vec<&'a ConflictBlock> = Vec::new();
    let mut i: usize = 0;
    assert(views_of(blocks@) =~= Seq::<BlockView>::empty());
    while i < marker_segments.len()
        invariant
            0 <= i <= marker_segments@.len(),
            views == segment_views(marker_segments@),
            views_of(blocks@) == blocks_of(views, i as int),
        decreases marker_segments@.len() - i,
    {
        assert(views[i as int] == marker_segments@[i as int]@);
        if let ConflictSegment::Block(block) = &marker_segments[i] {
            let ghost before = views_of(blocks@);
            blocks.push(block);
            assert(views_of(blocks@) =~= before.push(block@));
        }
        i += 1;
    }
    proof {
        lemma_block_count(views, views.len() as int);
        assert(views_of(blocks@).len() == blocks@.len());
    }
    blocks
}

/// The versions picked for a conflict, over all the blocks of its group.
pub fn conflict_group_selected_choices_for_ix(
    marker_segments: &Vec<ConflictSegment>,
    conflict_region_indices: &Vec<usize>,
    conflict_ix: usize,
) -> (choices: Vec<ConflictChoice>)
    ensures
        ({
            let segments = segment_views(marker_segments@);
            let (start, end) = group(segments, conflict_region_indices@, conflict_ix as int);
            choices@ == group_choices(blocks_of(segments, segments.len() as int), start, end)
        }),
{
    let members = conflict_group_member_indices_for_ix(
        marker_segments,
        conflict_region_indices,
        conflict_ix,
    );
    let blocks = block_refs(marker_segments);
    let ghost views = segment_views(marker_segments@);
    let ghost all = blocks_of(views, views.len() as int);
    let ghost (start, end) = group(views, conflict_region_indices@, conflict_ix as int);
    let mut has_base = false;
    let mut has_ours = false;
    let mut has_theirs = false;
    let mut i: usize = 0;
    while i < members.len()
        invariant
            0 <= i <= members@.len(),
            members@.len() == end - start,
            0 <= start,
            end <= blocks@.len(),
            all == views_of(blocks@),
            forall|k: int| 0 <= k < members@.len() ==> #[trigger] members@[k] == start + k,
            has_base == some_picks(all, start, start + i, ConflictOutputSource::Base),
            has_ours == some_picks(all, start, start + i, ConflictOutputSource::Ours),
            has_theirs == some_picks(all, start, start + i, ConflictOutputSource::Theirs),
        decreases members@.len() - i,
    {
        let block = blocks[members[i]];
        assert(all[start + i] == block@);
        if block.resolved {
            if block.choice.contains(ConflictOutputSource::Base) {
                has_base = true;
                assert(all[start + i].resolved);
            }
            if block.choice.contains(ConflictOutputSource::Ours) {
                has_ours = true;
                assert(all[start + i].resolved);
            }
            if block.choice.contains(ConflictOutputSource::Theirs) {
                has_theirs = true;
                assert(all[start + i].resolved);
            }
        }
        i += 1;
    }
    let mut selected: Vec<ConflictChoice> = Vec::with_capacity(3);
    if has_base {
        selected.push(ConflictChoice::base());
    }
    if has_ours {
        selected.push(ConflictChoice::ours());
    }
    if has_theirs {
        selected.push(ConflictChoice::theirs());
    }
    assert(selected@ =~= group_choices(all, start, end));
    selected
}

/// A resolved block goes with a pick: one version where the block's pick holds
/// it, otherwise the same pick.
pub open spec fn answers_choice(block: BlockView, choice: ConflictChoice) -> bool {
    &&& block.resolved
    &&& if choice == ConflictChoice::spec_single(PickSlot::Base) {
        block.choice.sources().contains(ConflictOutputSource::Base)
    } else if choice == ConflictChoice::spec_single(PickSlot::Ours) {
        block.choice.sources().contains(ConflictOutputSource::Ours)
    } else if choice == ConflictChoice::spec_single(PickSlot::Theirs) {
        block.choice.sources().contains(ConflictOutputSource::Theirs)
    } else {
        block.choice == choice
    }
}

pub open spec fn indices_for_choice(
    blocks: Seq<BlockView>,
    start: int,
    end: int,
    choice: ConflictChoice,
) -> Seq<usize>
    decreases end - start,
{
    if end <= start {
        Seq::empty()
    } else {
        let before = indices_for_choice(blocks, start, end - 1, choice);
        if answers_choice(blocks[end - 1], choice) {
            before.push((end - 1) as usize)
        } else {
            before
        }
    }
}

/// The blocks of a group that go with a pick.
pub fn conflict_group_indices_for_choice(
    marker_segments: &Vec<ConflictSegment>,
    conflict_region_indices: &Vec<usize>,
    conflict_ix: usize,
    choice: ConflictChoice,
) -> (indices: Vec<usize>)
    ensures
        ({
            let segments = segment_views(marker_segments@);
            let (start, end) = group(segments, conflict_region_indices@, conflict_ix as int);
            indices@ == indices_for_choice(
                blocks_of(segments, segments.len() as int),
                start,
                end,
                choice,
            )
        }),
{
    let members = conflict_group_member_indices_for_ix(
        marker_segments,
        conflict_region_indices,
        conflict_ix,
    );
    let blocks = block_refs(marker_segments);
    let ghost views = segment_views(marker_segments@);
    let ghost all = blocks_of(views, views.len() as int);
    let ghost (start, end) = group(views, conflict_region_indices@, conflict_ix as int);
    let mut indices: Vec<usize> = Vec::new();
    let mut i: usize = 0;
    assert(indices@ =~= Seq::<usize>::empty());
    while i < members.len()
        invariant
            0 <= i <= members@.len(),
            members@.len() == end - start,
            0 <= start,
            end <= blocks@.len(),
            all == views_of(blocks@),
            forall|k: int| 0 <= k < members@.len() ==> #[trigger] members@[k] == start + k,
            indices@ == indices_for_choice(all, start, start + i, choice),
        decreases members@.len() - i,
    {
        let ix = members[i];
        let block = blocks[ix];
        assert(all[start + i] == block@);
        let answers = if choice == ConflictChoice::base() {
            block.choice.contains(ConflictOutputSource::Base)
        } else if choice == ConflictChoice::ours() {
            block.choice.contains(ConflictOutputSource::Ours)
        } else if choice == ConflictChoice::theirs() {
            block.choice.contains(ConflictOutputSource::Theirs)
        } else {
            block.choice == choice
        };
        if block.resolved && answers {
            indices.push(ix);
        }
        i += 1;
    }
    indices
}

/// Whether taking back a pick takes the block away, as it does where others
/// stand for the same conflict.
pub fn should_remove_conflict_block_on_reset(
    marker_segments: &Vec<ConflictSegment>,
    conflict_region_indices: &Vec<usize>,
    conflict_ix: usize,
) -> (remove: bool)
    ensures
        ({
            let (start, end) = group(
                segment_views(marker_segments@),
                conflict_region_indices@,
                conflict_ix as int,
            );
            remove == (end - start > 1)
        }),
{
    conflict_group_member_indices_for_ix(
        marker_segments,
        conflict_region_indices,
        conflict_ix,
    ).len() > 1
}

/// The first `n` segments without the conflict of that number.
pub open spec fn without_block(segments: Seq<SegmentView>, conflict_ix: int, n: int) -> Seq<
    SegmentView,
>
    decreases n,
{
    if n <= 0 {
        Seq::empty()
    } else {
        let before = without_block(segments, conflict_ix, n - 1);
        match segments[n - 1] {
            SegmentView::Text(text) => with_text(before, text),
            SegmentView::Block(block) => if block_count(segments, n - 1) == conflict_ix {
                before
            } else {
                before.push(SegmentView::Block(block))
            },
        }
    }
}

/// Takes a conflict away, and says whether there was one.
pub fn remove_conflict_block_at(
    marker_segments: &mut Vec<ConflictSegment>,
    conflict_region_indices: &mut Vec<usize>,
    conflict_ix: usize,
) -> (removed: bool)
    ensures
        removed == (conflict_ix < block_count(
            segment_views(old(marker_segments)@),
            old(marker_segments)@.len() as int,
        )),
        segment_views(final(marker_segments)@) == without_block(
            segment_views(old(marker_segments)@),
            conflict_ix as int,
            old(marker_segments)@.len() as int,
        ),
        final(conflict_region_indices)@ == (if removed && conflict_ix < old(
            conflict_region_indices,
        )@.len() {
            old(conflict_region_indices)@.remove(conflict_ix as int)
        } else {
            old(conflict_region_indices)@
        }),
{
    let ghost views = segment_views(marker_segments@);
    let mut next_segments: Vec<ConflictSegment> = Vec::with_capacity(marker_segments.len());
    let mut seen: usize = 0;
    let mut removed = false;
    let mut i: usize = 0;
    assert(segment_views(next_segments@) =~= Seq::<SegmentView>::empty());
    while i < marker_segments.len()
        invariant
            0 <= i <= marker_segments@.len(),
            views == segment_views(marker_segments@),
            seen <= i,
            seen == block_count(views, i as int),
            removed == (conflict_ix < seen),
            segment_views(next_segments@) == without_block(views, conflict_ix as int, i as int),
        decreases marker_segments@.len() - i,
    {
        assert(views[i as int] == marker_segments@[i as int]@);
        match &marker_segments[i] {
            ConflictSegment::Text(text) => {
                push_conflict_text_segment(&mut next_segments, text.clone());
            },
            ConflictSegment::Block(block) => {
                if seen == conflict_ix {
                    removed = true;
                } else {
                    let ghost before = segment_views(next_segments@);
                    let copy = block.copied();
                    next_segments.push(ConflictSegment::Block(copy));
                    assert(segment_views(next_segments@) =~= before.push(
                        SegmentView::Block(block@),
                    ));
                }
                seen += 1;
            },
        }
        i += 1;
    }
    *marker_segments = next_segments;
    if removed && conflict_ix < conflict_region_indices.len() {
        let _ = conflict_region_indices.remove(conflict_ix);
    }
    removed
}

/// The place of the conflict of that number among the first `n` segments.
pub open spec fn segment_of_block(segments: Seq<SegmentView>, conflict_ix: int, n: int) -> int
    decreases n,
{
    if n <= 0 {
        -1
    } else if segments[n - 1] is Block && block_count(segments, n - 1) == conflict_ix {
        n - 1
    } else {
        segment_of_block(segments, conflict_ix, n - 1)
    }
}

pub open spec fn unpicked(block: BlockView) -> BlockView {
    BlockView { resolved: false, choice: ConflictChoice::spec_empty(), ..block }
}

/// What taking back the pick of a block leads to: the block goes where others
/// stand for the same conflict, else a resolved one is open again with nothing
/// picked, and one that is not resolved stays.
pub open spec fn reset(segments: Seq<SegmentView>, regions: Seq<usize>, conflict_ix: int) -> (
    bool,
    Seq<SegmentView>,
    Seq<usize>,
) {
    let (start, end) = group(segments, regions, conflict_ix);
    let at = segment_of_block(segments, conflict_ix, segments.len() as int);
    if end - start > 1 {
        (
            true,
            without_block(segments, conflict_ix, segments.len() as int),
            if conflict_ix < regions.len() {
                regions.remove(conflict_ix)
            } else {
                regions
            },
        )
    } else if at >= 0 && segments[at]->Block_0.resolved {
        (
            true,
            segments.update(at, SegmentView::Block(unpicked(segments[at]->Block_0))),
            regions,
        )
    } else {
        (false, segments, regions)
    }
}

proof fn lemma_segment_of_block(segments: Seq<SegmentView>, conflict_ix: int, at: int, n: int)
    requires
        0 <= at < n <= segments.len(),
        segments[at] is Block,
        block_count(segments, at) == conflict_ix,
    ensures
        segment_of_block(segments, conflict_ix, n) == at,
    decreases n,
{
    if at < n - 1 {
        lemma_blocks_grow(segments, at + 1, n - 1);
        lemma_segment_of_block(segments, conflict_ix, at, n - 1);
    }
}

proof fn lemma_no_segment_of_block(segments: Seq<SegmentView>, conflict_ix: int, n: int)
    requires
        0 <= n <= segments.len(),
        block_count(segments, n) <= conflict_ix,
    ensures
        segment_of_block(segments, conflict_ix, n) == -1,
    decreases n,
{
    if n > 0 {
        lemma_blocks_grow(segments, n - 1, n);
        lemma_no_segment_of_block(segments, conflict_ix, n - 1);
    }
}

pub fn reset_conflict_block_selection(
    marker_segments: &mut Vec<ConflictSegment>,
    conflict_region_indices: &mut Vec<usize>,
    conflict_ix: usize,
) -> (changed: bool)
    ensures
        (
            changed,
            segment_views(final(marker_segments)@),
            final(conflict_region_indices)@,
        ) == reset(
            segment_views(old(marker_segments)@),
            old(conflict_region_indices)@,
            conflict_ix as int,
        ),
{
    let ghost views = segment_views(marker_segments@);
    if should_remove_conflict_block_on_reset(
        marker_segments,
        conflict_region_indices,
        conflict_ix,
    ) {
        proof {
            if conflict_ix >= block_count(views, views.len() as int) {
                lemma_block_count(views, views.len() as int);
            }
        }
        return remove_conflict_block_at(marker_segments, conflict_region_indices, conflict_ix);
    }
    let mut seen: usize = 0;
    let mut i: usize = 0;
    while i < marker_segments.len()
        invariant
            0 <= i <= marker_segments@.len(),
            views == segment_views(marker_segments@),
            marker_segments@ == old(marker_segments)@,
            conflict_region_indices@ == old(conflict_region_indices)@,
            seen == block_count(views, i as int),
            seen <= i,
            seen <= conflict_ix,
            group(views, conflict_region_indices@, conflict_ix as int).1 - group(
                views,
                conflict_region_indices@,
                conflict_ix as int,
            ).0 <= 1,
        decreases marker_segments@.len() - i,
    {
        assert(views[i as int] == marker_segments@[i as int]@);
        if let ConflictSegment::Block(block) = &marker_segments[i] {
            if seen == conflict_ix {
                proof {
                    lemma_segment_of_block(
                        views,
                        conflict_ix as int,
                        i as int,
                        views.len() as int,
                    );
                }
                if !block.resolved {
                    return false;
                }
                let mut open = block.copied();
                open.resolved = false;
                open.choice = ConflictChoice::empty();
                let ghost open_view = open@;
                marker_segments.set(i, ConflictSegment::Block(open));
                assert(segment_views(marker_segments@) =~= views.update(
                    i as int,
                    SegmentView::Block(open_view),
                ));
                return true;
            }
            seen += 1;
        }
        i += 1;
    }
    proof {
        lemma_no_segment_of_block(views, conflict_ix as int, views.len() as int);
    }
    false
}

pub open spec fn picked(block: BlockView, choice: ConflictChoice) -> BlockView {
    BlockView { resolved: true, choice, ..block }
}

/// The first `n` segments with one more block behind the conflict of that
/// number.
pub open spec fn with_appended(
    segments: Seq<SegmentView>,
    regions: Seq<usize>,
    behind: int,
    added: BlockView,
    added_region: usize,
    n: int,
) -> Regioned
    decreases n,
{
    if n <= 0 {
        Regioned { segments: Seq::empty(), regions: Seq::empty() }
    } else {
        let before = with_appended(segments, regions, behind, added, added_region, n - 1);
        let seen = block_count(segments, n - 1);
        match segments[n - 1] {
            SegmentView::Text(text) => Regioned {
                segments: with_text(before.segments, text),
                regions: before.regions,
            },
            SegmentView::Block(block) => {
                let kept = with_block(before, block, region_at(regions, seen));
                if seen == behind {
                    with_block(kept, added, added_region)
                } else {
                    kept
                }
            },
        }
    }
}

/// A version can be picked in addition: the block is resolved, has that
/// version, and no block of its group has picked it yet.
pub open spec fn can_append(
    segments: Seq<SegmentView>,
    regions: Seq<usize>,
    conflict_ix: int,
    choice: ConflictChoice,
) -> bool {
    let blocks = blocks_of(segments, segments.len() as int);
    let (start, end) = group(segments, regions, conflict_ix);
    &&& conflict_ix < blocks.len()
    &&& blocks[conflict_ix].resolved
    &&& !(choice == ConflictChoice::spec_single(PickSlot::Base) && blocks[conflict_ix].base is None)
    &&& !group_choices(blocks, start, end).contains(choice)
}

/// What picking a version in addition leads to: one more block behind the
/// group.
pub open spec fn appended(
    segments: Seq<SegmentView>,
    regions: Seq<usize>,
    conflict_ix: int,
    choice: ConflictChoice,
) -> Regioned {
    let blocks = blocks_of(segments, segments.len() as int);
    with_appended(
        segments,
        regions,
        group(segments, regions, conflict_ix).1 - 1,
        picked(blocks[conflict_ix], choice),
        region_at(regions, conflict_ix),
        segments.len() as int,
    )
}

fn holds_choice(choices: &Vec<ConflictChoice>, choice: ConflictChoice) -> (answer: bool)
    ensures
        answer == choices@.contains(choice),
{
    let mut i: usize = 0;
    while i < choices.len()
        invariant
            0 <= i <= choices@.len(),
            forall|k: int| 0 <= k < i ==> #[trigger] choices@[k] != choice,
        decreases choices@.len() - i,
    {
        if choices[i] == choice {
            assert(choices@[i as int] == choice);
            return true;
        }
        i += 1;
    }
    false
}

fn push_copy(
    segments: &mut Vec<ConflictSegment>,
    regions: &mut Vec<usize>,
    block: &ConflictBlock,
    region_ix: usize,
)
    ensures
        (Regioned { segments: segment_views(final(segments)@), regions: final(regions)@ })
            == with_block(
            (Regioned { segments: segment_views(old(segments)@), regions: old(regions)@ }),
            block@,
            region_ix,
        ),
{
    let ghost before = segment_views(segments@);
    segments.push(ConflictSegment::Block(block.copied()));
    assert(segment_views(segments@) =~= before.push(SegmentView::Block(block@)));
    regions.push(region_ix);
}

/// Picks a version in addition to those picked for a conflict, where it can
/// be, and says which block that is.
pub fn append_choice_after_conflict_block(
    marker_segments: &mut Vec<ConflictSegment>,
    conflict_region_indices: &mut Vec<usize>,
    conflict_ix: usize,
    choice: ConflictChoice,
) -> (inserted: Option<usize>)
    ensures
        ({
            let segments = segment_views(old(marker_segments)@);
            let regions = old(conflict_region_indices)@;
            match inserted {
                Some(inserted) => {
                    &&& can_append(segments, regions, conflict_ix as int, choice)
                    &&& inserted == group(segments, regions, conflict_ix as int).1
                    &&& (Regioned {
                        segments: segment_views(final(marker_segments)@),
                        regions: final(conflict_region_indices)@,
                    }) == appended(segments, regions, conflict_ix as int, choice)
                },
                None => {
                    &&& !can_append(segments, regions, conflict_ix as int, choice)
                    &&& *final(marker_segments) == *old(marker_segments)
                    &&& *final(conflict_region_indices) == *old(conflict_region_indices)
                },
            }
        }),
{
    let ghost views = segment_views(marker_segments@);
    let ghost old_regions = conflict_region_indices@;
    let target = match nth_block(marker_segments, conflict_ix) {
        Some(target) => target,
        None => {
            return None;
        },
    };
    let members = conflict_group_member_indices_for_ix(
        marker_segments,
        conflict_region_indices,
        conflict_ix,
    );
    proof {
        lemma_block_count(views, views.len() as int);
    }
    let group_end_ix = members[members.len() - 1];
    let target_region_ix = region_index(conflict_region_indices, conflict_ix);
    if !target.resolved {
        return None;
    }
    if choice == ConflictChoice::base() && target.base.is_none() {
        return None;
    }
    let selected = conflict_group_selected_choices_for_ix(
        marker_segments,
        conflict_region_indices,
        conflict_ix,
    );
    if holds_choice(&selected, choice) {
        return None;
    }
    let mut added = target.copied();
    added.choice = choice;
    added.resolved = true;
    let mut next_segments: Vec<ConflictSegment> = Vec::with_capacity(marker_segments.len());
    let mut next_region_indices: Vec<usize> = Vec::with_capacity(conflict_region_indices.len());
    let mut seen: usize = 0;
    let mut i: usize = 0;
    assert(segment_views(next_segments@) =~= Seq::<SegmentView>::empty());
    assert(next_region_indices@ =~= Seq::<usize>::empty());
    while i < marker_segments.len()
        invariant
            0 <= i <= marker_segments@.len(),
            views == segment_views(marker_segments@),
            old_regions == conflict_region_indices@,
            seen <= i,
            seen == block_count(views, i as int),
            (Regioned { segments: segment_views(next_segments@), regions: next_region_indices@ })
                == with_appended(
                views,
                old_regions,
                group_end_ix as int,
                added@,
                target_region_ix,
                i as int,
            ),
        decreases marker_segments@.len() - i,
    {
        assert(views[i as int] == marker_segments@[i as int]@);
        match &marker_segments[i] {
            ConflictSegment::Text(text) => {
                push_conflict_text_segment(&mut next_segments, text.clone());
            },
            ConflictSegment::Block(block) => {
                let region_ix = region_index(conflict_region_indices, seen);
                push_copy(&mut next_segments, &mut next_region_indices, block, region_ix);
                if seen == group_end_ix {
                    push_copy(
                        &mut next_segments,
                        &mut next_region_indices,
                        &added,
                        target_region_ix,
                    );
                }
                seen += 1;
            },
        }
        i += 1;
    }
    *marker_segments = next_segments;
    *conflict_region_indices = next_region_indices;
    Some(group_end_ix + 1)
}

/// Text is never empty and never next to other text.
pub open spec fn is_tidy(segments: Seq<SegmentView>) -> bool {
    &&& forall|i: int|
        0 <= i < segments.len() ==> ((#[trigger] segments[i]) matches SegmentView::Text(text)
            ==> text.len() > 0)
    &&& forall|i: int|
        1 <= i < segments.len() ==> !((#[trigger] segments[i]) is Text && segments[i - 1] is Text)
}

proof fn lemma_block_count_prefix(a: Seq<SegmentView>, b: Seq<SegmentView>, n: int)
    requires
        0 <= n <= a.len(),
        n <= b.len(),
        forall|k: int| 0 <= k < n ==> a[k] == b[k],
    ensures
        block_count(a, n) == block_count(b, n),
    decreases n,
{
    if n > 0 {
        lemma_block_count_prefix(a, b, n - 1);
    }
}

proof fn lemma_appended_shape(
    segments: Seq<SegmentView>,
    regions: Seq<usize>,
    at: int,
    added: BlockView,
    added_region: usize,
    n: int,
)
    requires
        is_tidy(segments),
        0 <= at < segments.len(),
        segments[at] is Block,
        0 <= n <= segments.len(),
        regions.len() == block_count(segments, segments.len() as int),
    ensures
        ({
            let behind = block_count(segments, at);
            let built = with_appended(segments, regions, behind, added, added_region, n);
            let count = block_count(segments, n);
            if n <= at {
                built.segments == segments.take(n) && built.regions == regions.take(count)
            } else {
                built.segments == segments.take(n).insert(at + 1, SegmentView::Block(added))
                    && built.regions == regions.take(count).insert(behind + 1, added_region)
            }
        }),
    decreases n,
{
    if n > 0 {
        lemma_appended_shape(segments, regions, at, added, added_region, n - 1);
        lemma_blocks_grow(segments, n, segments.len() as int);
        lemma_block_count(segments, n - 1);
        lemma_block_count(segments, at);
        let behind = block_count(segments, at);
        let before = with_appended(segments, regions, behind, added, added_region, n - 1);
        let built = with_appended(segments, regions, behind, added, added_region, n);
        let count = block_count(segments, n);
        if n - 1 < at {
            lemma_blocks_grow(segments, n, at);
        } else if n - 1 > at {
            lemma_blocks_grow(segments, at + 1, n - 1);
        }
        let new = SegmentView::Block(added);
        if n <= at {
            assert(segments.take(n) =~= segments.take(n - 1).push(segments[n - 1]));
            assert(built.segments =~= segments.take(n));
            assert(built.regions =~= regions.take(count));
        } else {
            if n - 1 > at {
                assert(before.segments.last() == (if n - 1 == at + 1 {
                    new
                } else {
                    segments[n - 2]
                }));
            }
            assert(built.segments =~= segments.take(n).insert(at + 1, new));
            assert(built.regions =~= regions.take(count).insert(behind + 1, added_region));
        }
    }
}

proof fn lemma_removed_shape(segments: Seq<SegmentView>, longer: Seq<SegmentView>, at: int, n: int)
    requires
        is_tidy(segments),
        0 < at <= segments.len(),
        segments[at - 1] is Block,
        longer.len() == segments.len() + 1,
        longer[at] is Block,
        forall|k: int| 0 <= k < at ==> longer[k] == segments[k],
        forall|k: int| at <= k < segments.len() ==> longer[k + 1] == #[trigger] segments[k],
        0 <= n <= longer.len(),
    ensures
        ({
            let built = without_block(longer, block_count(longer, at), n);
            if n <= at {
                built == segments.take(n)
            } else {
                built == segments.take(n - 1)
            }
        }),
    decreases n,
{
    if n > 0 {
        lemma_removed_shape(segments, longer, at, n - 1);
        let target = block_count(longer, at);
        let before = without_block(longer, target, n - 1);
        let built = without_block(longer, target, n);
        if n - 1 < at {
            lemma_blocks_grow(longer, n, at);
            assert(longer[n - 1] == segments[n - 1]);
            assert(segments.take(n) =~= segments.take(n - 1).push(segments[n - 1]));
            if n > 1 {
                assert(before.last() == segments[n - 2]);
            }
            assert(built =~= segments.take(n));
        } else if n - 1 > at {
            lemma_blocks_grow(longer, at + 1, n - 1);
            assert(longer[n - 1] == segments[n - 2]);
            assert(segments.take(n - 1) =~= segments.take(n - 2).push(segments[n - 2]));
            assert(before.last() == segments[n - 3]);
            assert(built =~= segments.take(n - 1));
        }
    }
}

/// Taking away the block that picking a version in addition has added gives
/// back what was there.
pub proof fn law_removing_undoes_appending(
    segments: Seq<SegmentView>,
    regions: Seq<usize>,
    conflict_ix: int,
    choice: ConflictChoice,
)
    requires
        is_tidy(segments),
        regions.len() == block_count(segments, segments.len() as int),
        0 <= conflict_ix,
        can_append(segments, regions, conflict_ix, choice),
    ensures
        ({
            let added = appended(segments, regions, conflict_ix, choice);
            let inserted = group(segments, regions, conflict_ix).1;
            &&& without_block(added.segments, inserted, added.segments.len() as int) == segments
            &&& inserted < added.regions.len()
            &&& added.regions.remove(inserted) == regions
        }),
{
    let n = segments.len() as int;
    lemma_block_count(segments, n);
    law_group_holds_its_block(segments, regions, conflict_ix);
    let last = group(segments, regions, conflict_ix).1 - 1;
    let at = lemma_find_block(segments, last, n);
    let blocks = blocks_of(segments, n);
    let block = picked(blocks[conflict_ix], choice);
    let region = region_at(regions, conflict_ix);
    lemma_appended_shape(segments, regions, at, block, region, n);
    let added = appended(segments, regions, conflict_ix, choice);
    let new = SegmentView::Block(block);
    assert(segments.take(n) =~= segments);
    assert(regions.take(regions.len() as int) =~= regions);
    let longer = added.segments;
    assert(longer == segments.insert(at + 1, new));
    lemma_block_count_prefix(longer, segments, at + 1);
    lemma_removed_shape(segments, longer, at + 1, longer.len() as int);
    assert(segments.take(longer.len() - 1) =~= segments);
    assert(added.regions.remove(last + 1) =~= regions);
}

/// The segment that holds the conflict of a number.
proof fn lemma_find_block(segments: Seq<SegmentView>, conflict_ix: int, n: int) -> (at: int)
    requires
        0 <= n <= segments.len(),
        0 <= conflict_ix < block_count(segments, n),
    ensures
        0 <= at < n,
        segments[at] is Block,
        block_count(segments, at) == conflict_ix,
    decreases n,
{
    if n > 0 && conflict_ix < block_count(segments, n - 1) {
        lemma_find_block(segments, conflict_ix, n - 1)
    } else {
        n - 1
    }
}

} // verus!
