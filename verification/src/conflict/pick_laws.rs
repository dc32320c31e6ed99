//! What picking, taking back and cutting does to a merge result as a whole.
use crate::conflict::groups::answers_choice;
use crate::conflict::groups::group;
use crate::conflict::groups::group_choices;
use crate::conflict::groups::group_end;
use crate::conflict::groups::group_start;
use crate::conflict::groups::indices_for_choice;
use crate::conflict::groups::law_group_is_one_conflict;
use crate::conflict::groups::picked;
use crate::conflict::groups::reset;
use crate::conflict::groups::same_conflict;
use crate::conflict::groups::segment_of_block;
use crate::conflict::groups::separations;
use crate::conflict::groups::text_behind;
use crate::conflict::groups::unpicked;
use crate::conflict::groups::with_appended;
use crate::conflict::groups::without_block;
use crate::conflict::model::block_count;
use crate::conflict::model::blocks_of;
use crate::conflict::model::lemma_block_count;
use crate::conflict::model::lemma_blocks_grow;
use crate::conflict::model::slot_sources;
use crate::conflict::model::BlockView;
use crate::conflict::model::ConflictChoice;
use crate::conflict::model::ConflictOutputSource;
use crate::conflict::model::PickSlot;
use crate::conflict::model::SegmentView;
use crate::conflict::model::SubchunkView;
use crate::conflict::regions::block_decisions;
use crate::conflict::regions::RegionView;
use crate::conflict::regions::SideBySidePlan;
use crate::conflict::split::conflict_subchunks;
use crate::conflict::split::decided_upto;
use crate::conflict::split::line_slice;
use crate::conflict::split::region_at;
use crate::conflict::split::split_mode;
use crate::conflict::split::split_segments;
use crate::conflict::split::with_block;
use crate::conflict::split::with_decisions;
use crate::conflict::split::with_split;
use crate::conflict::split::with_subchunks;
use crate::conflict::split::with_text;
use crate::conflict::split::Regioned;
use crate::conflict::split::SplitMode;
use vstd::prelude::*;

verus! {

/// A merge result letter by letter, with its conflicts between the letters. A
/// letter is given by its code point.
pub enum Piece {
    Letter(int),
    Conflict(BlockView),
}

pub open spec fn letters(text: Seq<char>) -> Seq<Piece> {
    Seq::new(text.len(), |i: int| Piece::Letter(text[i] as int))
}

/// What segments hold, however their text is cut into segments.
pub open spec fn pieces(segments: Seq<SegmentView>) -> Seq<Piece>
    decreases segments.len(),
{
    if segments.len() == 0 {
        Seq::empty()
    } else {
        pieces(segments.drop_last()) + (match segments.last() {
            SegmentView::Text(text) => letters(text),
            SegmentView::Block(block) => seq![Piece::Conflict(block)],
        })
    }
}

proof fn lemma_pieces_push(segments: Seq<SegmentView>, segment: SegmentView)
    ensures
        pieces(segments.push(segment)) == pieces(segments) + (match segment {
            SegmentView::Text(text) => letters(text),
            SegmentView::Block(block) => seq![Piece::Conflict(block)],
        }),
{
    assert(segments.push(segment).drop_last() =~= segments);
}

proof fn lemma_letters_add(a: Seq<char>, b: Seq<char>)
    ensures
        letters(a + b) == letters(a) + letters(b),
{
    let whole = letters(a + b);
    let parts = letters(a) + letters(b);
    assert forall|i: int| 0 <= i < whole.len() implies whole[i] == parts[i] by {
        if i < a.len() {
            assert((a + b)[i] == a[i]);
        } else {
            assert((a + b)[i] == b[i - a.len()]);
        }
    }
    assert(whole =~= parts);
}

proof fn lemma_pieces_with_text(segments: Seq<SegmentView>, text: Seq<char>)
    ensures
        pieces(with_text(segments, text)) == pieces(segments) + letters(text),
{
    if text.len() == 0 {
        assert(letters(text) =~= Seq::<Piece>::empty());
        assert(pieces(segments) + letters(text) =~= pieces(segments));
    } else if segments.len() > 0 && segments.last() is Text {
        let last = segments.last()->Text_0;
        lemma_pieces_push(segments.drop_last(), SegmentView::Text(last + text));
        lemma_letters_add(last, text);
        assert(pieces(segments.drop_last()) + (letters(last) + letters(text)) =~= (pieces(
            segments.drop_last(),
        ) + letters(last)) + letters(text));
    } else {
        lemma_pieces_push(segments, SegmentView::Text(text));
    }
}

proof fn lemma_pieces_step(segments: Seq<SegmentView>, from: int, n: int)
    requires
        0 <= from < n <= segments.len(),
    ensures
        pieces(segments.subrange(from, n)) == pieces(segments.subrange(from, n - 1)) + (
        match segments[n - 1] {
            SegmentView::Text(text) => letters(text),
            SegmentView::Block(block) => seq![Piece::Conflict(block)],
        }),
{
    assert(segments.subrange(from, n) =~= segments.subrange(from, n - 1).push(segments[n - 1]));
    lemma_pieces_push(segments.subrange(from, n - 1), segments[n - 1]);
}

/// That segment is the conflict of that number.
pub open spec fn is_conflict_number(segments: Seq<SegmentView>, conflict_ix: int, at: int) -> bool {
    &&& 0 <= at < segments.len()
    &&& segments[at] is Block
    &&& block_count(segments, at) == conflict_ix
}

proof fn lemma_other_numbers(segments: Seq<SegmentView>, conflict_ix: int, at: int, k: int)
    requires
        is_conflict_number(segments, conflict_ix, at),
        0 <= k < segments.len(),
        segments[k] is Block,
        k != at,
    ensures
        block_count(segments, k) != conflict_ix,
{
    if k < at {
        lemma_blocks_grow(segments, k + 1, at);
    } else {
        lemma_blocks_grow(segments, at + 1, k);
    }
}

/// Conflicts are numbered from the top: as many are before one as its number
/// says, and the list of conflicts has it at that number and nothing else.
pub proof fn law_conflicts_are_numbered_from_the_top(segments: Seq<SegmentView>, at: int)
    requires
        0 <= at < segments.len(),
    ensures
        ({
            let n = segments.len() as int;
            let blocks = blocks_of(segments, n);
            &&& block_count(segments, 0) == 0
            &&& segments[at] is Text ==> block_count(segments, at + 1) == block_count(segments, at)
            &&& segments[at] matches SegmentView::Block(block) ==> {
                &&& block_count(segments, at + 1) == block_count(segments, at) + 1
                &&& 0 <= block_count(segments, at) < blocks.len()
                &&& blocks[block_count(segments, at)] == block
            }
            &&& blocks.len() == block_count(segments, n)
        }),
{
    let n = segments.len() as int;
    lemma_block_count(segments, n);
    lemma_block_count(segments, at);
    lemma_block_count(segments, at + 1);
    lemma_blocks_grow(segments, at + 1, n);
    if segments[at] is Block {
        let upto = blocks_of(segments, at + 1);
        assert(upto[block_count(segments, at)] == segments[at]->Block_0);
        assert(upto == blocks_of(segments, n).take(block_count(segments, at + 1)));
    }
}

proof fn lemma_without_block(segments: Seq<SegmentView>, conflict_ix: int, at: int, n: int)
    requires
        is_conflict_number(segments, conflict_ix, at),
        0 <= n <= segments.len(),
    ensures
        n <= at ==> pieces(without_block(segments, conflict_ix, n)) == pieces(
            segments.subrange(0, n),
        ),
        n > at ==> pieces(without_block(segments, conflict_ix, n)) == pieces(
            segments.subrange(0, at),
        ) + pieces(segments.subrange(at + 1, n)),
    decreases n,
{
    if n == 0 {
        assert(segments.subrange(0, 0) =~= Seq::<SegmentView>::empty());
    } else {
        lemma_without_block(segments, conflict_ix, at, n - 1);
        let before = without_block(segments, conflict_ix, n - 1);
        if n - 1 < at {
            lemma_pieces_step(segments, 0, n);
        } else if n - 1 > at {
            lemma_pieces_step(segments, at + 1, n);
        } else {
            assert(segments.subrange(n, n) =~= Seq::<SegmentView>::empty());
            assert(pieces(segments.subrange(0, at)) + Seq::<Piece>::empty() =~= pieces(
                segments.subrange(0, at),
            ));
        }
        let head = pieces(segments.subrange(0, at));
        match segments[n - 1] {
            SegmentView::Text(text) => {
                lemma_pieces_with_text(before, text);
                if n - 1 > at {
                    assert((head + pieces(segments.subrange(at + 1, n - 1))) + letters(text) =~= head
                        + (pieces(segments.subrange(at + 1, n - 1)) + letters(text)));
                }
            },
            SegmentView::Block(block) => {
                if n - 1 != at {
                    lemma_other_numbers(segments, conflict_ix, at, n - 1);
                    lemma_pieces_push(before, SegmentView::Block(block));
                    if n - 1 > at {
                        assert((head + pieces(segments.subrange(at + 1, n - 1))) + seq![
                            Piece::Conflict(block),
                        ] =~= head + (pieces(segments.subrange(at + 1, n - 1)) + seq![
                            Piece::Conflict(block),
                        ]));
                    }
                }
            },
        }
    }
}

/// Taking a conflict away takes that one conflict and no letter: what is before
/// it and what is behind it stay as they are.
pub proof fn law_removed_conflict_leaves_the_rest(
    segments: Seq<SegmentView>,
    conflict_ix: int,
    at: int,
)
    requires
        is_conflict_number(segments, conflict_ix, at),
    ensures
        pieces(without_block(segments, conflict_ix, segments.len() as int)) == pieces(
            segments.take(at),
        ) + pieces(segments.skip(at + 1)),
{
    lemma_without_block(segments, conflict_ix, at, segments.len() as int);
    assert(segments.take(at) =~= segments.subrange(0, at));
    assert(segments.skip(at + 1) =~= segments.subrange(at + 1, segments.len() as int));
}

/// Where there is no conflict of that number, nothing is taken away.
pub proof fn law_no_conflict_no_change(segments: Seq<SegmentView>, conflict_ix: int, n: int)
    requires
        0 <= n <= segments.len(),
        forall|at: int| !is_conflict_number(segments, conflict_ix, at),
    ensures
        pieces(without_block(segments, conflict_ix, n)) == pieces(segments.take(n)),
    decreases n,
{
    if n == 0 {
        assert(segments.take(0) =~= Seq::<SegmentView>::empty());
    } else {
        law_no_conflict_no_change(segments, conflict_ix, n - 1);
        assert(segments.take(n) =~= segments.subrange(0, n));
        assert(segments.take(n - 1) =~= segments.subrange(0, n - 1));
        lemma_pieces_step(segments, 0, n);
        let before = without_block(segments, conflict_ix, n - 1);
        match segments[n - 1] {
            SegmentView::Text(text) => {
                lemma_pieces_with_text(before, text);
            },
            SegmentView::Block(block) => {
                assert(!is_conflict_number(segments, conflict_ix, n - 1));
                lemma_pieces_push(before, SegmentView::Block(block));
            },
        }
    }
}

proof fn lemma_with_appended(
    segments: Seq<SegmentView>,
    regions: Seq<usize>,
    behind: int,
    added: BlockView,
    added_region: usize,
    at: int,
    n: int,
)
    requires
        is_conflict_number(segments, behind, at),
        regions.len() == block_count(segments, segments.len() as int),
        0 <= n <= segments.len(),
    ensures
        ({
            let built = with_appended(segments, regions, behind, added, added_region, n);
            let seen = block_count(segments, n);
            &&& 0 <= seen <= regions.len()
            &&& n <= at ==> pieces(built.segments) == pieces(segments.subrange(0, n))
                && built.regions == regions.subrange(0, seen)
            &&& n > at ==> behind + 1 <= seen && pieces(built.segments) == pieces(
                segments.subrange(0, at + 1),
            ) + seq![Piece::Conflict(added)] + pieces(segments.subrange(at + 1, n))
                && built.regions == regions.subrange(0, behind + 1) + seq![added_region]
                + regions.subrange(behind + 1, seen)
        }),
    decreases n,
{
    lemma_block_count(segments, n);
    lemma_block_count(segments, at);
    lemma_blocks_grow(segments, n, segments.len() as int);
    if n == 0 {
        assert(segments.subrange(0, 0) =~= Seq::<SegmentView>::empty());
        assert(regions.subrange(0, 0) =~= Seq::<usize>::empty());
    } else {
        lemma_with_appended(segments, regions, behind, added, added_region, at, n - 1);
        let before = with_appended(segments, regions, behind, added, added_region, n - 1);
        let seen = block_count(segments, n - 1);
        if n - 1 <= at {
            lemma_pieces_step(segments, 0, n);
        } else {
            lemma_pieces_step(segments, at + 1, n);
        }
        let head = pieces(segments.subrange(0, at + 1)) + seq![Piece::Conflict(added)];
        match segments[n - 1] {
            SegmentView::Text(text) => {
                lemma_pieces_with_text(before.segments, text);
                if n - 1 > at {
                    assert((head + pieces(segments.subrange(at + 1, n - 1))) + letters(text) =~= head
                        + (pieces(segments.subrange(at + 1, n - 1)) + letters(text)));
                }
            },
            SegmentView::Block(block) => {
                let kept = with_block(before, block, region_at(regions, seen));
                lemma_pieces_push(before.segments, SegmentView::Block(block));
                assert(region_at(regions, seen) == regions[seen]);
                if n - 1 < at {
                    lemma_other_numbers(segments, behind, at, n - 1);
                    assert(regions.subrange(0, seen).push(regions[seen]) =~= regions.subrange(
                        0,
                        seen + 1,
                    ));
                } else if n - 1 == at {
                    lemma_pieces_push(kept.segments, SegmentView::Block(added));
                    assert(segments.subrange(n, n) =~= Seq::<SegmentView>::empty());
                    assert(head + Seq::<Piece>::empty() =~= head);
                    assert(regions.subrange(0, seen).push(regions[seen]).push(added_region)
                        =~= regions.subrange(0, behind + 1) + seq![added_region]
                        + regions.subrange(behind + 1, seen + 1));
                } else {
                    lemma_other_numbers(segments, behind, at, n - 1);
                    assert((head + pieces(segments.subrange(at + 1, n - 1))) + seq![
                        Piece::Conflict(block),
                    ] =~= head + (pieces(segments.subrange(at + 1, n - 1)) + seq![
                        Piece::Conflict(block),
                    ]));
                    assert((regions.subrange(0, behind + 1) + seq![added_region]
                        + regions.subrange(behind + 1, seen)).push(regions[seen])
                        =~= regions.subrange(0, behind + 1) + seq![added_region]
                        + regions.subrange(behind + 1, seen + 1));
                }
            },
        }
    }
}

/// One more block for a conflict stands right behind the one it was put behind,
/// and the same region stands at its number. No letter, no other block and no
/// other region changes.
pub proof fn law_added_block_stands_behind(
    segments: Seq<SegmentView>,
    regions: Seq<usize>,
    behind: int,
    added: BlockView,
    added_region: usize,
    at: int,
)
    requires
        is_conflict_number(segments, behind, at),
        regions.len() == block_count(segments, segments.len() as int),
    ensures
        ({
            let built = with_appended(
                segments,
                regions,
                behind,
                added,
                added_region,
                segments.len() as int,
            );
            &&& pieces(built.segments) == pieces(segments.take(at + 1)) + seq![
                Piece::Conflict(added),
            ] + pieces(segments.skip(at + 1))
            &&& 0 <= behind < regions.len()
            &&& built.regions == regions.take(behind + 1) + seq![added_region] + regions.skip(
                behind + 1,
            )
        }),
{
    let n = segments.len() as int;
    lemma_with_appended(segments, regions, behind, added, added_region, at, n);
    lemma_block_count(segments, at);
    assert(segments.take(at + 1) =~= segments.subrange(0, at + 1));
    assert(segments.skip(at + 1) =~= segments.subrange(at + 1, n));
    assert(regions.take(behind + 1) =~= regions.subrange(0, behind + 1));
    assert(regions.skip(behind + 1) =~= regions.subrange(behind + 1, regions.len() as int));
}

/// A pick marks a block as resolved and changes only what was picked; taking it
/// back leaves it open with nothing picked, and its versions as they are.
pub proof fn law_pick_changes_no_version(block: BlockView, choice: ConflictChoice)
    ensures
        picked(block, choice).resolved,
        picked(block, choice).choice == choice,
        picked(block, choice).base == block.base,
        picked(block, choice).ours == block.ours,
        picked(block, choice).theirs == block.theirs,
        picked(block, choice).whitespace_only == block.whitespace_only,
        !unpicked(block).resolved,
        unpicked(block).choice.sources().len() == 0,
        unpicked(block).base == block.base,
        unpicked(block).ours == block.ours,
        unpicked(block).theirs == block.theirs,
        unpicked(block).whitespace_only == block.whitespace_only,
{
}

proof fn lemma_segment_of(segments: Seq<SegmentView>, conflict_ix: int, at: int, n: int)
    requires
        is_conflict_number(segments, conflict_ix, at),
        at < n <= segments.len(),
    ensures
        segment_of_block(segments, conflict_ix, n) == at,
    decreases n,
{
    if at < n - 1 {
        if segments[n - 1] is Block {
            lemma_other_numbers(segments, conflict_ix, at, n - 1);
        }
        lemma_segment_of(segments, conflict_ix, at, n - 1);
    }
}

/// Taking back a pick opens the one block that stands for a conflict, if it was
/// resolved, and changes nothing else. One of several blocks is taken away.
pub proof fn law_taking_back_touches_one_block(
    segments: Seq<SegmentView>,
    regions: Seq<usize>,
    conflict_ix: int,
    at: int,
)
    requires
        is_conflict_number(segments, conflict_ix, at),
    ensures
        ({
            let (changed, after, regions_after) = reset(segments, regions, conflict_ix);
            let (start, end) = group(segments, regions, conflict_ix);
            let block = segments[at]->Block_0;
            &&& end - start > 1 ==> changed && pieces(after) == pieces(segments.take(at)) + pieces(
                segments.skip(at + 1),
            ) && (conflict_ix < regions.len() ==> regions_after == regions.take(conflict_ix)
                + regions.skip(conflict_ix + 1))
            &&& end - start <= 1 ==> changed == block.resolved && regions_after == regions
                && after.len() == segments.len() && (forall|i: int|
                0 <= i < segments.len() && i != at ==> #[trigger] after[i] == segments[i])
            &&& end - start <= 1 && block.resolved ==> (after[at] matches SegmentView::Block(open)
                && !open.resolved && open.choice.sources().len() == 0 && open.ours == block.ours
                && open.theirs == block.theirs && open.base == block.base)
            &&& end - start <= 1 && !block.resolved ==> after == segments
        }),
{
    lemma_segment_of(segments, conflict_ix, at, segments.len() as int);
    law_removed_conflict_leaves_the_rest(segments, conflict_ix, at);
    lemma_block_count(segments, at);
    if conflict_ix < regions.len() {
        assert(regions.remove(conflict_ix) =~= regions.take(conflict_ix) + regions.skip(
            conflict_ix + 1,
        ));
    }
}

/// A pick holds a version where one of its places is taken by it.
pub proof fn law_pick_holds_what_is_in_its_places(choice: ConflictChoice, slot: PickSlot)
    requires
        slot != PickSlot::Nothing,
    ensures
        ({
            let source = match slot {
                PickSlot::Base => ConflictOutputSource::Base,
                PickSlot::Ours => ConflictOutputSource::Ours,
                _ => ConflictOutputSource::Theirs,
            };
            choice.sources().contains(source) <==> choice.first == slot || choice.second == slot
                || choice.third == slot
        }),
{
    let source = match slot {
        PickSlot::Base => ConflictOutputSource::Base,
        PickSlot::Ours => ConflictOutputSource::Ours,
        _ => ConflictOutputSource::Theirs,
    };
    let a = slot_sources(choice.first);
    let b = slot_sources(choice.second);
    let c = slot_sources(choice.third);
    let all = choice.sources();
    assert(all == a + b + c);
    if choice.first == slot {
        assert(all[0] == a[0]);
        assert(all[0] == source);
    }
    if choice.second == slot {
        assert(all[a.len() as int] == b[0]);
        assert(all[a.len() as int] == source);
    }
    if choice.third == slot {
        assert(all[(a.len() + b.len()) as int] == c[0]);
        assert(all[(a.len() + b.len()) as int] == source);
    }
    if all.contains(source) {
        let k = choose|k: int| 0 <= k < all.len() && all[k] == source;
        if k < a.len() {
            assert(a[k] == source);
        } else if k < a.len() + b.len() {
            assert(b[k - a.len()] == source);
        } else {
            assert(c[k - a.len() - b.len()] == source);
        }
    }
}

/// The versions picked for a conflict are those that a resolved block of it has
/// picked, each named once by itself, the base before ours and ours before
/// theirs.
pub proof fn law_picked_versions_are_those_of_resolved_blocks(
    blocks: Seq<BlockView>,
    start: int,
    end: int,
    slot: PickSlot,
)
    requires
        slot != PickSlot::Nothing,
    ensures
        ({
            let source = match slot {
                PickSlot::Base => ConflictOutputSource::Base,
                PickSlot::Ours => ConflictOutputSource::Ours,
                _ => ConflictOutputSource::Theirs,
            };
            let named = ConflictChoice {
                first: slot,
                second: PickSlot::Nothing,
                third: PickSlot::Nothing,
            };
            let choices = group_choices(blocks, start, end);
            &&& choices.contains(named) <==> exists|i: int|
                start <= i < end && (#[trigger] blocks[i]).resolved
                    && blocks[i].choice.sources().contains(source)
            &&& forall|i: int|
                0 <= i < choices.len() ==> (#[trigger] choices[i]).first != PickSlot::Nothing
                    && choices[i].second == PickSlot::Nothing && choices[i].third
                    == PickSlot::Nothing
            &&& forall|i: int, j: int|
                0 <= i < j < choices.len() ==> ((#[trigger] choices[i]).first == PickSlot::Base && (
                #[trigger] choices[j]).first != PickSlot::Base) || (choices[i].first
                    == PickSlot::Ours && choices[j].first == PickSlot::Theirs)
        }),
{
    let base = ConflictChoice::spec_single(PickSlot::Base);
    let ours = ConflictChoice::spec_single(PickSlot::Ours);
    let theirs = ConflictChoice::spec_single(PickSlot::Theirs);
    let choices = group_choices(blocks, start, end);
    let has_base = crate::conflict::groups::some_picks(
        blocks,
        start,
        end,
        ConflictOutputSource::Base,
    );
    let has_ours = crate::conflict::groups::some_picks(
        blocks,
        start,
        end,
        ConflictOutputSource::Ours,
    );
    let has_theirs = crate::conflict::groups::some_picks(
        blocks,
        start,
        end,
        ConflictOutputSource::Theirs,
    );
    let b: int = if has_base {
        1
    } else {
        0
    };
    let o: int = if has_ours {
        1
    } else {
        0
    };
    let t: int = if has_theirs {
        1
    } else {
        0
    };
    assert(choices.len() == b + o + t);
    assert(has_base ==> choices[0] == base);
    assert(has_ours ==> choices[b] == ours);
    assert(has_theirs ==> choices[b + o] == theirs);
}

/// A block goes with a version where its pick holds the version, and with a
/// pick of several only where it has just that pick; one that is open goes with
/// none.
pub proof fn law_block_goes_with_its_pick(block: BlockView, choice: ConflictChoice)
    ensures
        !block.resolved ==> !answers_choice(block, choice),
        block.resolved && choice.first != PickSlot::Nothing && choice.second == PickSlot::Nothing
            && choice.third == PickSlot::Nothing ==> (answers_choice(block, choice)
            <==> block.choice.first == choice.first || block.choice.second == choice.first
            || block.choice.third == choice.first),
        block.resolved && (choice.first == PickSlot::Nothing || choice.second != PickSlot::Nothing
            || choice.third != PickSlot::Nothing) ==> (answers_choice(block, choice)
            <==> block.choice == choice),
{
    law_pick_holds_what_is_in_its_places(block.choice, PickSlot::Base);
    law_pick_holds_what_is_in_its_places(block.choice, PickSlot::Ours);
    law_pick_holds_what_is_in_its_places(block.choice, PickSlot::Theirs);
}

/// The blocks that go with a pick are all that do, each once and from the top.
pub proof fn law_blocks_for_a_pick_are_all_of_them(
    blocks: Seq<BlockView>,
    start: int,
    end: int,
    choice: ConflictChoice,
)
    requires
        0 <= start <= end <= blocks.len(),
        end <= usize::MAX,
    ensures
        ({
            let found = indices_for_choice(blocks, start, end, choice);
            &&& forall|i: int|
                0 <= i < found.len() ==> start <= #[trigger] found[i] < end && answers_choice(
                    blocks[found[i] as int],
                    choice,
                )
            &&& forall|i: int, j: int|
                0 <= i < j < found.len() ==> #[trigger] found[i] < #[trigger] found[j]
            &&& forall|k: int|
                start <= k < end && answers_choice(#[trigger] blocks[k], choice)
                    ==> found.contains(k as usize)
        }),
    decreases end - start,
{
    if end > start {
        law_blocks_for_a_pick_are_all_of_them(blocks, start, end - 1, choice);
        let before = indices_for_choice(blocks, start, end - 1, choice);
        let found = indices_for_choice(blocks, start, end, choice);
        assert forall|k: int| start <= k < end && answers_choice(
            #[trigger] blocks[k],
            choice,
        ) implies found.contains(k as usize) by {
            if k < end - 1 {
                assert(before.contains(k as usize));
                let i = choose|i: int| 0 <= i < before.len() && before[i] == k as usize;
                assert(found[i] == k as usize);
            } else {
                assert(found[found.len() - 1] == k as usize);
            }
        }
    }
}

proof fn lemma_text_behind(segments: Seq<SegmentView>, n: int)
    requires
        0 <= n <= segments.len(),
    ensures
        text_behind(segments, n) <==> exists|t: int|
            0 <= t < n && ((#[trigger] segments[t]) matches SegmentView::Text(text) && text.len()
                > 0) && forall|k: int| t < k < n ==> (#[trigger] segments[k]) is Text,
    decreases n,
{
    if n > 0 {
        lemma_text_behind(segments, n - 1);
        if let SegmentView::Text(text) = segments[n - 1] {
            if text.len() > 0 {
                assert(segments[n - 1] is Text);
            } else if text_behind(segments, n - 1) {
                let t = choose|t: int|
                    0 <= t < n - 1 && ((#[trigger] segments[t]) matches SegmentView::Text(text)
                        && text.len() > 0) && forall|k: int|
                        t < k < n - 1 ==> (#[trigger] segments[k]) is Text;
                assert(segments[t] is Text);
            }
        }
    }
}

proof fn lemma_separated_at(segments: Seq<SegmentView>, at: int, n: int)
    requires
        0 <= at < n <= segments.len(),
        segments[at] is Block,
    ensures
        0 <= block_count(segments, at) < separations(segments, n).len(),
        separations(segments, n)[block_count(segments, at)] == text_behind(segments, at),
        separations(segments, n).len() == block_count(segments, n),
    decreases n,
{
    lemma_separations_len(segments, n - 1);
    lemma_block_count(segments, at);
    if at < n - 1 {
        lemma_separated_at(segments, at, n - 1);
    }
}

proof fn lemma_separations_len(segments: Seq<SegmentView>, n: int)
    requires
        0 <= n <= segments.len(),
    ensures
        separations(segments, n).len() == block_count(segments, n),
    decreases n,
{
    if n > 0 {
        lemma_separations_len(segments, n - 1);
    }
}

/// A conflict is set apart from the one before it where some letter stands
/// between them.
pub proof fn law_letters_between_conflicts_set_them_apart(segments: Seq<SegmentView>, at: int)
    requires
        0 <= at < segments.len(),
        segments[at] is Block,
    ensures
        ({
            let separated = separations(segments, segments.len() as int);
            &&& 0 <= block_count(segments, at) < separated.len()
            &&& separated[block_count(segments, at)] <==> exists|t: int|
                0 <= t < at && ((#[trigger] segments[t]) matches SegmentView::Text(text)
                    && text.len() > 0) && forall|k: int|
                    t < k < at ==> (#[trigger] segments[k]) is Text
        }),
{
    lemma_text_behind(segments, at);
    lemma_separated_at(segments, at, segments.len() as int);
}

proof fn lemma_group_start_edge(
    blocks: Seq<BlockView>,
    separated: Seq<bool>,
    regions: Seq<usize>,
    target: int,
    start: int,
)
    requires
        0 <= start,
    ensures
        ({
            let first = group_start(blocks, separated, regions, target, start);
            &&& 0 <= first <= start
            &&& first == 0 || separated[first] || !same_conflict(
                blocks[first - 1],
                region_at(regions, first - 1),
                blocks[target],
                region_at(regions, target),
            )
            &&& forall|k: int| first < k <= start ==> !(#[trigger] separated[k])
        }),
    decreases start,
{
    if start > 0 && !separated[start] && same_conflict(
        blocks[start - 1],
        region_at(regions, start - 1),
        blocks[target],
        region_at(regions, target),
    ) {
        lemma_group_start_edge(blocks, separated, regions, target, start - 1);
    }
}

proof fn lemma_group_end_edge(
    blocks: Seq<BlockView>,
    separated: Seq<bool>,
    regions: Seq<usize>,
    target: int,
    end: int,
)
    requires
        0 <= end <= blocks.len(),
    ensures
        ({
            let past = group_end(blocks, separated, regions, target, end);
            &&& end <= past <= blocks.len()
            &&& past == blocks.len() || separated[past] || !same_conflict(
                blocks[past],
                region_at(regions, past),
                blocks[target],
                region_at(regions, target),
            )
            &&& forall|k: int| end <= k < past ==> !(#[trigger] separated[k])
        }),
    decreases blocks.len() - end,
{
    if 0 <= end < blocks.len() && !separated[end] && same_conflict(
        blocks[end],
        region_at(regions, end),
        blocks[target],
        region_at(regions, target),
    ) {
        lemma_group_end_edge(blocks, separated, regions, target, end + 1);
    }
}

/// The blocks that stand for a conflict stand side by side, with no letter
/// between them, and are all that do: the ones next to them are set apart by
/// text or stand for another conflict, that is for another region or other
/// versions.
pub proof fn law_group_is_all_that_stand_together(
    segments: Seq<SegmentView>,
    regions: Seq<usize>,
    conflict_ix: int,
)
    requires
        0 <= conflict_ix < block_count(segments, segments.len() as int),
    ensures
        ({
            let blocks = blocks_of(segments, segments.len() as int);
            let separated = separations(segments, segments.len() as int);
            let (start, end) = group(segments, regions, conflict_ix);
            let one = |k: int|
                region_at(regions, k) == region_at(regions, conflict_ix) && blocks[k].base
                    == blocks[conflict_ix].base && blocks[k].ours == blocks[conflict_ix].ours
                    && blocks[k].theirs == blocks[conflict_ix].theirs;
            &&& 0 <= start <= conflict_ix < end <= blocks.len()
            &&& forall|k: int| start <= k < end ==> #[trigger] one(k)
            &&& forall|k: int| start < k < end ==> !(#[trigger] separated[k])
            &&& start == 0 || separated[start] || !one(start - 1)
            &&& end == blocks.len() || separated[end] || !one(end)
        }),
{
    let blocks = blocks_of(segments, segments.len() as int);
    let separated = separations(segments, segments.len() as int);
    lemma_block_count(segments, segments.len() as int);
    lemma_group_start_edge(blocks, separated, regions, conflict_ix, conflict_ix);
    lemma_group_end_edge(blocks, separated, regions, conflict_ix, conflict_ix + 1);
    let (start, end) = group(segments, regions, conflict_ix);
    let one = |k: int|
        region_at(regions, k) == region_at(regions, conflict_ix) && blocks[k].base
            == blocks[conflict_ix].base && blocks[k].ours == blocks[conflict_ix].ours
            && blocks[k].theirs == blocks[conflict_ix].theirs;
    assert forall|k: int| start <= k < end implies #[trigger] one(k) by {
        law_group_is_one_conflict(segments, regions, conflict_ix, k);
    }
}

/// The region of a conflict is the one noted for it, and its own number where
/// none is.
pub proof fn law_region_is_the_noted_one(regions: Seq<usize>, conflict_ix: int)
    requires
        0 <= conflict_ix <= usize::MAX,
    ensures
        conflict_ix < regions.len() ==> region_at(regions, conflict_ix) == regions[conflict_ix],
        conflict_ix >= regions.len() ==> region_at(regions, conflict_ix) == conflict_ix,
{
}

/// Adding to what is there leaves it in place: a cut conflict stands behind it.
proof fn lemma_split_adds(so_far: Regioned, target: BlockView, mode: SplitMode, region_ix: usize)
    ensures
        pieces(with_split(so_far, target, mode, region_ix).segments) == pieces(so_far.segments)
            + cut_pieces(target, mode),
{
    match mode {
        SplitMode::Whole => {
            lemma_pieces_push(so_far.segments, SegmentView::Block(target));
        },
        SplitMode::Subchunks(subchunks) => {
            lemma_subchunks_add(so_far, target, subchunks, region_ix, subchunks.len() as int);
            assert(subchunks.take(subchunks.len() as int) =~= subchunks);
        },
        SplitMode::Decisions { decisions, choice_is_ours } => {
            let n = decisions.len() as int;
            lemma_decisions_add(so_far, target, decisions, choice_is_ours, region_ix, n);
            let selected = if choice_is_ours {
                target.ours
            } else {
                target.theirs
            };
            let before = with_decisions(
                so_far,
                target,
                decisions,
                choice_is_ours,
                region_ix,
                n,
            );
            let tail = line_slice(
                selected,
                decided_upto(decisions, n),
                crate::lines::terminated_lines(vstd::utf8::encode_utf8(selected)) as int,
            );
            lemma_pieces_with_text(before.segments, tail);
            assert((pieces(so_far.segments) + decided_pieces(
                target,
                decisions,
                choice_is_ours,
                n,
            )) + letters(tail) =~= pieces(so_far.segments) + (decided_pieces(
                target,
                decisions,
                choice_is_ours,
                n,
            ) + letters(tail)));
        },
    }
}

/// The letters and the smaller conflicts of a conflict that was cut into finer
/// pieces: settled text as letters, and an open conflict for each other piece,
/// with the pick there was.
pub open spec fn finer_pieces(target: BlockView, subchunks: Seq<SubchunkView>) -> Seq<Piece>
    decreases subchunks.len(),
{
    if subchunks.len() == 0 {
        Seq::empty()
    } else {
        finer_pieces(target, subchunks.drop_last()) + (match subchunks.last() {
            SubchunkView::Resolved(text) => letters(text),
            SubchunkView::Conflict { base, ours, theirs } => seq![
                Piece::Conflict(
                    BlockView {
                        base: Some(base),
                        ours,
                        theirs,
                        choice: target.choice,
                        resolved: false,
                        whitespace_only: target.whitespace_only,
                    },
                ),
            ],
        })
    }
}

proof fn lemma_subchunks_add(
    so_far: Regioned,
    target: BlockView,
    subchunks: Seq<SubchunkView>,
    region_ix: usize,
    n: int,
)
    requires
        0 <= n <= subchunks.len(),
    ensures
        pieces(with_subchunks(so_far, target, subchunks, region_ix, n).segments) == pieces(
            so_far.segments,
        ) + finer_pieces(target, subchunks.take(n)),
    decreases n,
{
    if n == 0 {
        assert(pieces(so_far.segments) + Seq::<Piece>::empty() =~= pieces(so_far.segments));
    } else {
        lemma_subchunks_add(so_far, target, subchunks, region_ix, n - 1);
        let before = with_subchunks(so_far, target, subchunks, region_ix, n - 1);
        assert(subchunks.take(n).drop_last() =~= subchunks.take(n - 1));
        assert(subchunks.take(n).last() == subchunks[n - 1]);
        let head = pieces(so_far.segments);
        let middle = finer_pieces(target, subchunks.take(n - 1));
        match subchunks[n - 1] {
            SubchunkView::Resolved(text) => {
                lemma_pieces_with_text(before.segments, text);
                assert((head + middle) + letters(text) =~= head + (middle + letters(text)));
            },
            SubchunkView::Conflict { base, ours, theirs } => {
                let block = BlockView {
                    base: Some(base),
                    ours,
                    theirs,
                    choice: target.choice,
                    resolved: false,
                    whitespace_only: target.whitespace_only,
                };
                lemma_pieces_push(before.segments, SegmentView::Block(block));
                assert((head + middle) + seq![Piece::Conflict(block)] =~= head + (middle + seq![
                    Piece::Conflict(block),
                ]));
            },
        }
    }
}

/// The same of the first decisions of a conflict that was cut at them: the
/// picked lines before each as letters, and an open conflict of its lines on
/// both sides, each side's lines where that side's lines were.
pub open spec fn decided_pieces(
    target: BlockView,
    decisions: Seq<RegionView>,
    choice_is_ours: bool,
    n: int,
) -> Seq<Piece>
    decreases n,
{
    if n <= 0 {
        Seq::empty()
    } else {
        let decision = decisions[n - 1];
        let picked_side = if choice_is_ours {
            target.ours
        } else {
            target.theirs
        };
        let (ours, theirs) = if choice_is_ours {
            (decision.selected, decision.alternate)
        } else {
            (decision.alternate, decision.selected)
        };
        decided_pieces(target, decisions, choice_is_ours, n - 1) + letters(
            line_slice(picked_side, decided_upto(decisions, n - 1), decision.selected.0),
        ) + seq![
            Piece::Conflict(
                BlockView {
                    base: None,
                    ours: line_slice(target.ours, ours.0, ours.1),
                    theirs: line_slice(target.theirs, theirs.0, theirs.1),
                    choice: target.choice,
                    resolved: false,
                    whitespace_only: target.whitespace_only,
                },
            ),
        ]
    }
}

proof fn lemma_decisions_add(
    so_far: Regioned,
    target: BlockView,
    decisions: Seq<RegionView>,
    choice_is_ours: bool,
    region_ix: usize,
    n: int,
)
    requires
        0 <= n <= decisions.len(),
    ensures
        pieces(
            with_decisions(so_far, target, decisions, choice_is_ours, region_ix, n).segments,
        ) == pieces(so_far.segments) + decided_pieces(target, decisions, choice_is_ours, n),
    decreases n,
{
    if n == 0 {
        assert(pieces(so_far.segments) + Seq::<Piece>::empty() =~= pieces(so_far.segments));
    } else {
        lemma_decisions_add(so_far, target, decisions, choice_is_ours, region_ix, n - 1);
        let before = with_decisions(so_far, target, decisions, choice_is_ours, region_ix, n - 1);
        let decision = decisions[n - 1];
        let picked_side = if choice_is_ours {
            target.ours
        } else {
            target.theirs
        };
        let (ours, theirs) = if choice_is_ours {
            (decision.selected, decision.alternate)
        } else {
            (decision.alternate, decision.selected)
        };
        let between = line_slice(
            picked_side,
            decided_upto(decisions, n - 1),
            decision.selected.0,
        );
        let block = BlockView {
            base: None,
            ours: line_slice(target.ours, ours.0, ours.1),
            theirs: line_slice(target.theirs, theirs.0, theirs.1),
            choice: target.choice,
            resolved: false,
            whitespace_only: target.whitespace_only,
        };
        lemma_pieces_with_text(before.segments, between);
        lemma_pieces_push(with_text(before.segments, between), SegmentView::Block(block));
        let head = pieces(so_far.segments);
        let middle = decided_pieces(target, decisions, choice_is_ours, n - 1);
        assert((head + middle) + letters(between) + seq![Piece::Conflict(block)] =~= head + (middle
            + letters(between) + seq![Piece::Conflict(block)]));
    }
}

/// What stands in place of a conflict that was cut.
pub open spec fn cut_pieces(target: BlockView, mode: SplitMode) -> Seq<Piece> {
    match mode {
        SplitMode::Whole => seq![Piece::Conflict(target)],
        SplitMode::Subchunks(subchunks) => finer_pieces(target, subchunks),
        SplitMode::Decisions { decisions, choice_is_ours } => {
            let picked_side = if choice_is_ours {
                target.ours
            } else {
                target.theirs
            };
            decided_pieces(target, decisions, choice_is_ours, decisions.len() as int) + letters(
                line_slice(
                    picked_side,
                    decided_upto(decisions, decisions.len() as int),
                    crate::lines::terminated_lines(vstd::utf8::encode_utf8(picked_side)) as int,
                ),
            )
        },
    }
}

proof fn lemma_split_segments(
    segments: Seq<SegmentView>,
    regions: Seq<usize>,
    target_ix: int,
    mode: SplitMode,
    at: int,
    n: int,
)
    requires
        is_conflict_number(segments, target_ix, at),
        0 <= n <= segments.len(),
    ensures
        ({
            let built = split_segments(segments, regions, target_ix, mode, n);
            &&& n <= at ==> pieces(built.segments) == pieces(segments.subrange(0, n))
            &&& n > at ==> pieces(built.segments) == pieces(segments.subrange(0, at)) + cut_pieces(
                segments[at]->Block_0,
                mode,
            ) + pieces(segments.subrange(at + 1, n))
        }),
    decreases n,
{
    if n == 0 {
        assert(segments.subrange(0, 0) =~= Seq::<SegmentView>::empty());
    } else {
        lemma_split_segments(segments, regions, target_ix, mode, at, n - 1);
        let before = split_segments(segments, regions, target_ix, mode, n - 1);
        let seen = block_count(segments, n - 1);
        if n - 1 < at {
            lemma_pieces_step(segments, 0, n);
        } else if n - 1 > at {
            lemma_pieces_step(segments, at + 1, n);
        }
        let head = pieces(segments.subrange(0, at)) + cut_pieces(segments[at]->Block_0, mode);
        match segments[n - 1] {
            SegmentView::Text(text) => {
                lemma_pieces_with_text(before.segments, text);
                if n - 1 > at {
                    assert((head + pieces(segments.subrange(at + 1, n - 1))) + letters(text) =~= head
                        + (pieces(segments.subrange(at + 1, n - 1)) + letters(text)));
                }
            },
            SegmentView::Block(block) => {
                if n - 1 == at {
                    lemma_split_adds(before, block, mode, region_at(regions, seen));
                    assert(segments.subrange(n, n) =~= Seq::<SegmentView>::empty());
                    assert(head + Seq::<Piece>::empty() =~= head);
                } else {
                    lemma_other_numbers(segments, target_ix, at, n - 1);
                    lemma_pieces_push(before.segments, SegmentView::Block(block));
                    if n - 1 > at {
                        assert((head + pieces(segments.subrange(at + 1, n - 1))) + seq![
                            Piece::Conflict(block),
                        ] =~= head + (pieces(segments.subrange(at + 1, n - 1)) + seq![
                            Piece::Conflict(block),
                        ]));
                    }
                }
            },
        }
    }
}

/// Cutting a conflict puts its smaller conflicts, and the letters between them,
/// where it was; what is before it and behind it stays.
pub proof fn law_cut_conflict_stays_in_its_place(
    segments: Seq<SegmentView>,
    regions: Seq<usize>,
    target_ix: int,
    mode: SplitMode,
    at: int,
)
    requires
        is_conflict_number(segments, target_ix, at),
    ensures
        pieces(
            split_segments(segments, regions, target_ix, mode, segments.len() as int).segments,
        ) == pieces(segments.take(at)) + cut_pieces(segments[at]->Block_0, mode) + pieces(
            segments.skip(at + 1),
        ),
{
    lemma_split_segments(segments, regions, target_ix, mode, at, segments.len() as int);
    assert(segments.take(at) =~= segments.subrange(0, at));
    assert(segments.skip(at + 1) =~= segments.subrange(at + 1, segments.len() as int));
}

proof fn lemma_conflicts_among(subchunks: Seq<SubchunkView>, n: int)
    requires
        0 <= n <= subchunks.len(),
    ensures
        0 <= conflict_subchunks(subchunks, n),
        conflict_subchunks(subchunks, n) > 0 <==> exists|i: int|
            0 <= i < n && (#[trigger] subchunks[i]) is Conflict,
        conflict_subchunks(subchunks, n) > 1 <==> exists|i: int, j: int|
            0 <= i < j < n && (#[trigger] subchunks[i]) is Conflict && (
            #[trigger] subchunks[j]) is Conflict,
    decreases n,
{
    if n > 0 {
        lemma_conflicts_among(subchunks, n - 1);
        if subchunks[n - 1] is Conflict && conflict_subchunks(subchunks, n - 1) > 0 {
            let i = choose|i: int| 0 <= i < n - 1 && (#[trigger] subchunks[i]) is Conflict;
            assert(subchunks[i] is Conflict && subchunks[n - 1] is Conflict);
        }
    }
}

/// A conflict is cut into its finer pieces where it has a base and two of them
/// are conflicts themselves. Else it is cut at its decisions where there are
/// two, those of the side that was picked, and of ours where none was. Else it
/// is not cut.
pub proof fn law_conflict_is_cut_where_there_is_more_than_one(
    target: BlockView,
    subchunks: Option<Seq<SubchunkView>>,
    plan: &SideBySidePlan,
)
    ensures
        ({
            let one = |slot: PickSlot|
                ConflictChoice { first: slot, second: PickSlot::Nothing, third: PickSlot::Nothing };
            let finer = target.base is Some && (subchunks matches Some(subchunks) && exists|
                i: int,
                j: int,
            |
                0 <= i < j < subchunks.len() && (#[trigger] subchunks[i]) is Conflict && (
                #[trigger] subchunks[j]) is Conflict);
            let side = if target.choice == one(PickSlot::Theirs) {
                one(PickSlot::Theirs)
            } else {
                one(PickSlot::Ours)
            };
            let one_side = target.choice == one(PickSlot::Nothing) || target.choice == side;
            match split_mode(target, subchunks, plan) {
                SplitMode::Subchunks(used) => finer && subchunks == Some(used),
                SplitMode::Decisions { decisions, choice_is_ours } => {
                    &&& !finer
                    &&& one_side
                    &&& decisions.len() > 1
                    &&& block_decisions(side, plan) == Some(decisions)
                    &&& choice_is_ours == (target.choice != one(PickSlot::Theirs))
                },
                SplitMode::Whole => !finer && (!one_side || (block_decisions(
                    side,
                    plan,
                ) matches Some(decisions) ==> decisions.len() <= 1)),
            }
        }),
{
    if let Some(subchunks) = subchunks {
        lemma_conflicts_among(subchunks, subchunks.len() as int);
    }
}

} // verus!
