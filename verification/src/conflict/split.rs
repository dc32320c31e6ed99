//! Cutting a conflict into the smaller ones it is made of.
use crate::conflict::model::block_count;
use crate::conflict::model::blocks_of;
use crate::conflict::model::lemma_block_count;
use crate::conflict::model::lemma_blocks_grow;
use crate::conflict::model::segment_views;
use crate::conflict::model::subchunk_views;
use crate::conflict::model::BlockView;
use crate::conflict::model::ConflictBlock;
use crate::conflict::model::ConflictChoice;
use crate::conflict::model::ConflictSegment;
use crate::conflict::model::PickSlot;
use crate::conflict::model::SegmentView;
use crate::conflict::model::Subchunk;
use crate::conflict::model::SubchunkView;
use crate::conflict::regions::block_decisions;
use crate::conflict::regions::optional_subchunks;
use crate::conflict::regions::region_views;
use crate::conflict::regions::unresolved_decision_regions_for_block;
use crate::conflict::regions::RegionView;
use crate::conflict::regions::SideBySidePlan;
use crate::conflict::regions::UnresolvedDecisionRegion;
use crate::diff::split_meta::as_ints;
use crate::lines::build_line_starts;
use crate::lines::law_line_starts;
use crate::lines::source_line_count;
use crate::lines::starts_of;
use crate::lines::terminated_lines;
use crate::lines::NEWLINE;
use crate::utf::chars_within;
use crate::utf::lemma_boundary_after_ascii;
use crate::utf::lemma_boundary_in_rest;
use crate::utf::lemma_text_is_valid;
use crate::utf::text_between;
use std::ops::Range;
use vstd::prelude::*;
use vstd::string::*;
use vstd::utf8::encode_utf8;
use vstd::utf8::is_char_boundary;
use vstd::utf8::valid_utf8;

verus! {

/// The byte that a line starts at; the end of the text where there is no such
/// line.
pub open spec fn line_byte(bytes: Seq<u8>, line: int) -> int {
    if 0 <= line < starts_of(bytes).len() {
        starts_of(bytes)[line]
    } else {
        bytes.len() as int
    }
}

/// The lines of a text from one up to another, with their newlines.
pub open spec fn line_slice(text: Seq<char>, start: int, end: int) -> Seq<char> {
    let bytes = encode_utf8(text);
    if start >= end || line_byte(bytes, start) >= line_byte(bytes, end) {
        Seq::empty()
    } else {
        chars_within(bytes, line_byte(bytes, start), line_byte(bytes, end))
    }
}

proof fn lemma_line_byte(bytes: Seq<u8>, line: int)
    requires
        line >= 0,
    ensures
        0 <= line_byte(bytes, line) <= bytes.len(),
        valid_utf8(bytes) ==> is_char_boundary(bytes, line_byte(bytes, line)),
{
    law_line_starts(bytes);
    if valid_utf8(bytes) {
        vstd::utf8::is_char_boundary_start_end_of_seq(bytes);
        if 0 < line < starts_of(bytes).len() {
            assert(bytes[starts_of(bytes)[line] - 1] == NEWLINE);
            lemma_boundary_after_ascii(bytes, starts_of(bytes)[line] - 1);
        }
    }
}

proof fn lemma_line_bytes_grow(bytes: Seq<u8>, a: int, b: int)
    requires
        0 <= a <= b,
    ensures
        line_byte(bytes, a) <= line_byte(bytes, b),
{
    law_line_starts(bytes);
    if a < b && b < starts_of(bytes).len() {
        assert(starts_of(bytes)[a] < starts_of(bytes)[b]);
    }
    lemma_line_byte(bytes, a);
}

/// Lines up to one, and from there on, are the lines of both.
pub proof fn law_line_slices_join(text: Seq<char>, a: int, b: int, c: int)
    requires
        0 <= a <= b <= c,
    ensures
        line_slice(text, a, c) == line_slice(text, a, b) + line_slice(text, b, c),
{
    let bytes = encode_utf8(text);
    vstd::utf8::encode_utf8_valid_utf8(text);
    lemma_line_byte(bytes, a);
    lemma_line_byte(bytes, b);
    lemma_line_byte(bytes, c);
    lemma_line_bytes_grow(bytes, a, b);
    lemma_line_bytes_grow(bytes, b, c);
    let (from, middle, to) = (line_byte(bytes, a), line_byte(bytes, b), line_byte(bytes, c));
    assert(line_slice(text, a, b) + Seq::<char>::empty() =~= line_slice(text, a, b));
    assert(Seq::<char>::empty() + line_slice(text, b, c) =~= line_slice(text, b, c));
    if from < middle && middle < to {
        lemma_chars_split(bytes, from, middle, to);
    }
}

pub proof fn lemma_chars_split(bytes: Seq<u8>, from: int, middle: int, to: int)
    requires
        valid_utf8(bytes),
        0 <= from <= middle <= to <= bytes.len(),
        is_char_boundary(bytes, from),
        is_char_boundary(bytes, middle),
        is_char_boundary(bytes, to),
    ensures
        chars_within(bytes, from, to) == chars_within(bytes, from, middle) + chars_within(
            bytes,
            middle,
            to,
        ),
{
    let upto = bytes.subrange(0, to);
    vstd::utf8::valid_utf8_split(bytes, to);
    lemma_boundary_before(bytes, to, from);
    lemma_boundary_before(bytes, to, middle);
    lemma_boundary_in_rest(upto, from, middle);
    let part = upto.subrange(from, to);
    assert(part =~= bytes.subrange(from, to));
    vstd::utf8::decode_utf8_split(part, middle - from);
    assert(part.subrange(0, middle - from) =~= bytes.subrange(from, middle));
    assert(part.subrange(middle - from, part.len() as int) =~= bytes.subrange(middle, to));
}

proof fn lemma_boundary_before(bytes: Seq<u8>, cut: int, at: int)
    requires
        valid_utf8(bytes),
        0 <= at <= cut <= bytes.len(),
        is_char_boundary(bytes, cut),
        is_char_boundary(bytes, at),
    ensures
        valid_utf8(bytes.subrange(0, cut)),
        is_char_boundary(bytes.subrange(0, cut), at),
{
    vstd::utf8::valid_utf8_split(bytes, cut);
    let upto = bytes.subrange(0, cut);
    if at == cut {
        vstd::utf8::is_char_boundary_start_end_of_seq(upto);
        assert(upto.len() == cut);
    } else {
        vstd::utf8::is_char_boundary_iff_not_is_continuation_byte(bytes, at);
        vstd::utf8::is_char_boundary_iff_not_is_continuation_byte(upto, at);
        assert(upto[at] == bytes[at]);
    }
}

/// All the lines of a text are the text.
pub proof fn law_all_lines_are_the_text(text: Seq<char>)
    ensures
        line_slice(text, 0, terminated_lines(encode_utf8(text)) as int) == text,
{
    let bytes = encode_utf8(text);
    let count = terminated_lines(bytes) as int;
    law_line_starts(bytes);
    vstd::utf8::encode_utf8_decode_utf8(text);
    assert(bytes.subrange(0, bytes.len() as int) =~= bytes);
    if bytes.len() == 0 {
        assert(text.len() == 0) by {
            reveal_with_fuel(vstd::utf8::decode_utf8, 1);
        }
        assert(text =~= Seq::empty());
    } else if bytes.last() == NEWLINE {
        // The last line starts at the end of the text.
        assert(starts_of(bytes).contains(bytes.len() as int));
        let i = choose|i: int|
            0 <= i < starts_of(bytes).len() && starts_of(bytes)[i] == bytes.len();
        if i < count {
            assert(starts_of(bytes)[i] < starts_of(bytes)[count]);
        }
        if count == 0 {
            assert(starts_of(bytes)[0] == 0);
        }
    } else {
        assert(line_byte(bytes, count) == bytes.len());
    }
}

/// The lines of a text from one up to another.
pub fn slice_text_by_line_range(text: &str, line_range: Range<usize>) -> (slice: String)
    ensures
        slice@ == line_slice(text@, line_range.start as int, line_range.end as int),
{
    let bytes = text.as_bytes();
    let ghost from = line_byte(bytes@, line_range.start as int);
    let ghost to = line_byte(bytes@, line_range.end as int);
    proof {
        lemma_text_is_valid(text);
        lemma_line_byte(bytes@, line_range.start as int);
        lemma_line_byte(bytes@, line_range.end as int);
    }
    if line_range.start >= line_range.end || bytes.len() == 0 {
        return String::new();
    }
    let line_starts = build_line_starts(text);
    proof {
        assert(as_ints(line_starts@).len() == line_starts@.len());
        assert forall|k: int| 0 <= k < line_starts@.len() implies #[trigger] line_starts@[k]
            == starts_of(bytes@)[k] by {
            assert(as_ints(line_starts@)[k] == line_starts@[k]);
        }
    }
    let start_byte = if line_range.start < line_starts.len() {
        line_starts[line_range.start]
    } else {
        bytes.len()
    };
    let end_byte = if line_range.end < line_starts.len() {
        line_starts[line_range.end]
    } else {
        bytes.len()
    };
    if start_byte >= end_byte {
        return String::new();
    }
    text_between(text, start_byte, end_byte).to_owned()
}

/// Segments with text at their end: no segment of its own behind other text,
/// and none at all where there is nothing to add.
pub open spec fn with_text(segments: Seq<SegmentView>, text: Seq<char>) -> Seq<SegmentView> {
    if text.len() == 0 {
        segments
    } else if segments.len() > 0 && segments.last() is Text {
        segments.drop_last().push(SegmentView::Text(segments.last()->Text_0 + text))
    } else {
        segments.push(SegmentView::Text(text))
    }
}

pub fn push_conflict_text_segment(segments: &mut Vec<ConflictSegment>, text: String)
    ensures
        segment_views(final(segments)@) == with_text(segment_views(old(segments)@), text@),
{
    let ghost before = segment_views(segments@);
    proof {
        lemma_empty_text(text@);
    }
    if text.as_str().is_empty() {
        return;
    }
    let ends_with_text = if segments.len() > 0 {
        assert(before.last() == segments@[segments@.len() - 1]@);
        match &segments[segments.len() - 1] {
            ConflictSegment::Text(_) => true,
            ConflictSegment::Block(_) => false,
        }
    } else {
        false
    };
    if ends_with_text {
        if let Some(last) = segments.pop() {
            assert(segment_views(segments@) =~= before.drop_last());
            match last {
                ConflictSegment::Text(mut prev) => {
                    prev.append(text.as_str());
                    let ghost joined = SegmentView::Text(prev@);
                    segments.push(ConflictSegment::Text(prev));
                    assert(segment_views(segments@) =~= before.drop_last().push(joined));
                },
                ConflictSegment::Block(block) => {
                    segments.push(ConflictSegment::Block(block));
                },
            }
        }
    } else {
        let ghost added = SegmentView::Text(text@);
        segments.push(ConflictSegment::Text(text));
        assert(segment_views(segments@) =~= before.push(added));
    }
}

proof fn lemma_empty_text(text: Seq<char>)
    ensures
        (encode_utf8(text).len() == 0) == (text.len() == 0),
{
    vstd::utf8::encode_utf8_decode_utf8(text);
    if encode_utf8(text).len() == 0 {
        reveal_with_fuel(vstd::utf8::decode_utf8, 1);
    }
}

fn push_block(segments: &mut Vec<ConflictSegment>, block: ConflictBlock)
    ensures
        segment_views(final(segments)@) == segment_views(old(segments)@).push(
            SegmentView::Block(block@),
        ),
{
    let ghost before = segment_views(segments@);
    let ghost added = SegmentView::Block(block@);
    segments.push(ConflictSegment::Block(block));
    assert(segment_views(segments@) =~= before.push(added));
}

/// Segments, and the region of the file that each conflict among them is in.
pub struct Regioned {
    pub segments: Seq<SegmentView>,
    pub regions: Seq<usize>,
}

/// The region of a conflict; by default its own number.
pub open spec fn region_at(regions: Seq<usize>, conflict_ix: int) -> usize {
    if 0 <= conflict_ix < regions.len() {
        regions[conflict_ix]
    } else {
        conflict_ix as usize
    }
}

pub fn region_index(regions: &Vec<usize>, conflict_ix: usize) -> (region_ix: usize)
    ensures
        region_ix == region_at(regions@, conflict_ix as int),
{
    if conflict_ix < regions.len() {
        regions[conflict_ix]
    } else {
        conflict_ix
    }
}

pub open spec fn with_block(so_far: Regioned, block: BlockView, region_ix: usize) -> Regioned {
    Regioned {
        segments: so_far.segments.push(SegmentView::Block(block)),
        regions: so_far.regions.push(region_ix),
    }
}

/// What the first `n` pieces of a conflict put in its place.
pub open spec fn with_subchunks(
    so_far: Regioned,
    target: BlockView,
    subchunks: Seq<SubchunkView>,
    region_ix: usize,
    n: int,
) -> Regioned
    decreases n,
{
    if n <= 0 {
        so_far
    } else {
        let before = with_subchunks(so_far, target, subchunks, region_ix, n - 1);
        match subchunks[n - 1] {
            SubchunkView::Resolved(text) => Regioned {
                segments: with_text(before.segments, text),
                regions: before.regions,
            },
            SubchunkView::Conflict { base, ours, theirs } => with_block(
                before,
                (BlockView {
                    base: Some(base),
                    ours,
                    theirs,
                    choice: target.choice,
                    resolved: false,
                    whitespace_only: target.whitespace_only,
                }),
                region_ix,
            ),
        }
    }
}

/// The picked line that the first `n` decisions end at.
pub open spec fn decided_upto(decisions: Seq<RegionView>, n: int) -> int {
    if n <= 0 {
        0
    } else {
        decisions[n - 1].selected.1
    }
}

/// What the first `n` decisions within a conflict put in its place: the picked
/// text between them, and a conflict for each.
pub open spec fn with_decisions(
    so_far: Regioned,
    target: BlockView,
    decisions: Seq<RegionView>,
    choice_is_ours: bool,
    region_ix: usize,
    n: int,
) -> Regioned
    decreases n,
{
    if n <= 0 {
        so_far
    } else {
        let before = with_decisions(
            so_far,
            target,
            decisions,
            choice_is_ours,
            region_ix,
            n - 1,
        );
        let (selected, alternate) = if choice_is_ours {
            (target.ours, target.theirs)
        } else {
            (target.theirs, target.ours)
        };
        let decision = decisions[n - 1];
        let between = line_slice(selected, decided_upto(decisions, n - 1), decision.selected.0);
        let picked = line_slice(selected, decision.selected.0, decision.selected.1);
        let other = line_slice(alternate, decision.alternate.0, decision.alternate.1);
        with_block(
            (Regioned { segments: with_text(before.segments, between), regions: before.regions }),
            (BlockView {
                base: None,
                ours: if choice_is_ours {
                    picked
                } else {
                    other
                },
                theirs: if choice_is_ours {
                    other
                } else {
                    picked
                },
                choice: target.choice,
                resolved: false,
                whitespace_only: target.whitespace_only,
            }),
            region_ix,
        )
    }
}

/// How a conflict is cut.
pub enum SplitMode {
    Whole,
    Subchunks(Seq<SubchunkView>),
    Decisions { decisions: Seq<RegionView>, choice_is_ours: bool },
}

pub open spec fn conflict_subchunks(subchunks: Seq<SubchunkView>, n: int) -> int
    decreases n,
{
    if n <= 0 {
        0
    } else {
        conflict_subchunks(subchunks, n - 1) + (if subchunks[n - 1] is Conflict {
            1int
        } else {
            0int
        })
    }
}

/// The side whose decisions are looked at: the one that was picked, ours while
/// nothing was.
pub open spec fn analysed_choice(choice: ConflictChoice) -> ConflictChoice {
    if choice.picks_nothing() {
        ConflictChoice::spec_single(PickSlot::Ours)
    } else {
        choice
    }
}

/// Into its pieces where more than one of them is a conflict, else into its
/// decisions where there is more than one.
pub open spec fn split_mode(
    target: BlockView,
    subchunks: Option<Seq<SubchunkView>>,
    plan: &SideBySidePlan,
) -> SplitMode {
    let by_decisions = match block_decisions(analysed_choice(target.choice), plan) {
        Some(decisions) => if decisions.len() > 1 {
            SplitMode::Decisions {
                decisions,
                choice_is_ours: target.choice != ConflictChoice::spec_single(PickSlot::Theirs),
            }
        } else {
            SplitMode::Whole
        },
        None => SplitMode::Whole,
    };
    match subchunks {
        Some(subchunks) => if target.base is Some && conflict_subchunks(
            subchunks,
            subchunks.len() as int,
        ) > 1 {
            SplitMode::Subchunks(subchunks)
        } else {
            by_decisions
        },
        None => by_decisions,
    }
}

/// What stands in place of a conflict that was cut.
pub open spec fn with_split(
    so_far: Regioned,
    target: BlockView,
    mode: SplitMode,
    region_ix: usize,
) -> Regioned {
    match mode {
        SplitMode::Whole => with_block(so_far, target, region_ix),
        SplitMode::Subchunks(subchunks) => with_subchunks(
            so_far,
            target,
            subchunks,
            region_ix,
            subchunks.len() as int,
        ),
        SplitMode::Decisions { decisions, choice_is_ours } => {
            let selected = if choice_is_ours {
                target.ours
            } else {
                target.theirs
            };
            let before = with_decisions(
                so_far,
                target,
                decisions,
                choice_is_ours,
                region_ix,
                decisions.len() as int,
            );
            Regioned {
                segments: with_text(
                    before.segments,
                    line_slice(
                        selected,
                        decided_upto(decisions, decisions.len() as int),
                        terminated_lines(encode_utf8(selected)) as int,
                    ),
                ),
                regions: before.regions,
            }
        },
    }
}

/// The first `n` segments with the target cut.
pub open spec fn split_segments(
    segments: Seq<SegmentView>,
    regions: Seq<usize>,
    target_ix: int,
    mode: SplitMode,
    n: int,
) -> Regioned
    decreases n,
{
    if n <= 0 {
        Regioned { segments: Seq::empty(), regions: Seq::empty() }
    } else {
        let before = split_segments(segments, regions, target_ix, mode, n - 1);
        let seen = block_count(segments, n - 1);
        match segments[n - 1] {
            SegmentView::Text(text) => Regioned {
                segments: with_text(before.segments, text),
                regions: before.regions,
            },
            SegmentView::Block(block) => if seen == target_ix {
                with_split(before, block, mode, region_at(regions, seen))
            } else {
                with_block(before, block, region_at(regions, seen))
            },
        }
    }
}

fn push_subchunks(
    segments: &mut Vec<ConflictSegment>,
    regions: &mut Vec<usize>,
    target: &ConflictBlock,
    subchunks: &Vec<Subchunk>,
    region_ix: usize,
)
    ensures
        ({
            let built = with_subchunks(
                (Regioned { segments: segment_views(old(segments)@), regions: old(regions)@ }),
                target@,
                subchunk_views(subchunks@),
                region_ix,
                subchunks@.len() as int,
            );
            segment_views(final(segments)@) == built.segments && final(regions)@ == built.regions
        }),
{
    let ghost so_far = Regioned { segments: segment_views(segments@), regions: regions@ };
    let ghost views = subchunk_views(subchunks@);
    let mut i: usize = 0;
    while i < subchunks.len()
        invariant
            0 <= i <= subchunks@.len(),
            views == subchunk_views(subchunks@),
            (Regioned { segments: segment_views(segments@), regions: regions@ }) == with_subchunks(
                so_far,
                target@,
                views,
                region_ix,
                i as int,
            ),
        decreases subchunks@.len() - i,
    {
        assert(views[i as int] == subchunks@[i as int]@);
        match &subchunks[i] {
            Subchunk::Resolved(text) => {
                push_conflict_text_segment(segments, text.clone());
            },
            Subchunk::Conflict { base, ours, theirs } => {
                push_block(
                    segments,
                    ConflictBlock {
                        base: Some(base.clone()),
                        ours: ours.clone(),
                        theirs: theirs.clone(),
                        choice: target.choice,
                        resolved: false,
                        whitespace_only: target.whitespace_only,
                    },
                );
                regions.push(region_ix);
            },
        }
        i += 1;
    }
}

fn push_decisions(
    segments: &mut Vec<ConflictSegment>,
    regions: &mut Vec<usize>,
    target: &ConflictBlock,
    decisions: &Vec<UnresolvedDecisionRegion>,
    choice_is_ours: bool,
    region_ix: usize,
)
    ensures
        ({
            let built = with_split(
                (Regioned { segments: segment_views(old(segments)@), regions: old(regions)@ }),
                target@,
                SplitMode::Decisions { decisions: region_views(decisions@), choice_is_ours },
                region_ix,
            );
            segment_views(final(segments)@) == built.segments && final(regions)@ == built.regions
        }),
{
    let ghost so_far = Regioned { segments: segment_views(segments@), regions: regions@ };
    let ghost views = region_views(decisions@);
    let (selected_text, alternate_text) = if choice_is_ours {
        (&target.ours, &target.theirs)
    } else {
        (&target.theirs, &target.ours)
    };
    let selected_total_lines = source_line_count(selected_text.as_str());
    let mut selected_cursor: usize = 0;
    let mut i: usize = 0;
    while i < decisions.len()
        invariant
            0 <= i <= decisions@.len(),
            views == region_views(decisions@),
            selected_text@ == (if choice_is_ours {
                target.ours@
            } else {
                target.theirs@
            }),
            alternate_text@ == (if choice_is_ours {
                target.theirs@
            } else {
                target.ours@
            }),
            selected_cursor == decided_upto(views, i as int),
            (Regioned { segments: segment_views(segments@), regions: regions@ }) == with_decisions(
                so_far,
                target@,
                views,
                choice_is_ours,
                region_ix,
                i as int,
            ),
        decreases decisions@.len() - i,
    {
        assert(views[i as int] == decisions@[i as int]@);
        let decision = &decisions[i];
        let between = slice_text_by_line_range(
            selected_text.as_str(),
            selected_cursor..decision.selected_line_range.start,
        );
        push_conflict_text_segment(segments, between);
        let picked = slice_text_by_line_range(
            selected_text.as_str(),
            decision.selected_line_range.start..decision.selected_line_range.end,
        );
        let other = slice_text_by_line_range(
            alternate_text.as_str(),
            decision.alternate_line_range.start..decision.alternate_line_range.end,
        );
        let (ours, theirs) = if choice_is_ours {
            (picked, other)
        } else {
            (other, picked)
        };
        push_block(
            segments,
            ConflictBlock {
                base: None,
                ours,
                theirs,
                choice: target.choice,
                resolved: false,
                whitespace_only: target.whitespace_only,
            },
        );
        regions.push(region_ix);
        selected_cursor = decision.selected_line_range.end;
        i += 1;
    }
    let rest = slice_text_by_line_range(
        selected_text.as_str(),
        selected_cursor..selected_total_lines,
    );
    push_conflict_text_segment(segments, rest);
}

fn count_conflict_subchunks(subchunks: &Vec<Subchunk>) -> (count: usize)
    ensures
        count == conflict_subchunks(subchunk_views(subchunks@), subchunks@.len() as int),
{
    let ghost views = subchunk_views(subchunks@);
    let mut count: usize = 0;
    let mut i: usize = 0;
    while i < subchunks.len()
        invariant
            0 <= i <= subchunks@.len(),
            views == subchunk_views(subchunks@),
            count <= i,
            count == conflict_subchunks(views, i as int),
        decreases subchunks@.len() - i,
    {
        assert(views[i as int] == subchunks@[i as int]@);
        if let Subchunk::Conflict { .. } = &subchunks[i] {
            count += 1;
        }
        i += 1;
    }
    count
}

/// Finds the conflict of that number.
pub fn nth_block(marker_segments: &Vec<ConflictSegment>, conflict_ix: usize) -> (block: Option<
    ConflictBlock,
>)
    ensures
        ({
            let blocks = blocks_of(
                segment_views(marker_segments@),
                marker_segments@.len() as int,
            );
            match block {
                Some(block) => conflict_ix < blocks.len() && block@ == blocks[conflict_ix as int],
                None => conflict_ix >= blocks.len(),
            }
        }),
{
    let ghost views = segment_views(marker_segments@);
    let mut seen: usize = 0;
    let mut i: usize = 0;
    while i < marker_segments.len()
        invariant
            0 <= i <= marker_segments@.len(),
            views == segment_views(marker_segments@),
            seen == block_count(views, i as int),
            seen <= i,
            seen <= conflict_ix,
        decreases marker_segments@.len() - i,
    {
        assert(views[i as int] == marker_segments@[i as int]@);
        if let ConflictSegment::Block(block) = &marker_segments[i] {
            proof {
                lemma_block_count(views, i as int);
                lemma_block_count(views, views.len() as int);
                lemma_blocks_grow(views, i + 1, views.len() as int);
                assert(blocks_of(views, i + 1)[seen as int] == block@);
            }
            if seen == conflict_ix {
                return Some(block.copied());
            }
            seen += 1;
        }
        i += 1;
    }
    proof {
        lemma_block_count(views, views.len() as int);
    }
    None
}

/// What a cut of the target conflict leads to, where there is one to be made.
pub open spec fn split_target(
    segments: Seq<SegmentView>,
    regions: Seq<usize>,
    target_ix: int,
    subchunks: Option<Seq<SubchunkView>>,
    plan: &SideBySidePlan,
) -> Option<Regioned> {
    let blocks = blocks_of(segments, segments.len() as int);
    if target_ix >= blocks.len() || blocks[target_ix].resolved {
        None
    } else {
        let mode = split_mode(blocks[target_ix], subchunks, plan);
        if mode is Whole {
            None
        } else {
            Some(split_segments(segments, regions, target_ix, mode, segments.len() as int))
        }
    }
}

/// Cuts an unresolved conflict into smaller ones, if it can be, and says
/// whether it was. The pieces and the plan are those of that conflict.
pub fn split_target_conflict_block_into_subchunks(
    marker_segments: &mut Vec<ConflictSegment>,
    conflict_region_indices: &mut Vec<usize>,
    target_conflict_ix: usize,
    subchunks: &Option<Vec<Subchunk>>,
    plan: &SideBySidePlan,
) -> (changed: bool)
    requires
        plan.is_complete(),
    ensures
        match split_target(
            segment_views(old(marker_segments)@),
            old(conflict_region_indices)@,
            target_conflict_ix as int,
            optional_subchunks(*subchunks),
            plan,
        ) {
            Some(built) => changed && segment_views(final(marker_segments)@) == built.segments
                && final(conflict_region_indices)@ == built.regions,
            None => !changed && *final(marker_segments) == *old(marker_segments)
                && *final(conflict_region_indices) == *old(conflict_region_indices),
        },
{
    let target = match nth_block(marker_segments, target_conflict_ix) {
        Some(target) => target,
        None => {
            return false;
        },
    };
    if target.resolved {
        return false;
    }
    let ghost views = segment_views(marker_segments@);
    let ghost old_regions = conflict_region_indices@;
    let ghost mode = split_mode(target@, optional_subchunks(*subchunks), plan);
    let by_subchunks = match subchunks {
        Some(subchunks) => target.base.is_some() && count_conflict_subchunks(subchunks) > 1,
        None => false,
    };
    let choice_is_ours = target.choice == ConflictChoice::ours() || target.choice.is_empty();
    let decisions: Option<Vec<UnresolvedDecisionRegion>> = if by_subchunks {
        None
    } else if choice_is_ours || target.choice == ConflictChoice::theirs() {
        let mut analysis_block = target.copied();
        if target.choice.is_empty() {
            analysis_block.choice = ConflictChoice::ours();
        }
        unresolved_decision_regions_for_block(&analysis_block, plan)
    } else {
        None
    };
    let by_decisions = match &decisions {
        Some(decisions) => {
            assert(region_views(decisions@).len() == decisions@.len());
            decisions.len() > 1
        },
        None => false,
    };
    if !by_subchunks && !by_decisions {
        return false;
    }
    let mut next_segments: Vec<ConflictSegment> = Vec::with_capacity(marker_segments.len());
    let mut next_region_indices: Vec<usize> = Vec::with_capacity(conflict_region_indices.len());
    let mut seen: usize = 0;
    let mut i: usize = 0;
    assert(segment_views(next_segments@) =~= Seq::<SegmentView>::empty());
    assert(next_region_indices@ =~= Seq::<usize>::empty());
    while i < marker_segments.len()
        invariant
            0 <= i <= marker_segments@.len(),
            views == segment_views(marker_segments@),
            old_regions == conflict_region_indices@,
            seen <= i,
            seen == block_count(views, i as int),
            by_subchunks ==> (subchunks matches Some(pieces) && mode == SplitMode::Subchunks(
                subchunk_views(pieces@),
            )),
            !by_subchunks ==> (decisions matches Some(parts) && mode == (SplitMode::Decisions {
                decisions: region_views(parts@),
                choice_is_ours,
            })),
            (Regioned { segments: segment_views(next_segments@), regions: next_region_indices@ })
                == split_segments(views, old_regions, target_conflict_ix as int, mode, i as int),
        decreases marker_segments@.len() - i,
    {
        assert(views[i as int] == marker_segments@[i as int]@);
        match &marker_segments[i] {
            ConflictSegment::Text(text) => {
                push_conflict_text_segment(&mut next_segments, text.clone());
            },
            ConflictSegment::Block(block) => {
                let region_ix = region_index(conflict_region_indices, seen);
                if seen == target_conflict_ix {
                    if by_subchunks {
                        if let Some(pieces) = subchunks {
                            push_subchunks(
                                &mut next_segments,
                                &mut next_region_indices,
                                block,
                                pieces,
                                region_ix,
                            );
                        }
                    } else {
                        if let Some(parts) = &decisions {
                            push_decisions(
                                &mut next_segments,
                                &mut next_region_indices,
                                block,
                                parts,
                                choice_is_ours,
                                region_ix,
                            );
                        }
                    }
                } else {
                    push_block(&mut next_segments, block.copied());
                    next_region_indices.push(region_ix);
                }
                seen += 1;
            },
        }
        i += 1;
    }
    *marker_segments = next_segments;
    *conflict_region_indices = next_region_indices;
    true
}

/// The picked text that the first `n` decisions and what stands between them
/// hold.
pub open spec fn decided_text(selected: Seq<char>, decisions: Seq<RegionView>, n: int) -> Seq<char>
    decreases n,
{
    if n <= 0 {
        Seq::empty()
    } else {
        decided_text(selected, decisions, n - 1) + line_slice(
            selected,
            decided_upto(decisions, n - 1),
            decisions[n - 1].selected.0,
        ) + line_slice(selected, decisions[n - 1].selected.0, decisions[n - 1].selected.1)
    }
}

/// Decisions follow each other within a text.
pub open spec fn in_order(decisions: Seq<RegionView>, lines: int) -> bool {
    &&& forall|i: int|
        0 <= i < decisions.len() ==> 0 <= (#[trigger] decisions[i]).selected.0
            <= decisions[i].selected.1 <= lines
    &&& forall|i: int, j: int|
        0 <= i < j < decisions.len() ==> (#[trigger] decisions[i]).selected.1 <= (
        #[trigger] decisions[j]).selected.0
}

proof fn lemma_decided_text(selected: Seq<char>, decisions: Seq<RegionView>, lines: int, n: int)
    requires
        in_order(decisions, lines),
        0 <= n <= decisions.len(),
    ensures
        decided_text(selected, decisions, n) == line_slice(
            selected,
            0,
            decided_upto(decisions, n),
        ),
        0 <= decided_upto(decisions, n),
    decreases n,
{
    if n > 0 {
        lemma_decided_text(selected, decisions, lines, n - 1);
        let from = decided_upto(decisions, n - 1);
        let (start, end) = decisions[n - 1].selected;
        if n > 1 {
            assert(decisions[n - 2].selected.1 <= decisions[n - 1].selected.0);
        }
        law_line_slices_join(selected, 0, from, start);
        law_line_slices_join(selected, 0, start, end);
    }
}

/// Cutting a conflict at its decisions loses nothing of the picked side: what
/// the smaller conflicts hold of it and the text between and after them make it
/// up.
pub proof fn law_split_keeps_the_picked_side(selected: Seq<char>, decisions: Seq<RegionView>)
    requires
        in_order(decisions, terminated_lines(encode_utf8(selected)) as int),
    ensures
        decided_text(selected, decisions, decisions.len() as int) + line_slice(
            selected,
            decided_upto(decisions, decisions.len() as int),
            terminated_lines(encode_utf8(selected)) as int,
        ) == selected,
{
    let lines = terminated_lines(encode_utf8(selected)) as int;
    lemma_decided_text(selected, decisions, lines, decisions.len() as int);
    law_line_slices_join(selected, 0, decided_upto(decisions, decisions.len() as int), lines);
    law_all_lines_are_the_text(selected);
}

} // verus!
