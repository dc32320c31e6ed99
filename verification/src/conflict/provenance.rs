//! Which version each line of a merge result comes from.
use crate::conflict::blocks::drawn_bytes;
use crate::conflict::blocks::lemma_strict_lines;
use crate::conflict::blocks::output_line_range_for_conflict_block_in_text;
use crate::conflict::blocks::resolved_output_conflict_block_ranges_in_text;
use crate::conflict::blocks::strict_lines;
use crate::conflict::model::block_count;
use crate::conflict::model::lemma_block_count;
use crate::conflict::model::lemma_blocks_grow;
use crate::conflict::model::segment_views;
use crate::conflict::model::slot_sources;
use crate::conflict::model::BlockView;
use crate::conflict::model::ConflictBlock;
use crate::conflict::model::ConflictChoice;
use crate::conflict::model::ConflictOutputSource;
use crate::conflict::model::ConflictSegment;
use crate::conflict::model::PickSlot;
use crate::conflict::model::SegmentView;
use crate::conflict::regions::as_pairs;
use crate::lines::same_str;
use crate::lines::source_line_count;
use crate::lines::terminated_lines;
use crate::lines::ConflictResolverViewMode;
use crate::num::less;
use crate::num::less_usize;
use crate::num::min;
use crate::num::min_usize;
use crate::num::plus;
use crate::num::plus_usize;
use std::ops::Range;
use vstd::prelude::*;
use vstd::string::*;
use vstd::utf8::encode_utf8;

verus! {

/// The columns a line can come from, or none of them.
#[derive(Clone, Copy, Debug, PartialEq, Eq, Structural)]
pub enum ResolvedLineSource {
    A,
    B,
    C,
    Manual,
}

/// Where a line of the result comes from.
#[derive(Clone, Copy, Debug, PartialEq, Eq)]
pub struct ResolvedLineMeta {
    pub source: ResolvedLineSource,
    pub input_line: Option<u32>,
}

/// A line number further on, or the largest there is.
pub open spec fn line_on(line: int, by: int) -> int {
    min(line + by, u32::MAX as int)
}

/// How many lines a text has; none where that is too large a number.
pub open spec fn counted_lines(text: Seq<char>) -> int {
    let count = terminated_lines(encode_utf8(text)) as int;
    if count <= u32::MAX {
        count
    } else {
        0
    }
}

fn count_lines(text: &str) -> (count: u32)
    ensures
        count == counted_lines(text@),
{
    let count = source_line_count(text);
    if count <= u32::MAX as usize {
        count as u32
    } else {
        0
    }
}

fn add_lines(line: u32, by: u32) -> (sum: u32)
    ensures
        sum == line_on(line as int, by as int),
{
    if line <= u32::MAX - by {
        line + by
    } else {
        u32::MAX
    }
}

/// What is noted of a line that stands so far into a stretch from one version.
pub open spec fn noted(
    source: ResolvedLineSource,
    start_line: int,
    line_count: int,
    off: int,
) -> ResolvedLineMeta {
    let off = min(off, u32::MAX as int);
    ResolvedLineMeta {
        source,
        input_line: if off < line_count {
            Some(line_on(start_line, off) as u32)
        } else {
            None
        },
    }
}

/// Lines after a stretch of them was noted as from one version.
pub open spec fn assigned(
    meta: Seq<ResolvedLineMeta>,
    range: (int, int),
    source: ResolvedLineSource,
    start_line: int,
    line_count: int,
) -> Seq<ResolvedLineMeta> {
    Seq::new(
        meta.len(),
        |i: int|
            if range.0 <= i < range.1 {
                noted(source, start_line, line_count, i - range.0)
            } else {
                meta[i]
            },
    )
}

fn assign_range(
    meta: &mut Vec<ResolvedLineMeta>,
    range: Range<usize>,
    source: ResolvedLineSource,
    start_line: u32,
    line_count: u32,
)
    ensures
        final(meta)@ == assigned(
            old(meta)@,
            (range.start as int, range.end as int),
            source,
            start_line as int,
            line_count as int,
        ),
{
    let ghost before = meta@;
    let end = min_usize(range.end, meta.len());
    let mut i = range.start;
    while i < end
        invariant
            range.start <= i,
            i <= end || i == range.start,
            end == min(range.end as int, before.len() as int),
            meta@.len() == before.len(),
            forall|k: int|
                0 <= k < before.len() ==> #[trigger] meta@[k] == (if range.start <= k < i {
                    noted(source, start_line as int, line_count as int, k - range.start)
                } else {
                    before[k]
                }),
        decreases end - i,
    {
        let off = i - range.start;
        let off_u32 = if off <= u32::MAX as usize {
            off as u32
        } else {
            u32::MAX
        };
        let input_line = if off_u32 < line_count {
            Some(add_lines(start_line, off_u32))
        } else {
            None
        };
        meta.set(i, ResolvedLineMeta { source, input_line });
        i += 1;
    }
    assert(meta@ =~= assigned(
        before,
        (range.start as int, range.end as int),
        source,
        start_line as int,
        line_count as int,
    ));
}

/// A version and the lines of it that are used: from which one on, and how
/// many.
pub struct Taken {
    pub source: ResolvedLineSource,
    pub start: int,
    pub count: int,
}

/// Lines after a stretch was noted as from one version and then another.
pub open spec fn assigned_both(
    meta: Seq<ResolvedLineMeta>,
    range: (int, int),
    first: Taken,
    second: Taken,
) -> Seq<ResolvedLineMeta> {
    let middle = plus(range.0, min(less(range.1, range.0), first.count));
    assigned(
        assigned(meta, (range.0, middle), first.source, first.start, first.count),
        (middle, range.1),
        second.source,
        second.start,
        second.count,
    )
}

fn assign_both_range(
    meta: &mut Vec<ResolvedLineMeta>,
    range: Range<usize>,
    first_source: ResolvedLineSource,
    first_start: u32,
    first_count: u32,
    second_source: ResolvedLineSource,
    second_start: u32,
    second_count: u32,
)
    ensures
        final(meta)@ == assigned_both(
            old(meta)@,
            (range.start as int, range.end as int),
            (Taken { source: first_source, start: first_start as int, count: first_count as int }),
            (Taken {
                source: second_source,
                start: second_start as int,
                count: second_count as int,
            }),
        ),
{
    let len = less_usize(range.end, range.start);
    let first_take = min_usize(len, first_count as usize);
    let middle = plus_usize(range.start, first_take);
    assign_range(meta, range.start..middle, first_source, first_start, first_count);
    assign_range(meta, middle..range.end, second_source, second_start, second_count);
}

/// The line numbers reached in each column.
pub struct Columns {
    pub a: int,
    pub b: int,
    pub c: int,
}

/// How many lines of each column a conflict has.
pub open spec fn block_columns(block: BlockView, view_mode: ConflictResolverViewMode) -> Columns {
    match view_mode {
        ConflictResolverViewMode::ThreeWay => Columns {
            a: counted_lines(
                match block.base {
                    Some(base) => base,
                    None => Seq::empty(),
                },
            ),
            b: counted_lines(block.ours),
            c: counted_lines(block.theirs),
        },
        ConflictResolverViewMode::TwoWayDiff => Columns {
            a: counted_lines(block.ours),
            b: counted_lines(block.theirs),
            c: 0,
        },
    }
}

/// The lines of a conflict after what was picked for it was noted. A pick of
/// several versions in an order of its own is left as it is.
pub open spec fn with_pick(
    meta: Seq<ResolvedLineMeta>,
    range: (int, int),
    block: BlockView,
    view_mode: ConflictResolverViewMode,
    lines: Columns,
) -> Seq<ResolvedLineMeta> {
    let counts = block_columns(block, view_mode);
    let a = Taken { source: ResolvedLineSource::A, start: lines.a, count: counts.a };
    let b = Taken { source: ResolvedLineSource::B, start: lines.b, count: counts.b };
    let c = Taken { source: ResolvedLineSource::C, start: lines.c, count: counts.c };
    let base = block.choice == ConflictChoice::spec_single(PickSlot::Base);
    let ours = block.choice == ConflictChoice::spec_single(PickSlot::Ours);
    let theirs = block.choice == ConflictChoice::spec_single(PickSlot::Theirs);
    let both = block.choice == ConflictChoice::spec_both();
    if !block.resolved && block.choice.picks_nothing() {
        assigned(meta, range, ResolvedLineSource::Manual, 0, 0)
    } else {
        match view_mode {
            ConflictResolverViewMode::ThreeWay => if base {
                assigned(meta, range, a.source, a.start, a.count)
            } else if ours {
                assigned(meta, range, b.source, b.start, b.count)
            } else if theirs {
                assigned(meta, range, c.source, c.start, c.count)
            } else if both {
                assigned_both(meta, range, b, c)
            } else {
                meta
            },
            ConflictResolverViewMode::TwoWayDiff => if theirs {
                assigned(meta, range, b.source, b.start, b.count)
            } else if both {
                assigned_both(meta, range, a, b)
            } else if base || ours {
                assigned(meta, range, a.source, a.start, a.count)
            } else {
                meta
            },
        }
    }
}

/// The line numbers reached behind the first `n` segments, counted from 1.
pub open spec fn columns_after(
    segments: Seq<SegmentView>,
    view_mode: ConflictResolverViewMode,
    n: int,
) -> Columns
    decreases n,
{
    if n <= 0 {
        Columns { a: 1, b: 1, c: 1 }
    } else {
        let before = columns_after(segments, view_mode, n - 1);
        match segments[n - 1] {
            SegmentView::Text(text) => {
                let count = counted_lines(text);
                Columns {
                    a: line_on(before.a, count),
                    b: line_on(before.b, count),
                    c: if view_mode == ConflictResolverViewMode::ThreeWay {
                        line_on(before.c, count)
                    } else {
                        before.c
                    },
                }
            },
            SegmentView::Block(block) => {
                let counts = block_columns(block, view_mode);
                Columns {
                    a: line_on(before.a, counts.a),
                    b: line_on(before.b, counts.b),
                    c: line_on(before.c, counts.c),
                }
            },
        }
    }
}

/// The lines after the picks of the conflicts among the first `n` segments were
/// noted, each on the lines it has.
pub open spec fn with_picks(
    meta: Seq<ResolvedLineMeta>,
    segments: Seq<SegmentView>,
    ranges: Seq<(int, int)>,
    view_mode: ConflictResolverViewMode,
    n: int,
) -> Seq<ResolvedLineMeta>
    decreases n,
{
    if n <= 0 {
        meta
    } else {
        let before = with_picks(meta, segments, ranges, view_mode, n - 1);
        let block_ix = block_count(segments, n - 1);
        match segments[n - 1] {
            SegmentView::Text(_) => before,
            SegmentView::Block(block) => if block_ix < ranges.len() {
                with_pick(
                    before,
                    ranges[block_ix],
                    block,
                    view_mode,
                    columns_after(segments, view_mode, n - 1),
                )
            } else {
                before
            },
        }
    }
}

proof fn lemma_picks_len(
    meta: Seq<ResolvedLineMeta>,
    segments: Seq<SegmentView>,
    ranges: Seq<(int, int)>,
    view_mode: ConflictResolverViewMode,
    n: int,
)
    ensures
        with_picks(meta, segments, ranges, view_mode, n).len() == meta.len(),
    decreases n,
{
    if n > 0 {
        lemma_picks_len(meta, segments, ranges, view_mode, n - 1);
    }
}

/// A line outside every conflict keeps what was noted of it.
pub proof fn law_picks_touch_only_conflicts(
    meta: Seq<ResolvedLineMeta>,
    segments: Seq<SegmentView>,
    ranges: Seq<(int, int)>,
    view_mode: ConflictResolverViewMode,
    n: int,
    line: int,
)
    requires
        0 <= n <= segments.len(),
        0 <= line < meta.len(),
        forall|i: int|
            0 <= i < ranges.len() ==> 0 <= (#[trigger] ranges[i]).0 <= usize::MAX && ranges[i].1
                <= usize::MAX && !(ranges[i].0 <= line < ranges[i].1),
    ensures
        with_picks(meta, segments, ranges, view_mode, n).len() == meta.len(),
        with_picks(meta, segments, ranges, view_mode, n)[line] == meta[line],
    decreases n,
{
    if n > 0 {
        law_picks_touch_only_conflicts(meta, segments, ranges, view_mode, n - 1, line);
        let block_ix = block_count(segments, n - 1);
        lemma_block_count(segments, n - 1);
        if segments[n - 1] is Block && block_ix < ranges.len() {
            assert(!(ranges[block_ix].0 <= line < ranges[block_ix].1));
        }
    }
}

proof fn lemma_no_text_has_no_lines()
    ensures
        counted_lines(Seq::empty()) == 0,
{
    assert(encode_utf8(Seq::empty()).len() == 0);
}

fn count_block(block: &ConflictBlock, view_mode: ConflictResolverViewMode) -> (counts: (
    u32,
    u32,
    u32,
))
    ensures
        ({
            let columns = block_columns(block@, view_mode);
            counts.0 == columns.a && counts.1 == columns.b && counts.2 == columns.c
        }),
{
    match view_mode {
        ConflictResolverViewMode::ThreeWay => {
            let a = match &block.base {
                Some(base) => count_lines(base.as_str()),
                None => {
                    proof {
                        lemma_no_text_has_no_lines();
                    }
                    0
                },
            };
            (a, count_lines(block.ours.as_str()), count_lines(block.theirs.as_str()))
        },
        ConflictResolverViewMode::TwoWayDiff => (
            count_lines(block.ours.as_str()),
            count_lines(block.theirs.as_str()),
            0,
        ),
    }
}

fn note_pick(
    meta: &mut Vec<ResolvedLineMeta>,
    range: Range<usize>,
    block: &ConflictBlock,
    view_mode: ConflictResolverViewMode,
    a_line: u32,
    b_line: u32,
    c_line: u32,
    counts: (u32, u32, u32),
)
    requires
        ({
            let columns = block_columns(block@, view_mode);
            counts.0 == columns.a && counts.1 == columns.b && counts.2 == columns.c
        }),
    ensures
        final(meta)@ == with_pick(
            old(meta)@,
            (range.start as int, range.end as int),
            block@,
            view_mode,
            (Columns { a: a_line as int, b: b_line as int, c: c_line as int }),
        ),
{
    let (a_count, b_count, c_count) = counts;
    if !block.resolved && block.choice.is_empty() {
        assign_range(meta, range, ResolvedLineSource::Manual, 0, 0);
        return;
    }
    let base = block.choice == ConflictChoice::base();
    let ours = block.choice == ConflictChoice::ours();
    let theirs = block.choice == ConflictChoice::theirs();
    let both = block.choice == ConflictChoice::both();
    match view_mode {
        ConflictResolverViewMode::ThreeWay => {
            if base {
                assign_range(meta, range, ResolvedLineSource::A, a_line, a_count);
            } else if ours {
                assign_range(meta, range, ResolvedLineSource::B, b_line, b_count);
            } else if theirs {
                assign_range(meta, range, ResolvedLineSource::C, c_line, c_count);
            } else if both {
                assign_both_range(
                    meta,
                    range,
                    ResolvedLineSource::B,
                    b_line,
                    b_count,
                    ResolvedLineSource::C,
                    c_line,
                    c_count,
                );
            }
        },
        ConflictResolverViewMode::TwoWayDiff => {
            if theirs {
                assign_range(meta, range, ResolvedLineSource::B, b_line, b_count);
            } else if both {
                assign_both_range(
                    meta,
                    range,
                    ResolvedLineSource::A,
                    a_line,
                    a_count,
                    ResolvedLineSource::B,
                    b_line,
                    b_count,
                );
            } else if base || ours {
                assign_range(meta, range, ResolvedLineSource::A, a_line, a_count);
            }
        },
    }
}

/// Notes of the lines of each conflict which version they come from.
pub fn apply_conflict_choice_provenance_hints_for_ranges(
    meta: &mut Vec<ResolvedLineMeta>,
    marker_segments: &[ConflictSegment],
    block_ranges: &[Range<usize>],
    view_mode: ConflictResolverViewMode,
)
    ensures
        final(meta)@ == with_picks(
            old(meta)@,
            segment_views(marker_segments@),
            as_pairs(block_ranges@),
            view_mode,
            marker_segments@.len() as int,
        ),
{
    let ghost before = meta@;
    let ghost views = segment_views(marker_segments@);
    let ghost ranges = as_pairs(block_ranges@);
    if meta.len() == 0 {
        proof {
            lemma_picks_len(before, views, ranges, view_mode, views.len() as int);
            assert(meta@ =~= with_picks(before, views, ranges, view_mode, views.len() as int));
        }
        return;
    }
    let mut block_ix: usize = 0;
    let mut a_line: u32 = 1;
    let mut b_line: u32 = 1;
    let mut c_line: u32 = 1;
    let mut i: usize = 0;
    while i < marker_segments.len()
        invariant
            0 <= i <= marker_segments@.len(),
            views == segment_views(marker_segments@),
            ranges == as_pairs(block_ranges@),
            block_ix <= i,
            block_ix == block_count(views, i as int),
            columns_after(views, view_mode, i as int) == (Columns {
                a: a_line as int,
                b: b_line as int,
                c: c_line as int,
            }),
            meta@ == with_picks(before, views, ranges, view_mode, i as int),
        decreases marker_segments@.len() - i,
    {
        assert(views[i as int] == marker_segments@[i as int]@);
        match &marker_segments[i] {
            ConflictSegment::Text(text) => {
                let n = count_lines(text.as_str());
                a_line = add_lines(a_line, n);
                b_line = add_lines(b_line, n);
                if let ConflictResolverViewMode::ThreeWay = view_mode {
                    c_line = add_lines(c_line, n);
                }
            },
            ConflictSegment::Block(block) => {
                let counts = count_block(block, view_mode);
                if block_ix < block_ranges.len() {
                    assert(ranges[block_ix as int] == (
                        block_ranges@[block_ix as int].start as int,
                        block_ranges@[block_ix as int].end as int,
                    ));
                    let range = block_ranges[block_ix].start..block_ranges[block_ix].end;
                    note_pick(meta, range, block, view_mode, a_line, b_line, c_line, counts);
                }
                a_line = add_lines(a_line, counts.0);
                b_line = add_lines(b_line, counts.1);
                c_line = add_lines(c_line, counts.2);
                block_ix += 1;
            },
        }
        i += 1;
    }
}

/// The text of the first `n` segments, each conflict as it is drawn.
pub open spec fn generated(segments: Seq<SegmentView>, drawn: Seq<String>, n: int) -> Seq<char>
    decreases n,
{
    if n <= 0 {
        Seq::empty()
    } else {
        generated(segments, drawn, n - 1) + (match segments[n - 1] {
            SegmentView::Text(text) => text,
            SegmentView::Block(_) => drawn[block_count(segments, n - 1)]@,
        })
    }
}

/// The text that segments make, each conflict as it is drawn.
pub fn generate_resolved_text(
    marker_segments: &[ConflictSegment],
    drawn_blocks: &[String],
) -> (text: String)
    requires
        drawn_blocks@.len() == block_count(
            segment_views(marker_segments@),
            marker_segments@.len() as int,
        ),
    ensures
        text@ == generated(
            segment_views(marker_segments@),
            drawn_blocks@,
            marker_segments@.len() as int,
        ),
{
    let ghost views = segment_views(marker_segments@);
    let mut text = String::new();
    let mut block_ix: usize = 0;
    let mut i: usize = 0;
    while i < marker_segments.len()
        invariant
            0 <= i <= marker_segments@.len(),
            views == segment_views(marker_segments@),
            drawn_blocks@.len() == block_count(views, marker_segments@.len() as int),
            block_ix <= i,
            block_ix == block_count(views, i as int),
            text@ == generated(views, drawn_blocks@, i as int),
        decreases marker_segments@.len() - i,
    {
        assert(views[i as int] == marker_segments@[i as int]@);
        match &marker_segments[i] {
            ConflictSegment::Text(part) => {
                text.append(part.as_str());
            },
            ConflictSegment::Block(_) => {
                proof {
                    lemma_blocks_grow(views, i + 1, views.len() as int);
                }
                text.append(drawn_blocks[block_ix].as_str());
                block_ix += 1;
            },
        }
        i += 1;
    }
    text
}

/// Notes where the lines of the conflicts come from, as long as the text is
/// what the segments make.
pub fn apply_conflict_choice_provenance_hints(
    meta: &mut Vec<ResolvedLineMeta>,
    marker_segments: &[ConflictSegment],
    drawn_blocks: &[String],
    output_text: &str,
    view_mode: ConflictResolverViewMode,
)
    requires
        drawn_blocks@.len() == block_count(
            segment_views(marker_segments@),
            marker_segments@.len() as int,
        ),
    ensures
        ({
            let segments = segment_views(marker_segments@);
            let n = marker_segments@.len() as int;
            final(meta)@ == (match strict_lines(
                segments,
                drawn_bytes(drawn_blocks@),
                output_text.spec_bytes(),
            ) {
                Some(ranges) => if generated(segments, drawn_blocks@, n) == output_text@ {
                    with_picks(old(meta)@, segments, ranges, view_mode, n)
                } else {
                    old(meta)@
                },
                None => old(meta)@,
            })
        }),
{
    let text = generate_resolved_text(marker_segments, drawn_blocks);
    if !same_str(text.as_str(), output_text) {
        return;
    }
    match resolved_output_conflict_block_ranges_in_text(
        marker_segments,
        drawn_blocks,
        output_text,
    ) {
        Some(block_ranges) => {
            apply_conflict_choice_provenance_hints_for_ranges(
                meta,
                marker_segments,
                block_ranges.as_slice(),
                view_mode,
            );
        },
        None => {},
    }
}

/// A line is still open to be traced: it was taken for one of the base, or for
/// no version's.
pub open spec fn is_open(meta: ResolvedLineMeta) -> bool {
    meta.source == ResolvedLineSource::A || meta.source == ResolvedLineSource::Manual
}

/// The open lines of a stretch noted as from one version.
pub open spec fn traced(
    meta: Seq<ResolvedLineMeta>,
    start: int,
    take: int,
    source: ResolvedLineSource,
    input_line: int,
) -> Seq<ResolvedLineMeta> {
    Seq::new(
        meta.len(),
        |i: int|
            if start <= i < start + take && is_open(meta[i]) {
                ResolvedLineMeta {
                    source,
                    input_line: Some(line_on(input_line, i - start) as u32),
                }
            } else {
                meta[i]
            },
    )
}

pub open spec fn traced_source(
    source: ConflictOutputSource,
    lines: Columns,
    counts: Columns,
) -> Taken {
    match source {
        ConflictOutputSource::Base => Taken {
            source: ResolvedLineSource::A,
            start: lines.a,
            count: counts.a,
        },
        ConflictOutputSource::Ours => Taken {
            source: ResolvedLineSource::B,
            start: lines.b,
            count: counts.b,
        },
        ConflictOutputSource::Theirs => Taken {
            source: ResolvedLineSource::C,
            start: lines.c,
            count: counts.c,
        },
    }
}

/// How many lines of a stretch the first `n` picked versions take.
pub open spec fn taken_lines(
    sources: Seq<ConflictOutputSource>,
    range: (int, int),
    lines: Columns,
    counts: Columns,
    n: int,
) -> int
    decreases n,
{
    if n <= 0 {
        0
    } else {
        let before = taken_lines(sources, range, lines, counts, n - 1);
        plus(
            before,
            min(
                less(range.1, plus(range.0, before)),
                traced_source(sources[n - 1], lines, counts).count,
            ),
        )
    }
}

/// The open lines of a stretch, traced to the first `n` picked versions in
/// their order.
pub open spec fn with_traces(
    meta: Seq<ResolvedLineMeta>,
    sources: Seq<ConflictOutputSource>,
    range: (int, int),
    lines: Columns,
    counts: Columns,
    n: int,
) -> Seq<ResolvedLineMeta>
    decreases n,
{
    if n <= 0 {
        meta
    } else {
        let before = with_traces(meta, sources, range, lines, counts, n - 1);
        let offset = taken_lines(sources, range, lines, counts, n - 1);
        let taken = traced_source(sources[n - 1], lines, counts);
        traced(
            before,
            range.0 + offset,
            min(less(range.1, plus(range.0, offset)), taken.count),
            taken.source,
            taken.start,
        )
    }
}

pub open spec fn has_no_base(block: BlockView) -> bool {
    match block.base {
        Some(base) => base.len() == 0,
        None => true,
    }
}

/// The lines after those of conflicts without a base were traced.
pub open spec fn with_baseless_traces(
    meta: Seq<ResolvedLineMeta>,
    segments: Seq<SegmentView>,
    ranges: Option<Seq<(int, int)>>,
    n: int,
) -> Seq<ResolvedLineMeta>
    decreases n,
{
    if n <= 0 {
        meta
    } else {
        let before = with_baseless_traces(meta, segments, ranges, n - 1);
        let block_ix = block_count(segments, n - 1);
        match segments[n - 1] {
            SegmentView::Text(_) => before,
            SegmentView::Block(block) => match ranges {
                Some(ranges) => if has_no_base(block) && block_ix < ranges.len() {
                    with_traces(
                        before,
                        block.choice.sources(),
                        ranges[block_ix],
                        columns_after(segments, ConflictResolverViewMode::ThreeWay, n - 1),
                        block_columns(block, ConflictResolverViewMode::ThreeWay),
                        block.choice.sources().len() as int,
                    )
                } else {
                    before
                },
                None => before,
            },
        }
    }
}

fn trace_lines(
    meta: &mut Vec<ResolvedLineMeta>,
    start: usize,
    take: usize,
    source: ResolvedLineSource,
    input_line: u32,
)
    requires
        start + take <= usize::MAX,
        take <= u32::MAX,
    ensures
        final(meta)@ == traced(old(meta)@, start as int, take as int, source, input_line as int),
{
    let ghost before = meta@;
    let end = min_usize(start + take, meta.len());
    let mut i = start;
    while i < end
        invariant
            start <= i,
            i <= end || i == start,
            start + take <= usize::MAX,
            take <= u32::MAX,
            end == min(start + take, before.len() as int),
            meta@.len() == before.len(),
            forall|k: int|
                0 <= k < before.len() ==> #[trigger] meta@[k] == (if start <= k < i && is_open(
                    before[k],
                ) {
                    (ResolvedLineMeta {
                        source,
                        input_line: Some(line_on(input_line as int, k - start) as u32),
                    })
                } else {
                    before[k]
                }),
        decreases end - i,
    {
        let line = meta[i];
        assert(line == before[i as int]);
        if line.source == ResolvedLineSource::A || line.source == ResolvedLineSource::Manual {
            let input_line = Some(add_lines(input_line, (i - start) as u32));
            meta.set(i, ResolvedLineMeta { source, input_line });
        }
        i += 1;
    }
    assert(meta@ =~= traced(before, start as int, take as int, source, input_line as int));
}

fn trace_slot(
    meta: &mut Vec<ResolvedLineMeta>,
    range: &Range<usize>,
    offset: usize,
    slot: PickSlot,
    a_line: u32,
    b_line: u32,
    c_line: u32,
    counts: (u32, u32, u32),
) -> (next: usize)
    requires
        range.start <= range.end,
        range.start + offset <= range.end,
    ensures
        range.start + next <= range.end,
        ({
            let lines = Columns { a: a_line as int, b: b_line as int, c: c_line as int };
            let columns = Columns { a: counts.0 as int, b: counts.1 as int, c: counts.2 as int };
            let source = match slot {
                PickSlot::Nothing => None,
                PickSlot::Base => Some(ConflictOutputSource::Base),
                PickSlot::Ours => Some(ConflictOutputSource::Ours),
                PickSlot::Theirs => Some(ConflictOutputSource::Theirs),
            };
            match source {
                None => next == offset && final(meta)@ == old(meta)@,
                Some(source) => {
                    let taken = traced_source(source, lines, columns);
                    let take = min(
                        less(range.end as int, plus(range.start as int, offset as int)),
                        taken.count,
                    );
                    &&& next == plus(offset as int, take)
                    &&& final(meta)@ == traced(
                        old(meta)@,
                        range.start + offset,
                        take,
                        taken.source,
                        taken.start,
                    )
                },
            }
        }),
{
    let (count, source, line) = match slot {
        PickSlot::Nothing => {
            return offset;
        },
        PickSlot::Base => (counts.0, ResolvedLineSource::A, a_line),
        PickSlot::Ours => (counts.1, ResolvedLineSource::B, b_line),
        PickSlot::Theirs => (counts.2, ResolvedLineSource::C, c_line),
    };
    let remaining = less_usize(range.end, plus_usize(range.start, offset));
    let take = min_usize(remaining, count as usize);
    trace_lines(meta, range.start + offset, take, source, line);
    offset + take
}

fn trace_block(
    meta: &mut Vec<ResolvedLineMeta>,
    range: &Range<usize>,
    choice: ConflictChoice,
    a_line: u32,
    b_line: u32,
    c_line: u32,
    counts: (u32, u32, u32),
)
    requires
        range.start <= range.end,
    ensures
        final(meta)@ == with_traces(
            old(meta)@,
            choice.sources(),
            (range.start as int, range.end as int),
            (Columns { a: a_line as int, b: b_line as int, c: c_line as int }),
            (Columns { a: counts.0 as int, b: counts.1 as int, c: counts.2 as int }),
            choice.sources().len() as int,
        ),
{
    let ghost before = meta@;
    let ghost pair = (range.start as int, range.end as int);
    let ghost lines = Columns { a: a_line as int, b: b_line as int, c: c_line as int };
    let ghost columns = Columns { a: counts.0 as int, b: counts.1 as int, c: counts.2 as int };
    let ghost all = choice.sources();
    let ghost one = slot_sources(choice.first).len() as int;
    let ghost two = one + slot_sources(choice.second).len();
    let offset = trace_slot(meta, range, 0, choice.first, a_line, b_line, c_line, counts);
    proof {
        if one > 0 {
            assert(all[0] == slot_sources(choice.first)[0]);
            assert(with_traces(before, all, pair, lines, columns, 0) == before);
            assert(taken_lines(all, pair, lines, columns, 0) == 0);
        }
        assert(meta@ == with_traces(before, all, pair, lines, columns, one));
        assert(offset == taken_lines(all, pair, lines, columns, one));
    }
    let offset = trace_slot(meta, range, offset, choice.second, a_line, b_line, c_line, counts);
    proof {
        if two > one {
            assert(all[one] == slot_sources(choice.second)[0]);
        }
        assert(meta@ == with_traces(before, all, pair, lines, columns, two));
        assert(offset == taken_lines(all, pair, lines, columns, two));
    }
    let _ = trace_slot(meta, range, offset, choice.third, a_line, b_line, c_line, counts);
    proof {
        if all.len() > two {
            assert(all[two] == slot_sources(choice.third)[0]);
        }
    }
}

/// Traces the lines of conflicts without a base to the versions picked for
/// them, as long as the text is what the segments make.
pub fn apply_three_way_empty_base_provenance_hints(
    meta: &mut Vec<ResolvedLineMeta>,
    marker_segments: &[ConflictSegment],
    drawn_blocks: &[String],
    output_text: &str,
)
    requires
        drawn_blocks@.len() == block_count(
            segment_views(marker_segments@),
            marker_segments@.len() as int,
        ),
    ensures
        ({
            let segments = segment_views(marker_segments@);
            let n = marker_segments@.len() as int;
            let ranges = strict_lines(
                segments,
                drawn_bytes(drawn_blocks@),
                output_text.spec_bytes(),
            );
            final(meta)@ == (if generated(segments, drawn_blocks@, n) == output_text@
                && old(meta)@.len() > 0 {
                with_baseless_traces(old(meta)@, segments, ranges, n)
            } else {
                old(meta)@
            })
        }),
{
    let text = generate_resolved_text(marker_segments, drawn_blocks);
    if !same_str(text.as_str(), output_text) || meta.len() == 0 {
        return;
    }
    let ghost before = meta@;
    let ghost views = segment_views(marker_segments@);
    let ghost drawn = drawn_bytes(drawn_blocks@);
    let ghost ranges = strict_lines(views, drawn, output_text.spec_bytes());
    let mut block_ix: usize = 0;
    let mut a_line: u32 = 1;
    let mut b_line: u32 = 1;
    let mut c_line: u32 = 1;
    let mut i: usize = 0;
    while i < marker_segments.len()
        invariant
            0 <= i <= marker_segments@.len(),
            views == segment_views(marker_segments@),
            drawn == drawn_bytes(drawn_blocks@),
            drawn_blocks@.len() == block_count(views, marker_segments@.len() as int),
            ranges == strict_lines(views, drawn, output_text.spec_bytes()),
            block_ix <= i,
            block_ix == block_count(views, i as int),
            columns_after(views, ConflictResolverViewMode::ThreeWay, i as int) == (Columns {
                a: a_line as int,
                b: b_line as int,
                c: c_line as int,
            }),
            meta@ == with_baseless_traces(before, views, ranges, i as int),
        decreases marker_segments@.len() - i,
    {
        assert(views[i as int] == marker_segments@[i as int]@);
        match &marker_segments[i] {
            ConflictSegment::Text(text) => {
                let n = count_lines(text.as_str());
                a_line = add_lines(a_line, n);
                b_line = add_lines(b_line, n);
                c_line = add_lines(c_line, n);
            },
            ConflictSegment::Block(block) => {
                let counts = count_block(block, ConflictResolverViewMode::ThreeWay);
                let base_empty = match &block.base {
                    Some(base) => {
                        proof {
                            vstd::utf8::encode_utf8_decode_utf8(base@);
                            if encode_utf8(base@).len() == 0 {
                                reveal_with_fuel(vstd::utf8::decode_utf8, 1);
                            }
                        }
                        base.as_str().is_empty()
                    },
                    None => true,
                };
                if base_empty {
                    let range = output_line_range_for_conflict_block_in_text(
                        marker_segments,
                        drawn_blocks,
                        output_text,
                        block_ix,
                    );
                    if let Some(range) = range {
                        proof {
                            lemma_strict_lines(
                                views,
                                drawn,
                                output_text.spec_bytes(),
                                block_ix as int,
                            );
                        }
                        trace_block(
                            meta,
                            &range,
                            block.choice,
                            a_line,
                            b_line,
                            c_line,
                            counts,
                        );
                    }
                }
                a_line = add_lines(a_line, counts.0);
                b_line = add_lines(b_line, counts.1);
                c_line = add_lines(c_line, counts.2);
                block_ix += 1;
            },
        }
        i += 1;
    }
}

} // verus!
