//! Where conflicts stand in the text they are resolved into.
use crate::conflict::model::block_count;
use crate::conflict::model::blocks_of;
use crate::conflict::model::lemma_block_count;
use crate::conflict::model::lemma_blocks_grow;
use crate::conflict::model::segment_views;
use crate::conflict::model::BlockView;
use crate::conflict::model::ConflictBlock;
use crate::conflict::model::ConflictSegment;
use crate::conflict::model::SegmentView;
use crate::conflict::model::Subchunk;
use crate::conflict::regions::as_pairs;
use crate::conflict::regions::block_decision_ranges;
use crate::conflict::regions::block_subchunk_ranges;
use crate::conflict::regions::optional_pairs;
use crate::conflict::regions::optional_subchunks;
use crate::conflict::regions::unresolved_decision_ranges_for_block;
use crate::conflict::regions::unresolved_subchunk_conflict_ranges_for_block;
use crate::conflict::regions::SideBySidePlan;
use crate::lines::count_newline_bytes;
use crate::lines::lemma_newlines_add;
use crate::lines::lemma_newlines_bound;
use crate::lines::newlines;
use crate::lines::split_line_count;
use crate::lines::NEWLINE;
use crate::num::min;
use crate::num::min_usize;
use crate::num::plus;
use crate::num::plus_usize;
use std::ops::Range;
use vstd::prelude::*;
use vstd::string::*;
use vstd::utf8::encode_utf8;

verus! {

/// Which bytes of an edited result belong to which conflict.
#[derive(Debug, PartialEq, Eq)]
pub struct ResolvedOutputBlockMap {
    pub ranges: Vec<Range<usize>>,
}

/// What is known of a conflict beside its texts: how its sides stand side by side,
/// ours on the left, and the finer pieces it was cut into.
#[derive(Debug)]
pub struct BlockAnalysis {
    pub plan: SideBySidePlan,
    pub subchunks: Option<Vec<Subchunk>>,
}

/// A row of the result that belongs to a conflict.
#[derive(Clone, Copy, Debug, PartialEq, Eq, Structural)]
pub struct ResolvedOutputConflictMarker {
    pub conflict_ix: usize,
    pub range_start: usize,
    pub range_end: usize,
    pub is_start: bool,
    pub is_end: bool,
    pub unresolved: bool,
}

pub open spec fn stands_at(out: Seq<u8>, at: int, part: Seq<u8>) -> bool {
    &&& 0 <= at
    &&& at + part.len() <= out.len()
    &&& out.subrange(at, at + part.len()) == part
}

pub open spec fn is_line_boundary(out: Seq<u8>, at: int) -> bool {
    at == 0 || at == out.len() || (0 < at <= out.len() && out[at - 1] == NEWLINE)
}

/// How far the segments have been found in a text, and the bytes of the
/// conflicts among them.
pub struct Walk {
    pub cursor: int,
    pub blocks: Seq<(int, int)>,
}

/// The first `n` segments one after the other in a text, each conflict as it
/// is drawn and on lines of its own.
pub open spec fn walk(
    segments: Seq<SegmentView>,
    drawn: Seq<Seq<u8>>,
    out: Seq<u8>,
    n: int,
) -> Option<Walk>
    decreases n,
{
    if n <= 0 {
        Some((Walk { cursor: 0, blocks: Seq::empty() }))
    } else {
        match walk(segments, drawn, out, n - 1) {
            None => None,
            Some(before) => match segments[n - 1] {
                SegmentView::Text(text) => {
                    if stands_at(out, before.cursor, encode_utf8(text)) {
                        Some(
                            (Walk {
                                cursor: before.cursor + encode_utf8(text).len(),
                                blocks: before.blocks,
                            }),
                        )
                    } else {
                        None
                    }
                },
                SegmentView::Block(_) => {
                    let expected = drawn[before.blocks.len() as int];
                    let end = before.cursor + expected.len();
                    if stands_at(out, before.cursor, expected) && is_line_boundary(
                        out,
                        before.cursor,
                    ) && is_line_boundary(out, end) {
                        Some(
                            (Walk { cursor: end, blocks: before.blocks.push((before.cursor, end)) }),
                        )
                    } else {
                        None
                    }
                },
            },
        }
    }
}

/// The lines of a stretch of text: those that it starts or ends, and the last
/// one where the text ends within it.
pub open spec fn lines_of_bytes(out: Seq<u8>, bytes: (int, int)) -> (int, int) {
    (
        newlines(out.take(bytes.0)) as int,
        newlines(out.take(bytes.1)) + (if bytes.1 == out.len() && bytes.0 < bytes.1 && out[bytes.1
            - 1] != NEWLINE {
            1int
        } else {
            0int
        }),
    )
}

pub open spec fn drawn_bytes(drawn: Seq<String>) -> Seq<Seq<u8>> {
    drawn.map_values(|text: String| encode_utf8(text@))
}

pub open spec fn lines_of_blocks(out: Seq<u8>, blocks: Seq<(int, int)>) -> Seq<(int, int)> {
    blocks.map_values(|bytes: (int, int)| lines_of_bytes(out, bytes))
}

/// Where the conflicts are, if the text reads as the segments do.
pub open spec fn strict_lines(
    segments: Seq<SegmentView>,
    drawn: Seq<Seq<u8>>,
    out: Seq<u8>,
) -> Option<Seq<(int, int)>> {
    match walk(segments, drawn, out, segments.len() as int) {
        Some(found) => Some(lines_of_blocks(out, found.blocks)),
        None => None,
    }
}

/// A map fits: one range for each conflict, in order, apart, within the text.
pub open spec fn map_fits(ranges: Seq<(int, int)>, count: int, len: int) -> bool {
    &&& ranges.len() == count
    &&& forall|i: int|
        0 <= i < ranges.len() ==> 0 <= (#[trigger] ranges[i]).0 <= ranges[i].1 <= len
    &&& forall|i: int, j: int|
        0 <= i < j < ranges.len() ==> (#[trigger] ranges[i]).1 <= (#[trigger] ranges[j]).0
}

pub open spec fn map_lines(ranges: Seq<(int, int)>, count: int, out: Seq<u8>) -> Option<
    Seq<(int, int)>,
> {
    if map_fits(ranges, count, out.len() as int) {
        Some(lines_of_blocks(out, ranges))
    } else {
        None
    }
}

proof fn lemma_walk(segments: Seq<SegmentView>, drawn: Seq<Seq<u8>>, out: Seq<u8>, n: int)
    requires
        0 <= n <= segments.len(),
    ensures
        walk(segments, drawn, out, n) matches Some(found) ==> {
            &&& 0 <= found.cursor <= out.len()
            &&& map_fits(found.blocks, block_count(segments, n), out.len() as int)
            &&& forall|i: int|
                0 <= i < found.blocks.len() ==> (#[trigger] found.blocks[i]).1 <= found.cursor
        },
    decreases n,
{
    if n > 0 {
        lemma_walk(segments, drawn, out, n - 1);
    }
}

pub proof fn lemma_strict_lines(
    segments: Seq<SegmentView>,
    drawn: Seq<Seq<u8>>,
    out: Seq<u8>,
    block_ix: int,
)
    requires
        strict_lines(segments, drawn, out) matches Some(lines) && 0 <= block_ix < lines.len(),
    ensures
        strict_lines(segments, drawn, out)->Some_0[block_ix].0 <= strict_lines(
            segments,
            drawn,
            out,
        )->Some_0[block_ix].1,
{
    lemma_walk(segments, drawn, out, segments.len() as int);
    let blocks = walk(segments, drawn, out, segments.len() as int)->Some_0.blocks;
    lemma_newlines_between(out, blocks[block_ix].0, blocks[block_ix].1);
}

/// A map that holds the bytes at which the conflicts were found fits, and so
/// gives the lines that finding them gives.
pub proof fn law_block_map_agrees_with_text(
    segments: Seq<SegmentView>,
    drawn: Seq<Seq<u8>>,
    out: Seq<u8>,
)
    requires
        walk(segments, drawn, out, segments.len() as int) is Some,
    ensures
        map_lines(
            walk(segments, drawn, out, segments.len() as int)->Some_0.blocks,
            block_count(segments, segments.len() as int),
            out,
        ) == strict_lines(segments, drawn, out),
{
    lemma_walk(segments, drawn, out, segments.len() as int);
}

fn bytes_stand_at(out: &[u8], at: usize, part: &[u8]) -> (answer: bool)
    requires
        at <= out@.len(),
    ensures
        answer == stands_at(out@, at as int, part@),
{
    let out_len = out.len();
    if part.len() > out_len - at {
        return false;
    }
    let mut i: usize = 0;
    while i < part.len()
        invariant
            0 <= i <= part@.len(),
            out_len == out@.len(),
            at + part@.len() <= out@.len(),
            forall|k: int| 0 <= k < i ==> #[trigger] part@[k] == out@[at + k],
        decreases part@.len() - i,
    {
        if out[at + i] != part[i] {
            assert(out@.subrange(at as int, at + part@.len())[i as int] != part@[i as int]);
            return false;
        }
        i += 1;
    }
    assert(out@.subrange(at as int, at + part@.len()) =~= part@);
    true
}

fn at_line_boundary(out: &[u8], at: usize) -> (answer: bool)
    requires
        at <= out@.len(),
    ensures
        answer == is_line_boundary(out@, at as int),
{
    at == 0 || at == out.len() || out[at - 1] == NEWLINE
}

proof fn lemma_newlines_between(out: Seq<u8>, from: int, to: int)
    requires
        0 <= from <= to <= out.len(),
    ensures
        newlines(out.take(to)) == newlines(out.take(from)) + newlines(out.subrange(from, to)),
        newlines(out.take(to)) <= to,
{
    assert(out.take(to) =~= out.take(from) + out.subrange(from, to));
    lemma_newlines_add(out.take(from), out.subrange(from, to));
    lemma_newlines_bound(out.take(to));
}

fn block_lines(out: &[u8], start: usize, end: usize, start_line: usize, body_newlines: usize) -> (range:
    Range<usize>)
    requires
        start <= end <= out@.len(),
        start_line == newlines(out@.take(start as int)),
        body_newlines == newlines(out@.subrange(start as int, end as int)),
    ensures
        (range.start as int, range.end as int) == lines_of_bytes(out@, (start as int, end as int)),
{
    proof {
        lemma_newlines_between(out@, start as int, end as int);
    }
    let mut end_line = start_line + body_newlines;
    if end == out.len() && start < end && out[end - 1] != NEWLINE {
        proof {
            let taken = out@.take(end as int);
            lemma_newlines_bound(taken.drop_last());
            assert(taken.last() == out@[end - 1]);
        }
        end_line = end_line + 1;
    }
    start_line..end_line
}

/// The lines of the conflicts in a text, or nothing where it does not read as
/// the segments do, each conflict as it is drawn.
pub fn resolved_output_conflict_block_ranges_in_text(
    marker_segments: &[ConflictSegment],
    drawn_blocks: &[String],
    output_text: &str,
) -> (ranges: Option<Vec<Range<usize>>>)
    requires
        drawn_blocks@.len() == block_count(
            segment_views(marker_segments@),
            marker_segments@.len() as int,
        ),
    ensures
        optional_pairs(ranges) == strict_lines(
            segment_views(marker_segments@),
            drawn_bytes(drawn_blocks@),
            output_text.spec_bytes(),
        ),
{
    let out = output_text.as_bytes();
    let out_len = out.len();
    let ghost views = segment_views(marker_segments@);
    let ghost drawn = drawn_bytes(drawn_blocks@);
    let mut ranges: Vec<Range<usize>> = Vec::new();
    let mut found = true;
    let mut cursor: usize = 0;
    let mut line_offset: usize = 0;
    let mut i: usize = 0;
    assert(out@.take(0) =~= Seq::<u8>::empty());
    assert(as_pairs(ranges@) =~= lines_of_blocks(out@, Seq::empty()));
    while i < marker_segments.len() && found
        invariant
            0 <= i <= marker_segments@.len(),
            views == segment_views(marker_segments@),
            drawn == drawn_bytes(drawn_blocks@),
            drawn_blocks@.len() == block_count(views, marker_segments@.len() as int),
            out_len == out@.len(),
            cursor <= out@.len(),
            line_offset == newlines(out@.take(cursor as int)),
            found ==> (walk(views, drawn, out@, i as int) matches Some(at) && at.cursor == cursor
                && as_pairs(ranges@) == lines_of_blocks(out@, at.blocks) && at.blocks.len()
                == block_count(views, i as int)),
            !found ==> walk(views, drawn, out@, views.len() as int) is None,
        decreases marker_segments@.len() - i,
    {
        let ghost at = walk(views, drawn, out@, i as int)->Some_0;
        assert(views[i as int] == marker_segments@[i as int]@);
        match &marker_segments[i] {
            ConflictSegment::Text(text) => {
                let part = text.as_str().as_bytes();
                if !bytes_stand_at(out, cursor, part) {
                    found = false;
                    proof {
                        lemma_walk_stops(views, drawn, out@, i + 1, views.len() as int);
                    }
                } else {
                    proof {
                        lemma_newlines_between(out@, cursor as int, cursor + part@.len());
                    }
                    line_offset = line_offset + count_newline_bytes(part);
                    cursor = cursor + part.len();
                }
            },
            ConflictSegment::Block(_) => {
                let block_ix = ranges.len();
                proof {
                    lemma_blocks_grow(views, i + 1, views.len() as int);
                    assert(as_pairs(ranges@).len() == ranges@.len());
                    assert(drawn[block_ix as int] == encode_utf8(drawn_blocks@[block_ix as int]@));
                }
                let expected = drawn_blocks[block_ix].as_str().as_bytes();
                if !bytes_stand_at(out, cursor, expected) || !at_line_boundary(out, cursor)
                    || !at_line_boundary(out, cursor + expected.len()) {
                    found = false;
                    proof {
                        lemma_walk_stops(views, drawn, out@, i + 1, views.len() as int);
                    }
                } else {
                    let end = cursor + expected.len();
                    let inner = count_newline_bytes(expected);
                    proof {
                        lemma_newlines_between(out@, cursor as int, end as int);
                    }
                    let ghost before = as_pairs(ranges@);
                    let range = block_lines(out, cursor, end, line_offset, inner);
                    let ghost pair = (range.start as int, range.end as int);
                    ranges.push(range);
                    proof {
                        assert(as_pairs(ranges@) =~= before.push(pair));
                        assert(lines_of_blocks(out@, at.blocks.push((cursor as int, end as int)))
                            =~= lines_of_blocks(out@, at.blocks).push(pair));
                    }
                    line_offset = line_offset + inner;
                    cursor = end;
                }
            },
        }
        i += 1;
    }
    if found {
        Some(ranges)
    } else {
        None
    }
}

proof fn lemma_walk_stops(
    segments: Seq<SegmentView>,
    drawn: Seq<Seq<u8>>,
    out: Seq<u8>,
    n: int,
    m: int,
)
    requires
        0 <= n <= m,
        walk(segments, drawn, out, n) is None,
    ensures
        walk(segments, drawn, out, m) is None,
    decreases m - n,
{
    if n < m {
        lemma_walk_stops(segments, drawn, out, n, m - 1);
    }
}

impl ResolvedOutputBlockMap {
    /// Whether the map holds a range for each conflict, in order, apart and
    /// within the text.
    pub fn is_valid_for(&self, conflict_count: usize, text_len: usize) -> (valid: bool)
        ensures
            valid == map_fits(as_pairs(self.ranges@), conflict_count as int, text_len as int),
    {
        let ghost pairs = as_pairs(self.ranges@);
        if self.ranges.len() != conflict_count {
            assert(pairs.len() == self.ranges@.len());
            return false;
        }
        let mut i: usize = 0;
        while i < self.ranges.len()
            invariant
                0 <= i <= self.ranges@.len(),
                pairs == as_pairs(self.ranges@),
                pairs.len() == self.ranges@.len(),
                forall|k: int|
                    0 <= k < i ==> 0 <= (#[trigger] pairs[k]).0 <= pairs[k].1 <= text_len,
                forall|j: int, k: int|
                    0 <= j < k < i ==> (#[trigger] pairs[j]).1 <= (#[trigger] pairs[k]).0,
            decreases self.ranges@.len() - i,
        {
            let range = &self.ranges[i];
            assert(pairs[i as int] == (range.start as int, range.end as int));
            if range.start > range.end || range.end > text_len {
                return false;
            }
            if i > 0 && self.ranges[i - 1].end > range.start {
                assert(pairs[i - 1].1 > pairs[i as int].0);
                return false;
            }
            proof {
                if i > 0 {
                    assert(pairs[i - 1].1 <= pairs[i as int].0);
                    assert forall|j: int| 0 <= j < i implies (#[trigger] pairs[j]).1
                        <= pairs[i as int].0 by {
                        if j < i - 1 {
                            assert(pairs[j].1 <= pairs[i - 1].0);
                        }
                    }
                }
            }
            i += 1;
        }
        true
    }
}

fn count_blocks(marker_segments: &[ConflictSegment]) -> (count: usize)
    ensures
        count == block_count(segment_views(marker_segments@), marker_segments@.len() as int),
{
    let ghost views = segment_views(marker_segments@);
    let mut count: usize = 0;
    let mut i: usize = 0;
    while i < marker_segments.len()
        invariant
            0 <= i <= marker_segments@.len(),
            views == segment_views(marker_segments@),
            count <= i,
            count == block_count(views, i as int),
        decreases marker_segments@.len() - i,
    {
        assert(views[i as int] == marker_segments@[i as int]@);
        if let ConflictSegment::Block(_) = &marker_segments[i] {
            count += 1;
        }
        i += 1;
    }
    count
}

/// The lines of the conflicts by the bytes that a map gives them, or nothing
/// where it does not fit.
pub fn conflict_block_line_ranges_from_block_map(
    marker_segments: &[ConflictSegment],
    output_text: &str,
    block_map: &ResolvedOutputBlockMap,
) -> (ranges: Option<Vec<Range<usize>>>)
    ensures
        optional_pairs(ranges) == map_lines(
            as_pairs(block_map.ranges@),
            block_count(segment_views(marker_segments@), marker_segments@.len() as int),
            output_text.spec_bytes(),
        ),
{
    let out = output_text.as_bytes();
    if !block_map.is_valid_for(count_blocks(marker_segments), out.len()) {
        return None;
    }
    let ghost pairs = as_pairs(block_map.ranges@);
    let mut line_ranges: Vec<Range<usize>> = Vec::with_capacity(block_map.ranges.len());
    let mut cursor: usize = 0;
    let mut line: usize = 0;
    let mut i: usize = 0;
    assert(out@.take(0) =~= Seq::<u8>::empty());
    assert(pairs.len() == block_map.ranges@.len());
    while i < block_map.ranges.len()
        invariant
            0 <= i <= block_map.ranges@.len(),
            pairs == as_pairs(block_map.ranges@),
            pairs.len() == block_map.ranges@.len(),
            map_fits(pairs, pairs.len() as int, out@.len() as int),
            cursor <= out@.len(),
            i > 0 ==> cursor == pairs[i - 1].1,
            i == 0 ==> cursor == 0,
            line == newlines(out@.take(cursor as int)),
            line_ranges@.len() == i,
            forall|k: int|
                0 <= k < i ==> (
                    (#[trigger] line_ranges@[k]).start as int,
                    line_ranges@[k].end as int,
                ) == lines_of_bytes(out@, pairs[k]),
        decreases block_map.ranges@.len() - i,
    {
        let start = block_map.ranges[i].start;
        let end = block_map.ranges[i].end;
        proof {
            assert(pairs[i as int] == (start as int, end as int));
            if i > 0 {
                assert(pairs[i - 1].1 <= pairs[i as int].0);
            }
            lemma_newlines_between(out@, cursor as int, start as int);
            lemma_newlines_between(out@, start as int, end as int);
        }
        let start_line = line + count_newline_bytes(
            vstd::slice::slice_subrange(out, cursor, start),
        );
        let inner = count_newline_bytes(vstd::slice::slice_subrange(out, start, end));
        line_ranges.push(block_lines(out, start, end, start_line, inner));
        line = start_line + inner;
        cursor = end;
        i += 1;
    }
    assert(as_pairs(line_ranges@) =~= lines_of_blocks(out@, pairs));
    Some(line_ranges)
}

/// Where the conflicts are: found in the text, or else by the map.
pub open spec fn block_line_ranges(
    segments: Seq<SegmentView>,
    drawn: Seq<Seq<u8>>,
    out: Seq<u8>,
    map: Seq<(int, int)>,
) -> Option<Seq<(int, int)>> {
    match strict_lines(segments, drawn, out) {
        Some(lines) => Some(lines),
        None => map_lines(map, block_count(segments, segments.len() as int), out),
    }
}

/// The lines of the conflicts, which manual edits elsewhere do not lose.
pub fn resolved_output_conflict_block_line_ranges(
    marker_segments: &[ConflictSegment],
    drawn_blocks: &[String],
    output_text: &str,
    block_map: &ResolvedOutputBlockMap,
) -> (ranges: Option<Vec<Range<usize>>>)
    requires
        drawn_blocks@.len() == block_count(
            segment_views(marker_segments@),
            marker_segments@.len() as int,
        ),
    ensures
        optional_pairs(ranges) == block_line_ranges(
            segment_views(marker_segments@),
            drawn_bytes(drawn_blocks@),
            output_text.spec_bytes(),
            as_pairs(block_map.ranges@),
        ),
{
    match resolved_output_conflict_block_ranges_in_text(
        marker_segments,
        drawn_blocks,
        output_text,
    ) {
        Some(ranges) => Some(ranges),
        None => conflict_block_line_ranges_from_block_map(marker_segments, output_text, block_map),
    }
}

pub fn output_line_range_for_conflict_block_in_text(
    segments: &[ConflictSegment],
    drawn_blocks: &[String],
    output_text: &str,
    conflict_ix: usize,
) -> (range: Option<Range<usize>>)
    requires
        drawn_blocks@.len() == block_count(segment_views(segments@), segments@.len() as int),
    ensures
        match strict_lines(
            segment_views(segments@),
            drawn_bytes(drawn_blocks@),
            output_text.spec_bytes(),
        ) {
            Some(lines) => match range {
                Some(range) => conflict_ix < lines.len() && (range.start as int, range.end as int)
                    == lines[conflict_ix as int],
                None => conflict_ix >= lines.len(),
            },
            None => range is None,
        },
{
    match resolved_output_conflict_block_ranges_in_text(segments, drawn_blocks, output_text) {
        Some(ranges) => {
            assert(as_pairs(ranges@).len() == ranges@.len());
            if conflict_ix < ranges.len() {
                assert(as_pairs(ranges@)[conflict_ix as int] == (
                    ranges@[conflict_ix as int].start as int,
                    ranges@[conflict_ix as int].end as int,
                ));
                Some(ranges[conflict_ix].start..ranges[conflict_ix].end)
            } else {
                None
            }
        },
        None => None,
    }
}

/// Lines counted from a block's first, held within the block.
pub open spec fn within_block(relative: (int, int), lines: (int, int)) -> (int, int) {
    (
        min(plus(lines.0, relative.0), lines.1),
        min(plus(lines.0, relative.1), lines.1),
    )
}

/// The lines to mark for a block: its smaller decisions while it is undecided
/// between them, else all of it.
pub open spec fn marker_ranges(
    block: BlockView,
    decisions: Option<Seq<(int, int)>>,
    subchunks: Option<Seq<(int, int)>>,
    lines: (int, int),
) -> Seq<(int, int)> {
    let parts = if block.resolved {
        None
    } else {
        match decisions {
            Some(decisions) => Some(decisions),
            None => subchunks,
        }
    };
    if !block.resolved && block.choice.picks_nothing() {
        seq![lines]
    } else {
        match parts {
            Some(parts) => if parts.len() > 0 {
                parts.map_values(|part: (int, int)| within_block(part, lines))
            } else {
                seq![lines]
            },
            None => seq![lines],
        }
    }
}

pub open spec fn block_marker_ranges(
    block: BlockView,
    analysis: &BlockAnalysis,
    lines: (int, int),
) -> Seq<(int, int)> {
    marker_ranges(
        block,
        block_decision_ranges(block.choice, &analysis.plan),
        block_subchunk_ranges(
            block.base is Some,
            block.choice,
            optional_subchunks(analysis.subchunks),
        ),
        lines,
    )
}

pub fn conflict_marker_ranges_for_block(
    block: &ConflictBlock,
    analysis: &BlockAnalysis,
    line_range: Range<usize>,
) -> (ranges: Vec<Range<usize>>)
    requires
        analysis.plan.is_complete(),
    ensures
        as_pairs(ranges@) == block_marker_ranges(
            block@,
            analysis,
            (line_range.start as int, line_range.end as int),
        ),
        ranges@.len() > 0,
{
    let ghost lines = (line_range.start as int, line_range.end as int);
    let mut marker_ranges: Vec<Range<usize>> = Vec::new();
    if !block.resolved && block.choice.is_empty() {
        marker_ranges.push(line_range);
        assert(as_pairs(marker_ranges@) =~= seq![lines]);
        return marker_ranges;
    }
    if !block.resolved {
        let parts = match unresolved_decision_ranges_for_block(block, &analysis.plan) {
            Some(parts) => Some(parts),
            None => unresolved_subchunk_conflict_ranges_for_block(block, &analysis.subchunks),
        };
        if let Some(parts) = parts {
            let ghost pairs = as_pairs(parts@);
            let mut i: usize = 0;
            while i < parts.len()
                invariant
                    0 <= i <= parts@.len(),
                    pairs == as_pairs(parts@),
                    lines == (line_range.start as int, line_range.end as int),
                    marker_ranges@.len() == i,
                    forall|k: int|
                        0 <= k < i ==> (
                            (#[trigger] marker_ranges@[k]).start as int,
                            marker_ranges@[k].end as int,
                        ) == within_block(pairs[k], lines),
                decreases parts@.len() - i,
            {
                assert(pairs[i as int] == (parts@[i as int].start as int, parts@[i as int].end as int));
                let start = min_usize(
                    plus_usize(line_range.start, parts[i].start),
                    line_range.end,
                );
                let end = min_usize(plus_usize(line_range.start, parts[i].end), line_range.end);
                marker_ranges.push(start..end);
                i += 1;
            }
            assert(pairs.len() == parts@.len());
            assert(as_pairs(marker_ranges@) =~= pairs.map_values(
                |part: (int, int)| within_block(part, lines),
            ));
        }
    }
    if marker_ranges.len() == 0 {
        marker_ranges.push(line_range);
        assert(as_pairs(marker_ranges@) =~= seq![lines]);
    }
    marker_ranges
}

/// The lines of a range that are marked: its own, or where it has none the line
/// it stands before, at the end of the text the last one.
pub open spec fn marks_line(range: (int, int), count: int, line: int) -> bool {
    if range.0 < range.1 {
        range.0 <= line < min(range.1, count)
    } else {
        line == min(range.0, count - 1)
    }
}

pub open spec fn line_marker(
    conflict_ix: usize,
    unresolved: bool,
    range: (int, int),
    line: int,
) -> ResolvedOutputConflictMarker {
    ResolvedOutputConflictMarker {
        conflict_ix,
        range_start: range.0 as usize,
        range_end: range.1 as usize,
        is_start: range.0 >= range.1 || line == range.0,
        is_end: range.0 >= range.1 || line + 1 == range.1,
        unresolved,
    }
}

/// Markers after a range was marked.
pub open spec fn marked(
    markers: Seq<Option<ResolvedOutputConflictMarker>>,
    conflict_ix: usize,
    unresolved: bool,
    range: (int, int),
) -> Seq<Option<ResolvedOutputConflictMarker>> {
    Seq::new(
        markers.len(),
        |line: int|
            if marks_line(range, markers.len() as int, line) {
                Some(line_marker(conflict_ix, unresolved, range, line))
            } else {
                markers[line]
            },
    )
}

/// Markers after the first `n` ranges were marked, each over those before it.
pub open spec fn marked_all(
    markers: Seq<Option<ResolvedOutputConflictMarker>>,
    conflict_ix: usize,
    unresolved: bool,
    ranges: Seq<(int, int)>,
    n: int,
) -> Seq<Option<ResolvedOutputConflictMarker>>
    decreases n,
{
    if n <= 0 {
        markers
    } else {
        marked(
            marked_all(markers, conflict_ix, unresolved, ranges, n - 1),
            conflict_ix,
            unresolved,
            ranges[n - 1],
        )
    }
}

proof fn lemma_marked_len(
    markers: Seq<Option<ResolvedOutputConflictMarker>>,
    conflict_ix: usize,
    unresolved: bool,
    ranges: Seq<(int, int)>,
    n: int,
)
    ensures
        marked_all(markers, conflict_ix, unresolved, ranges, n).len() == markers.len(),
    decreases n,
{
    if n > 0 {
        lemma_marked_len(markers, conflict_ix, unresolved, ranges, n - 1);
    }
}

fn mark_range(
    markers: &mut Vec<Option<ResolvedOutputConflictMarker>>,
    conflict_ix: usize,
    unresolved: bool,
    range: &Range<usize>,
)
    requires
        old(markers)@.len() > 0,
    ensures
        final(markers)@ == marked(
            old(markers)@,
            conflict_ix,
            unresolved,
            (range.start as int, range.end as int),
        ),
{
    let ghost before = markers@;
    let ghost pair = (range.start as int, range.end as int);
    if range.start < range.end {
        let end = min_usize(range.end, markers.len());
        let mut line_ix = range.start;
        while line_ix < end
            invariant
                range.start <= line_ix,
                line_ix <= end || line_ix == range.start,
                end == min(range.end as int, before.len() as int),
                range.start < range.end,
                pair == (range.start as int, range.end as int),
                markers@.len() == before.len(),
                forall|k: int|
                    0 <= k < before.len() ==> #[trigger] markers@[k] == (if range.start <= k
                        < line_ix {
                        Some(line_marker(conflict_ix, unresolved, pair, k))
                    } else {
                        before[k]
                    }),
            decreases end - line_ix,
        {
            markers.set(
                line_ix,
                Some(
                    ResolvedOutputConflictMarker {
                        conflict_ix,
                        range_start: range.start,
                        range_end: range.end,
                        is_start: line_ix == range.start,
                        is_end: line_ix + 1 == range.end,
                        unresolved,
                    },
                ),
            );
            line_ix += 1;
        }
    } else {
        let anchor = min_usize(range.start, markers.len() - 1);
        markers.set(
            anchor,
            Some(
                ResolvedOutputConflictMarker {
                    conflict_ix,
                    range_start: range.start,
                    range_end: range.end,
                    is_start: true,
                    is_end: true,
                    unresolved,
                },
            ),
        );
    }
    assert(markers@ =~= marked(before, conflict_ix, unresolved, pair));
}

/// Marks the lines of a conflict.
pub fn write_conflict_markers_for_ranges(
    markers: &mut Vec<Option<ResolvedOutputConflictMarker>>,
    conflict_ix: usize,
    unresolved: bool,
    marker_ranges: &[Range<usize>],
)
    ensures
        final(markers)@ == (if old(markers)@.len() == 0 {
            old(markers)@
        } else {
            marked_all(
                old(markers)@,
                conflict_ix,
                unresolved,
                as_pairs(marker_ranges@),
                marker_ranges@.len() as int,
            )
        }),
{
    if markers.len() == 0 {
        return;
    }
    let ghost before = markers@;
    let ghost pairs = as_pairs(marker_ranges@);
    let mut i: usize = 0;
    while i < marker_ranges.len()
        invariant
            0 <= i <= marker_ranges@.len(),
            before.len() > 0,
            pairs == as_pairs(marker_ranges@),
            markers@ == marked_all(before, conflict_ix, unresolved, pairs, i as int),
        decreases marker_ranges@.len() - i,
    {
        proof {
            lemma_marked_len(before, conflict_ix, unresolved, pairs, i as int);
            assert(pairs[i as int] == (
                marker_ranges@[i as int].start as int,
                marker_ranges@[i as int].end as int,
            ));
        }
        mark_range(markers, conflict_ix, unresolved, &marker_ranges[i]);
        i += 1;
    }
}

/// A text in which nothing is marked.
pub open spec fn unmarked(count: int) -> Seq<Option<ResolvedOutputConflictMarker>> {
    Seq::new(count as nat, |line: int| None)
}

fn new_markers(count: usize) -> (markers: Vec<Option<ResolvedOutputConflictMarker>>)
    ensures
        markers@ == unmarked(count as int),
{
    let mut markers: Vec<Option<ResolvedOutputConflictMarker>> = Vec::with_capacity(count);
    let mut i: usize = 0;
    while i < count
        invariant
            0 <= i <= count,
            markers@.len() == i,
            forall|k: int| 0 <= k < i ==> #[trigger] markers@[k] is None,
        decreases count - i,
    {
        markers.push(None);
        i += 1;
    }
    assert(markers@ =~= unmarked(count as int));
    markers
}

/// The markers of the first `n` conflicts, each in its smaller decisions.
pub open spec fn decision_markers(
    blocks: Seq<BlockView>,
    analyses: Seq<BlockAnalysis>,
    lines: Seq<(int, int)>,
    count: int,
    n: int,
) -> Seq<Option<ResolvedOutputConflictMarker>>
    decreases n,
{
    if n <= 0 {
        unmarked(count)
    } else {
        let ranges = block_marker_ranges(blocks[n - 1], &analyses[n - 1], lines[n - 1]);
        marked_all(
            decision_markers(blocks, analyses, lines, count, n - 1),
            (n - 1) as usize,
            !blocks[n - 1].resolved,
            ranges,
            ranges.len() as int,
        )
    }
}

/// The markers of the first `n` conflicts, each as a whole.
pub open spec fn block_markers(
    blocks: Seq<BlockView>,
    lines: Seq<(int, int)>,
    count: int,
    n: int,
) -> Seq<Option<ResolvedOutputConflictMarker>>
    decreases n,
{
    if n <= 0 {
        unmarked(count)
    } else {
        marked_all(
            block_markers(blocks, lines, count, n - 1),
            (n - 1) as usize,
            !blocks[n - 1].resolved,
            seq![lines[n - 1]],
            1,
        )
    }
}

pub open spec fn all_complete(analyses: Seq<BlockAnalysis>) -> bool {
    forall|i: int| 0 <= i < analyses.len() ==> (#[trigger] analyses[i]).plan.is_complete()
}

proof fn lemma_decision_markers_len(
    blocks: Seq<BlockView>,
    analyses: Seq<BlockAnalysis>,
    lines: Seq<(int, int)>,
    count: int,
    n: int,
)
    requires
        count >= 0,
    ensures
        decision_markers(blocks, analyses, lines, count, n).len() == count,
    decreases n,
{
    if n > 0 {
        lemma_decision_markers_len(blocks, analyses, lines, count, n - 1);
        let ranges = block_marker_ranges(blocks[n - 1], &analyses[n - 1], lines[n - 1]);
        lemma_marked_len(
            decision_markers(blocks, analyses, lines, count, n - 1),
            (n - 1) as usize,
            !blocks[n - 1].resolved,
            ranges,
            ranges.len() as int,
        );
    }
}

proof fn lemma_block_markers_len(
    blocks: Seq<BlockView>,
    lines: Seq<(int, int)>,
    count: int,
    n: int,
)
    requires
        count >= 0,
    ensures
        block_markers(blocks, lines, count, n).len() == count,
    decreases n,
{
    if n > 0 {
        lemma_block_markers_len(blocks, lines, count, n - 1);
        lemma_marked_len(
            block_markers(blocks, lines, count, n - 1),
            (n - 1) as usize,
            !blocks[n - 1].resolved,
            seq![lines[n - 1]],
            1,
        );
    }
}

proof fn lemma_empty_stays(
    blocks: Seq<BlockView>,
    analyses: Seq<BlockAnalysis>,
    lines: Seq<(int, int)>,
    n: int,
)
    ensures
        decision_markers(blocks, analyses, lines, 0, n) == unmarked(0),
        block_markers(blocks, lines, 0, n) == unmarked(0),
{
    lemma_decision_markers_len(blocks, analyses, lines, 0, n);
    lemma_block_markers_len(blocks, lines, 0, n);
    assert(decision_markers(blocks, analyses, lines, 0, n) =~= unmarked(0));
    assert(block_markers(blocks, lines, 0, n) =~= unmarked(0));
}

/// The markers of conflicts whose lines are known, those that have none left
/// out.
pub fn build_resolved_output_conflict_markers_from_ranges(
    marker_segments: &[ConflictSegment],
    analyses: &[BlockAnalysis],
    block_ranges: &[Range<usize>],
    output_line_count: usize,
) -> (markers: Vec<Option<ResolvedOutputConflictMarker>>)
    requires
        analyses@.len() == block_count(
            segment_views(marker_segments@),
            marker_segments@.len() as int,
        ),
        all_complete(analyses@),
    ensures
        markers@ == decision_markers(
            blocks_of(segment_views(marker_segments@), marker_segments@.len() as int),
            analyses@,
            as_pairs(block_ranges@),
            output_line_count as int,
            min(analyses@.len() as int, block_ranges@.len() as int),
        ),
{
    let ghost views = segment_views(marker_segments@);
    let ghost blocks = blocks_of(views, marker_segments@.len() as int);
    let ghost lines = as_pairs(block_ranges@);
    let mut markers = new_markers(output_line_count);
    if output_line_count == 0 {
        proof {
            lemma_empty_stays(
                blocks,
                analyses@,
                lines,
                min(analyses@.len() as int, block_ranges@.len() as int),
            );
        }
        return markers;
    }
    let mut conflict_ix: usize = 0;
    let mut i: usize = 0;
    while i < marker_segments.len() && conflict_ix < block_ranges.len()
        invariant
            0 <= i <= marker_segments@.len(),
            views == segment_views(marker_segments@),
            blocks == blocks_of(views, marker_segments@.len() as int),
            lines == as_pairs(block_ranges@),
            output_line_count > 0,
            analyses@.len() == block_count(views, marker_segments@.len() as int),
            all_complete(analyses@),
            conflict_ix == block_count(views, i as int),
            conflict_ix <= block_ranges@.len(),
            markers@ == decision_markers(
                blocks,
                analyses@,
                lines,
                output_line_count as int,
                conflict_ix as int,
            ),
        decreases marker_segments@.len() - i,
    {
        assert(views[i as int] == marker_segments@[i as int]@);
        if let ConflictSegment::Block(block) = &marker_segments[i] {
            proof {
                lemma_block_count(views, i as int);
                lemma_block_count(views, views.len() as int);
                lemma_blocks_grow(views, i + 1, views.len() as int);
                assert(blocks_of(views, i + 1)[conflict_ix as int] == block@);
                assert(blocks[conflict_ix as int] == block@);
                assert(lines[conflict_ix as int] == (
                    block_ranges@[conflict_ix as int].start as int,
                    block_ranges@[conflict_ix as int].end as int,
                ));
                lemma_decision_markers_len(
                    blocks,
                    analyses@,
                    lines,
                    output_line_count as int,
                    conflict_ix as int,
                );
            }
            let range = block_ranges[conflict_ix].start..block_ranges[conflict_ix].end;
            let ranges = conflict_marker_ranges_for_block(block, &analyses[conflict_ix], range);
            assert(as_pairs(ranges@).len() == ranges@.len());
            write_conflict_markers_for_ranges(
                &mut markers,
                conflict_ix,
                !block.resolved,
                ranges.as_slice(),
            );
            conflict_ix += 1;
        }
        i += 1;
    }
    proof {
        lemma_blocks_grow(views, i as int, views.len() as int);
    }
    markers
}

/// The markers of conflicts whose lines are known, each as a whole.
pub fn build_resolved_output_conflict_markers_from_block_ranges(
    marker_segments: &[ConflictSegment],
    block_ranges: &[Range<usize>],
    output_line_count: usize,
) -> (markers: Vec<Option<ResolvedOutputConflictMarker>>)
    ensures
        markers@ == block_markers(
            blocks_of(segment_views(marker_segments@), marker_segments@.len() as int),
            as_pairs(block_ranges@),
            output_line_count as int,
            min(
                block_count(segment_views(marker_segments@), marker_segments@.len() as int),
                block_ranges@.len() as int,
            ),
        ),
{
    let ghost views = segment_views(marker_segments@);
    let ghost blocks = blocks_of(views, marker_segments@.len() as int);
    let ghost lines = as_pairs(block_ranges@);
    let mut markers = new_markers(output_line_count);
    if output_line_count == 0 {
        proof {
            lemma_empty_stays(
                blocks,
                Seq::empty(),
                lines,
                min(
                    block_count(views, marker_segments@.len() as int),
                    block_ranges@.len() as int,
                ),
            );
        }
        return markers;
    }
    let mut conflict_ix: usize = 0;
    let mut i: usize = 0;
    while i < marker_segments.len() && conflict_ix < block_ranges.len()
        invariant
            0 <= i <= marker_segments@.len(),
            views == segment_views(marker_segments@),
            blocks == blocks_of(views, marker_segments@.len() as int),
            lines == as_pairs(block_ranges@),
            output_line_count > 0,
            conflict_ix == block_count(views, i as int),
            conflict_ix <= block_ranges@.len(),
            markers@ == block_markers(
                blocks,
                lines,
                output_line_count as int,
                conflict_ix as int,
            ),
        decreases marker_segments@.len() - i,
    {
        assert(views[i as int] == marker_segments@[i as int]@);
        if let ConflictSegment::Block(block) = &marker_segments[i] {
            proof {
                lemma_block_count(views, i as int);
                lemma_block_count(views, views.len() as int);
                lemma_blocks_grow(views, i + 1, views.len() as int);
                assert(blocks_of(views, i + 1)[conflict_ix as int] == block@);
                assert(blocks[conflict_ix as int] == block@);
                lemma_block_markers_len(
                    blocks,
                    lines,
                    output_line_count as int,
                    conflict_ix as int,
                );
            }
            let mut one: Vec<Range<usize>> = Vec::with_capacity(1);
            one.push(block_ranges[conflict_ix].start..block_ranges[conflict_ix].end);
            assert(as_pairs(one@) =~= seq![lines[conflict_ix as int]]);
            write_conflict_markers_for_ranges(
                &mut markers,
                conflict_ix,
                !block.resolved,
                one.as_slice(),
            );
            conflict_ix += 1;
        }
        i += 1;
    }
    proof {
        lemma_blocks_grow(views, i as int, views.len() as int);
    }
    markers
}

/// The markers of a text.
pub open spec fn text_markers(
    segments: Seq<SegmentView>,
    drawn: Seq<Seq<u8>>,
    analyses: Seq<BlockAnalysis>,
    out: Seq<u8>,
    map: Seq<(int, int)>,
    count: int,
) -> Seq<Option<ResolvedOutputConflictMarker>> {
    match block_line_ranges(segments, drawn, out, map) {
        Some(lines) => decision_markers(
            blocks_of(segments, segments.len() as int),
            analyses,
            lines,
            count,
            min(analyses.len() as int, lines.len() as int),
        ),
        None => unmarked(count),
    }
}

pub fn build_resolved_output_conflict_markers(
    marker_segments: &[ConflictSegment],
    drawn_blocks: &[String],
    analyses: &[BlockAnalysis],
    output_text: &str,
    output_line_count: usize,
    block_map: &ResolvedOutputBlockMap,
) -> (markers: Vec<Option<ResolvedOutputConflictMarker>>)
    requires
        drawn_blocks@.len() == block_count(
            segment_views(marker_segments@),
            marker_segments@.len() as int,
        ),
        analyses@.len() == drawn_blocks@.len(),
        all_complete(analyses@),
    ensures
        markers@ == text_markers(
            segment_views(marker_segments@),
            drawn_bytes(drawn_blocks@),
            analyses@,
            output_text.spec_bytes(),
            as_pairs(block_map.ranges@),
            output_line_count as int,
        ),
{
    match resolved_output_conflict_block_line_ranges(
        marker_segments,
        drawn_blocks,
        output_text,
        block_map,
    ) {
        Some(block_ranges) => {
            assert(as_pairs(block_ranges@).len() == block_ranges@.len());
            build_resolved_output_conflict_markers_from_ranges(
                marker_segments,
                analyses,
                block_ranges.as_slice(),
                output_line_count,
            )
        },
        None => new_markers(output_line_count),
    }
}

/// The markers of every line of a text.
pub fn resolved_output_markers_for_text(
    marker_segments: &[ConflictSegment],
    drawn_blocks: &[String],
    analyses: &[BlockAnalysis],
    output_text: &str,
    block_map: &ResolvedOutputBlockMap,
) -> (markers: Vec<Option<ResolvedOutputConflictMarker>>)
    requires
        drawn_blocks@.len() == block_count(
            segment_views(marker_segments@),
            marker_segments@.len() as int,
        ),
        analyses@.len() == drawn_blocks@.len(),
        all_complete(analyses@),
        output_text.spec_bytes().len() < usize::MAX,
    ensures
        markers@ == text_markers(
            segment_views(marker_segments@),
            drawn_bytes(drawn_blocks@),
            analyses@,
            output_text.spec_bytes(),
            as_pairs(block_map.ranges@),
            newlines(output_text.spec_bytes()) + 1int,
        ),
{
    build_resolved_output_conflict_markers(
        marker_segments,
        drawn_blocks,
        analyses,
        output_text,
        split_line_count(output_text),
        block_map,
    )
}

pub fn resolved_output_marker_for_line(
    marker_segments: &[ConflictSegment],
    drawn_blocks: &[String],
    analyses: &[BlockAnalysis],
    output_text: &str,
    output_line_ix: usize,
    block_map: &ResolvedOutputBlockMap,
) -> (marker: Option<ResolvedOutputConflictMarker>)
    requires
        drawn_blocks@.len() == block_count(
            segment_views(marker_segments@),
            marker_segments@.len() as int,
        ),
        analyses@.len() == drawn_blocks@.len(),
        all_complete(analyses@),
        output_text.spec_bytes().len() < usize::MAX,
    ensures
        marker == ({
            let markers = text_markers(
                segment_views(marker_segments@),
                drawn_bytes(drawn_blocks@),
                analyses@,
                output_text.spec_bytes(),
                as_pairs(block_map.ranges@),
                newlines(output_text.spec_bytes()) + 1int,
            );
            if output_line_ix < markers.len() {
                markers[output_line_ix as int]
            } else {
                None
            }
        }),
{
    let markers = resolved_output_markers_for_text(
        marker_segments,
        drawn_blocks,
        analyses,
        output_text,
        block_map,
    );
    if output_line_ix < markers.len() {
        markers[output_line_ix]
    } else {
        None
    }
}

/// A marker starts a stretch of a conflict.
pub open spec fn starts_conflict(
    marker: Option<ResolvedOutputConflictMarker>,
    conflict_ix: usize,
) -> bool {
    marker matches Some(marker) && marker.conflict_ix == conflict_ix && marker.is_start
}

/// The first line at which a conflict starts.
pub fn first_output_marker_line_for_conflict(
    markers: &[Option<ResolvedOutputConflictMarker>],
    conflict_ix: usize,
) -> (line: Option<usize>)
    ensures
        match line {
            Some(line) => line < markers@.len() && starts_conflict(
                markers@[line as int],
                conflict_ix,
            ) && forall|k: int|
                0 <= k < line ==> !starts_conflict(#[trigger] markers@[k], conflict_ix),
            None => forall|k: int|
                0 <= k < markers@.len() ==> !starts_conflict(#[trigger] markers@[k], conflict_ix),
        },
{
    let mut line_ix: usize = 0;
    while line_ix < markers.len()
        invariant
            0 <= line_ix <= markers@.len(),
            forall|k: int|
                0 <= k < line_ix ==> !starts_conflict(#[trigger] markers@[k], conflict_ix),
        decreases markers@.len() - line_ix,
    {
        if let Some(marker) = &markers[line_ix] {
            if marker.conflict_ix == conflict_ix && marker.is_start {
                return Some(line_ix);
            }
        }
        line_ix += 1;
    }
    None
}

/// A line is where its conflict first starts.
pub open spec fn is_nav_entry(
    markers: Seq<Option<ResolvedOutputConflictMarker>>,
    line: int,
) -> bool {
    &&& markers[line] matches Some(marker) && marker.is_start && forall|k: int|
        0 <= k < line ==> !starts_conflict(#[trigger] markers[k], marker.conflict_ix)
}

pub open spec fn nav_entries(
    markers: Seq<Option<ResolvedOutputConflictMarker>>,
    n: int,
) -> Seq<usize>
    decreases n,
{
    if n <= 0 {
        Seq::empty()
    } else if is_nav_entry(markers, n - 1) {
        nav_entries(markers, n - 1).push((n - 1) as usize)
    } else {
        nav_entries(markers, n - 1)
    }
}

/// The lines to step through, one for each conflict.
pub fn conflict_marker_nav_entries_from_markers(
    markers: &[Option<ResolvedOutputConflictMarker>],
) -> (lines: Vec<usize>)
    ensures
        lines@ == nav_entries(markers@, markers@.len() as int),
{
    let mut lines: Vec<usize> = Vec::new();
    let mut line_ix: usize = 0;
    while line_ix < markers.len()
        invariant
            0 <= line_ix <= markers@.len(),
            lines@ == nav_entries(markers@, line_ix as int),
        decreases markers@.len() - line_ix,
    {
        if let Some(marker) = &markers[line_ix] {
            if marker.is_start {
                let first = first_output_marker_line_for_conflict(markers, marker.conflict_ix);
                if let Some(first) = first {
                    if first == line_ix {
                        lines.push(line_ix);
                    } else {
                        assert(starts_conflict(markers@[line_ix as int], marker.conflict_ix));
                        assert(starts_conflict(markers@[first as int], marker.conflict_ix));
                    }
                } else {
                    assert(starts_conflict(markers@[line_ix as int], marker.conflict_ix));
                }
            }
        }
        line_ix += 1;
    }
    lines
}

} // verus!
