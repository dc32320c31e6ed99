//! The merge result as an editor shows it: unresolved rows, placeholder rows,
//! edits of it, and what its highlights depend on.
use crate::conflict::blocks::all_complete;
use crate::conflict::blocks::block_line_ranges;
use crate::conflict::blocks::block_marker_ranges;
use crate::conflict::blocks::conflict_marker_ranges_for_block;
use crate::conflict::blocks::drawn_bytes;
use crate::conflict::blocks::resolved_output_conflict_block_line_ranges;
use crate::conflict::blocks::BlockAnalysis;
use crate::conflict::blocks::ResolvedOutputBlockMap;
use crate::conflict::highlights::as_painted;
use crate::conflict::highlights::comes_after;
use crate::conflict::highlights::insert_placed;
use crate::conflict::highlights::ordered;
use crate::conflict::highlights::placed;
use crate::conflict::highlights::push_painted;
use crate::conflict::highlights::Painted;
use crate::conflict::highlights::ResolvedOutputUnresolvedSpans;
use crate::conflict::model::block_count;
use crate::conflict::model::blocks_of;
use crate::conflict::model::lemma_block_count;
use crate::conflict::model::lemma_blocks_grow;
use crate::conflict::model::segment_views;
use crate::conflict::model::BlockView;
use crate::conflict::model::ConflictChoice;
use crate::conflict::model::ConflictSegment;
use crate::conflict::model::PickSlot;
use crate::conflict::model::SegmentView;
use crate::conflict::protection::CARRIAGE_RETURN;
use crate::conflict::regions::as_pairs;
use crate::diff::split_meta::as_ints;
use crate::digest::fx_hash_words;
use crate::digest::fx_words_digest;
use crate::digest::law_one_number_changes_the_digest;
use crate::lines::build_line_starts;
use crate::lines::count_newline_bytes;
use crate::lines::law_line_range;
use crate::lines::law_line_starts;
use crate::lines::line_range;
use crate::lines::newlines;
use crate::lines::starts_of;
use crate::lines::NEWLINE;
use crate::num::max;
use crate::num::max_usize;
use crate::num::min;
use crate::num::min_usize;
use crate::outline::is_sorted;
use crate::outline::line_at;
use crate::outline::line_index_for_byte_offset;
use crate::outline::ResolvedOutputSourceRevision;
use crate::outline::TextSnapshot;
use std::ops::Range;
use vstd::prelude::*;
use vstd::string::*;
use vstd::utf8::is_char_boundary;

verus! {

/// A stretch without the carriage returns at its end.
pub open spec fn without_returns(bytes: Seq<u8>, start: int, end: int) -> (int, int)
    decreases end - start,
{
    if start < end && bytes[end - 1] == CARRIAGE_RETURN {
        without_returns(bytes, start, end - 1)
    } else {
        (start, end)
    }
}

/// The bytes of a row, without its line ending.
pub open spec fn row_bytes(bytes: Seq<u8>, row: int) -> (int, int) {
    let (start, end) = line_range(bytes, row);
    without_returns(bytes, start, end)
}

/// A row can be shown: it is one of the text, has a number that fits, and
/// something on it.
pub open spec fn row_shows(bytes: Seq<u8>, row: int) -> bool {
    0 <= row < starts_of(bytes).len() && row <= u32::MAX && row_bytes(bytes, row).0 < row_bytes(
        bytes,
        row,
    ).1
}

/// The rows that can be shown from one up to another.
pub open spec fn rows_within(bytes: Seq<u8>, conflict_ix: int, start: int, end: int) -> Seq<Painted>
    decreases end - start,
{
    if end <= start {
        Seq::empty()
    } else {
        let before = rows_within(bytes, conflict_ix, start, end - 1);
        if row_shows(bytes, end - 1) {
            let (from, to) = row_bytes(bytes, end - 1);
            before.push((from, to, conflict_ix as u64))
        } else {
            before
        }
    }
}

/// The rows of the first `n` ranges of lines.
pub open spec fn rows_of_ranges(
    bytes: Seq<u8>,
    conflict_ix: int,
    ranges: Seq<(int, int)>,
    n: int,
) -> Seq<Painted>
    decreases n,
{
    if n <= 0 {
        Seq::empty()
    } else {
        rows_of_ranges(bytes, conflict_ix, ranges, n - 1) + rows_within(
            bytes,
            conflict_ix,
            ranges[n - 1].0,
            ranges[n - 1].1,
        )
    }
}

/// The rows of those of the first `n` conflicts that are not resolved.
pub open spec fn rows_of_blocks(
    bytes: Seq<u8>,
    blocks: Seq<BlockView>,
    analyses: Seq<BlockAnalysis>,
    lines: Seq<(int, int)>,
    n: int,
) -> Seq<Painted>
    decreases n,
{
    if n <= 0 {
        Seq::empty()
    } else {
        let before = rows_of_blocks(bytes, blocks, analyses, lines, n - 1);
        if blocks[n - 1].resolved {
            before
        } else {
            let ranges = block_marker_ranges(blocks[n - 1], &analyses[n - 1], lines[n - 1]);
            before + rows_of_ranges(bytes, n - 1, ranges, ranges.len() as int)
        }
    }
}

pub open spec fn is_unresolved(segment: SegmentView) -> bool {
    segment matches SegmentView::Block(block) && !block.resolved
}

/// The unresolved rows of a text, in order, with the conflict of each.
pub open spec fn unresolved_rows(
    segments: Seq<SegmentView>,
    drawn: Seq<Seq<u8>>,
    analyses: Seq<BlockAnalysis>,
    bytes: Seq<u8>,
    map: Seq<(int, int)>,
) -> Seq<Painted> {
    if !exists|i: int| 0 <= i < segments.len() && is_unresolved(#[trigger] segments[i]) {
        Seq::empty()
    } else {
        match block_line_ranges(segments, drawn, bytes, map) {
            Some(lines) => {
                let rows = rows_of_blocks(
                    bytes,
                    blocks_of(segments, segments.len() as int),
                    analyses,
                    lines,
                    min(analyses.len() as int, lines.len() as int),
                );
                ordered(rows, rows.len() as int)
            },
            None => Seq::empty(),
        }
    }
}

fn strip_returns(bytes: &[u8], start: usize, end: usize) -> (stripped: usize)
    requires
        start <= end <= bytes@.len(),
    ensures
        (start as int, stripped as int) == without_returns(bytes@, start as int, end as int),
        start <= stripped <= end,
{
    let mut stripped = end;
    while stripped > start && bytes[stripped - 1] == CARRIAGE_RETURN
        invariant
            start <= stripped <= end <= bytes@.len(),
            without_returns(bytes@, start as int, end as int) == without_returns(
                bytes@,
                start as int,
                stripped as int,
            ),
        decreases stripped,
    {
        stripped -= 1;
    }
    stripped
}

fn push_rows(
    rows: &mut Vec<(Range<usize>, u64)>,
    bytes: &[u8],
    line_starts: &Vec<usize>,
    conflict_ix: usize,
    lines: &Range<usize>,
)
    requires
        as_ints(line_starts@) == starts_of(bytes@),
    ensures
        as_painted(final(rows)@) == as_painted(old(rows)@) + rows_within(
            bytes@,
            conflict_ix as int,
            lines.start as int,
            lines.end as int,
        ),
{
    let ghost before = as_painted(rows@);
    let mut line_ix = lines.start;
    proof {
        assert(before + Seq::<Painted>::empty() =~= before);
        law_line_starts(bytes@);
        assert(as_ints(line_starts@).len() == line_starts@.len());
    }
    while line_ix < lines.end
        invariant
            lines.start <= line_ix,
            line_ix <= lines.end || line_ix == lines.start,
            as_ints(line_starts@) == starts_of(bytes@),
            line_starts@.len() == starts_of(bytes@).len(),
            as_painted(rows@) == before + rows_within(
                bytes@,
                conflict_ix as int,
                lines.start as int,
                line_ix as int,
            ),
        decreases lines.end - line_ix,
    {
        let ghost sofar = as_painted(rows@);
        let ghost upto = rows_within(
            bytes@,
            conflict_ix as int,
            lines.start as int,
            line_ix as int,
        );
        if line_ix < line_starts.len() && line_ix as u64 <= u32::MAX as u64 {
            proof {
                law_line_range(bytes@, line_ix as int);
                law_line_starts(bytes@);
                assert(as_ints(line_starts@)[line_ix as int] == line_starts@[line_ix as int]);
                if line_ix + 1 < line_starts@.len() {
                    assert(as_ints(line_starts@)[line_ix + 1] == line_starts@[line_ix + 1]);
                    assert(starts_of(bytes@)[line_ix + 1] >= 1);
                }
            }
            let start = line_starts[line_ix];
            let end = if line_starts.len() - line_ix > 1 {
                line_starts[line_ix + 1] - 1
            } else {
                bytes.len()
            };
            let stripped = strip_returns(bytes, start, end);
            if start < stripped {
                push_painted(rows, start, stripped, conflict_ix as u64);
                assert(as_painted(rows@) =~= before + upto.push(
                    (start as int, stripped as int, conflict_ix as u64),
                ));
            }
        }
        line_ix += 1;
    }
}

pub open spec fn as_rows(rows: Seq<(Range<usize>, usize)>) -> Seq<Painted> {
    rows.map_values(
        |row: (Range<usize>, usize)| (row.0.start as int, row.0.end as int, row.1 as u64),
    )
}

proof fn lemma_rows_fit(bytes: Seq<u8>, conflict_ix: int, start: int, end: int)
    requires
        0 <= conflict_ix <= usize::MAX,
    ensures
        forall|i: int|
            0 <= i < rows_within(bytes, conflict_ix, start, end).len() ==> (
            #[trigger] rows_within(bytes, conflict_ix, start, end)[i]).2 <= usize::MAX,
    decreases end - start,
{
    if start < end {
        lemma_rows_fit(bytes, conflict_ix, start, end - 1);
        let before = rows_within(bytes, conflict_ix, start, end - 1);
        let all = rows_within(bytes, conflict_ix, start, end);
        assert(conflict_ix as u64 == conflict_ix);
        assert forall|i: int| 0 <= i < all.len() implies (#[trigger] all[i]).2 <= usize::MAX by {
            if i < before.len() {
                assert(all[i] == before[i]);
            }
        }
    }
}

/// Every still unresolved row of the result, with the conflict it belongs to.
/// The conflict in hand has no part in it.
pub fn resolved_output_unresolved_rows(
    marker_segments: &[ConflictSegment],
    drawn_blocks: &[String],
    analyses: &[BlockAnalysis],
    output_text: &str,
    block_map: &ResolvedOutputBlockMap,
) -> (rows: Vec<(Range<usize>, usize)>)
    requires
        drawn_blocks@.len() == block_count(
            segment_views(marker_segments@),
            marker_segments@.len() as int,
        ),
        analyses@.len() == drawn_blocks@.len(),
        all_complete(analyses@),
    ensures
        as_rows(rows@) == unresolved_rows(
            segment_views(marker_segments@),
            drawn_bytes(drawn_blocks@),
            analyses@,
            output_text.spec_bytes(),
            as_pairs(block_map.ranges@),
        ),
{
    let ghost views = segment_views(marker_segments@);
    let ghost bytes = output_text.spec_bytes();
    let mut result: Vec<(Range<usize>, usize)> = Vec::new();
    assert(as_rows(result@) =~= Seq::<Painted>::empty());
    let mut some_open = false;
    let mut i: usize = 0;
    while i < marker_segments.len()
        invariant
            0 <= i <= marker_segments@.len(),
            views == segment_views(marker_segments@),
            some_open == exists|k: int| 0 <= k < i && is_unresolved(#[trigger] views[k]),
        decreases marker_segments@.len() - i,
    {
        assert(views[i as int] == marker_segments@[i as int]@);
        if let ConflictSegment::Block(block) = &marker_segments[i] {
            if !block.resolved {
                some_open = true;
                assert(is_unresolved(views[i as int]));
            }
        }
        i += 1;
    }
    if !some_open {
        return result;
    }
    let block_ranges = match resolved_output_conflict_block_line_ranges(
        marker_segments,
        drawn_blocks,
        output_text,
        block_map,
    ) {
        Some(block_ranges) => block_ranges,
        None => {
            return result;
        },
    };
    let out = output_text.as_bytes();
    let line_starts = build_line_starts(output_text);
    let ghost blocks = blocks_of(views, views.len() as int);
    let ghost lines = as_pairs(block_ranges@);
    let mut rows: Vec<(Range<usize>, u64)> = Vec::new();
    let mut conflict_ix: usize = 0;
    let mut s: usize = 0;
    assert(as_painted(rows@) =~= Seq::<Painted>::empty());
    assert(lines.len() == block_ranges@.len());
    while s < marker_segments.len() && conflict_ix < block_ranges.len()
        invariant
            0 <= s <= marker_segments@.len(),
            views == segment_views(marker_segments@),
            blocks == blocks_of(views, views.len() as int),
            lines == as_pairs(block_ranges@),
            lines.len() == block_ranges@.len(),
            out@ == bytes,
            as_ints(line_starts@) == starts_of(bytes),
            analyses@.len() == block_count(views, views.len() as int),
            all_complete(analyses@),
            conflict_ix == block_count(views, s as int),
            conflict_ix <= block_ranges@.len(),
            as_painted(rows@) == rows_of_blocks(
                bytes,
                blocks,
                analyses@,
                lines,
                conflict_ix as int,
            ),
            forall|k: int| 0 <= k < rows@.len() ==> (#[trigger] rows@[k]).1 <= usize::MAX,
        decreases marker_segments@.len() - s,
    {
        assert(views[s as int] == marker_segments@[s as int]@);
        if let ConflictSegment::Block(block) = &marker_segments[s] {
            proof {
                lemma_block_count(views, s as int);
                lemma_block_count(views, views.len() as int);
                lemma_blocks_grow(views, s + 1, views.len() as int);
                assert(blocks_of(views, s + 1)[conflict_ix as int] == block@);
                assert(blocks[conflict_ix as int] == block@);
                assert(lines[conflict_ix as int] == (
                    block_ranges@[conflict_ix as int].start as int,
                    block_ranges@[conflict_ix as int].end as int,
                ));
            }
            if !block.resolved {
                let line_range = block_ranges[conflict_ix].start..block_ranges[conflict_ix].end;
                let marker_ranges = conflict_marker_ranges_for_block(
                    block,
                    &analyses[conflict_ix],
                    line_range,
                );
                let ghost pairs = as_pairs(marker_ranges@);
                let ghost before = as_painted(rows@);
                let mut m: usize = 0;
                assert(before + Seq::<Painted>::empty() =~= before);
                while m < marker_ranges.len()
                    invariant
                        0 <= m <= marker_ranges@.len(),
                        pairs == as_pairs(marker_ranges@),
                        out@ == bytes,
                        as_ints(line_starts@) == starts_of(bytes),
                        as_painted(rows@) == before + rows_of_ranges(
                            bytes,
                            conflict_ix as int,
                            pairs,
                            m as int,
                        ),
                        forall|k: int|
                            0 <= k < rows@.len() ==> (#[trigger] rows@[k]).1 <= usize::MAX,
                    decreases marker_ranges@.len() - m,
                {
                    let ghost sofar = as_painted(rows@);
                    let ghost held = rows@;
                    let ghost upto = rows_of_ranges(bytes, conflict_ix as int, pairs, m as int);
                    let ghost added = rows_within(
                        bytes,
                        conflict_ix as int,
                        marker_ranges@[m as int].start as int,
                        marker_ranges@[m as int].end as int,
                    );
                    push_rows(&mut rows, out, &line_starts, conflict_ix, &marker_ranges[m]);
                    proof {
                        assert(pairs[m as int] == (
                            marker_ranges@[m as int].start as int,
                            marker_ranges@[m as int].end as int,
                        ));
                        assert(before + upto + added =~= before + (upto + added));
                        lemma_rows_fit(
                            bytes,
                            conflict_ix as int,
                            marker_ranges@[m as int].start as int,
                            marker_ranges@[m as int].end as int,
                        );
                        let painted = as_painted(rows@);
                        assert(painted.len() == rows@.len());
                        assert(sofar.len() == held.len());
                        assert forall|k: int| 0 <= k < rows@.len() implies (
                        #[trigger] rows@[k]).1 <= usize::MAX by {
                            assert(painted[k].2 == rows@[k].1);
                            if k < sofar.len() {
                                assert(painted[k] == sofar[k]);
                                assert(sofar[k].2 == held[k].1);
                            } else {
                                assert(painted[k] == added[k - sofar.len()]);
                            }
                        }
                    }
                    m += 1;
                }
                assert(pairs.len() == marker_ranges@.len());
            }
            conflict_ix += 1;
        }
        s += 1;
    }
    proof {
        lemma_blocks_grow(views, s as int, views.len() as int);
    }
    let ghost all = as_painted(rows@);
    let mut sorted: Vec<(Range<usize>, u64)> = Vec::with_capacity(rows.len());
    let mut k: usize = 0;
    assert(as_painted(sorted@) =~= Seq::<Painted>::empty());
    while k < rows.len()
        invariant
            0 <= k <= rows@.len(),
            all == as_painted(rows@),
            forall|j: int| 0 <= j < rows@.len() ==> (#[trigger] rows@[j]).1 <= usize::MAX,
            forall|j: int| 0 <= j < sorted@.len() ==> (#[trigger] sorted@[j]).1 <= usize::MAX,
            as_painted(sorted@) == ordered(all, k as int),
        decreases rows@.len() - k,
    {
        let ghost held = sorted@;
        proof {
            assert(all[k as int] == (
                rows@[k as int].0.start as int,
                rows@[k as int].0.end as int,
                rows@[k as int].1,
            ));
            assert forall|j: int| 0 <= j < as_painted(held).len() implies (
            #[trigger] as_painted(held)[j]).2 <= usize::MAX by {
                assert(as_painted(held)[j].2 == held[j].1);
            }
            lemma_placed_fits(as_painted(held), all[k as int]);
        }
        insert_placed(&mut sorted, rows[k].0.start, rows[k].0.end, rows[k].1);
        assert forall|j: int| 0 <= j < sorted@.len() implies (#[trigger] sorted@[j]).1
            <= usize::MAX by {
            assert(as_painted(sorted@)[j].2 == sorted@[j].1);
        }
        k += 1;
    }
    let mut m: usize = 0;
    while m < sorted.len()
        invariant
            0 <= m <= sorted@.len(),
            forall|j: int| 0 <= j < sorted@.len() ==> (#[trigger] sorted@[j]).1 <= usize::MAX,
            result@.len() == m,
            forall|j: int|
                0 <= j < m ==> as_rows(result@)[j] == #[trigger] as_painted(sorted@)[j],
        decreases sorted@.len() - m,
    {
        let ghost held = result@;
        result.push((sorted[m].0.start..sorted[m].0.end, sorted[m].1 as usize));
        assert forall|j: int| 0 <= j < m + 1 implies as_rows(result@)[j]
            == #[trigger] as_painted(sorted@)[j] by {
            if j < m {
                assert(as_rows(held)[j] == as_painted(sorted@)[j]);
                assert(result@[j] == held[j]);
            }
        }
        m += 1;
    }
    assert(as_rows(result@) =~= as_painted(sorted@));
    assert(all.len() == rows@.len());
    result
}

pub open spec fn numbers_fit(items: Seq<Painted>) -> bool {
    forall|i: int| 0 <= i < items.len() ==> (#[trigger] items[i]).2 <= usize::MAX
}

proof fn lemma_placed_fits(sorted: Seq<Painted>, item: Painted)
    requires
        item.2 <= usize::MAX,
        numbers_fit(sorted),
    ensures
        numbers_fit(placed(sorted, item)),
    decreases sorted.len(),
{
    let all = placed(sorted, item);
    if sorted.len() == 0 || !comes_after(sorted.last(), item) {
        assert forall|i: int| 0 <= i < all.len() implies (#[trigger] all[i]).2 <= usize::MAX by {
            if i < sorted.len() {
                assert(all[i] == sorted[i]);
            }
        }
    } else {
        let shorter = sorted.drop_last();
        assert forall|i: int| 0 <= i < shorter.len() implies (#[trigger] shorter[i]).2
            <= usize::MAX by {
            assert(shorter[i] == sorted[i]);
        }
        lemma_placed_fits(shorter, item);
        let before = placed(shorter, item);
        assert(sorted.last() == sorted[sorted.len() - 1]);
        assert forall|i: int| 0 <= i < all.len() implies (#[trigger] all[i]).2 <= usize::MAX by {
            if i < before.len() {
                assert(all[i] == before[i]);
            }
        }
    }
}

/// The rows of one conflict among the first `n`.
pub open spec fn active_rows(rows: Seq<Painted>, active: Option<usize>, n: int) -> Seq<(int, int)>
    decreases n,
{
    if n <= 0 {
        Seq::empty()
    } else {
        let before = active_rows(rows, active, n - 1);
        if active matches Some(ix) && rows[n - 1].2 == ix {
            before.push((rows[n - 1].0, rows[n - 1].1))
        } else {
            before
        }
    }
}

/// Parts unresolved rows into all of them and those of the conflict in hand.
pub fn resolved_output_unresolved_spans_for_active(
    rows: &[(Range<usize>, usize)],
    active_conflict: Option<usize>,
) -> (spans: ResolvedOutputUnresolvedSpans)
    ensures
        as_pairs(spans.all@) == as_rows(rows@).map_values(|row: Painted| (row.0, row.1)),
        as_pairs(spans.active@) == active_rows(
            as_rows(rows@),
            active_conflict,
            rows@.len() as int,
        ),
{
    let ghost views = as_rows(rows@);
    let mut all: Vec<Range<usize>> = Vec::with_capacity(rows.len());
    let mut active: Vec<Range<usize>> = Vec::new();
    let mut i: usize = 0;
    assert(as_pairs(active@) =~= Seq::<(int, int)>::empty());
    while i < rows.len()
        invariant
            0 <= i <= rows@.len(),
            views == as_rows(rows@),
            all@.len() == i,
            forall|k: int|
                0 <= k < i ==> ((#[trigger] all@[k]).start as int, all@[k].end as int) == (
                    views[k].0,
                    views[k].1,
                ),
            as_pairs(active@) == active_rows(views, active_conflict, i as int),
        decreases rows@.len() - i,
    {
        let start = rows[i].0.start;
        let end = rows[i].0.end;
        assert(views[i as int] == (start as int, end as int, rows@[i as int].1 as u64));
        if let Some(conflict_ix) = active_conflict {
            if rows[i].1 == conflict_ix {
                let ghost before = as_pairs(active@);
                active.push(start..end);
                assert(as_pairs(active@) =~= before.push((start as int, end as int)));
            }
        }
        all.push(start..end);
        i += 1;
    }
    assert(as_pairs(all@) =~= views.map_values(|row: Painted| (row.0, row.1)));
    ResolvedOutputUnresolvedSpans { all, active }
}

/// What is in hand is among all that is unresolved.
pub proof fn law_active_spans_are_unresolved(
    rows: Seq<Painted>,
    active: Option<usize>,
    n: int,
    span: (int, int),
)
    requires
        0 <= n <= rows.len(),
        active_rows(rows, active, n).contains(span),
    ensures
        rows.map_values(|row: Painted| (row.0, row.1)).contains(span),
    decreases n,
{
    if n > 0 {
        let before = active_rows(rows, active, n - 1);
        let all = rows.map_values(|row: Painted| (row.0, row.1));
        if before.contains(span) {
            law_active_spans_are_unresolved(rows, active, n - 1, span);
        } else {
            let k = choose|k: int|
                0 <= k < active_rows(rows, active, n).len() && active_rows(rows, active, n)[k]
                    == span;
            if k < before.len() {
                assert(before[k] == span);
            }
            assert(all[n - 1] == span);
        }
    }
}

/// A row with its line ending.
pub open spec fn full_row(bytes: Seq<u8>, row: int) -> (int, int) {
    let starts = starts_of(bytes);
    (
        starts[row],
        if row + 1 < starts.len() {
            starts[row + 1]
        } else {
            bytes.len() as int
        },
    )
}

/// Those of the first `n` rows that are flagged.
pub open spec fn flagged_rows(bytes: Seq<u8>, flags: Seq<bool>, n: int) -> Seq<(int, int)>
    decreases n,
{
    if n <= 0 {
        Seq::empty()
    } else if flags[n - 1] {
        flagged_rows(bytes, flags, n - 1).push(full_row(bytes, n - 1))
    } else {
        flagged_rows(bytes, flags, n - 1)
    }
}

/// The bytes that cannot be edited: the rows that stand for an open decision,
/// with their line endings. The flags say of each row whether it is one.
pub fn resolved_output_placeholder_protected_ranges(
    output_text: &str,
    is_placeholder: &[bool],
) -> (ranges: Vec<Range<usize>>)
    requires
        is_placeholder@.len() <= newlines(output_text.spec_bytes()) + 1,
    ensures
        as_pairs(ranges@) == flagged_rows(
            output_text.spec_bytes(),
            is_placeholder@,
            is_placeholder@.len() as int,
        ),
{
    let line_starts = build_line_starts(output_text);
    let bytes = output_text.as_bytes();
    proof {
        law_line_starts(bytes@);
        assert(as_ints(line_starts@).len() == line_starts@.len());
    }
    let mut ranges: Vec<Range<usize>> = Vec::new();
    let mut row: usize = 0;
    assert(as_pairs(ranges@) =~= Seq::<(int, int)>::empty());
    while row < is_placeholder.len()
        invariant
            0 <= row <= is_placeholder@.len(),
            is_placeholder@.len() <= line_starts@.len(),
            bytes@ == output_text.spec_bytes(),
            as_ints(line_starts@) == starts_of(bytes@),
            line_starts@.len() == starts_of(bytes@).len(),
            as_pairs(ranges@) == flagged_rows(bytes@, is_placeholder@, row as int),
        decreases is_placeholder@.len() - row,
    {
        if is_placeholder[row] {
            proof {
                assert(as_ints(line_starts@)[row as int] == line_starts@[row as int]);
                if row + 1 < line_starts@.len() {
                    assert(as_ints(line_starts@)[row + 1] == line_starts@[row + 1]);
                }
            }
            let start = line_starts[row];
            let end = if line_starts.len() - row > 1 {
                line_starts[row + 1]
            } else {
                bytes.len()
            };
            let ghost before = as_pairs(ranges@);
            ranges.push(start..end);
            assert(as_pairs(ranges@) =~= before.push((start as int, end as int)));
        }
        row += 1;
    }
    ranges
}

/// A stretch without the line ending at its end, held within the text.
pub open spec fn without_ending(bytes: Seq<u8>, range: (int, int)) -> (int, int) {
    let end = min(range.1, bytes.len() as int);
    let end = if end > range.0 && bytes[end - 1] == NEWLINE {
        end - 1
    } else {
        end
    };
    let end = if end > range.0 && bytes[end - 1] == CARRIAGE_RETURN {
        end - 1
    } else {
        end
    };
    (range.0, end)
}

pub open spec fn masked(bytes: Seq<u8>, ranges: Seq<(int, int)>, n: int) -> Seq<(int, int)>
    decreases n,
{
    if n <= 0 {
        Seq::empty()
    } else {
        let before = masked(bytes, ranges, n - 1);
        let mask = without_ending(bytes, ranges[n - 1]);
        if mask.1 > mask.0 {
            before.push(mask)
        } else {
            before
        }
    }
}

/// What a parser is not to see of protected rows: all but their line endings.
pub fn resolved_output_live_syntax_mask(
    protected_ranges: &[Range<usize>],
    output_text: &str,
) -> (mask: Vec<Range<usize>>)
    ensures
        as_pairs(mask@) == masked(
            output_text.spec_bytes(),
            as_pairs(protected_ranges@),
            protected_ranges@.len() as int,
        ),
{
    let bytes = output_text.as_bytes();
    let ghost pairs = as_pairs(protected_ranges@);
    let mut mask: Vec<Range<usize>> = Vec::with_capacity(protected_ranges.len());
    let mut i: usize = 0;
    assert(as_pairs(mask@) =~= Seq::<(int, int)>::empty());
    while i < protected_ranges.len()
        invariant
            0 <= i <= protected_ranges@.len(),
            pairs == as_pairs(protected_ranges@),
            as_pairs(mask@) == masked(bytes@, pairs, i as int),
        decreases protected_ranges@.len() - i,
    {
        let start = protected_ranges[i].start;
        let mut end = min_usize(protected_ranges[i].end, bytes.len());
        assert(pairs[i as int] == (start as int, protected_ranges@[i as int].end as int));
        if end > start && bytes[end - 1] == NEWLINE {
            end -= 1;
        }
        if end > start && bytes[end - 1] == CARRIAGE_RETURN {
            end -= 1;
        }
        if end > start {
            let ghost before = as_pairs(mask@);
            mask.push(start..end);
            assert(as_pairs(mask@) =~= before.push((start as int, end as int)));
        }
        i += 1;
    }
    mask
}

/// The mask of a row leaves its newline to the parser, so rows stay apart.
pub proof fn law_mask_keeps_newlines(bytes: Seq<u8>, row: int, at: int)
    requires
        0 <= row < starts_of(bytes).len(),
        without_ending(bytes, full_row(bytes, row)).0 <= at < without_ending(
            bytes,
            full_row(bytes, row),
        ).1,
    ensures
        bytes[at] != NEWLINE,
{
    law_line_range(bytes, row);
    law_line_starts(bytes);
    if row + 1 < starts_of(bytes).len() {
        assert(starts_of(bytes)[row] < starts_of(bytes)[row + 1]);
        assert(1 <= starts_of(bytes)[row + 1] <= bytes.len());
        assert(bytes[starts_of(bytes)[row + 1] - 1] == NEWLINE);
    }
}

/// A stretch of a text and what came in its place, by their bounds: where it
/// starts, how long it was, how long it is.
pub struct Folded {
    pub start: int,
    pub old_len: int,
    pub new_len: int,
}

/// One edit behind others, as one.
pub open spec fn fold_edit(before: Folded, replaced: (int, int), inserted: (int, int)) -> Folded {
    let start = min(before.start, replaced.0);
    let right = max(before.start + before.new_len, replaced.1);
    Folded {
        start,
        old_len: right - before.new_len + before.old_len - start,
        new_len: right - (replaced.1 - replaced.0) + (inserted.1 - inserted.0) - start,
    }
}

pub type Edit = ((int, int), (int, int));

pub open spec fn as_edits(deltas: Seq<(Range<usize>, Range<usize>)>) -> Seq<Edit> {
    deltas.map_values(
        |delta: (Range<usize>, Range<usize>)|
            (
                (delta.0.start as int, delta.0.end as int),
                (delta.1.start as int, delta.1.end as int),
            ),
    )
}

/// The first `n` edits as one.
pub open spec fn folded(edits: Seq<Edit>, n: int) -> Folded
    decreases n,
{
    if n <= 1 {
        Folded {
            start: edits[0].0.0,
            old_len: edits[0].0.1 - edits[0].0.0,
            new_len: edits[0].1.1 - edits[0].1.0,
        }
    } else {
        fold_edit(folded(edits, n - 1), edits[n - 1].0, edits[n - 1].1)
    }
}

/// Edits are of stretches that are not turned round, and none makes a text
/// longer than an index can say.
pub open spec fn edits_fit(edits: Seq<Edit>) -> bool {
    &&& forall|i: int|
        0 <= i < edits.len() ==> (#[trigger] edits[i]).0.0 <= edits[i].0.1 && edits[i].1.0
            <= edits[i].1.1
    &&& forall|n: int|
        1 <= n <= edits.len() ==> (#[trigger] folded(edits, n)).start + folded(edits, n).old_len
            <= usize::MAX && folded(edits, n).start + folded(edits, n).new_len <= usize::MAX
}

/// The edits of a text as one edit that covers them all.
pub fn coalesce_resolved_output_edit_deltas(
    deltas: &[(Range<usize>, Range<usize>)],
) -> (edit: Option<(Range<usize>, Range<usize>)>)
    requires
        edits_fit(as_edits(deltas@)),
    ensures
        match edit {
            Some((replaced, inserted)) => {
                let all = folded(as_edits(deltas@), deltas@.len() as int);
                &&& deltas@.len() > 0
                &&& replaced.start == all.start
                &&& replaced.end == all.start + all.old_len
                &&& inserted.start == all.start
                &&& inserted.end == all.start + all.new_len
            },
            None => deltas@.len() == 0,
        },
{
    if deltas.len() == 0 {
        return None;
    }
    let ghost edits = as_edits(deltas@);
    proof {
        assert(edits.len() == deltas@.len());
        assert(edits[0] == (
            (deltas@[0].0.start as int, deltas@[0].0.end as int),
            (deltas@[0].1.start as int, deltas@[0].1.end as int),
        ));
        assert(folded(edits, 1).start == edits[0].0.0);
    }
    let mut start: usize = deltas[0].0.start;
    let mut old_len: usize = deltas[0].0.end - deltas[0].0.start;
    let mut new_len: usize = deltas[0].1.end - deltas[0].1.start;
    let mut i: usize = 1;
    while i < deltas.len()
        invariant
            1 <= i <= deltas@.len(),
            edits == as_edits(deltas@),
            edits.len() == deltas@.len(),
            edits_fit(edits),
            folded(edits, i as int) == (Folded {
                start: start as int,
                old_len: old_len as int,
                new_len: new_len as int,
            }),
        decreases deltas@.len() - i,
    {
        let replaced = &deltas[i].0;
        let inserted = &deltas[i].1;
        proof {
            assert(edits[i as int] == (
                (replaced.start as int, replaced.end as int),
                (inserted.start as int, inserted.end as int),
            ));
            let so_far = folded(edits, i as int);
            assert(so_far.start + so_far.new_len <= usize::MAX);
            let next = folded(edits, i + 1);
            assert(next == fold_edit(so_far, edits[i as int].0, edits[i as int].1));
            assert(next.start + next.old_len <= usize::MAX && next.start + next.new_len
                <= usize::MAX);
        }
        let union_start = min_usize(start, replaced.start);
        let union_right = max_usize(start + new_len, replaced.end);
        let source_right = union_right - new_len + old_len;
        let live_right = union_right - (replaced.end - replaced.start) + (inserted.end
            - inserted.start);
        start = union_start;
        old_len = source_right - union_start;
        new_len = live_right - union_start;
        i += 1;
    }
    proof {
        let all = folded(edits, edits.len() as int);
        assert(all.start + all.old_len <= usize::MAX && all.start + all.new_len <= usize::MAX);
    }
    Some((start..start + old_len, start..start + new_len))
}

/// A text is another one in which a stretch was replaced by as many bytes as
/// were inserted.
pub open spec fn is_edit_of(before: Seq<u8>, after: Seq<u8>, edit: Edit) -> bool {
    let (replaced, inserted) = edit;
    &&& 0 <= replaced.0 <= replaced.1 <= before.len()
    &&& inserted.0 <= inserted.1
    &&& after.len() == before.len() - (replaced.1 - replaced.0) + (inserted.1 - inserted.0)
    &&& after.take(replaced.0) == before.take(replaced.0)
    &&& after.skip(replaced.0 + (inserted.1 - inserted.0)) == before.skip(replaced.1)
}

/// The edit that covers a row of edits leads from the text before them to the
/// text after them: nothing outside it was touched.
pub proof fn law_coalesced_edit_is_sound(texts: Seq<Seq<u8>>, edits: Seq<Edit>, n: int)
    requires
        1 <= n <= edits.len(),
        texts.len() == edits.len() + 1,
        forall|k: int|
            0 <= k < edits.len() ==> is_edit_of(#[trigger] texts[k], texts[k + 1], edits[k]),
    ensures
        ({
            let all = folded(edits, n);
            is_edit_of(
                texts[0],
                texts[n],
                (
                    (all.start, all.start + all.old_len),
                    (all.start, all.start + all.new_len),
                ),
            )
        }),
    decreases n,
{
    assert(is_edit_of(texts[n - 1], texts[n - 1 + 1], edits[n - 1]));
    if n > 1 {
        law_coalesced_edit_is_sound(texts, edits, n - 1);
        let before = folded(edits, n - 1);
        let all = folded(edits, n);
        let (replaced, inserted) = edits[n - 1];
        let (first, middle, last) = (texts[0], texts[n - 1], texts[n]);
        let right = max(before.start + before.new_len, replaced.1);
        // What stands before both edits is the same in all three texts.
        assert forall|i: int| 0 <= i < all.start implies last[i] == first[i] by {
            assert(last.take(replaced.0)[i] == middle.take(replaced.0)[i]);
            assert(middle.take(before.start)[i] == first.take(before.start)[i]);
        }
        assert(last.take(all.start) =~= first.take(all.start));
        // So is what stands behind both.
        let rest = last.skip(all.start + all.new_len);
        let first_rest = first.skip(all.start + all.old_len);
        assert(rest.len() == first_rest.len());
        assert forall|i: int| 0 <= i < rest.len() implies #[trigger] rest[i] == first_rest[i] by {
            let in_middle = right + i;
            let width = inserted.1 - inserted.0;
            assert(last.skip(replaced.0 + width)[in_middle - replaced.1] == middle.skip(
                replaced.1,
            )[in_middle - replaced.1]);
            assert(middle.skip(before.start + before.new_len)[in_middle - (before.start
                + before.new_len)] == first.skip(before.start + before.old_len)[in_middle - (
            before.start + before.new_len)]);
        }
        assert(rest =~= first_rest);
    }
}

/// The line that a byte of a text is on.
pub fn line_index_for_offset(content: &str, offset: usize) -> (line: usize)
    requires
        is_char_boundary(
            content.spec_bytes(),
            min(offset as int, content.spec_bytes().len() as int),
        ),
    ensures
        line == newlines(
            content.spec_bytes().take(min(offset as int, content.spec_bytes().len() as int)),
        ),
{
    let bytes = content.as_bytes();
    let end = min_usize(offset, bytes.len());
    let part = vstd::slice::slice_subrange(bytes, 0, end);
    assert(part@ =~= bytes@.take(end as int));
    count_newline_bytes(part)
}

/// The line that a menu is about: the one clicked on, else that of the cursor.
pub fn conflict_resolver_output_context_line(
    content: &str,
    cursor_offset: usize,
    clicked_offset: Option<usize>,
) -> (line: usize)
    requires
        ({
            let offset = match clicked_offset {
                Some(clicked) => clicked,
                None => cursor_offset,
            };
            is_char_boundary(
                content.spec_bytes(),
                min(offset as int, content.spec_bytes().len() as int),
            )
        }),
    ensures
        ({
            let offset = match clicked_offset {
                Some(clicked) => clicked,
                None => cursor_offset,
            };
            line == newlines(
                content.spec_bytes().take(
                    min(offset as int, content.spec_bytes().len() as int),
                ),
            )
        }),
{
    match clicked_offset {
        Some(offset) => line_index_for_offset(content, offset),
        None => line_index_for_offset(content, cursor_offset),
    }
}

/// The first `n` bounds of spans, behind how many there are.
pub open spec fn span_words(spans: Seq<Range<usize>>, n: int) -> Seq<u64>
    decreases n,
{
    if n <= 0 {
        seq![spans.len() as u64]
    } else {
        span_words(spans, n - 1).push(spans[n - 1].start as u64).push(spans[n - 1].end as u64)
    }
}

fn push_span_words(words: &mut Vec<u64>, spans: &Vec<Range<usize>>)
    ensures
        final(words)@ == old(words)@ + span_words(spans@, spans@.len() as int),
{
    let ghost before = words@;
    words.push(spans.len() as u64);
    let mut i: usize = 0;
    assert(words@ =~= before + span_words(spans@, 0));
    while i < spans.len()
        invariant
            0 <= i <= spans@.len(),
            words@ == before + span_words(spans@, i as int),
        decreases spans@.len() - i,
    {
        words.push(spans[i].start as u64);
        words.push(spans[i].end as u64);
        assert(words@ =~= before + span_words(spans@, i + 1));
        i += 1;
    }
}

/// What marks the keys of highlights over a parsed result.
pub const LIVE_KEY: u64 = 0;

/// What marks the keys of highlights over a result that is not parsed.
pub const HEURISTIC_KEY: u64 = 1;

/// What the highlights over a parsed result depend on, behind a mark.
pub open spec fn live_key_words(
    document_version: u64,
    theme_epoch: u64,
    spans: &ResolvedOutputUnresolvedSpans,
) -> Seq<u64> {
    seq![LIVE_KEY, document_version, theme_epoch] + span_words(
        spans.all@,
        spans.all@.len() as int,
    ) + span_words(spans.active@, spans.active@.len() as int)
}

/// What is digested for the highlights over a parsed result.
pub fn live_provider_key_words(
    document_version: u64,
    theme_epoch: u64,
    unresolved_spans: &ResolvedOutputUnresolvedSpans,
) -> (words: Vec<u64>)
    ensures
        words@ == live_key_words(document_version, theme_epoch, unresolved_spans),
{
    let mut words: Vec<u64> = Vec::new();
    words.push(LIVE_KEY);
    words.push(document_version);
    words.push(theme_epoch);
    assert(words@ =~= seq![LIVE_KEY, document_version, theme_epoch]);
    push_span_words(&mut words, &unresolved_spans.all);
    push_span_words(&mut words, &unresolved_spans.active);
    words
}

/// A key for the highlights over a parsed result: the digest of what they depend on.
pub fn resolved_output_live_provider_binding_key(
    document_version: u64,
    theme_epoch: u64,
    unresolved_spans: &ResolvedOutputUnresolvedSpans,
) -> (key: u64)
    ensures
        key == fx_words_digest(live_key_words(document_version, theme_epoch, unresolved_spans)),
{
    let words = live_provider_key_words(document_version, theme_epoch, unresolved_spans);
    fx_hash_words(words.as_slice())
}

/// What the highlights over a result that is not parsed depend on, marked so
/// that it is not taken for what those over a parsed one depend on.
pub fn heuristic_provider_key_words(
    revision: ResolvedOutputSourceRevision,
    theme_epoch: u64,
    unresolved_spans: &ResolvedOutputUnresolvedSpans,
) -> (words: Vec<u64>)
    ensures
        words@ == heuristic_key_words(revision, theme_epoch, unresolved_spans),
{
    let mut words: Vec<u64> = Vec::new();
    words.push(HEURISTIC_KEY);
    words.push(revision.model_id);
    words.push(revision.revision);
    words.push(theme_epoch);
    assert(words@ =~= seq![HEURISTIC_KEY, revision.model_id, revision.revision, theme_epoch]);
    push_span_words(&mut words, &unresolved_spans.all);
    push_span_words(&mut words, &unresolved_spans.active);
    words
}

pub open spec fn heuristic_key_words(
    revision: ResolvedOutputSourceRevision,
    theme_epoch: u64,
    spans: &ResolvedOutputUnresolvedSpans,
) -> Seq<u64> {
    seq![HEURISTIC_KEY, revision.model_id, revision.revision, theme_epoch] + span_words(
        spans.all@,
        spans.all@.len() as int,
    ) + span_words(spans.active@, spans.active@.len() as int)
}

/// What is digested for a result that is not parsed is never what is digested
/// for a parsed one.
pub proof fn law_key_words_keep_providers_apart(
    version: u64,
    theme: u64,
    spans: &ResolvedOutputUnresolvedSpans,
    revision: ResolvedOutputSourceRevision,
    other_theme: u64,
    other: &ResolvedOutputUnresolvedSpans,
)
    ensures
        live_key_words(version, theme, spans) != heuristic_key_words(revision, other_theme, other),
{
    assert(live_key_words(version, theme, spans)[0] == LIVE_KEY);
    assert(heuristic_key_words(revision, other_theme, other)[0] == HEURISTIC_KEY);
}

/// The key of highlights stays as long as nothing that they depend on changes.
pub proof fn law_live_key_is_stable(
    version: u64,
    theme: u64,
    spans: &ResolvedOutputUnresolvedSpans,
    other: &ResolvedOutputUnresolvedSpans,
)
    requires
        spans.all@ == other.all@,
        spans.active@ == other.active@,
    ensures
        fx_words_digest(live_key_words(version, theme, spans)) == fx_words_digest(
            live_key_words(version, theme, other),
        ),
{
}

/// A key for the highlights over a result that is not parsed: the digest of what they
/// depend on.
pub fn resolved_output_heuristic_provider_binding_key(
    revision: ResolvedOutputSourceRevision,
    theme_epoch: u64,
    unresolved_spans: &ResolvedOutputUnresolvedSpans,
) -> (key: u64)
    ensures
        key == fx_words_digest(heuristic_key_words(revision, theme_epoch, unresolved_spans)),
{
    let words = heuristic_provider_key_words(revision, theme_epoch, unresolved_spans);
    fx_hash_words(words.as_slice())
}

proof fn lemma_span_words_len(spans: Seq<Range<usize>>, n: int)
    requires
        0 <= n <= spans.len(),
    ensures
        span_words(spans, n).len() == 1 + 2 * n,
        span_words(spans, n)[0] == spans.len() as u64,
        forall|i: int|
            0 <= i < n ==> span_words(spans, n)[1 + 2 * i] == (#[trigger] spans[i]).start
                && span_words(spans, n)[2 + 2 * i] == spans[i].end,
    decreases n,
{
    if n > 0 {
        lemma_span_words_len(spans, n - 1);
        assert forall|i: int| 0 <= i < n implies span_words(spans, n)[1 + 2 * i] == (
        #[trigger] spans[i]).start && span_words(spans, n)[2 + 2 * i] == spans[i].end by {
            if i < n - 1 {
                let before = span_words(spans, n - 1);
                assert(span_words(spans, n)[1 + 2 * i] == before[1 + 2 * i]);
                assert(span_words(spans, n)[2 + 2 * i] == before[2 + 2 * i]);
            }
        }
    }
}

/// What highlights depend on tells their spans, version and theme apart: two
/// that differ in any of them are digested differently.
pub proof fn law_live_key_words_tell_apart(
    version: u64,
    theme: u64,
    spans: &ResolvedOutputUnresolvedSpans,
    other_version: u64,
    other_theme: u64,
    other: &ResolvedOutputUnresolvedSpans,
)
    requires
        live_key_words(version, theme, spans) == live_key_words(
            other_version,
            other_theme,
            other,
        ),
        spans.all@.len() <= u64::MAX,
        other.all@.len() <= u64::MAX,
        spans.active@.len() <= u64::MAX,
        other.active@.len() <= u64::MAX,
    ensures
        version == other_version,
        theme == other_theme,
        as_pairs(spans.all@) == as_pairs(other.all@),
        as_pairs(spans.active@) == as_pairs(other.active@),
{
    let words = live_key_words(version, theme, spans);
    let (a, b) = (spans.all@, other.all@);
    let (c, d) = (spans.active@, other.active@);
    let head = seq![LIVE_KEY, version, theme];
    let other_head = seq![LIVE_KEY, other_version, other_theme];
    let (aw, bw) = (span_words(a, a.len() as int), span_words(b, b.len() as int));
    let (cw, dw) = (span_words(c, c.len() as int), span_words(d, d.len() as int));
    let others = other_head + bw + dw;
    lemma_span_words_len(a, a.len() as int);
    lemma_span_words_len(b, b.len() as int);
    lemma_span_words_len(c, c.len() as int);
    lemma_span_words_len(d, d.len() as int);
    assert(words == head + aw + cw);
    assert(words == others);
    assert(words[1] == version && others[1] == other_version);
    assert(words[2] == theme && others[2] == other_theme);
    assert(words[3] == aw[0] && others[3] == bw[0]);
    assert(a.len() == b.len());
    assert(aw.len() == bw.len());
    assert(words[3int + aw.len()] == cw[0] && others[3int + bw.len()] == dw[0]);
    assert(c.len() == d.len());
    assert forall|i: int| 0 <= i < a.len() implies as_pairs(a)[i] == as_pairs(b)[i] by {
        assert(words[3 + (1 + 2 * i)] == aw[1 + 2 * i] && others[3 + (1 + 2 * i)] == bw[1 + 2 * i]);
        assert(words[3 + (2 + 2 * i)] == aw[2 + 2 * i] && others[3 + (2 + 2 * i)] == bw[2 + 2 * i]);
        assert(a[i].start == b[i].start && a[i].end == b[i].end);
    }
    assert(as_pairs(a) =~= as_pairs(b));
    assert forall|i: int| 0 <= i < c.len() implies as_pairs(c)[i] == as_pairs(d)[i] by {
        let at = 3int + aw.len();
        assert(words[at + (1 + 2 * i)] == cw[1 + 2 * i] && others[at + (1 + 2 * i)] == dw[1 + 2
            * i]);
        assert(words[at + (2 + 2 * i)] == cw[2 + 2 * i] && others[at + (2 + 2 * i)] == dw[2 + 2
            * i]);
        assert(c[i].start == d[i].start && c[i].end == d[i].end);
    }
    assert(as_pairs(c) =~= as_pairs(d));
}

/// What unresolved rows depend on: the text, which conflicts are open, and
/// where they are.
#[derive(Clone, Copy, Debug, PartialEq, Eq, Structural)]
pub struct ResolvedOutputKey {
    pub revision: ResolvedOutputSourceRevision,
    pub resolution: u64,
    pub block_map: u64,
}

pub open spec fn slot_word(slot: PickSlot) -> int {
    match slot {
        PickSlot::Nothing => 0,
        PickSlot::Base => 1,
        PickSlot::Ours => 2,
        PickSlot::Theirs => 3,
    }
}

pub open spec fn choice_word(choice: ConflictChoice) -> int {
    slot_word(choice.first) + 4 * slot_word(choice.second) + 16 * slot_word(choice.third)
}

/// What of a segment tells whether it is resolved and how; not its text.
pub open spec fn resolution_word(segment: SegmentView) -> u64 {
    match segment {
        SegmentView::Text(_) => 0,
        SegmentView::Block(block) => (1 + (if block.resolved {
            1int
        } else {
            0int
        }) + 2 * choice_word(block.choice)) as u64,
    }
}

/// Segments with the same word are alike in what was picked.
pub proof fn law_resolution_words_tell_picks_apart(a: BlockView, b: BlockView)
    requires
        resolution_word(SegmentView::Block(a)) == resolution_word(SegmentView::Block(b)),
    ensures
        a.resolved == b.resolved,
        a.choice == b.choice,
{
}

/// Another pick for one conflict changes the digest of the picks, though the text may
/// stay as it is.
pub proof fn law_a_pick_changes_the_digest(
    segments: Seq<SegmentView>,
    at: int,
    before: BlockView,
    picked: BlockView,
)
    requires
        0 <= at < segments.len(),
        segments[at] == SegmentView::Block(before),
        before.resolved != picked.resolved || before.choice != picked.choice,
    ensures
        fx_words_digest(segments.map_values(|segment: SegmentView| resolution_word(segment)))
            != fx_words_digest(
            segments.update(at, SegmentView::Block(picked)).map_values(
                |segment: SegmentView| resolution_word(segment),
            ),
        ),
{
    let words = segments.map_values(|segment: SegmentView| resolution_word(segment));
    let word = resolution_word(SegmentView::Block(picked));
    assert(words.update(at, word) =~= segments.update(at, SegmentView::Block(picked)).map_values(
        |segment: SegmentView| resolution_word(segment),
    ));
    law_one_number_changes_the_digest(words, at, word);
}

fn slot_number(slot: PickSlot) -> (word: u64)
    ensures
        word == slot_word(slot),
{
    match slot {
        PickSlot::Nothing => 0,
        PickSlot::Base => 1,
        PickSlot::Ours => 2,
        PickSlot::Theirs => 3,
    }
}

/// What is digested of which conflicts are resolved.
pub fn resolution_words(marker_segments: &[ConflictSegment]) -> (words: Vec<u64>)
    ensures
        words@ == segment_views(marker_segments@).map_values(
            |segment: SegmentView| resolution_word(segment),
        ),
{
    let ghost views = segment_views(marker_segments@);
    let mut words: Vec<u64> = Vec::with_capacity(marker_segments.len());
    let mut i: usize = 0;
    while i < marker_segments.len()
        invariant
            0 <= i <= marker_segments@.len(),
            views == segment_views(marker_segments@),
            words@.len() == i,
            forall|k: int| 0 <= k < i ==> #[trigger] words@[k] == resolution_word(views[k]),
        decreases marker_segments@.len() - i,
    {
        assert(views[i as int] == marker_segments@[i as int]@);
        let word = match &marker_segments[i] {
            ConflictSegment::Text(_) => 0,
            ConflictSegment::Block(block) => {
                let resolved: u64 = if block.resolved {
                    1
                } else {
                    0
                };
                1 + resolved + 2 * (slot_number(block.choice.first) + 4 * slot_number(
                    block.choice.second,
                ) + 16 * slot_number(block.choice.third))
            },
        };
        words.push(word);
        i += 1;
    }
    assert(words@ =~= views.map_values(|segment: SegmentView| resolution_word(segment)));
    words
}

/// A digest of which conflicts are resolved; see [`resolution_words`].
pub fn resolution_fingerprint(marker_segments: &[ConflictSegment]) -> (digest: u64)
    ensures
        digest == fx_words_digest(
            segment_views(marker_segments@).map_values(
                |segment: SegmentView| resolution_word(segment),
            ),
        ),
{
    let words = resolution_words(marker_segments);
    fx_hash_words(words.as_slice())
}

/// What is digested of where the conflicts are.
pub fn block_map_words(block_map: &ResolvedOutputBlockMap) -> (words: Vec<u64>)
    ensures
        words@ == span_words(block_map.ranges@, block_map.ranges@.len() as int),
{
    let mut words: Vec<u64> = Vec::new();
    push_span_words(&mut words, &block_map.ranges);
    assert(words@ =~= span_words(block_map.ranges@, block_map.ranges@.len() as int));
    words
}

/// A digest of where the conflicts are; see [`block_map_words`].
pub fn block_map_fingerprint(block_map: &ResolvedOutputBlockMap) -> (digest: u64)
    ensures
        digest == fx_words_digest(span_words(block_map.ranges@, block_map.ranges@.len() as int)),
{
    let words = block_map_words(block_map);
    fx_hash_words(words.as_slice())
}

impl ResolvedOutputKey {
    /// The key of a text and its conflicts: which text it is, and digests of which
    /// conflicts are resolved and of where they are.
    pub fn new(
        snapshot: &TextSnapshot,
        marker_segments: &[ConflictSegment],
        block_map: &ResolvedOutputBlockMap,
    ) -> (key: Self)
        ensures
            key.revision.model_id == snapshot.model_id,
            key.revision.revision == snapshot.revision,
            key.resolution == fx_words_digest(
                segment_views(marker_segments@).map_values(
                    |segment: SegmentView| resolution_word(segment),
                ),
            ),
            key.block_map == fx_words_digest(
                span_words(block_map.ranges@, block_map.ranges@.len() as int),
            ),
    {
        ResolvedOutputKey {
            revision: ResolvedOutputSourceRevision::from_snapshot(snapshot),
            resolution: resolution_fingerprint(marker_segments),
            block_map: block_map_fingerprint(block_map),
        }
    }
}

/// Stretches of a row, moved to where the row starts.
pub open spec fn moved(items: Seq<Painted>, by: int) -> Seq<Painted> {
    items.map_values(|item: Painted| (item.0 + by, item.1 + by, item.2))
}

/// The stretches of the rows from one to another.
pub open spec fn rows_painted(
    bytes: Seq<u8>,
    per_row: Seq<Seq<Painted>>,
    first: int,
    end: int,
) -> Seq<Painted>
    decreases end - first,
{
    if end <= first {
        Seq::empty()
    } else {
        rows_painted(bytes, per_row, first, end - 1) + moved(
            per_row[end - 1],
            starts_of(bytes)[end - 1],
        )
    }
}

pub open spec fn painted_rows(per_row: Seq<Vec<(Range<usize>, u64)>>) -> Seq<Seq<Painted>> {
    per_row.map_values(|row: Vec<(Range<usize>, u64)>| as_painted(row@))
}

/// The rows that a stretch of a text overlaps; a last row on which nothing can
/// stand is left out behind others.
pub open spec fn overlapped_rows(bytes: Seq<u8>, start: int, end: int) -> (int, int) {
    let first = row_of(bytes, start);
    let last = row_of(bytes, end);
    (
        first,
        if starts_of(bytes)[last] >= bytes.len() && last > first {
            last
        } else {
            last + 1
        },
    )
}

/// The row that a byte is on.
pub open spec fn row_of(bytes: Seq<u8>, at: int) -> int {
    newlines(bytes.take(at)) as int
}

pub proof fn lemma_row_of(bytes: Seq<u8>, at: int)
    requires
        0 <= at <= bytes.len(),
    ensures
        0 <= row_of(bytes, at) < starts_of(bytes).len(),
        starts_of(bytes)[row_of(bytes, at)] <= at,
        row_of(bytes, at) + 1 < starts_of(bytes).len() ==> at < starts_of(bytes)[row_of(bytes, at)
            + 1],
    decreases bytes.len(),
{
    law_line_starts(bytes);
    if bytes.len() == 0 {
        assert(bytes.take(at) =~= bytes);
    } else if at == bytes.len() {
        assert(bytes.take(at) =~= bytes);
        let last = starts_of(bytes).len() - 1;
        if last > 0 {
            assert(1 <= starts_of(bytes)[last] <= bytes.len());
        }
    } else {
        let shorter = bytes.drop_last();
        lemma_row_of(shorter, at);
        assert(shorter.take(at) =~= bytes.take(at));
        let row = row_of(bytes, at);
        assert(starts_of(bytes)[row] == starts_of(shorter)[row]);
        if row + 1 < starts_of(bytes).len() {
            if row + 1 < starts_of(shorter).len() {
                assert(starts_of(bytes)[row + 1] == starts_of(shorter)[row + 1]);
            } else {
                assert(starts_of(bytes)[row + 1] == bytes.len());
            }
        }
    }
}

/// The highlights of the rows that a stretch of a text overlaps. Those of each
/// row are given by where they stand on it.
pub fn resolved_output_heuristic_highlights_for_range(
    output_text: &str,
    row_highlights: &[Vec<(Range<usize>, u64)>],
    byte_range: Range<usize>,
) -> (highlights: Vec<(Range<usize>, u64)>)
    requires
        row_highlights@.len() == starts_of(output_text.spec_bytes()).len(),
        forall|row: int, i: int|
            0 <= row < row_highlights@.len() && 0 <= i < row_highlights@[row]@.len() ==> (
            #[trigger] row_highlights@[row]@[i]).0.start + output_text.spec_bytes().len()
                <= usize::MAX && row_highlights@[row]@[i].0.end + output_text.spec_bytes().len()
                <= usize::MAX,
    ensures
        ({
            let bytes = output_text.spec_bytes();
            let start = min(byte_range.start as int, bytes.len() as int);
            let end = max(min(byte_range.end as int, bytes.len() as int), start);
            let (first, behind) = overlapped_rows(bytes, start, end);
            as_painted(highlights@) == (if start == end {
                Seq::empty()
            } else {
                rows_painted(bytes, painted_rows(row_highlights@), first, behind)
            })
        }),
{
    let bytes = output_text.as_bytes();
    let len = bytes.len();
    let start = min_usize(byte_range.start, len);
    let end = max_usize(min_usize(byte_range.end, len), start);
    let mut highlights: Vec<(Range<usize>, u64)> = Vec::new();
    assert(as_painted(highlights@) =~= Seq::<Painted>::empty());
    if start == end {
        return highlights;
    }
    let line_starts = build_line_starts(output_text);
    let row_count = line_starts.len();
    let ghost starts = starts_of(bytes@);
    let ghost per_row = painted_rows(row_highlights@);
    proof {
        law_line_starts(bytes@);
        lemma_row_of(bytes@, start as int);
        lemma_row_of(bytes@, end as int);
        assert(as_ints(line_starts@).len() == line_starts@.len());
        assert forall|k: int| 0 <= k < line_starts@.len() implies #[trigger] line_starts@[k]
            == starts[k] by {
            assert(as_ints(line_starts@)[k] == line_starts@[k]);
        }
        assert(is_sorted(line_starts@));
        crate::outline::law_line_at(line_starts@, start as int);
        crate::outline::law_line_at(line_starts@, end as int);
        lemma_same_row(bytes@, line_at(line_starts@, start as int), start as int);
        lemma_same_row(bytes@, line_at(line_starts@, end as int), end as int);
    }
    let first_row = line_index_for_byte_offset(line_starts.as_slice(), start);
    let last_row = line_index_for_byte_offset(line_starts.as_slice(), end);
    assert(last_row < row_count);
    let behind = if line_starts[last_row] >= len && last_row > first_row {
        last_row
    } else {
        last_row + 1
    };
    let mut row = first_row;
    while row < behind
        invariant
            first_row <= row,
            row <= behind || row == first_row,
            behind <= line_starts@.len(),
            bytes@ == output_text.spec_bytes(),
            starts == starts_of(bytes@),
            per_row == painted_rows(row_highlights@),
            line_starts@.len() == starts.len(),
            row_highlights@.len() == starts.len(),
            forall|k: int| 0 <= k < line_starts@.len() ==> #[trigger] line_starts@[k] == starts[k],
            forall|k: int| 0 <= k < starts.len() ==> 0 <= #[trigger] starts[k] <= bytes@.len(),
            forall|r: int, i: int|
                0 <= r < row_highlights@.len() && 0 <= i < row_highlights@[r]@.len() ==> (
                #[trigger] row_highlights@[r]@[i]).0.start + bytes@.len() <= usize::MAX
                    && row_highlights@[r]@[i].0.end + bytes@.len() <= usize::MAX,
            as_painted(highlights@) == rows_painted(
                bytes@,
                per_row,
                first_row as int,
                row as int,
            ),
        decreases behind - row,
    {
        let by = line_starts[row];
        let items = &row_highlights[row];
        let ghost before = as_painted(highlights@);
        let ghost painted = as_painted(items@);
        assert(per_row[row as int] == painted);
        let mut i: usize = 0;
        assert(before + moved(painted, by as int).take(0) =~= before);
        while i < items.len()
            invariant
                0 <= i <= items@.len(),
                items@ == row_highlights@[row as int]@,
                painted == as_painted(items@),
                0 <= row < row_highlights@.len(),
                by <= bytes@.len(),
                forall|r: int, j: int|
                    0 <= r < row_highlights@.len() && 0 <= j < row_highlights@[r]@.len() ==> (
                    #[trigger] row_highlights@[r]@[j]).0.start + bytes@.len() <= usize::MAX
                        && row_highlights@[r]@[j].0.end + bytes@.len() <= usize::MAX,
                as_painted(highlights@) == before + moved(painted, by as int).take(i as int),
            decreases items@.len() - i,
        {
            assert(row_highlights@[row as int]@[i as int] == items@[i as int]);
            let from = by + items[i].0.start;
            let to = by + items[i].0.end;
            let style = items[i].1;
            let ghost sofar = as_painted(highlights@);
            push_painted(&mut highlights, from, to, style);
            proof {
                let all = moved(painted, by as int);
                assert(all[i as int] == (from as int, to as int, style));
                assert(all.take(i + 1) =~= all.take(i as int).push(all[i as int]));
                assert(before + all.take(i + 1) =~= sofar.push((from as int, to as int, style)));
            }
            i += 1;
        }
        assert(moved(painted, by as int).take(items@.len() as int) =~= moved(painted, by as int));
        row += 1;
    }
    highlights
}

proof fn lemma_same_row(bytes: Seq<u8>, row: int, at: int)
    requires
        0 <= at <= bytes.len(),
        0 <= row < starts_of(bytes).len(),
        starts_of(bytes)[row] <= at,
        row + 1 < starts_of(bytes).len() ==> at < starts_of(bytes)[row + 1],
    ensures
        row == row_of(bytes, at),
{
    law_line_starts(bytes);
    lemma_row_of(bytes, at);
    let other = row_of(bytes, at);
    if row < other {
        if row + 1 < other {
            assert(starts_of(bytes)[row + 1] < starts_of(bytes)[other]);
        }
    } else if other < row {
        if other + 1 < row {
            assert(starts_of(bytes)[other + 1] < starts_of(bytes)[row]);
        }
    }
}

} // verus!
