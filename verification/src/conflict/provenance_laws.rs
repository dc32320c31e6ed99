//! What is noted of a line of a merge result is true of it.
use crate::conflict::blocks::is_line_boundary;
use crate::conflict::blocks::lines_of_bytes;
use crate::conflict::blocks::walk;
use crate::conflict::model::block_count;
use crate::conflict::model::lemma_block_count;
use crate::conflict::model::lemma_blocks_grow;
use crate::conflict::model::picked_text;
use crate::conflict::model::BlockView;
use crate::conflict::model::ConflictChoice;
use crate::conflict::model::ConflictOutputSource;
use crate::conflict::model::PickSlot;
use crate::conflict::model::SegmentView;
use crate::conflict::provenance::assigned;
use crate::conflict::provenance::block_columns;
use crate::conflict::provenance::columns_after;
use crate::conflict::provenance::generated;
use crate::conflict::provenance::taken_lines;
use crate::conflict::provenance::with_pick;
use crate::conflict::provenance::with_picks;
use crate::conflict::provenance::with_traces;
use crate::conflict::provenance::Columns;
use crate::conflict::provenance::ResolvedLineMeta;
use crate::conflict::provenance::ResolvedLineSource;
use crate::lines::newlines;
use crate::lines::terminated_lines;
use crate::lines::ConflictResolverViewMode;
use vstd::prelude::*;
use vstd::utf8::encode_utf8;

verus! {

/// The lines of a text, each with the newline that ends it.
pub open spec fn text_lines(bytes: Seq<u8>) -> Seq<Seq<u8>>
    decreases bytes.len(),
{
    if bytes.len() == 0 {
        Seq::empty()
    } else {
        let head = bytes.drop_last();
        let before = text_lines(head);
        if head.len() == 0 || head.last() == 10 {
            before.push(seq![bytes.last()])
        } else {
            before.drop_last().push(before.last().push(bytes.last()))
        }
    }
}

/// A text that ends with a whole line, or has none.
pub open spec fn ends_line(bytes: Seq<u8>) -> bool {
    bytes.len() == 0 || bytes.last() == 10
}

proof fn lemma_some_lines(bytes: Seq<u8>)
    ensures
        (text_lines(bytes).len() == 0) == (bytes.len() == 0),
    decreases bytes.len(),
{
    if bytes.len() > 0 {
        lemma_some_lines(bytes.drop_last());
    }
}

/// A text has as many lines as are counted: one for each newline, and one more where
/// something stands behind the last newline.
pub proof fn law_lines_are_counted(bytes: Seq<u8>)
    ensures
        terminated_lines(bytes) == text_lines(bytes).len(),
        newlines(bytes) == text_lines(bytes).len() - (if ends_line(bytes) {
            0int
        } else {
            1int
        }),
    decreases bytes.len(),
{
    if bytes.len() > 0 {
        law_lines_are_counted(bytes.drop_last());
        lemma_some_lines(bytes.drop_last());
    }
}

/// The lines of two texts one behind the other are those of each, where the first ends
/// with a whole line.
pub proof fn law_lines_of_texts_add_up(a: Seq<u8>, b: Seq<u8>)
    requires
        ends_line(a),
    ensures
        text_lines(a + b) == text_lines(a) + text_lines(b),
    decreases b.len(),
{
    if b.len() == 0 {
        assert(a + b =~= a);
        assert(text_lines(a) + text_lines(b) =~= text_lines(a));
    } else {
        let both = a + b;
        assert(both.drop_last() =~= a + b.drop_last());
        law_lines_of_texts_add_up(a, b.drop_last());
        lemma_some_lines(b.drop_last());
        let before = text_lines(b.drop_last());
        if b.len() == 1 {
            assert(both.drop_last() =~= a);
            assert(text_lines(a).push(seq![b.last()]) =~= text_lines(a) + text_lines(b));
        } else if b.drop_last().last() == 10 {
            assert(both.drop_last().last() == 10);
            assert((text_lines(a) + before).push(seq![b.last()]) =~= text_lines(a) + before.push(
                seq![b.last()],
            ));
        } else {
            assert(both.drop_last().last() == b.drop_last().last());
            let all = text_lines(a) + before;
            assert(all.drop_last() =~= text_lines(a) + before.drop_last());
            assert(all.last() == before.last());
            assert(all.drop_last().push(all.last().push(b.last())) =~= text_lines(a)
                + before.drop_last().push(before.last().push(b.last())));
        }
    }
}

proof fn lemma_lines_prefix(a: Seq<u8>, b: Seq<u8>, i: int)
    requires
        ends_line(a),
        0 <= i < text_lines(b).len(),
    ensures
        text_lines(a + b)[text_lines(a).len() + i] == text_lines(b)[i],
{
    law_lines_of_texts_add_up(a, b);
}

/// What a segment has in a column: text between conflicts in every one; of a conflict
/// the base, ours and theirs in three, or ours and theirs in two.
pub open spec fn column_piece(
    segment: SegmentView,
    view_mode: ConflictResolverViewMode,
    column: ResolvedLineSource,
) -> Seq<u8> {
    match segment {
        SegmentView::Text(text) => encode_utf8(text),
        SegmentView::Block(block) => match (view_mode, column) {
            (ConflictResolverViewMode::ThreeWay, ResolvedLineSource::A) => match block.base {
                Some(base) => encode_utf8(base),
                None => Seq::empty(),
            },
            (ConflictResolverViewMode::ThreeWay, ResolvedLineSource::B) => encode_utf8(block.ours),
            (ConflictResolverViewMode::ThreeWay, ResolvedLineSource::C) => encode_utf8(
                block.theirs,
            ),
            (ConflictResolverViewMode::TwoWayDiff, ResolvedLineSource::A) => encode_utf8(
                block.ours,
            ),
            (ConflictResolverViewMode::TwoWayDiff, ResolvedLineSource::B) => encode_utf8(
                block.theirs,
            ),
            _ => Seq::empty(),
        },
    }
}

/// The text of a column down to a segment.
pub open spec fn column_text(
    segments: Seq<SegmentView>,
    view_mode: ConflictResolverViewMode,
    column: ResolvedLineSource,
    n: int,
) -> Seq<u8>
    decreases n,
{
    if n <= 0 {
        Seq::empty()
    } else {
        column_text(segments, view_mode, column, n - 1) + column_piece(
            segments[n - 1],
            view_mode,
            column,
        )
    }
}

/// Every piece of a column ends its lines, down to a segment.
pub open spec fn column_ends_lines(
    segments: Seq<SegmentView>,
    view_mode: ConflictResolverViewMode,
    column: ResolvedLineSource,
    n: int,
) -> bool {
    forall|k: int| 0 <= k < n ==> ends_line(#[trigger] column_piece(segments[k], view_mode, column))
}

/// A line of the screen can be of a column.
pub open spec fn is_column(
    view_mode: ConflictResolverViewMode,
    column: ResolvedLineSource,
) -> bool {
    ||| column == ResolvedLineSource::A
    ||| column == ResolvedLineSource::B
    ||| column == ResolvedLineSource::C && view_mode == ConflictResolverViewMode::ThreeWay
}

spec fn reached(columns: Columns, column: ResolvedLineSource) -> int {
    match column {
        ResolvedLineSource::A => columns.a,
        ResolvedLineSource::B => columns.b,
        _ => columns.c,
    }
}

proof fn lemma_column(
    segments: Seq<SegmentView>,
    view_mode: ConflictResolverViewMode,
    column: ResolvedLineSource,
    n: int,
)
    requires
        0 <= n <= segments.len(),
        is_column(view_mode, column),
        column_ends_lines(segments, view_mode, column, n),
        text_lines(column_text(segments, view_mode, column, n)).len() < u32::MAX,
    ensures
        ends_line(column_text(segments, view_mode, column, n)),
        reached(columns_after(segments, view_mode, n), column) == 1 + text_lines(
            column_text(segments, view_mode, column, n),
        ).len(),
    decreases n,
{
    if n > 0 {
        let before = column_text(segments, view_mode, column, n - 1);
        let piece = column_piece(segments[n - 1], view_mode, column);
        assert(ends_line(piece));
        lemma_column_ends(segments, view_mode, column, n - 1);
        law_lines_of_texts_add_up(before, piece);
        lemma_column(segments, view_mode, column, n - 1);
        law_lines_are_counted(piece);
        assert(encode_utf8(Seq::empty()).len() == 0);
        assert(encode_utf8(Seq::empty()) =~= Seq::<u8>::empty());
    }
}

proof fn lemma_column_ends(
    segments: Seq<SegmentView>,
    view_mode: ConflictResolverViewMode,
    column: ResolvedLineSource,
    n: int,
)
    requires
        0 <= n <= segments.len(),
        column_ends_lines(segments, view_mode, column, n),
    ensures
        ends_line(column_text(segments, view_mode, column, n)),
    decreases n,
{
    if n > 0 {
        lemma_column_ends(segments, view_mode, column, n - 1);
        let piece = column_piece(segments[n - 1], view_mode, column);
        assert(ends_line(piece));
        let before = column_text(segments, view_mode, column, n - 1);
        if piece.len() > 0 {
            assert((before + piece).last() == piece.last());
        } else {
            assert(before + piece =~= before);
        }
    }
}

/// The column that shows a version, where one does.
pub open spec fn column_of(view_mode: ConflictResolverViewMode, slot: PickSlot) -> Option<
    ResolvedLineSource,
> {
    match (view_mode, slot) {
        (ConflictResolverViewMode::ThreeWay, PickSlot::Base) => Some(ResolvedLineSource::A),
        (ConflictResolverViewMode::ThreeWay, PickSlot::Ours) => Some(ResolvedLineSource::B),
        (ConflictResolverViewMode::ThreeWay, PickSlot::Theirs) => Some(ResolvedLineSource::C),
        (ConflictResolverViewMode::TwoWayDiff, PickSlot::Ours) => Some(ResolvedLineSource::A),
        (ConflictResolverViewMode::TwoWayDiff, PickSlot::Theirs) => Some(ResolvedLineSource::B),
        _ => None,
    }
}

/// What a version of a conflict reads.
pub open spec fn version_bytes(block: BlockView, slot: PickSlot) -> Seq<u8> {
    match slot {
        PickSlot::Nothing => Seq::empty(),
        PickSlot::Base => match block.base {
            Some(base) => encode_utf8(base),
            None => Seq::empty(),
        },
        PickSlot::Ours => encode_utf8(block.ours),
        PickSlot::Theirs => encode_utf8(block.theirs),
    }
}

/// What is noted of a line is true: it names a column, and the line of it that reads as
/// the line does; or it names no line, where the version has no such line.
pub open spec fn note_is_true(
    note: ResolvedLineMeta,
    segments: Seq<SegmentView>,
    view_mode: ConflictResolverViewMode,
    k: int,
    column: ResolvedLineSource,
    version: Seq<u8>,
    off: int,
) -> bool {
    &&& note.source == column
    &&& note.input_line is Some == (off < text_lines(version).len())
    &&& note.input_line matches Some(line) ==> {
        let lines = text_lines(column_text(segments, view_mode, column, k + 1));
        1 <= line <= lines.len() && lines[line - 1] == text_lines(version)[off]
    }
}

proof fn lemma_note(
    segments: Seq<SegmentView>,
    view_mode: ConflictResolverViewMode,
    k: int,
    column: ResolvedLineSource,
    meta: Seq<ResolvedLineMeta>,
    range: (int, int),
    i: int,
)
    requires
        0 <= k < segments.len(),
        is_column(view_mode, column),
        column_ends_lines(segments, view_mode, column, k),
        text_lines(column_text(segments, view_mode, column, k + 1)).len() < u32::MAX,
        0 <= range.0 <= i < range.1,
        i < meta.len(),
        segments[k] is Block,
    ensures
        ({
            let piece = column_piece(segments[k], view_mode, column);
            let columns = columns_after(segments, view_mode, k);
            let counts = block_columns(segments[k]->Block_0, view_mode);
            note_is_true(
                assigned(
                    meta,
                    range,
                    column,
                    reached(columns, column),
                    reached(counts, column),
                )[i],
                segments,
                view_mode,
                k,
                column,
                piece,
                i - range.0,
            )
        }),
{
    let before = column_text(segments, view_mode, column, k);
    let piece = column_piece(segments[k], view_mode, column);
    let off = i - range.0;
    lemma_column_ends(segments, view_mode, column, k);
    law_lines_of_texts_add_up(before, piece);
    lemma_column(segments, view_mode, column, k);
    law_lines_are_counted(piece);
    assert(encode_utf8(Seq::empty()).len() == 0);
    assert(encode_utf8(Seq::empty()) =~= Seq::<u8>::empty());
    if off < text_lines(piece).len() {
        lemma_lines_prefix(before, piece, off);
    }
}

/// Where one version was picked for a conflict, each of its lines is noted as the line
/// of that version's column that reads the same.
pub proof fn law_noted_line_is_that_line(
    segments: Seq<SegmentView>,
    view_mode: ConflictResolverViewMode,
    k: int,
    slot: PickSlot,
    meta: Seq<ResolvedLineMeta>,
    range: (int, int),
    i: int,
)
    requires
        0 <= k < segments.len(),
        segments[k] matches SegmentView::Block(block) && block.choice == (ConflictChoice {
            first: slot,
            second: PickSlot::Nothing,
            third: PickSlot::Nothing,
        }),
        column_of(view_mode, slot) is Some,
        column_ends_lines(segments, view_mode, column_of(view_mode, slot)->Some_0, k),
        text_lines(
            column_text(segments, view_mode, column_of(view_mode, slot)->Some_0, k + 1),
        ).len() < u32::MAX,
        0 <= range.0 <= i < range.1,
        i < meta.len(),
    ensures
        note_is_true(
            with_pick(
                meta,
                range,
                segments[k]->Block_0,
                view_mode,
                columns_after(segments, view_mode, k),
            )[i],
            segments,
            view_mode,
            k,
            column_of(view_mode, slot)->Some_0,
            version_bytes(segments[k]->Block_0, slot),
            i - range.0,
        ),
{
    lemma_note(segments, view_mode, k, column_of(view_mode, slot)->Some_0, meta, range, i);
}

/// Where ours and then theirs were picked, the first lines are noted as those of ours
/// and the others as those of theirs.
pub proof fn law_noted_line_of_both_is_that_line(
    segments: Seq<SegmentView>,
    view_mode: ConflictResolverViewMode,
    k: int,
    meta: Seq<ResolvedLineMeta>,
    range: (int, int),
    i: int,
)
    requires
        0 <= k < segments.len(),
        segments[k] matches SegmentView::Block(block) && block.choice == (ConflictChoice {
            first: PickSlot::Ours,
            second: PickSlot::Theirs,
            third: PickSlot::Nothing,
        }),
        ({
            let ours = column_of(view_mode, PickSlot::Ours)->Some_0;
            let theirs = column_of(view_mode, PickSlot::Theirs)->Some_0;
            &&& column_ends_lines(segments, view_mode, ours, k)
            &&& column_ends_lines(segments, view_mode, theirs, k)
            &&& text_lines(column_text(segments, view_mode, ours, k + 1)).len() < u32::MAX
            &&& text_lines(column_text(segments, view_mode, theirs, k + 1)).len() < u32::MAX
        }),
        0 <= range.0 <= i < range.1 <= usize::MAX,
        i < meta.len(),
    ensures
        ({
            let block = segments[k]->Block_0;
            let ours = text_lines(version_bytes(block, PickSlot::Ours)).len();
            let of_ours = i - range.0 < ours;
            let slot = if of_ours {
                PickSlot::Ours
            } else {
                PickSlot::Theirs
            };
            note_is_true(
                with_pick(meta, range, block, view_mode, columns_after(segments, view_mode, k))[i],
                segments,
                view_mode,
                k,
                column_of(view_mode, slot)->Some_0,
                version_bytes(block, slot),
                if of_ours {
                    i - range.0
                } else {
                    i - range.0 - ours
                },
            )
        }),
{
    let block = segments[k]->Block_0;
    let first = column_of(view_mode, PickSlot::Ours)->Some_0;
    let second = column_of(view_mode, PickSlot::Theirs)->Some_0;
    let columns = columns_after(segments, view_mode, k);
    let counts = block_columns(block, view_mode);
    let ours = text_lines(version_bytes(block, PickSlot::Ours)).len();
    law_lines_are_counted(version_bytes(block, PickSlot::Ours));
    let before = column_text(segments, view_mode, first, k);
    lemma_column_ends(segments, view_mode, first, k);
    law_lines_of_texts_add_up(before, version_bytes(block, PickSlot::Ours));
    assert(reached(counts, first) == ours);
    let middle = if range.1 - range.0 <= ours {
        range.1
    } else {
        range.0 + ours
    };
    let half = assigned(
        meta,
        (range.0, middle),
        first,
        reached(columns, first),
        reached(counts, first),
    );
    let after = with_pick(meta, range, block, view_mode, columns);
    assert(after == assigned(
        half,
        (middle, range.1),
        second,
        reached(columns, second),
        reached(counts, second),
    ));
    if i < middle {
        lemma_note(segments, view_mode, k, first, meta, (range.0, middle), i);
        assert(after[i] == half[i]);
    } else {
        lemma_note(segments, view_mode, k, second, half, (middle, range.1), i);
    }
}

/// A conflict for which nothing was picked is nobody's line.
pub proof fn law_open_conflict_is_no_ones(
    meta: Seq<ResolvedLineMeta>,
    range: (int, int),
    block: BlockView,
    view_mode: ConflictResolverViewMode,
    columns: Columns,
    i: int,
)
    requires
        !block.resolved,
        block.choice == (ConflictChoice {
            first: PickSlot::Nothing,
            second: PickSlot::Nothing,
            third: PickSlot::Nothing,
        }),
        range.0 <= i < range.1,
        0 <= i < meta.len(),
    ensures
        with_pick(meta, range, block, view_mode, columns)[i] == (ResolvedLineMeta {
            source: ResolvedLineSource::Manual,
            input_line: None,
        }),
{
}

/// Each conflict is noted on its own lines: what is noted of a line in the end is what
/// its conflict was noted with.
pub proof fn law_each_conflict_is_noted_on_its_lines(
    meta: Seq<ResolvedLineMeta>,
    segments: Seq<SegmentView>,
    ranges: Seq<(int, int)>,
    view_mode: ConflictResolverViewMode,
    k: int,
    n: int,
    i: int,
)
    requires
        0 <= k < n <= segments.len(),
        segments[k] is Block,
        block_count(segments, k) < ranges.len(),
        ranges[block_count(segments, k)].0 <= i < ranges[block_count(segments, k)].1,
        0 <= i < meta.len(),
        forall|b: int|
            0 <= b < ranges.len() ==> 0 <= (#[trigger] ranges[b]).0 <= usize::MAX && ranges[b].1
                <= usize::MAX,
        forall|b: int|
            0 <= b < ranges.len() && b != block_count(segments, k) ==> !((#[trigger] ranges[b]).0
                <= i < ranges[b].1),
    ensures
        with_picks(meta, segments, ranges, view_mode, n)[i] == with_pick(
            with_picks(meta, segments, ranges, view_mode, k),
            ranges[block_count(segments, k)],
            segments[k]->Block_0,
            view_mode,
            columns_after(segments, view_mode, k),
        )[i],
        with_picks(meta, segments, ranges, view_mode, n).len() == meta.len(),
        with_picks(meta, segments, ranges, view_mode, k).len() == meta.len(),
    decreases n,
{
    lemma_lens(meta, segments, ranges, view_mode, n);
    lemma_lens(meta, segments, ranges, view_mode, k);
    if n > k + 1 {
        law_each_conflict_is_noted_on_its_lines(meta, segments, ranges, view_mode, k, n - 1, i);
        let block_ix = block_count(segments, n - 1);
        lemma_block_count(segments, n - 1);
        lemma_blocks_grow(segments, k + 1, n - 1);
        assert(block_ix > block_count(segments, k));
        if segments[n - 1] is Block && block_ix < ranges.len() {
            assert(!(ranges[block_ix].0 <= i < ranges[block_ix].1));
        }
    }
}

proof fn lemma_lens(
    meta: Seq<ResolvedLineMeta>,
    segments: Seq<SegmentView>,
    ranges: Seq<(int, int)>,
    view_mode: ConflictResolverViewMode,
    n: int,
)
    ensures
        with_picks(meta, segments, ranges, view_mode, n).len() == meta.len(),
    decreases n,
{
    if n > 0 {
        lemma_lens(meta, segments, ranges, view_mode, n - 1);
    }
}

/// The lines of a version, as they are counted.
pub open spec fn count_of(counts: Columns, source: ConflictOutputSource) -> int {
    match source {
        ConflictOutputSource::Base => counts.a,
        ConflictOutputSource::Ours => counts.b,
        ConflictOutputSource::Theirs => counts.c,
    }
}

/// The lines of the first picked versions.
pub open spec fn counts_before(
    sources: Seq<ConflictOutputSource>,
    counts: Columns,
    n: int,
) -> int
    decreases n,
{
    if n <= 0 {
        0
    } else {
        counts_before(sources, counts, n - 1) + count_of(counts, sources[n - 1])
    }
}

proof fn lemma_taken(
    sources: Seq<ConflictOutputSource>,
    range: (int, int),
    lines: Columns,
    counts: Columns,
    n: int,
    all: int,
)
    requires
        0 <= n <= all <= sources.len(),
        counts.a >= 0 && counts.b >= 0 && counts.c >= 0,
        0 <= range.0 <= range.1 <= usize::MAX,
        counts_before(sources, counts, all) <= range.1 - range.0,
    ensures
        taken_lines(sources, range, lines, counts, n) == counts_before(sources, counts, n),
        0 <= counts_before(sources, counts, n) <= counts_before(sources, counts, all),
    decreases all, n,
{
    lemma_counts_grow(sources, counts, n, all);
    if n > 0 {
        lemma_taken(sources, range, lines, counts, n - 1, all);
    }
}

proof fn lemma_counts_grow(
    sources: Seq<ConflictOutputSource>,
    counts: Columns,
    n: int,
    m: int,
)
    requires
        0 <= n <= m <= sources.len(),
        counts.a >= 0 && counts.b >= 0 && counts.c >= 0,
    ensures
        0 <= counts_before(sources, counts, n) <= counts_before(sources, counts, m),
    decreases m + n,
{
    if n < m {
        lemma_counts_grow(sources, counts, n, m - 1);
    } else if n > 0 {
        lemma_counts_grow(sources, counts, n - 1, n - 1);
    }
}

/// A line of a conflict that was still open is traced to the picked version that it is
/// part of, in the order of the picks, and to its line there; a line that was traced
/// before stays.
pub proof fn law_open_lines_are_traced_in_order(
    meta: Seq<ResolvedLineMeta>,
    sources: Seq<ConflictOutputSource>,
    range: (int, int),
    lines: Columns,
    counts: Columns,
    pick: int,
    n: int,
    i: int,
)
    requires
        0 <= pick < n <= sources.len(),
        0 <= counts.a && 0 <= counts.b && 0 <= counts.c,
        1 <= lines.a && 1 <= lines.b && 1 <= lines.c,
        lines.a + counts.a <= u32::MAX && lines.b + counts.b <= u32::MAX && lines.c + counts.c
            <= u32::MAX,
        0 <= range.0 <= range.1 <= usize::MAX,
        counts_before(sources, counts, n) <= range.1 - range.0,
        counts_before(sources, counts, pick) <= i - range.0 < counts_before(
            sources,
            counts,
            pick + 1,
        ),
        0 <= i < meta.len(),
    ensures
        with_traces(meta, sources, range, lines, counts, n).len() == meta.len(),
        ({
            let after = with_traces(meta, sources, range, lines, counts, n)[i];
            let off = i - range.0 - counts_before(sources, counts, pick);
            if meta[i].source == ResolvedLineSource::B || meta[i].source == ResolvedLineSource::C {
                after == meta[i]
            } else {
                match sources[pick] {
                    ConflictOutputSource::Base => after.source == ResolvedLineSource::A
                        && after.input_line == Some((lines.a + off) as u32),
                    ConflictOutputSource::Ours => after.source == ResolvedLineSource::B
                        && after.input_line == Some((lines.b + off) as u32),
                    ConflictOutputSource::Theirs => after.source == ResolvedLineSource::C
                        && after.input_line == Some((lines.c + off) as u32),
                }
            }
        }),
    decreases n,
{
    lemma_taken(sources, range, lines, counts, n, n);
    lemma_taken(sources, range, lines, counts, n - 1, n);
    lemma_counts_grow(sources, counts, n - 1, n);
    lemma_counts_grow(sources, counts, pick + 1, n);
    if pick < n - 1 {
        lemma_counts_grow(sources, counts, pick + 1, n - 1);
        law_open_lines_are_traced_in_order(
            meta,
            sources,
            range,
            lines,
            counts,
            pick,
            n - 1,
            i,
        );
    } else {
        lemma_untouched(meta, sources, range, lines, counts, n - 1, i);
    }
}

proof fn lemma_untouched(
    meta: Seq<ResolvedLineMeta>,
    sources: Seq<ConflictOutputSource>,
    range: (int, int),
    lines: Columns,
    counts: Columns,
    n: int,
    i: int,
)
    requires
        0 <= n <= sources.len(),
        0 <= counts.a && 0 <= counts.b && 0 <= counts.c,
        0 <= range.0 <= range.1 <= usize::MAX,
        counts_before(sources, counts, n) <= range.1 - range.0,
        counts_before(sources, counts, n) <= i - range.0,
        0 <= i < meta.len(),
    ensures
        with_traces(meta, sources, range, lines, counts, n).len() == meta.len(),
        with_traces(meta, sources, range, lines, counts, n)[i] == meta[i],
    decreases n,
{
    if n > 0 {
        lemma_counts_grow(sources, counts, n - 1, n);
        lemma_taken(sources, range, lines, counts, n - 1, n);
        lemma_untouched(meta, sources, range, lines, counts, n - 1, i);
    }
}

/// A pick writes the versions that it names, in its order, and nothing else.
pub proof fn law_pick_writes_its_versions_in_order(
    base: Seq<char>,
    ours: Seq<char>,
    theirs: Seq<char>,
    choice: ConflictChoice,
)
    ensures
        ({
            let text = |slot: PickSlot|
                match slot {
                    PickSlot::Nothing => Seq::<char>::empty(),
                    PickSlot::Base => base,
                    PickSlot::Ours => ours,
                    PickSlot::Theirs => theirs,
                };
            picked_text(base, ours, theirs, choice.sources(), choice.sources().len() as int) == text(
                choice.first,
            ) + text(choice.second) + text(choice.third)
        }),
{
    let sources = choice.sources();
    reveal_with_fuel(picked_text, 4);
    let text = |slot: PickSlot|
        match slot {
            PickSlot::Nothing => Seq::<char>::empty(),
            PickSlot::Base => base,
            PickSlot::Ours => ours,
            PickSlot::Theirs => theirs,
        };
    assert(picked_text(base, ours, theirs, sources, sources.len() as int) =~= text(choice.first)
        + text(choice.second) + text(choice.third));
}

/// The picks that have names: each version alone, ours before theirs, and nothing.
pub proof fn law_named_picks_are_what_they_say(slot: PickSlot)
    ensures
        ConflictChoice::spec_single(slot) == (ConflictChoice {
            first: slot,
            second: PickSlot::Nothing,
            third: PickSlot::Nothing,
        }),
        ConflictChoice::spec_both() == (ConflictChoice {
            first: PickSlot::Ours,
            second: PickSlot::Theirs,
            third: PickSlot::Nothing,
        }),
        ConflictChoice::spec_empty() == (ConflictChoice {
            first: PickSlot::Nothing,
            second: PickSlot::Nothing,
            third: PickSlot::Nothing,
        }),
{
}

/// A result is its segments one behind the other: each stands right behind those before
/// it, a conflict as it is drawn.
pub proof fn law_result_is_its_segments(
    segments: Seq<SegmentView>,
    drawn: Seq<String>,
    k: int,
    n: int,
)
    requires
        0 <= k < n <= segments.len(),
    ensures
        generated(segments, drawn, 0).len() == 0,
        ({
            let piece = match segments[k] {
                SegmentView::Text(text) => text,
                SegmentView::Block(_) => drawn[block_count(segments, k)]@,
            };
            let at = generated(segments, drawn, k).len() as int;
            let all = generated(segments, drawn, n);
            &&& at + piece.len() <= all.len()
            &&& all.subrange(at, at + piece.len()) == piece
            &&& generated(segments, drawn, k + 1).len() == at + piece.len()
        }),
    decreases n,
{
    let piece = match segments[k] {
        SegmentView::Text(text) => text,
        SegmentView::Block(_) => drawn[block_count(segments, k)]@,
    };
    let at = generated(segments, drawn, k).len() as int;
    let all = generated(segments, drawn, n);
    if n == k + 1 {
        assert(all.subrange(at, at + piece.len()) =~= piece);
    } else {
        law_result_is_its_segments(segments, drawn, k, n - 1);
        let before = generated(segments, drawn, n - 1);
        assert(all.subrange(at, at + piece.len()) =~= before.subrange(at, at + piece.len()));
    }
}

/// The lines that a stretch of whole lines is said to be on hold just that stretch.
pub proof fn law_lines_of_a_stretch_hold_it(out: Seq<u8>, start: int, end: int)
    requires
        0 <= start <= end <= out.len(),
        ends_line(out.take(start)),
        end == out.len() || ends_line(out.take(end)),
    ensures
        ({
            let lines = lines_of_bytes(out, (start, end));
            &&& 0 <= lines.0 <= lines.1 <= text_lines(out).len()
            &&& text_lines(out).subrange(lines.0, lines.1) == text_lines(out.subrange(start, end))
        }),
{
    let head = out.take(start);
    let part = out.subrange(start, end);
    let upto = out.take(end);
    let tail = out.subrange(end, out.len() as int);
    assert(upto =~= head + part);
    assert(out =~= upto + tail);
    law_lines_are_counted(head);
    law_lines_are_counted(upto);
    law_lines_of_texts_add_up(head, part);
    if end == out.len() {
        assert(upto =~= out);
        if start < end {
            assert(upto.last() == out[end - 1]);
        }
        assert(text_lines(out).subrange(
            text_lines(head).len() as int,
            text_lines(out).len() as int,
        ) =~= text_lines(part));
    } else {
        law_lines_of_texts_add_up(upto, tail);
        assert(text_lines(out).subrange(
            text_lines(head).len() as int,
            text_lines(upto).len() as int,
        ) =~= text_lines(part));
    }
    if start == end {
        assert(upto =~= head);
        assert(part =~= Seq::<u8>::empty());
    }
}

/// A place is the edge of a line at either end of a text and behind every newline.
pub proof fn law_lines_end_at_newlines(out: Seq<u8>, at: int)
    requires
        0 <= at <= out.len(),
    ensures
        is_line_boundary(out, at) == (at == out.len() || ends_line(out.take(at))),
{
    if at > 0 {
        assert(out.take(at).last() == out[at - 1]);
    }
}

/// Conflicts are found where they stand: each as it is drawn, on lines of its own, and
/// the text up to the end of the last segment is the segments one behind the other.
pub proof fn law_conflicts_are_found_where_they_stand(
    segments: Seq<SegmentView>,
    drawn: Seq<Seq<u8>>,
    out: Seq<u8>,
    n: int,
)
    requires
        0 <= n <= segments.len(),
        walk(segments, drawn, out, n) is Some,
    ensures
        ({
            let found = walk(segments, drawn, out, n)->Some_0;
            &&& 0 <= found.cursor <= out.len()
            &&& found.blocks.len() == block_count(segments, n)
            &&& forall|b: int|
                0 <= b < found.blocks.len() ==> 0 <= (#[trigger] found.blocks[b]).0
                    <= found.blocks[b].1 <= found.cursor && out.subrange(
                    found.blocks[b].0,
                    found.blocks[b].1,
                ) == drawn[b] && (found.blocks[b].0 == out.len() || ends_line(
                    out.take(found.blocks[b].0),
                )) && (found.blocks[b].1 == out.len() || ends_line(out.take(found.blocks[b].1)))
            &&& n == 0 ==> found.cursor == 0
            &&& n > 0 ==> walk(segments, drawn, out, n - 1) is Some && ({
                let from = walk(segments, drawn, out, n - 1)->Some_0.cursor;
                let piece = match segments[n - 1] {
                    SegmentView::Text(text) => encode_utf8(text),
                    SegmentView::Block(_) => drawn[block_count(segments, n - 1)],
                };
                0 <= from <= found.cursor && out.subrange(from, found.cursor) == piece
            })
        }),
    decreases n,
{
    if n > 0 {
        law_conflicts_are_found_where_they_stand(segments, drawn, out, n - 1);
        let before = walk(segments, drawn, out, n - 1)->Some_0;
        law_lines_end_at_newlines(out, before.cursor);
        law_lines_end_at_newlines(out, walk(segments, drawn, out, n)->Some_0.cursor);
    }
}

} // verus!
