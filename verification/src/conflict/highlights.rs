//! Painting the unresolved rows of a merge result over its syntax colours.
use crate::num::max;
use crate::num::max_usize;
use crate::num::min;
use crate::num::min_usize;
use std::ops::Range;
use vstd::prelude::*;

verus! {

/// The unresolved rows of the result, and those of the conflict in hand.
#[derive(Debug, PartialEq, Eq)]
pub struct ResolvedOutputUnresolvedSpans {
    pub all: Vec<Range<usize>>,
    pub active: Vec<Range<usize>>,
}

/// A painted stretch: where it starts, where it ends, and its style.
pub type Painted = (int, int, u64);

pub open spec fn as_painted(highlights: Seq<(Range<usize>, u64)>) -> Seq<Painted> {
    highlights.map_values(
        |item: (Range<usize>, u64)| (item.0.start as int, item.0.end as int, item.1),
    )
}

impl ResolvedOutputUnresolvedSpans {
    /// A span is one of those in hand.
    pub open spec fn holds_active(&self, start: int, end: int) -> bool {
        exists|i: int|
            0 <= i < self.active@.len() && (#[trigger] self.active@[i]).start == start
                && self.active@[i].end == end
    }

    /// Spans follow each other.
    pub open spec fn is_ordered(&self) -> bool {
        &&& forall|i: int|
            0 <= i < self.all@.len() ==> (#[trigger] self.all@[i]).start <= self.all@[i].end
        &&& forall|i: int, j: int|
            0 <= i <= j < self.all@.len() ==> (#[trigger] self.all@[i]).start <= (
            #[trigger] self.all@[j]).start
        &&& forall|i: int, j: int|
            0 <= i <= j < self.all@.len() ==> (#[trigger] self.all@[i]).end <= (
            #[trigger] self.all@[j]).end
    }

    pub fn is_active(&self, range: &Range<usize>) -> (answer: bool)
        ensures
            answer == self.holds_active(range.start as int, range.end as int),
    {
        let mut i: usize = 0;
        while i < self.active.len()
            invariant
                0 <= i <= self.active@.len(),
                forall|k: int|
                    0 <= k < i ==> !((#[trigger] self.active@[k]).start == range.start
                        && self.active@[k].end == range.end),
            decreases self.active@.len() - i,
        {
            if self.active[i].start == range.start && self.active[i].end == range.end {
                assert(self.active@[i as int].start == range.start);
                return true;
            }
            i += 1;
        }
        false
    }
}

/// The part of a span that was asked for.
pub open spec fn clamped(span: Range<usize>, asked: Range<usize>) -> (int, int) {
    (max(span.start as int, asked.start as int), min(span.end as int, asked.end as int))
}

/// What a stretch of syntax colour, painted up to the cursor, still adds where
/// it passes the spans from `i` on.
pub open spec fn cut(
    end: int,
    style: u64,
    spans: Seq<Range<usize>>,
    asked: Range<usize>,
    i: int,
    cursor: int,
) -> Seq<Painted>
    decreases spans.len() - i,
{
    let rest = if cursor < end {
        seq![(cursor, end, style)]
    } else {
        Seq::empty()
    };
    if i < 0 || i >= spans.len() || cursor >= end {
        rest
    } else {
        let (from, to) = clamped(spans[i], asked);
        if from >= end {
            rest
        } else if to <= cursor || from >= to {
            cut(end, style, spans, asked, i + 1, cursor)
        } else {
            let before: Seq<Painted> = if cursor < from {
                seq![(cursor, min(from, end), style)]
            } else {
                Seq::empty()
            };
            before + cut(end, style, spans, asked, i + 1, max(cursor, to))
        }
    }
}

/// All that is left of the first `n` stretches of syntax colour.
pub open spec fn cut_all(
    syntax: Seq<Painted>,
    spans: Seq<Range<usize>>,
    asked: Range<usize>,
    n: int,
) -> Seq<Painted>
    decreases n,
{
    if n <= 0 {
        Seq::empty()
    } else {
        let (start, end, style) = syntax[n - 1];
        cut_all(syntax, spans, asked, n - 1) + cut(end, style, spans, asked, 0, start)
    }
}

/// How the first `n` spans are painted, as far as they were asked for.
pub open spec fn painted_spans(
    spans: &ResolvedOutputUnresolvedSpans,
    asked: Range<usize>,
    style: u64,
    active_style: u64,
    n: int,
) -> Seq<Painted>
    decreases n,
{
    if n <= 0 {
        Seq::empty()
    } else {
        let before = painted_spans(spans, asked, style, active_style, n - 1);
        let span = spans.all@[n - 1];
        let (from, to) = clamped(span, asked);
        if from < to {
            before.push((from, to, span_style(spans, span, style, active_style)))
        } else {
            before
        }
    }
}

pub open spec fn span_style(
    spans: &ResolvedOutputUnresolvedSpans,
    span: Range<usize>,
    style: u64,
    active_style: u64,
) -> u64 {
    if spans.holds_active(span.start as int, span.end as int) {
        active_style
    } else {
        style
    }
}

/// One stretch stands after another in order.
pub open spec fn comes_after(a: Painted, b: Painted) -> bool {
    a.0 > b.0 || (a.0 == b.0 && a.1 > b.1)
}

/// An ordered list with one more stretch, put behind those it ties with.
pub open spec fn placed(ordered: Seq<Painted>, item: Painted) -> Seq<Painted>
    decreases ordered.len(),
{
    if ordered.len() == 0 || !comes_after(ordered.last(), item) {
        ordered.push(item)
    } else {
        placed(ordered.drop_last(), item).push(ordered.last())
    }
}

/// The first `n` stretches in order, ties as they came.
pub open spec fn ordered(items: Seq<Painted>, n: int) -> Seq<Painted>
    decreases n,
{
    if n <= 0 {
        Seq::empty()
    } else {
        placed(ordered(items, n - 1), items[n - 1])
    }
}

/// The first `n` stretches, those of one style that touch made one.
pub open spec fn joined(items: Seq<Painted>, n: int) -> Seq<Painted>
    decreases n,
{
    if n <= 0 {
        Seq::empty()
    } else {
        let before = joined(items, n - 1);
        let item = items[n - 1];
        if before.len() > 0 && before.last().1 == item.0 && before.last().2 == item.2 {
            before.drop_last().push((before.last().0, item.1, item.2))
        } else {
            before.push(item)
        }
    }
}

/// The stretches to paint, before they are put in order.
pub open spec fn unordered_highlights(
    syntax: Seq<Painted>,
    spans: &ResolvedOutputUnresolvedSpans,
    asked: Range<usize>,
    style: u64,
    active_style: u64,
) -> Seq<Painted> {
    cut_all(syntax, spans.all@, asked, syntax.len() as int) + painted_spans(
        spans,
        asked,
        style,
        active_style,
        spans.all@.len() as int,
    )
}

/// What to paint: syntax colours outside the unresolved rows, one style within.
pub open spec fn unresolved_highlights(
    syntax: Seq<Painted>,
    spans: &ResolvedOutputUnresolvedSpans,
    asked: Range<usize>,
    style: u64,
    active_style: u64,
) -> Seq<Painted> {
    if spans.all@.len() == 0 || asked.start >= asked.end {
        syntax
    } else {
        let all = unordered_highlights(syntax, spans, asked, style, active_style);
        let sorted = ordered(all, all.len() as int);
        joined(sorted, sorted.len() as int)
    }
}

proof fn lemma_cut_skips(
    end: int,
    style: u64,
    spans: Seq<Range<usize>>,
    asked: Range<usize>,
    i: int,
    cursor: int,
)
    requires
        0 <= i <= spans.len(),
        cursor < end,
        forall|k: int|
            0 <= k < i ==> (#[trigger] spans[k]).start <= spans[k].end && spans[k].end <= cursor,
    ensures
        cut(end, style, spans, asked, 0, cursor) == cut(end, style, spans, asked, i, cursor),
    decreases i,
{
    if i > 0 {
        lemma_cut_skips(end, style, spans, asked, i - 1, cursor);
        let (from, to) = clamped(spans[i - 1], asked);
        if from >= end {
            lemma_cut_stops(end, style, spans, asked, i, cursor);
        }
    }
}

proof fn lemma_cut_stops(
    end: int,
    style: u64,
    spans: Seq<Range<usize>>,
    asked: Range<usize>,
    i: int,
    cursor: int,
)
    requires
        0 <= i <= spans.len(),
        cursor < end,
        asked.start >= end,
    ensures
        cut(end, style, spans, asked, i, cursor) == seq![(cursor, end, style)],
{
}

/// The first span that ends after a byte.
fn first_span_after(spans: &ResolvedOutputUnresolvedSpans, offset: usize) -> (ix: usize)
    requires
        spans.is_ordered(),
    ensures
        ix <= spans.all@.len(),
        forall|k: int| 0 <= k < ix ==> (#[trigger] spans.all@[k]).end <= offset,
        forall|k: int|
            ix <= k < spans.all@.len() ==> (#[trigger] spans.all@[k]).end > offset,
{
    let mut low: usize = 0;
    let mut high: usize = spans.all.len();
    while low < high
        invariant
            0 <= low <= high <= spans.all@.len(),
            spans.is_ordered(),
            forall|k: int| 0 <= k < low ==> (#[trigger] spans.all@[k]).end <= offset,
            forall|k: int|
                high <= k < spans.all@.len() ==> (#[trigger] spans.all@[k]).end > offset,
        decreases high - low,
    {
        let middle = low + (high - low) / 2;
        if spans.all[middle].end <= offset {
            assert forall|k: int| 0 <= k < middle + 1 implies (#[trigger] spans.all@[k]).end
                <= offset by {
                assert(spans.all@[k].end <= spans.all@[middle as int].end);
            }
            low = middle + 1;
        } else {
            assert forall|k: int| middle <= k < spans.all@.len() implies (
            #[trigger] spans.all@[k]).end > offset by {
                assert(spans.all@[middle as int].end <= spans.all@[k].end);
            }
            high = middle;
        }
    }
    low
}

pub fn push_painted(out: &mut Vec<(Range<usize>, u64)>, start: usize, end: usize, style: u64)
    ensures
        as_painted(final(out)@) == as_painted(old(out)@).push((start as int, end as int, style)),
{
    out.push((start..end, style));
    assert(as_painted(out@) =~= as_painted(old(out)@).push((start as int, end as int, style)));
}

fn push_cut(
    out: &mut Vec<(Range<usize>, u64)>,
    start: usize,
    end: usize,
    style: u64,
    spans: &ResolvedOutputUnresolvedSpans,
    asked: &Range<usize>,
)
    requires
        spans.is_ordered(),
        start < end,
    ensures
        as_painted(final(out)@) == as_painted(old(out)@) + cut(
            end as int,
            style,
            spans.all@,
            *asked,
            0,
            start as int,
        ),
{
    let mut cursor = start;
    let mut i = first_span_after(spans, start);
    proof {
        lemma_cut_skips(end as int, style, spans.all@, *asked, i as int, start as int);
    }
    let ghost whole = as_painted(out@) + cut(
        end as int,
        style,
        spans.all@,
        *asked,
        i as int,
        cursor as int,
    );
    while i < spans.all.len() && cursor < end
        invariant
            0 <= i <= spans.all@.len(),
            whole == as_painted(out@) + cut(
                end as int,
                style,
                spans.all@,
                *asked,
                i as int,
                cursor as int,
            ),
        decreases spans.all@.len() - i,
    {
        let span = &spans.all[i];
        let from = max_usize(span.start, asked.start);
        let to = min_usize(span.end, asked.end);
        if from >= end {
            i = spans.all.len();
        } else if to <= cursor || from >= to {
            i += 1;
        } else {
            let ghost painted = as_painted(out@);
            let ghost rest = cut(
                end as int,
                style,
                spans.all@,
                *asked,
                i + 1,
                max(cursor as int, to as int),
            );
            if cursor < from {
                let stop = min_usize(from, end);
                push_painted(out, cursor, stop, style);
                assert(painted + (seq![(cursor as int, stop as int, style)] + rest) =~= as_painted(
                    out@,
                ) + rest);
            } else {
                assert(painted + (Seq::<Painted>::empty() + rest) =~= painted + rest);
            }
            cursor = max_usize(cursor, to);
            i += 1;
        }
    }
    let ghost painted = as_painted(out@);
    if cursor < end {
        push_painted(out, cursor, end, style);
        assert(as_painted(out@) =~= painted + seq![(cursor as int, end as int, style)]);
    } else {
        assert(painted + Seq::<Painted>::empty() =~= painted);
    }
}

/// Puts a stretch in its place among ordered ones.
pub fn insert_placed(sorted: &mut Vec<(Range<usize>, u64)>, start: usize, end: usize, style: u64)
    ensures
        as_painted(final(sorted)@) == placed(
            as_painted(old(sorted)@),
            (start as int, end as int, style),
        ),
{
    let ghost all = as_painted(sorted@);
    let ghost item = (start as int, end as int, style);
    let mut at = sorted.len();
    assert(all.take(at as int) =~= all);
    assert(placed(all, item) =~= placed(all.take(at as int), item) + all.skip(at as int));
    while at > 0 && (sorted[at - 1].0.start > start || (sorted[at - 1].0.start == start && sorted[at
        - 1].0.end > end))
        invariant
            0 <= at <= sorted@.len(),
            all == as_painted(sorted@),
            item == (start as int, end as int, style),
            placed(all, item) == placed(all.take(at as int), item) + all.skip(at as int),
        decreases at,
    {
        proof {
            let upto = all.take(at as int);
            assert(upto.last() == all[at - 1]);
            assert(upto.drop_last() =~= all.take(at - 1));
            assert(placed(upto, item) == placed(all.take(at - 1), item).push(all[at - 1]));
            assert(placed(all.take(at - 1), item).push(all[at - 1]) + all.skip(at as int)
                =~= placed(all.take(at - 1), item) + all.skip(at - 1));
        }
        at -= 1;
    }
    proof {
        let upto = all.take(at as int);
        if at > 0 {
            assert(upto.last() == all[at - 1]);
        }
        assert(placed(upto, item) == upto.push(item));
    }
    sorted.insert(at, (start..end, style));
    assert(as_painted(sorted@) =~= all.take(at as int).push(item) + all.skip(at as int));
}

fn push_joined(out: &mut Vec<(Range<usize>, u64)>, start: usize, end: usize, style: u64)
    ensures
        as_painted(final(out)@) == ({
            let before = as_painted(old(out)@);
            if before.len() > 0 && before.last().1 == start && before.last().2 == style {
                before.drop_last().push((before.last().0, end as int, style))
            } else {
                before.push((start as int, end as int, style))
            }
        }),
{
    let ghost before = as_painted(out@);
    if out.len() > 0 && out[out.len() - 1].0.end == start && out[out.len() - 1].1 == style {
        let last = out.len() - 1;
        let first = out[last].0.start;
        out.set(last, (first..end, style));
        assert(as_painted(out@) =~= before.drop_last().push(
            (before.last().0, end as int, style),
        ));
    } else {
        push_painted(out, start, end, style);
    }
}

/// Replaces the syntax colours within unresolved rows by one style, and by
/// another in the conflict in hand.
pub fn apply_resolved_output_unresolved_highlights(
    syntax_highlights: Vec<(Range<usize>, u64)>,
    unresolved_spans: &ResolvedOutputUnresolvedSpans,
    requested_range: Range<usize>,
    unresolved_style: u64,
    active_unresolved_style: u64,
) -> (highlights: Vec<(Range<usize>, u64)>)
    requires
        unresolved_spans.is_ordered(),
    ensures
        as_painted(highlights@) == unresolved_highlights(
            as_painted(syntax_highlights@),
            unresolved_spans,
            requested_range,
            unresolved_style,
            active_unresolved_style,
        ),
{
    if unresolved_spans.all.len() == 0 || requested_range.start >= requested_range.end {
        return syntax_highlights;
    }
    let ghost syntax = as_painted(syntax_highlights@);
    let mut pieces: Vec<(Range<usize>, u64)> = Vec::new();
    let mut i: usize = 0;
    assert(as_painted(pieces@) =~= Seq::<Painted>::empty());
    while i < syntax_highlights.len()
        invariant
            0 <= i <= syntax_highlights@.len(),
            syntax == as_painted(syntax_highlights@),
            unresolved_spans.is_ordered(),
            as_painted(pieces@) == cut_all(
                syntax,
                unresolved_spans.all@,
                requested_range,
                i as int,
            ),
        decreases syntax_highlights@.len() - i,
    {
        let start = syntax_highlights[i].0.start;
        let end = syntax_highlights[i].0.end;
        let style = syntax_highlights[i].1;
        let ghost before = as_painted(pieces@);
        assert(syntax[i as int] == (start as int, end as int, style));
        if start < end {
            push_cut(&mut pieces, start, end, style, unresolved_spans, &requested_range);
        } else {
            assert(before + Seq::<Painted>::empty() =~= before);
        }
        i += 1;
    }
    let ghost cuts = as_painted(pieces@);
    let mut j: usize = 0;
    assert(cuts + Seq::<Painted>::empty() =~= cuts);
    while j < unresolved_spans.all.len()
        invariant
            0 <= j <= unresolved_spans.all@.len(),
            as_painted(pieces@) == cuts + painted_spans(
                unresolved_spans,
                requested_range,
                unresolved_style,
                active_unresolved_style,
                j as int,
            ),
        decreases unresolved_spans.all@.len() - j,
    {
        let span = &unresolved_spans.all[j];
        let start = max_usize(span.start, requested_range.start);
        let end = min_usize(span.end, requested_range.end);
        if start < end {
            let style = if unresolved_spans.is_active(span) {
                active_unresolved_style
            } else {
                unresolved_style
            };
            let ghost before = as_painted(pieces@);
            push_painted(&mut pieces, start, end, style);
            assert(as_painted(pieces@) =~= cuts + painted_spans(
                unresolved_spans,
                requested_range,
                unresolved_style,
                active_unresolved_style,
                j + 1,
            ));
        }
        j += 1;
    }
    let ghost all = as_painted(pieces@);
    let mut sorted: Vec<(Range<usize>, u64)> = Vec::new();
    let mut k: usize = 0;
    assert(as_painted(sorted@) =~= Seq::<Painted>::empty());
    while k < pieces.len()
        invariant
            0 <= k <= pieces@.len(),
            all == as_painted(pieces@),
            as_painted(sorted@) == ordered(all, k as int),
        decreases pieces@.len() - k,
    {
        assert(all[k as int] == (
            pieces@[k as int].0.start as int,
            pieces@[k as int].0.end as int,
            pieces@[k as int].1,
        ));
        insert_placed(&mut sorted, pieces[k].0.start, pieces[k].0.end, pieces[k].1);
        k += 1;
    }
    let ghost in_order = as_painted(sorted@);
    let mut merged: Vec<(Range<usize>, u64)> = Vec::with_capacity(sorted.len());
    let mut m: usize = 0;
    assert(as_painted(merged@) =~= Seq::<Painted>::empty());
    while m < sorted.len()
        invariant
            0 <= m <= sorted@.len(),
            in_order == as_painted(sorted@),
            as_painted(merged@) == joined(in_order, m as int),
        decreases sorted@.len() - m,
    {
        assert(in_order[m as int] == (
            sorted@[m as int].0.start as int,
            sorted@[m as int].0.end as int,
            sorted@[m as int].1,
        ));
        push_joined(&mut merged, sorted[m].0.start, sorted[m].0.end, sorted[m].1);
        m += 1;
    }
    merged
}

/// A byte is painted in a style.
pub open spec fn paints(items: Seq<Painted>, byte: int, style: u64) -> bool {
    exists|i: int|
        0 <= i < items.len() && (#[trigger] items[i]).0 <= byte < items[i].1 && items[i].2 == style
}

/// A byte is unresolved and was asked for.
pub open spec fn within_spans(spans: Seq<Range<usize>>, asked: Range<usize>, byte: int) -> bool {
    exists|i: int|
        0 <= i < spans.len() && clamped(#[trigger] spans[i], asked).0 <= byte < clamped(
            spans[i],
            asked,
        ).1
}

/// A byte is in an unresolved row of that style.
pub open spec fn span_paints(
    spans: &ResolvedOutputUnresolvedSpans,
    asked: Range<usize>,
    style: u64,
    active_style: u64,
    byte: int,
    wanted: u64,
) -> bool {
    exists|i: int|
        0 <= i < spans.all@.len() && clamped(#[trigger] spans.all@[i], asked).0 <= byte < clamped(
            spans.all@[i],
            asked,
        ).1 && wanted == span_style(spans, spans.all@[i], style, active_style)
}

pub open spec fn all_nonempty(items: Seq<Painted>) -> bool {
    forall|i: int| 0 <= i < items.len() ==> (#[trigger] items[i]).0 < items[i].1
}

proof fn lemma_paints_add(a: Seq<Painted>, b: Seq<Painted>, byte: int, style: u64)
    ensures
        paints(a + b, byte, style) == (paints(a, byte, style) || paints(b, byte, style)),
{
    if paints(a + b, byte, style) {
        let i = choose|i: int|
            0 <= i < (a + b).len() && (#[trigger] (a + b)[i]).0 <= byte < (a + b)[i].1 && (a + b)[i].2
                == style;
        if i < a.len() {
            assert(a[i] == (a + b)[i]);
        } else {
            assert(b[i - a.len()] == (a + b)[i]);
        }
    }
    if paints(a, byte, style) {
        let i = choose|i: int|
            0 <= i < a.len() && (#[trigger] a[i]).0 <= byte < a[i].1 && a[i].2 == style;
        assert((a + b)[i] == a[i]);
    }
    if paints(b, byte, style) {
        let i = choose|i: int|
            0 <= i < b.len() && (#[trigger] b[i]).0 <= byte < b[i].1 && b[i].2 == style;
        assert((a + b)[a.len() + i] == b[i]);
    }
}

proof fn lemma_paints_one(item: Painted, byte: int, style: u64)
    ensures
        paints(seq![item], byte, style) == (item.0 <= byte < item.1 && item.2 == style),
{
    assert(seq![item][0] == item);
}

proof fn lemma_paints_push(a: Seq<Painted>, item: Painted, byte: int, style: u64)
    ensures
        paints(a.push(item), byte, style) == (paints(a, byte, style) || (item.0 <= byte < item.1
            && item.2 == style)),
{
    assert(a.push(item) =~= a + seq![item]);
    lemma_paints_add(a, seq![item], byte, style);
    lemma_paints_one(item, byte, style);
}

/// What is cut out of a stretch is what the spans cover.
proof fn lemma_cut_paints(
    end: int,
    style: u64,
    spans: &ResolvedOutputUnresolvedSpans,
    asked: Range<usize>,
    i: int,
    cursor: int,
    byte: int,
    wanted: u64,
)
    requires
        spans.is_ordered(),
        0 <= i <= spans.all@.len(),
    ensures
        all_nonempty(cut(end, style, spans.all@, asked, i, cursor)),
        paints(cut(end, style, spans.all@, asked, i, cursor), byte, wanted) == (cursor <= byte
            < end && wanted == style && !within_spans(spans.all@.skip(i), asked, byte)),
    decreases spans.all@.len() - i,
{
    let all = spans.all@;
    let pieces = cut(end, style, all, asked, i, cursor);
    let one: Seq<Painted> = seq![(cursor, end, style)];
    lemma_paints_one((cursor, end, style), byte, wanted);
    if i >= all.len() || cursor >= end {
        if cursor < end {
            assert(pieces =~= one);
            assert(!within_spans(all.skip(i), asked, byte));
        } else {
            assert(pieces =~= Seq::empty());
        }
    } else {
        let (from, to) = clamped(all[i], asked);
        assert(all.skip(i)[0] == all[i]);
        assert forall|k: int| 0 <= k < all.skip(i + 1).len() implies #[trigger] all.skip(i + 1)[k]
            == all.skip(i)[k + 1] by {}
        if from >= end {
            if byte < end && within_spans(all.skip(i), asked, byte) {
                let k = choose|k: int|
                    0 <= k < all.skip(i).len() && clamped(#[trigger] all.skip(i)[k], asked).0
                        <= byte < clamped(all.skip(i)[k], asked).1;
                assert(all[i].start <= all[i + k].start);
            }
        } else {
            let next = if to <= cursor || from >= to {
                cursor
            } else {
                max(cursor, to)
            };
            lemma_cut_paints(end, style, spans, asked, i + 1, next, byte, wanted);
            // The span at hand and those behind it.
            assert(within_spans(all.skip(i), asked, byte) == ((from <= byte < to)
                || within_spans(all.skip(i + 1), asked, byte))) by {
                if within_spans(all.skip(i), asked, byte) {
                    let k = choose|k: int|
                        0 <= k < all.skip(i).len() && clamped(#[trigger] all.skip(i)[k], asked).0
                            <= byte < clamped(all.skip(i)[k], asked).1;
                    if k > 0 {
                        assert(all.skip(i + 1)[k - 1] == all.skip(i)[k]);
                    }
                }
                if within_spans(all.skip(i + 1), asked, byte) {
                    let k = choose|k: int|
                        0 <= k < all.skip(i + 1).len() && clamped(
                            #[trigger] all.skip(i + 1)[k],
                            asked,
                        ).0 <= byte < clamped(all.skip(i + 1)[k], asked).1;
                    assert(all.skip(i)[k + 1] == all.skip(i + 1)[k]);
                }
            }
            if to <= cursor || from >= to {
            } else {
                let before: Seq<Painted> = if cursor < from {
                    seq![(cursor, min(from, end), style)]
                } else {
                    Seq::empty()
                };
                let rest = cut(end, style, all, asked, i + 1, next);
                assert(pieces == before + rest);
                lemma_paints_add(before, rest, byte, wanted);
                if cursor < from {
                    lemma_paints_one((cursor, min(from, end), style), byte, wanted);
                }
                assert forall|k: int| 0 <= k < pieces.len() implies (#[trigger] pieces[k]).0
                    < pieces[k].1 by {
                    if k >= before.len() {
                        assert(pieces[k] == rest[k - before.len()]);
                    }
                }
                // Ahead of the span at hand none of the others covers anything.
                if byte < from && within_spans(all.skip(i + 1), asked, byte) {
                    let k = choose|k: int|
                        0 <= k < all.skip(i + 1).len() && clamped(
                            #[trigger] all.skip(i + 1)[k],
                            asked,
                        ).0 <= byte < clamped(all.skip(i + 1)[k], asked).1;
                    assert(all[i].start <= all[i + 1 + k].start);
                }
            }
        }
    }
}

proof fn lemma_cut_all_paints(
    syntax: Seq<Painted>,
    spans: &ResolvedOutputUnresolvedSpans,
    asked: Range<usize>,
    n: int,
    byte: int,
    wanted: u64,
)
    requires
        spans.is_ordered(),
        0 <= n <= syntax.len(),
    ensures
        all_nonempty(cut_all(syntax, spans.all@, asked, n)),
        paints(cut_all(syntax, spans.all@, asked, n), byte, wanted) == (paints(
            syntax.take(n),
            byte,
            wanted,
        ) && !within_spans(spans.all@, asked, byte)),
    decreases n,
{
    if n > 0 {
        let (start, end, style) = syntax[n - 1];
        lemma_cut_all_paints(syntax, spans, asked, n - 1, byte, wanted);
        lemma_cut_paints(end, style, spans, asked, 0, start, byte, wanted);
        assert(spans.all@.skip(0) =~= spans.all@);
        let before = cut_all(syntax, spans.all@, asked, n - 1);
        let rest = cut(end, style, spans.all@, asked, 0, start);
        lemma_paints_add(before, rest, byte, wanted);
        assert(syntax.take(n) =~= syntax.take(n - 1).push(syntax[n - 1]));
        lemma_paints_push(syntax.take(n - 1), syntax[n - 1], byte, wanted);
        assert forall|k: int| 0 <= k < (before + rest).len() implies (
        #[trigger] (before + rest)[k]).0 < (before + rest)[k].1 by {
            if k < before.len() {
                assert((before + rest)[k] == before[k]);
            } else {
                assert((before + rest)[k] == rest[k - before.len()]);
            }
        }
    }
}

proof fn lemma_spans_paint(
    spans: &ResolvedOutputUnresolvedSpans,
    asked: Range<usize>,
    style: u64,
    active_style: u64,
    n: int,
    byte: int,
    wanted: u64,
)
    requires
        0 <= n <= spans.all@.len(),
    ensures
        all_nonempty(painted_spans(spans, asked, style, active_style, n)),
        paints(painted_spans(spans, asked, style, active_style, n), byte, wanted) == (exists|i: int|
            0 <= i < n && clamped(#[trigger] spans.all@[i], asked).0 <= byte < clamped(
                spans.all@[i],
                asked,
            ).1 && wanted == span_style(spans, spans.all@[i], style, active_style)),
    decreases n,
{
    if n > 0 {
        lemma_spans_paint(spans, asked, style, active_style, n - 1, byte, wanted);
        let before = painted_spans(spans, asked, style, active_style, n - 1);
        let span = spans.all@[n - 1];
        let (from, to) = clamped(span, asked);
        if from < to {
            let item = (from, to, span_style(spans, span, style, active_style));
            lemma_paints_push(before, item, byte, wanted);
            if from <= byte < to && wanted == item.2 {
                assert(clamped(spans.all@[n - 1], asked).0 <= byte);
            }
        }
    }
}

proof fn lemma_placed_paints(sorted: Seq<Painted>, item: Painted, byte: int, style: u64)
    requires
        all_nonempty(sorted),
        item.0 < item.1,
    ensures
        all_nonempty(placed(sorted, item)),
        placed(sorted, item).len() == sorted.len() + 1,
        paints(placed(sorted, item), byte, style) == (paints(sorted, byte, style) || (item.0 <= byte
            < item.1 && item.2 == style)),
    decreases sorted.len(),
{
    if sorted.len() == 0 || !comes_after(sorted.last(), item) {
        lemma_paints_push(sorted, item, byte, style);
    } else {
        let shorter = sorted.drop_last();
        lemma_placed_paints(shorter, item, byte, style);
        lemma_paints_push(placed(shorter, item), sorted.last(), byte, style);
        assert(sorted =~= shorter.push(sorted.last()));
        lemma_paints_push(shorter, sorted.last(), byte, style);
    }
}

proof fn lemma_ordered_paints(items: Seq<Painted>, n: int, byte: int, style: u64)
    requires
        0 <= n <= items.len(),
        all_nonempty(items),
    ensures
        all_nonempty(ordered(items, n)),
        ordered(items, n).len() == n,
        paints(ordered(items, n), byte, style) == paints(items.take(n), byte, style),
    decreases n,
{
    if n > 0 {
        lemma_ordered_paints(items, n - 1, byte, style);
        lemma_placed_paints(ordered(items, n - 1), items[n - 1], byte, style);
        assert(items.take(n) =~= items.take(n - 1).push(items[n - 1]));
        lemma_paints_push(items.take(n - 1), items[n - 1], byte, style);
    }
}

proof fn lemma_joined_paints(items: Seq<Painted>, n: int, byte: int, style: u64)
    requires
        0 <= n <= items.len(),
        all_nonempty(items),
    ensures
        all_nonempty(joined(items, n)),
        paints(joined(items, n), byte, style) == paints(items.take(n), byte, style),
    decreases n,
{
    if n > 0 {
        lemma_joined_paints(items, n - 1, byte, style);
        let before = joined(items, n - 1);
        let item = items[n - 1];
        assert(items.take(n) =~= items.take(n - 1).push(item));
        lemma_paints_push(items.take(n - 1), item, byte, style);
        if before.len() > 0 && before.last().1 == item.0 && before.last().2 == item.2 {
            let longer = (before.last().0, item.1, item.2);
            assert(before =~= before.drop_last().push(before.last()));
            lemma_paints_push(before.drop_last(), before.last(), byte, style);
            lemma_paints_push(before.drop_last(), longer, byte, style);
        } else {
            lemma_paints_push(before, item, byte, style);
        }
    }
}

/// Within the unresolved rows that were asked for, a byte has the style of its
/// row and no syntax colour; everywhere else it has the syntax colours it had.
pub proof fn law_unresolved_rows_hide_syntax(
    syntax: Seq<Painted>,
    spans: &ResolvedOutputUnresolvedSpans,
    asked: Range<usize>,
    style: u64,
    active_style: u64,
    byte: int,
    wanted: u64,
)
    requires
        spans.is_ordered(),
    ensures
        paints(unresolved_highlights(syntax, spans, asked, style, active_style), byte, wanted) == (
        if within_spans(spans.all@, asked, byte) {
            span_paints(spans, asked, style, active_style, byte, wanted)
        } else {
            paints(syntax, byte, wanted)
        }),
{
    if spans.all@.len() == 0 || asked.start >= asked.end {
    } else {
        let cuts = cut_all(syntax, spans.all@, asked, syntax.len() as int);
        let rows = painted_spans(spans, asked, style, active_style, spans.all@.len() as int);
        let all = cuts + rows;
        lemma_cut_all_paints(syntax, spans, asked, syntax.len() as int, byte, wanted);
        assert(syntax.take(syntax.len() as int) =~= syntax);
        lemma_spans_paint(
            spans,
            asked,
            style,
            active_style,
            spans.all@.len() as int,
            byte,
            wanted,
        );
        lemma_paints_add(cuts, rows, byte, wanted);
        assert forall|k: int| 0 <= k < all.len() implies (#[trigger] all[k]).0 < all[k].1 by {
            if k < cuts.len() {
                assert(all[k] == cuts[k]);
            } else {
                assert(all[k] == rows[k - cuts.len()]);
            }
        }
        lemma_ordered_paints(all, all.len() as int, byte, wanted);
        assert(all.take(all.len() as int) =~= all);
        let sorted = ordered(all, all.len() as int);
        lemma_joined_paints(sorted, sorted.len() as int, byte, wanted);
        assert(sorted.take(sorted.len() as int) =~= sorted);
        if span_paints(spans, asked, style, active_style, byte, wanted) {
            let i = choose|i: int|
                0 <= i < spans.all@.len() && clamped(#[trigger] spans.all@[i], asked).0 <= byte
                    < clamped(spans.all@[i], asked).1 && wanted == span_style(
                    spans,
                    spans.all@[i],
                    style,
                    active_style,
                );
            assert(clamped(spans.all@[i], asked).0 <= byte);
        }
    }
}

} // verus!
