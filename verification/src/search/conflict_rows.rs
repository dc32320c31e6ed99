//! Searching the columns of the merge view.
use crate::conflict::model::ConflictChoice;
use crate::conflict::model::ConflictSegment;
use crate::conflict::model::PickSlot;
use crate::lines::text_within;
use crate::lines::ConflictResolverViewMode;
use crate::num::min;
use crate::num::min_usize;
use crate::search::bytes::holds;
use crate::search::collect::collect_split_stream_match_visible_rows;
use crate::search::collect::collect_stream_match_visible_rows;
use crate::search::collect::numbers;
use crate::search::collect::offsets_of;
use crate::search::collect::owned_chars;
use crate::search::collect::row_refs;
use crate::search::collect::side_chars;
use crate::search::collect::split_chars;
use crate::search::collect::split_found;
use crate::search::hits::rows_where;
use crate::search::hits::settled_rows;
use crate::search::hits::sort_and_dedup;
use crate::search::matcher::DiffSearchMatcher;
use crate::search::matcher::Sought;
use crate::search::needle::AsciiCaseInsensitiveNeedle;
use crate::utf::lemma_text_is_valid;
use crate::utf::text_between;
use vstd::prelude::*;
use vstd::string::*;
use vstd::utf8::decode_utf8;
use vstd::utf8::encode_utf8;
use vstd::utf8::is_char_boundary;

verus! {

/// A stretch of rows that are shown: lines, a settled conflict that is folded to
/// one row, or lines that are folded to one row.
#[derive(Clone, Copy, Debug, PartialEq, Eq, Structural)]
pub enum ThreeWayVisibleSpan {
    Lines { visible_start: usize, source_line_start: usize, len: usize },
    CollapsedResolvedBlock { visible_index: usize, conflict_ix: usize },
    CollapsedContext { visible_index: usize },
}

/// What a row shows.
#[derive(Clone, Copy, Debug, PartialEq, Eq, Structural)]
pub enum ThreeWayVisibleItem {
    Line(usize),
    CollapsedBlock(usize),
    CollapsedContext,
}

impl ThreeWayVisibleSpan {
    pub open spec fn start(self) -> int {
        match self {
            ThreeWayVisibleSpan::Lines { visible_start, .. } => visible_start as int,
            ThreeWayVisibleSpan::CollapsedResolvedBlock { visible_index, .. } => visible_index
                as int,
            ThreeWayVisibleSpan::CollapsedContext { visible_index } => visible_index as int,
        }
    }

    pub open spec fn rows(self) -> int {
        match self {
            ThreeWayVisibleSpan::Lines { len, .. } => len as int,
            _ => 1,
        }
    }

    pub open spec fn wf(self) -> bool {
        &&& self.start() + self.rows() <= usize::MAX
        &&& self matches ThreeWayVisibleSpan::Lines { source_line_start, len, .. }
            ==> source_line_start + len <= usize::MAX
    }

    /// What one of its rows shows.
    pub open spec fn item(self, visible_ix: int) -> ThreeWayVisibleItem {
        match self {
            ThreeWayVisibleSpan::Lines { visible_start, source_line_start, .. } =>
                ThreeWayVisibleItem::Line((source_line_start + (visible_ix - visible_start)) as usize),
            ThreeWayVisibleSpan::CollapsedResolvedBlock { conflict_ix, .. } =>
                ThreeWayVisibleItem::CollapsedBlock(conflict_ix),
            ThreeWayVisibleSpan::CollapsedContext { .. } => ThreeWayVisibleItem::CollapsedContext,
        }
    }
}

/// Which line of each version stands in a row. Versions without a list have
/// their lines in the rows of the same number.
#[derive(Debug)]
pub struct ThreeWayAlignedMap {
    pub base: Option<Vec<Option<usize>>>,
    pub ours: Option<Vec<Option<usize>>>,
    pub theirs: Option<Vec<Option<usize>>>,
}

pub open spec fn aligned_line(lines: Option<Vec<Option<usize>>>, row: int) -> Option<int> {
    match lines {
        None => Some(row),
        Some(lines) => if 0 <= row < lines@.len() {
            match lines@[row] {
                Some(line) => Some(line as int),
                None => None,
            }
        } else {
            None
        },
    }
}

impl Default for ThreeWayAlignedMap {
    fn default() -> (map: Self)
        ensures
            map.base is None,
            map.ours is None,
            map.theirs is None,
    {
        ThreeWayAlignedMap { base: None, ours: None, theirs: None }
    }
}

fn aligned_line_at(lines: &Option<Vec<Option<usize>>>, row: usize) -> (line: Option<usize>)
    ensures
        aligned_line(*lines, row as int) == (match line {
            Some(line) => Some(line as int),
            None => None,
        }),
{
    match lines {
        None => Some(row),
        Some(lines) => if row < lines.len() {
            lines[row]
        } else {
            None
        },
    }
}

/// A version with the starts of its lines.
#[derive(Clone, Copy)]
pub struct VersionText<'a> {
    pub text: &'a str,
    pub line_starts: &'a [usize],
}

/// The bytes of a line, without its newline; none where there is no such line.
pub open spec fn stored_line(bytes: Seq<u8>, starts: Seq<usize>, line_ix: int) -> Seq<u8> {
    let len = bytes.len() as int;
    let start = if 0 <= line_ix < starts.len() {
        starts[line_ix] as int
    } else {
        len
    };
    let end = min(
        if line_ix + 1 < starts.len() {
            starts[line_ix + 1] as int
        } else {
            len
        },
        len,
    );
    if start >= len {
        Seq::empty()
    } else if end > start && bytes[end - 1] == 10 {
        text_within(bytes, start, end - 1)
    } else {
        text_within(bytes, start, end)
    }
}

impl<'a> VersionText<'a> {
    /// The text of a row: that of the line that stands there.
    pub open spec fn row_bytes(&self, line: Option<int>) -> Seq<u8> {
        match line {
            Some(line) => stored_line(self.text.spec_bytes(), self.line_starts@, line),
            None => Seq::empty(),
        }
    }
    fn without_lines(self) -> (version: VersionText<'a>)
        ensures
            version.text == self.text,
            version.line_starts@.len() == 0,
    {
        VersionText { text: self.text, line_starts: &[] }
    }

    pub fn line_text(&self, line_ix: usize) -> (line: &'a str)
        ensures
            line.spec_bytes() == stored_line(
                self.text.spec_bytes(),
                self.line_starts@,
                line_ix as int,
            ),
    {
        proof {
            reveal_strlit("");
            assert(""@ =~= Seq::<char>::empty());
            assert(encode_utf8(Seq::<char>::empty()) =~= Seq::<u8>::empty());
            lemma_text_is_valid(self.text);
        }
        let bytes = self.text.as_bytes();
        let text_len = bytes.len();
        let start = if line_ix < self.line_starts.len() {
            self.line_starts[line_ix]
        } else {
            text_len
        };
        if start >= text_len {
            return "";
        }
        let mut end = min_usize(
            if line_ix < self.line_starts.len() && line_ix + 1 < self.line_starts.len() {
                self.line_starts[line_ix + 1]
            } else {
                text_len
            },
            text_len,
        );
        if end > start && bytes[end - 1] == 10 {
            end = end - 1;
        }
        if start <= end && self.text.is_char_boundary(start) && self.text.is_char_boundary(end) {
            let part = text_between(self.text, start, end);
            proof {
                crate::search::pattern_rows::lemma_part_is_text(
                    bytes@,
                    start as int,
                    end as int,
                );
                vstd::utf8::decode_utf8_encode_utf8(bytes@.subrange(start as int, end as int));
            }
            part
        } else {
            ""
        }
    }

    fn row_text(&self, line: Option<usize>) -> (text: &'a str)
        ensures
            text.spec_bytes() == self.row_bytes(
                match line {
                    Some(line) => Some(line as int),
                    None => None,
                },
            ),
    {
        match line {
            Some(line) => self.line_text(line),
            None => {
                proof {
                    reveal_strlit("");
                    assert(""@ =~= Seq::<char>::empty());
                    assert(encode_utf8(Seq::<char>::empty()) =~= Seq::<u8>::empty());
                }
                ""
            },
        }
    }
}

/// The two sides of a row of the two-way view.
#[derive(Debug)]
pub struct TwoWaySearchRow {
    pub old: Option<String>,
    pub new: Option<String>,
}

/// What the merge view shows, as far as a search reads it.
#[derive(Clone, Copy)]
pub struct ConflictResolverSearchContext<'a> {
    pub view_mode: ConflictResolverViewMode,
    pub marker_segments: &'a [ConflictSegment],
    pub three_way_visible: &'a [ThreeWayVisibleSpan],
    pub base: VersionText<'a>,
    pub ours: VersionText<'a>,
    pub theirs: VersionText<'a>,
    pub three_way_aligned: &'a ThreeWayAlignedMap,
    pub two_way_rows: &'a [TwoWaySearchRow],
}

/// What the merge view holds.
#[derive(Clone, Copy)]
pub struct ConflictResolverState<'a> {
    pub view_mode: ConflictResolverViewMode,
    pub marker_segments: &'a [ConflictSegment],
    pub three_way_visible: &'a [ThreeWayVisibleSpan],
    pub base: VersionText<'a>,
    pub ours: VersionText<'a>,
    pub theirs: VersionText<'a>,
    pub three_way_aligned: &'a ThreeWayAlignedMap,
    pub two_way_rows: &'a [TwoWaySearchRow],
}

impl<'a> ConflictResolverSearchContext<'a> {
    /// What a search reads of the merge view. Where the lines of the versions start
    /// is needed in the three-way view only, and may not be known elsewhere.
    pub fn from_conflict_resolver(resolver: &ConflictResolverState<'a>) -> (context: Self)
        ensures
            context.view_mode == resolver.view_mode,
            context.marker_segments == resolver.marker_segments,
            context.three_way_visible == resolver.three_way_visible,
            context.three_way_aligned == resolver.three_way_aligned,
            context.two_way_rows == resolver.two_way_rows,
            context.base.text == resolver.base.text,
            context.ours.text == resolver.ours.text,
            context.theirs.text == resolver.theirs.text,
            resolver.view_mode is ThreeWay ==> context.base == resolver.base && context.ours
                == resolver.ours && context.theirs == resolver.theirs,
            resolver.view_mode is TwoWayDiff ==> context.base.line_starts@.len() == 0
                && context.ours.line_starts@.len() == 0 && context.theirs.line_starts@.len() == 0,
    {
        let (base, ours, theirs) = match resolver.view_mode {
            ConflictResolverViewMode::ThreeWay => (resolver.base, resolver.ours, resolver.theirs),
            ConflictResolverViewMode::TwoWayDiff => (
                resolver.base.without_lines(),
                resolver.ours.without_lines(),
                resolver.theirs.without_lines(),
            ),
        };
        ConflictResolverSearchContext {
            view_mode: resolver.view_mode,
            marker_segments: resolver.marker_segments,
            three_way_visible: resolver.three_way_visible,
            base,
            ours,
            theirs,
            three_way_aligned: resolver.three_way_aligned,
            two_way_rows: resolver.two_way_rows,
        }
    }
}

/// The choice of the n-th conflict.
pub open spec fn choice_at(segments: Seq<ConflictSegment>, conflict_ix: int) -> Option<
    ConflictChoice,
>
    decreases segments.len(),
{
    if segments.len() == 0 {
        None
    } else {
        match segments[0] {
            ConflictSegment::Block(block) => if conflict_ix == 0 {
                Some(block.choice)
            } else {
                choice_at(segments.skip(1), conflict_ix - 1)
            },
            ConflictSegment::Text(_) => choice_at(segments.skip(1), conflict_ix),
        }
    }
}

pub fn conflict_choice_for_index(segments: &[ConflictSegment], conflict_ix: usize) -> (choice:
    Option<ConflictChoice>)
    ensures
        choice == choice_at(segments@, conflict_ix as int),
{
    let mut left = conflict_ix;
    let mut i: usize = 0;
    assert(segments@.skip(0) =~= segments@);
    while i < segments.len()
        invariant
            0 <= i <= segments@.len(),
            choice_at(segments@, conflict_ix as int) == choice_at(
                segments@.skip(i as int),
                left as int,
            ),
        decreases segments@.len() - i,
    {
        let ghost rest = segments@.skip(i as int);
        assert(rest.skip(1) =~= segments@.skip(i + 1));
        assert(rest[0] == segments@[i as int]);
        match &segments[i] {
            ConflictSegment::Block(block) => {
                if left == 0 {
                    return Some(block.choice);
                }
                left -= 1;
            },
            ConflictSegment::Text(_) => {},
        }
        i += 1;
    }
    assert(segments@.skip(segments@.len() as int) =~= Seq::empty());
    None
}

pub open spec fn choice_label(choice: ConflictChoice) -> Seq<char> {
    if choice == ConflictChoice::spec_single(PickSlot::Base) {
        "Base (A)"@
    } else if choice == ConflictChoice::spec_single(PickSlot::Ours) {
        "Local (B)"@
    } else if choice == ConflictChoice::spec_single(PickSlot::Theirs) {
        "Remote (C)"@
    } else if choice == ConflictChoice::spec_both() {
        "Local+Remote (B+C)"@
    } else {
        "Ordered source selection"@
    }
}

pub fn conflict_choice_label(choice: ConflictChoice) -> (label: &'static str)
    ensures
        label@ == choice_label(choice),
{
    if choice == ConflictChoice::base() {
        "Base (A)"
    } else if choice == ConflictChoice::ours() {
        "Local (B)"
    } else if choice == ConflictChoice::theirs() {
        "Remote (C)"
    } else if choice == ConflictChoice::both() {
        "Local+Remote (B+C)"
    } else {
        "Ordered source selection"
    }
}

/// What a settled conflict is folded to.
pub open spec fn summary(segments: Seq<ConflictSegment>, conflict_ix: int) -> Seq<char> {
    "Resolved: picked "@ + (match choice_at(segments, conflict_ix) {
        Some(choice) => choice_label(choice),
        None => "?"@,
    })
}

fn summary_text(segments: &[ConflictSegment], conflict_ix: usize) -> (text: String)
    ensures
        text@ == summary(segments@, conflict_ix as int),
{
    let label = match conflict_choice_for_index(segments, conflict_ix) {
        Some(choice) => conflict_choice_label(choice),
        None => "?",
    };
    let mut text = "Resolved: picked ".to_owned();
    text.append(label);
    text
}

impl<'a> ConflictResolverSearchContext<'a> {
    pub open spec fn wf(&self) -> bool {
        forall|i: int| 0 <= i < self.three_way_visible@.len() ==> (
        #[trigger] self.three_way_visible@[i]).wf()
    }

    pub open spec fn base_bytes(&self, row: int) -> Seq<u8> {
        self.base.row_bytes(aligned_line(self.three_way_aligned.base, row))
    }

    pub open spec fn ours_bytes(&self, row: int) -> Seq<u8> {
        self.ours.row_bytes(aligned_line(self.three_way_aligned.ours, row))
    }

    pub open spec fn theirs_bytes(&self, row: int) -> Seq<u8> {
        self.theirs.row_bytes(aligned_line(self.three_way_aligned.theirs, row))
    }

    /// What a row shows holds a literal.
    pub open spec fn item_holds(&self, item: ThreeWayVisibleItem, needle: Seq<u8>) -> bool {
        match item {
            ThreeWayVisibleItem::Line(row) => holds(self.base_bytes(row as int), needle, false)
                || holds(self.ours_bytes(row as int), needle, false) || holds(
                self.theirs_bytes(row as int),
                needle,
                false,
            ),
            ThreeWayVisibleItem::CollapsedBlock(conflict_ix) => holds(
                encode_utf8(summary(self.marker_segments@, conflict_ix as int)),
                needle,
                false,
            ),
            ThreeWayVisibleItem::CollapsedContext => false,
        }
    }

    /// The first rows of a span that hold a literal.
    pub open spec fn span_hits(&self, span: ThreeWayVisibleSpan, needle: Seq<u8>, n: int) -> Seq<
        usize,
    >
        decreases n,
    {
        if n <= 0 {
            Seq::empty()
        } else {
            let before = self.span_hits(span, needle, n - 1);
            let row = span.start() + n - 1;
            if self.item_holds(span.item(row), needle) {
                before.push(row as usize)
            } else {
                before
            }
        }
    }

    /// The rows of the first spans that hold a literal.
    pub open spec fn spans_hits(&self, needle: Seq<u8>, n: int) -> Seq<usize>
        decreases n,
    {
        if n <= 0 {
            Seq::empty()
        } else {
            let span = self.three_way_visible@[n - 1];
            self.spans_hits(needle, n - 1) + self.span_hits(span, needle, span.rows())
        }
    }

    fn row_holds(&self, row: usize, query: AsciiCaseInsensitiveNeedle<'_>) -> (answer: bool)
        requires
            query.wf(),
        ensures
            answer == self.item_holds(ThreeWayVisibleItem::Line(row), query.bytes@),
    {
        let base = self.base.row_text(aligned_line_at(&self.three_way_aligned.base, row));
        let ours = self.ours.row_text(aligned_line_at(&self.three_way_aligned.ours, row));
        let theirs = self.theirs.row_text(aligned_line_at(&self.three_way_aligned.theirs, row));
        query.is_match(base) || query.is_match(ours) || query.is_match(theirs)
    }

    /// Collects the rows of the three-way view that hold a literal.
    pub fn search_three_way_via_spans(
        &self,
        query: AsciiCaseInsensitiveNeedle<'_>,
        out: &mut Vec<usize>,
    )
        requires
            self.wf(),
            query.wf(),
        ensures
            final(out)@ == old(out)@ + self.spans_hits(
                query.bytes@,
                self.three_way_visible@.len() as int,
            ),
    {
        let ghost before = out@;
        let ghost needle = query.bytes@;
        let mut k: usize = 0;
        assert(before =~= before + self.spans_hits(needle, 0));
        while k < self.three_way_visible.len()
            invariant
                self.wf(),
                query.wf(),
                needle == query.bytes@,
                0 <= k <= self.three_way_visible@.len(),
                out@ == before + self.spans_hits(needle, k as int),
            decreases self.three_way_visible@.len() - k,
        {
            let span = self.three_way_visible[k];
            let ghost upto = out@;
            assert(span.wf());
            match span {
                ThreeWayVisibleSpan::Lines { visible_start, source_line_start, len } => {
                    let mut i: usize = 0;
                    assert(upto =~= upto + self.span_hits(span, needle, 0));
                    while i < len
                        invariant
                            query.wf(),
                            needle == query.bytes@,
                            0 <= i <= len,
                            span.wf(),
                            span == (ThreeWayVisibleSpan::Lines {
                                visible_start,
                                source_line_start,
                                len,
                            }),
                            out@ == upto + self.span_hits(span, needle, i as int),
                        decreases len - i,
                    {
                        let ghost sofar = self.span_hits(span, needle, i as int);
                        assert(span.item(span.start() + i) == ThreeWayVisibleItem::Line(
                            (source_line_start + i) as usize,
                        ));
                        if self.row_holds(source_line_start + i, query) {
                            out.push(visible_start + i);
                            assert(out@ =~= upto + sofar.push((visible_start + i) as usize));
                        }
                        i += 1;
                    }
                },
                ThreeWayVisibleSpan::CollapsedResolvedBlock { visible_index, conflict_ix } => {
                    let text = summary_text(self.marker_segments, conflict_ix);
                    proof {
                        reveal_with_fuel(ConflictResolverSearchContext::span_hits, 2);
                        assert(Seq::<usize>::empty().push(visible_index) =~= seq![visible_index]);
                    }
                    if query.is_match(text.as_str()) {
                        out.push(visible_index);
                        assert(out@ =~= upto + self.span_hits(span, needle, 1));
                    } else {
                        assert(out@ =~= upto + self.span_hits(span, needle, 1));
                    }
                },
                ThreeWayVisibleSpan::CollapsedContext { .. } => {
                    proof {
                        reveal_with_fuel(ConflictResolverSearchContext::span_hits, 2);
                        assert(out@ =~= upto + self.span_hits(span, needle, 1));
                    }
                },
            }
            assert(out@ =~= before + (self.spans_hits(needle, k as int) + self.span_hits(
                span,
                needle,
                span.rows(),
            )));
            k += 1;
        }
    }

    /// A row of the two-way view holds a literal.
    pub open spec fn two_way_holds(&self, needle: Seq<u8>, row: int) -> bool {
        (self.two_way_rows@[row].old matches Some(text) && holds(
            encode_utf8(text@),
            needle,
            false,
        )) || (self.two_way_rows@[row].new matches Some(text) && holds(
            encode_utf8(text@),
            needle,
            false,
        ))
    }

    /// The rows that hold a literal.
    pub fn conflict_resolver_visible_match_indices_with_needle(
        &self,
        query: AsciiCaseInsensitiveNeedle<'_>,
    ) -> (out: Vec<usize>)
        requires
            self.wf(),
            query.wf(),
        ensures
            out@ == (match self.view_mode {
                ConflictResolverViewMode::ThreeWay => self.spans_hits(
                    query.bytes@,
                    self.three_way_visible@.len() as int,
                ),
                ConflictResolverViewMode::TwoWayDiff => rows_where(
                    self.two_way_rows@.len() as int,
                    |row: int| self.two_way_holds(query.bytes@, row),
                ),
            }),
    {
        let mut out: Vec<usize> = Vec::new();
        match self.view_mode {
            ConflictResolverViewMode::ThreeWay => {
                self.search_three_way_via_spans(query, &mut out);
                assert(out@ =~= self.spans_hits(
                    query.bytes@,
                    self.three_way_visible@.len() as int,
                ));
            },
            ConflictResolverViewMode::TwoWayDiff => {
                let ghost test = |row: int| self.two_way_holds(query.bytes@, row);
                let mut i: usize = 0;
                while i < self.two_way_rows.len()
                    invariant
                        query.wf(),
                        test == |row: int| self.two_way_holds(query.bytes@, row),
                        0 <= i <= self.two_way_rows@.len(),
                        out@ == rows_where(i as int, test),
                    decreases self.two_way_rows@.len() - i,
                {
                    let row = &self.two_way_rows[i];
                    let old_matches = match &row.old {
                        Some(text) => query.is_match(text.as_str()),
                        None => false,
                    };
                    let new_matches = match &row.new {
                        Some(text) => query.is_match(text.as_str()),
                        None => false,
                    };
                    assert(test(i as int) == (old_matches || new_matches));
                    if old_matches || new_matches {
                        out.push(i);
                    }
                    i += 1;
                }
            },
        }
        out
    }

    /// Whether what a row shows holds a query.
    pub fn three_way_visible_item_matches_query(&self, item: ThreeWayVisibleItem, query: &str) -> (answer:
        bool)
        ensures
            answer == (item !is CollapsedContext && (query@.len() == 0 || self.item_holds(
                item,
                query.spec_bytes(),
            ))),
    {
        proof {
            crate::search::matcher::lemma_empty_text(query@);
        }
        match AsciiCaseInsensitiveNeedle::new(query) {
            Some(needle) => match item {
                ThreeWayVisibleItem::Line(row) => self.row_holds(row, needle),
                ThreeWayVisibleItem::CollapsedBlock(conflict_ix) => {
                    let text = summary_text(self.marker_segments, conflict_ix);
                    needle.is_match(text.as_str())
                },
                ThreeWayVisibleItem::CollapsedContext => false,
            },
            None => match item {
                ThreeWayVisibleItem::CollapsedContext => false,
                _ => true,
            },
        }
    }
}

/// Spans that follow each other and start at the top.
pub open spec fn spans_follow(spans: Seq<ThreeWayVisibleSpan>) -> bool {
    &&& spans.len() > 0 ==> spans[0].start() == 0
    &&& forall|i: int|
        0 < i < spans.len() ==> (#[trigger] spans[i]).start() == spans[i - 1].start() + spans[i
            - 1].rows()
}

/// What a row shows.
pub open spec fn item_at(spans: Seq<ThreeWayVisibleSpan>, n: int, visible_ix: int) -> Option<
    ThreeWayVisibleItem,
>
    decreases n,
{
    if n <= 0 {
        None
    } else if spans[n - 1].start() <= visible_ix < spans[n - 1].start() + spans[n - 1].rows() {
        Some(spans[n - 1].item(visible_ix))
    } else {
        item_at(spans, n - 1, visible_ix)
    }
}

/// How many rows the first spans show.
pub open spec fn rows_of_spans(spans: Seq<ThreeWayVisibleSpan>, n: int) -> int {
    if n <= 0 {
        0
    } else {
        spans[n - 1].start() + spans[n - 1].rows()
    }
}

proof fn lemma_span_hits_add(
    context: ConflictResolverSearchContext<'_>,
    span: ThreeWayVisibleSpan,
    needle: Seq<u8>,
    n: int,
    test: spec_fn(int) -> bool,
)
    requires
        0 <= n <= span.rows(),
        span.wf(),
        0 <= span.start(),
        forall|row: int|
            span.start() <= row < span.start() + n ==> #[trigger] test(row) == context.item_holds(
                span.item(row),
                needle,
            ),
    ensures
        rows_where(span.start() + n, test) == rows_where(span.start(), test) + context.span_hits(
            span,
            needle,
            n,
        ),
    decreases n,
{
    let before = rows_where(span.start(), test);
    if n == 0 {
        assert(before + Seq::<usize>::empty() =~= before);
    } else {
        lemma_span_hits_add(context, span, needle, n - 1, test);
        let row = span.start() + n - 1;
        assert(test(row) == context.item_holds(span.item(row), needle));
        let hits = context.span_hits(span, needle, n - 1);
        assert(before + hits.push(row as usize) =~= (before + hits).push(row as usize));
    }
}

proof fn lemma_spans_hits(
    context: ConflictResolverSearchContext<'_>,
    needle: Seq<u8>,
    n: int,
)
    requires
        context.wf(),
        spans_follow(context.three_way_visible@),
        0 <= n <= context.three_way_visible@.len(),
    ensures
        0 <= rows_of_spans(context.three_way_visible@, n) <= usize::MAX,
        context.spans_hits(needle, n) == rows_where(
            rows_of_spans(context.three_way_visible@, n),
            |row: int|
                item_at(context.three_way_visible@, n, row) matches Some(item)
                    && context.item_holds(item, needle),
        ),
    decreases n,
{
    let spans = context.three_way_visible@;
    let test = |row: int|
        item_at(spans, n, row) matches Some(item) && context.item_holds(item, needle);
    if n == 0 {
        assert(context.spans_hits(needle, 0) =~= rows_where(0, test));
    } else {
        lemma_spans_hits(context, needle, n - 1);
        let span = spans[n - 1];
        assert(span.wf());
        let earlier = |row: int|
            item_at(spans, n - 1, row) matches Some(item) && context.item_holds(item, needle);
        assert(span.start() == rows_of_spans(spans, n - 1));
        assert forall|row: int| 0 <= row < span.start() implies #[trigger] earlier(row) == test(
            row,
        ) by {}
        crate::search::hits::lemma_rows_where_same(span.start(), earlier, test);
        assert forall|row: int|
            span.start() <= row < span.start() + span.rows() implies #[trigger] test(row)
            == context.item_holds(span.item(row), needle) by {}
        lemma_span_hits_add(context, span, needle, span.rows(), test);
    }
}

/// Searching span by span finds the rows that searching row by row finds.
pub proof fn law_span_search_is_row_search(
    context: ConflictResolverSearchContext<'_>,
    needle: Seq<u8>,
)
    requires
        context.wf(),
        spans_follow(context.three_way_visible@),
    ensures
        ({
            let spans = context.three_way_visible@;
            let n = spans.len() as int;
            context.spans_hits(needle, n) == rows_where(
                rows_of_spans(spans, n),
                |row: int|
                    item_at(spans, n, row) matches Some(item) && context.item_holds(item, needle),
            )
        }),
{
    lemma_spans_hits(context, needle, context.three_way_visible@.len() as int);
}

/// One of the columns of the three-way view.
#[derive(Clone, Copy, Debug, PartialEq, Eq, Structural)]
pub enum SearchColumn {
    Base,
    Ours,
    Theirs,
    Summary,
}

impl<'a> ConflictResolverSearchContext<'a> {
    pub open spec fn column_bytes(&self, column: SearchColumn, row: int) -> Seq<u8> {
        match column {
            SearchColumn::Base => self.base_bytes(row),
            SearchColumn::Ours => self.ours_bytes(row),
            SearchColumn::Theirs => self.theirs_bytes(row),
            SearchColumn::Summary => Seq::empty(),
        }
    }

    /// The rows of a span in a column: lines in the columns of the versions,
    /// folded conflicts in a column of their own.
    pub open spec fn span_column(&self, column: SearchColumn, span: ThreeWayVisibleSpan) -> Seq<
        (usize, Seq<char>),
    > {
        match span {
            ThreeWayVisibleSpan::Lines { visible_start, source_line_start, len } => if column
                is Summary {
                Seq::empty()
            } else {
                Seq::new(
                    len as nat,
                    |i: int|
                        (
                            (visible_start + i) as usize,
                            decode_utf8(self.column_bytes(column, source_line_start + i)),
                        ),
                )
            },
            ThreeWayVisibleSpan::CollapsedResolvedBlock { visible_index, conflict_ix } =>
            if column is Summary {
                seq![(visible_index, summary(self.marker_segments@, conflict_ix as int))]
            } else {
                Seq::empty()
            },
            ThreeWayVisibleSpan::CollapsedContext { .. } => Seq::empty(),
        }
    }

    /// The rows of the first spans in a column.
    pub open spec fn column(&self, column: SearchColumn, n: int) -> Seq<(usize, Seq<char>)>
        decreases n,
    {
        if n <= 0 {
            Seq::empty()
        } else {
            self.column(column, n - 1) + self.span_column(column, self.three_way_visible@[n - 1])
        }
    }

    fn column_text(&self, column: SearchColumn, row: usize) -> (text: &'a str)
        requires
            column !is Summary,
        ensures
            text@ == decode_utf8(self.column_bytes(column, row as int)),
    {
        let text = match column {
            SearchColumn::Base => self.base.row_text(
                aligned_line_at(&self.three_way_aligned.base, row),
            ),
            SearchColumn::Ours => self.ours.row_text(
                aligned_line_at(&self.three_way_aligned.ours, row),
            ),
            _ => self.theirs.row_text(aligned_line_at(&self.three_way_aligned.theirs, row)),
        };
        proof {
            vstd::utf8::encode_utf8_decode_utf8(text@);
        }
        text
    }

    fn column_rows(&self, column: SearchColumn) -> (rows: Vec<(usize, String)>)
        requires
            self.wf(),
        ensures
            owned_chars(rows@) == self.column(column, self.three_way_visible@.len() as int),
    {
        let mut rows: Vec<(usize, String)> = Vec::new();
        let summaries = match column {
            SearchColumn::Summary => true,
            _ => false,
        };
        let mut k: usize = 0;
        assert(owned_chars(rows@) =~= self.column(column, 0));
        while k < self.three_way_visible.len()
            invariant
                self.wf(),
                summaries == (column is Summary),
                0 <= k <= self.three_way_visible@.len(),
                owned_chars(rows@) == self.column(column, k as int),
            decreases self.three_way_visible@.len() - k,
        {
            let span = self.three_way_visible[k];
            let ghost upto = owned_chars(rows@);
            let ghost own = self.span_column(column, span);
            assert(span.wf());
            match span {
                ThreeWayVisibleSpan::Lines { visible_start, source_line_start, len } => {
                    if !summaries {
                        let mut i: usize = 0;
                        assert(upto + own.take(0) =~= upto);
                        while i < len
                            invariant
                                0 <= i <= len,
                                column !is Summary,
                                span.wf(),
                                span == (ThreeWayVisibleSpan::Lines {
                                    visible_start,
                                    source_line_start,
                                    len,
                                }),
                                own == self.span_column(column, span),
                                owned_chars(rows@) == upto + own.take(i as int),
                            decreases len - i,
                        {
                            let ghost before = rows@;
                            let text = self.column_text(column, source_line_start + i).to_owned();
                            let ghost chars = text@;
                            rows.push((visible_start + i, text));
                            proof {
                                let row = ((visible_start + i) as usize, chars);
                                assert(owned_chars(rows@) =~= owned_chars(before).push(row));
                                assert(own[i as int] == row);
                                assert(own.take(i + 1) =~= own.take(i as int).push(row));
                                assert(upto + own.take(i + 1) =~= (upto + own.take(i as int)).push(
                                    row,
                                ));
                            }
                            i += 1;
                        }
                        assert(own.take(len as int) =~= own);
                    } else {
                        assert(upto + own =~= upto);
                    }
                },
                ThreeWayVisibleSpan::CollapsedResolvedBlock { visible_index, conflict_ix } => {
                    if summaries {
                        let ghost before = rows@;
                        let text = summary_text(self.marker_segments, conflict_ix);
                        let ghost chars = text@;
                        rows.push((visible_index, text));
                        assert(owned_chars(rows@) =~= owned_chars(before).push(
                            (visible_index, chars),
                        ));
                        assert(owned_chars(rows@) =~= upto + own);
                    } else {
                        assert(upto + own =~= upto);
                    }
                },
                ThreeWayVisibleSpan::CollapsedContext { .. } => {
                    assert(upto + own =~= upto);
                },
            }
            k += 1;
        }
        rows
    }

    /// What the columns of the three-way view give.
    pub open spec fn three_way_found(&self, sought: Sought) -> Seq<usize> {
        let n = self.three_way_visible@.len() as int;
        numbers(offsets_of(sought, self.column(SearchColumn::Base, n))) + numbers(
            offsets_of(sought, self.column(SearchColumn::Ours, n)),
        ) + numbers(offsets_of(sought, self.column(SearchColumn::Theirs, n))) + numbers(
            offsets_of(sought, self.column(SearchColumn::Summary, n)),
        )
    }

    /// Collects the rows of the three-way view in which a match starts, column
    /// by column.
    pub fn search_three_way_via_spans_with_matcher(
        &self,
        matcher: &DiffSearchMatcher,
        out: &mut Vec<usize>,
    )
        requires
            self.wf(),
            matcher.wf(),
        ensures
            final(out)@ == old(out)@ + self.three_way_found(matcher@),
    {
        let ghost before = out@;
        let base = self.column_rows(SearchColumn::Base);
        let ours = self.column_rows(SearchColumn::Ours);
        let theirs = self.column_rows(SearchColumn::Theirs);
        let summaries = self.column_rows(SearchColumn::Summary);
        collect_stream_match_visible_rows(row_refs(&base).as_slice(), matcher, out);
        collect_stream_match_visible_rows(row_refs(&ours).as_slice(), matcher, out);
        collect_stream_match_visible_rows(row_refs(&theirs).as_slice(), matcher, out);
        collect_stream_match_visible_rows(row_refs(&summaries).as_slice(), matcher, out);
        assert(out@ =~= before + self.three_way_found(matcher@));
    }

    /// The rows of the two-way view, with their sides.
    pub open spec fn two_way_sides(&self) -> Seq<(usize, Option<Seq<char>>, Option<Seq<char>>)> {
        Seq::new(
            self.two_way_rows@.len(),
            |i: int|
                (
                    i as usize,
                    match self.two_way_rows@[i].old {
                        Some(text) => Some(text@),
                        None => None,
                    },
                    match self.two_way_rows@[i].new {
                        Some(text) => Some(text@),
                        None => None,
                    },
                ),
        )
    }

    /// The rows in which a match starts, as they are come upon.
    pub open spec fn matcher_hits(&self, sought: Sought) -> Seq<usize> {
        match self.view_mode {
            ConflictResolverViewMode::ThreeWay => self.three_way_found(sought),
            ConflictResolverViewMode::TwoWayDiff => split_found(sought, self.two_way_sides()),
        }
    }

    /// The rows in which a match starts, each once and in order.
    pub fn conflict_resolver_visible_match_indices_with_matcher(
        &self,
        matcher: &DiffSearchMatcher,
    ) -> (out: Vec<usize>)
        requires
            self.wf(),
            matcher.wf(),
        ensures
            settled_rows(
                out@,
                self.matcher_hits(matcher@),
            ),
    {
        let mut out: Vec<usize> = Vec::new();
        match self.view_mode {
            ConflictResolverViewMode::ThreeWay => {
                self.search_three_way_via_spans_with_matcher(matcher, &mut out);
                assert(out@ =~= self.three_way_found(matcher@));
            },
            ConflictResolverViewMode::TwoWayDiff => {
                let mut rows: Vec<(usize, Option<&str>, Option<&str>)> = Vec::new();
                let mut i: usize = 0;
                while i < self.two_way_rows.len()
                    invariant
                        0 <= i <= self.two_way_rows@.len(),
                        rows@.len() == i,
                        forall|k: int|
                            0 <= k < i ==> (
                                (#[trigger] rows@[k]).0,
                                side_chars(rows@[k].1),
                                side_chars(rows@[k].2),
                            ) == self.two_way_sides()[k],
                    decreases self.two_way_rows@.len() - i,
                {
                    let row = &self.two_way_rows[i];
                    let left = match &row.old {
                        Some(text) => Some(text.as_str()),
                        None => None,
                    };
                    let right = match &row.new {
                        Some(text) => Some(text.as_str()),
                        None => None,
                    };
                    rows.push((i, left, right));
                    i += 1;
                }
                assert(split_chars(rows@) =~= self.two_way_sides());
                collect_split_stream_match_visible_rows(rows.as_slice(), matcher, &mut out);
                assert(out@ =~= split_found(matcher@, self.two_way_sides()));
            },
        }
        sort_and_dedup(&mut out);
        out
    }
}

} // verus!
