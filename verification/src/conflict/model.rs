//! Conflicts, what was picked for them, and the text between them.
use crate::text::clone_text;
use vstd::prelude::*;

verus! {

/// A version that text is taken from.
#[derive(Clone, Copy, Debug, PartialEq, Eq, Structural)]
pub enum ConflictOutputSource {
    Base,
    Ours,
    Theirs,
}

/// A place in a pick, taken by a version or not.
#[derive(Clone, Copy, Debug, PartialEq, Eq, Structural)]
pub enum PickSlot {
    Nothing,
    Base,
    Ours,
    Theirs,
}

/// The versions picked for a conflict, in the order they are written.
#[derive(Clone, Copy, Debug, PartialEq, Eq, Structural)]
pub struct ConflictChoice {
    pub first: PickSlot,
    pub second: PickSlot,
    pub third: PickSlot,
}

pub open spec fn slot_sources(slot: PickSlot) -> Seq<ConflictOutputSource> {
    match slot {
        PickSlot::Nothing => Seq::empty(),
        PickSlot::Base => seq![ConflictOutputSource::Base],
        PickSlot::Ours => seq![ConflictOutputSource::Ours],
        PickSlot::Theirs => seq![ConflictOutputSource::Theirs],
    }
}

impl ConflictChoice {
    /// What was picked, in order.
    pub open spec fn sources(self) -> Seq<ConflictOutputSource> {
        slot_sources(self.first) + slot_sources(self.second) + slot_sources(self.third)
    }

    pub open spec fn spec_empty() -> ConflictChoice {
        ConflictChoice {
            first: PickSlot::Nothing,
            second: PickSlot::Nothing,
            third: PickSlot::Nothing,
        }
    }

    pub open spec fn spec_single(slot: PickSlot) -> ConflictChoice {
        ConflictChoice { first: slot, second: PickSlot::Nothing, third: PickSlot::Nothing }
    }

    pub open spec fn spec_both() -> ConflictChoice {
        ConflictChoice { first: PickSlot::Ours, second: PickSlot::Theirs, third: PickSlot::Nothing }
    }

    /// Nothing was picked.
    pub open spec fn picks_nothing(self) -> bool {
        self == ConflictChoice::spec_empty()
    }

    pub fn empty() -> (choice: ConflictChoice)
        ensures
            choice == ConflictChoice::spec_empty(),
            choice.sources().len() == 0,
    {
        ConflictChoice {
            first: PickSlot::Nothing,
            second: PickSlot::Nothing,
            third: PickSlot::Nothing,
        }
    }

    pub fn base() -> (choice: ConflictChoice)
        ensures
            choice == ConflictChoice::spec_single(PickSlot::Base),
    {
        ConflictChoice {
            first: PickSlot::Base,
            second: PickSlot::Nothing,
            third: PickSlot::Nothing,
        }
    }

    pub fn ours() -> (choice: ConflictChoice)
        ensures
            choice == ConflictChoice::spec_single(PickSlot::Ours),
    {
        ConflictChoice {
            first: PickSlot::Ours,
            second: PickSlot::Nothing,
            third: PickSlot::Nothing,
        }
    }

    pub fn theirs() -> (choice: ConflictChoice)
        ensures
            choice == ConflictChoice::spec_single(PickSlot::Theirs),
    {
        ConflictChoice {
            first: PickSlot::Theirs,
            second: PickSlot::Nothing,
            third: PickSlot::Nothing,
        }
    }

    /// Ours, then theirs.
    pub fn both() -> (choice: ConflictChoice)
        ensures
            choice == ConflictChoice::spec_both(),
    {
        ConflictChoice { first: PickSlot::Ours, second: PickSlot::Theirs, third: PickSlot::Nothing }
    }

    pub fn is_empty(&self) -> (answer: bool)
        ensures
            answer == self.picks_nothing(),
    {
        *self == ConflictChoice::empty()
    }

    /// Whether a version is among those picked.
    pub fn contains(&self, source: ConflictOutputSource) -> (answer: bool)
        ensures
            answer == self.sources().contains(source),
    {
        let slot = match source {
            ConflictOutputSource::Base => PickSlot::Base,
            ConflictOutputSource::Ours => PickSlot::Ours,
            ConflictOutputSource::Theirs => PickSlot::Theirs,
        };
        proof {
            self.lemma_sources_contain(source);
        }
        self.first == slot || self.second == slot || self.third == slot
    }

    proof fn lemma_sources_contain(self, source: ConflictOutputSource)
        ensures
            self.sources().contains(source) == (slot_sources(self.first).contains(source)
                || slot_sources(self.second).contains(source) || slot_sources(self.third).contains(
                source,
            )),
            slot_sources(PickSlot::Nothing).contains(source) == false,
            slot_sources(PickSlot::Base).contains(source) == (source == ConflictOutputSource::Base),
            slot_sources(PickSlot::Ours).contains(source) == (source == ConflictOutputSource::Ours),
            slot_sources(PickSlot::Theirs).contains(source) == (source
                == ConflictOutputSource::Theirs),
    {
        let a = slot_sources(self.first);
        let b = slot_sources(self.second);
        let c = slot_sources(self.third);
        let all = a + b + c;
        assert forall|k: int| 0 <= k < a.len() implies a[k] == all[k] by {}
        assert forall|k: int| 0 <= k < b.len() implies b[k] == all[a.len() + k] by {}
        assert forall|k: int| 0 <= k < c.len() implies c[k] == all[a.len() + b.len() + k] by {}
        if all.contains(source) {
            let k = choose|k: int| 0 <= k < all.len() && all[k] == source;
            if k < a.len() {
                assert(a[k] == source);
            } else if k < a.len() + b.len() {
                assert(b[k - a.len()] == source);
            } else {
                assert(c[k - a.len() - b.len()] == source);
            }
        }
        if a.contains(source) {
            let k = choose|k: int| 0 <= k < a.len() && a[k] == source;
            assert(all[k] == source);
        }
        if b.contains(source) {
            let k = choose|k: int| 0 <= k < b.len() && b[k] == source;
            assert(all[a.len() + k] == source);
        }
        if c.contains(source) {
            let k = choose|k: int| 0 <= k < c.len() && c[k] == source;
            assert(all[a.len() + b.len() + k] == source);
        }
        assert(seq![ConflictOutputSource::Base][0] == ConflictOutputSource::Base);
        assert(seq![ConflictOutputSource::Ours][0] == ConflictOutputSource::Ours);
        assert(seq![ConflictOutputSource::Theirs][0] == ConflictOutputSource::Theirs);
    }
}

/// A conflict: its versions, and what was picked.
#[derive(Debug, PartialEq, Eq)]
pub struct ConflictBlock {
    pub base: Option<String>,
    pub ours: String,
    pub theirs: String,
    pub choice: ConflictChoice,
    pub resolved: bool,
    pub whitespace_only: bool,
}

#[derive(Debug, PartialEq, Eq)]
pub enum ConflictSegment {
    Text(String),
    Block(ConflictBlock),
}

/// A finer piece of a conflict: settled text, or a smaller conflict.
#[derive(Debug, PartialEq, Eq)]
pub enum Subchunk {
    Resolved(String),
    Conflict { base: String, ours: String, theirs: String },
}

pub struct BlockView {
    pub base: Option<Seq<char>>,
    pub ours: Seq<char>,
    pub theirs: Seq<char>,
    pub choice: ConflictChoice,
    pub resolved: bool,
    pub whitespace_only: bool,
}

pub enum SegmentView {
    Text(Seq<char>),
    Block(BlockView),
}

pub enum SubchunkView {
    Resolved(Seq<char>),
    Conflict { base: Seq<char>, ours: Seq<char>, theirs: Seq<char> },
}

pub open spec fn text_view(text: Option<String>) -> Option<Seq<char>> {
    match text {
        Some(text) => Some(text@),
        None => None,
    }
}

impl View for ConflictBlock {
    type V = BlockView;

    open spec fn view(&self) -> BlockView {
        BlockView {
            base: text_view(self.base),
            ours: self.ours@,
            theirs: self.theirs@,
            choice: self.choice,
            resolved: self.resolved,
            whitespace_only: self.whitespace_only,
        }
    }
}

impl View for ConflictSegment {
    type V = SegmentView;

    open spec fn view(&self) -> SegmentView {
        match self {
            ConflictSegment::Text(text) => SegmentView::Text(text@),
            ConflictSegment::Block(block) => SegmentView::Block(block@),
        }
    }
}

impl View for Subchunk {
    type V = SubchunkView;

    open spec fn view(&self) -> SubchunkView {
        match self {
            Subchunk::Resolved(text) => SubchunkView::Resolved(text@),
            Subchunk::Conflict { base, ours, theirs } => SubchunkView::Conflict {
                base: base@,
                ours: ours@,
                theirs: theirs@,
            },
        }
    }
}

pub open spec fn segment_views(segments: Seq<ConflictSegment>) -> Seq<SegmentView> {
    segments.map_values(|segment: ConflictSegment| segment@)
}

pub open spec fn subchunk_views(subchunks: Seq<Subchunk>) -> Seq<SubchunkView> {
    subchunks.map_values(|subchunk: Subchunk| subchunk@)
}

/// How many of the first `n` segments are conflicts.
pub open spec fn block_count(segments: Seq<SegmentView>, n: int) -> int
    decreases n,
{
    if n <= 0 {
        0
    } else {
        block_count(segments, n - 1) + (if segments[n - 1] is Block {
            1int
        } else {
            0int
        })
    }
}

/// The conflicts among the first `n` segments, in order.
pub open spec fn blocks_of(segments: Seq<SegmentView>, n: int) -> Seq<BlockView>
    decreases n,
{
    if n <= 0 {
        Seq::empty()
    } else {
        match segments[n - 1] {
            SegmentView::Block(block) => blocks_of(segments, n - 1).push(block),
            SegmentView::Text(_) => blocks_of(segments, n - 1),
        }
    }
}

pub proof fn lemma_block_count(segments: Seq<SegmentView>, n: int)
    requires
        0 <= n <= segments.len(),
    ensures
        0 <= block_count(segments, n) <= n,
        blocks_of(segments, n).len() == block_count(segments, n),
    decreases n,
{
    if n > 0 {
        lemma_block_count(segments, n - 1);
    }
}

pub proof fn lemma_blocks_grow(segments: Seq<SegmentView>, n: int, m: int)
    requires
        0 <= n <= m <= segments.len(),
    ensures
        block_count(segments, n) <= block_count(segments, m),
        blocks_of(segments, n) =~= blocks_of(segments, m).take(block_count(segments, n)),
    decreases m,
{
    lemma_block_count(segments, n);
    lemma_block_count(segments, m);
    if n < m {
        lemma_blocks_grow(segments, n, m - 1);
        lemma_block_count(segments, m - 1);
        assert(blocks_of(segments, m - 1) =~= blocks_of(segments, m).take(
            block_count(segments, m - 1),
        ));
    }
}

/// The text that a pick writes.
pub open spec fn picked_text(
    base: Seq<char>,
    ours: Seq<char>,
    theirs: Seq<char>,
    sources: Seq<ConflictOutputSource>,
    n: int,
) -> Seq<char>
    decreases n,
{
    if n <= 0 {
        Seq::empty()
    } else {
        picked_text(base, ours, theirs, sources, n - 1) + (match sources[n - 1] {
            ConflictOutputSource::Base => base,
            ConflictOutputSource::Ours => ours,
            ConflictOutputSource::Theirs => theirs,
        })
    }
}

pub open spec fn slot_text(
    base: Seq<char>,
    ours: Seq<char>,
    theirs: Seq<char>,
    slot: PickSlot,
) -> Seq<char> {
    match slot {
        PickSlot::Nothing => Seq::empty(),
        PickSlot::Base => base,
        PickSlot::Ours => ours,
        PickSlot::Theirs => theirs,
    }
}

fn push_slot(out: &mut String, base: &str, ours: &str, theirs: &str, slot: PickSlot)
    ensures
        final(out)@ == old(out)@ + slot_text(base@, ours@, theirs@, slot),
{
    match slot {
        PickSlot::Nothing => {
            assert(out@ + Seq::<char>::empty() =~= out@);
        },
        PickSlot::Base => {
            out.append(base);
        },
        PickSlot::Ours => {
            out.append(ours);
        },
        PickSlot::Theirs => {
            out.append(theirs);
        },
    }
}

proof fn lemma_slot_extends(
    base: Seq<char>,
    ours: Seq<char>,
    theirs: Seq<char>,
    sources: Seq<ConflictOutputSource>,
    slot: PickSlot,
)
    ensures
        ({
            let longer = sources + slot_sources(slot);
            picked_text(base, ours, theirs, longer, longer.len() as int) == picked_text(
                base,
                ours,
                theirs,
                sources,
                sources.len() as int,
            ) + slot_text(base, ours, theirs, slot)
        }),
{
    let longer = sources + slot_sources(slot);
    lemma_picked_prefix(base, ours, theirs, sources, longer, sources.len() as int);
    if slot == PickSlot::Nothing {
        assert(longer =~= sources);
        assert(picked_text(base, ours, theirs, sources, sources.len() as int) + Seq::<char>::empty()
            =~= picked_text(base, ours, theirs, sources, sources.len() as int));
    }
}

proof fn lemma_picked_prefix(
    base: Seq<char>,
    ours: Seq<char>,
    theirs: Seq<char>,
    a: Seq<ConflictOutputSource>,
    b: Seq<ConflictOutputSource>,
    n: int,
)
    requires
        0 <= n <= a.len(),
        n <= b.len(),
        forall|k: int| 0 <= k < n ==> a[k] == b[k],
    ensures
        picked_text(base, ours, theirs, a, n) == picked_text(base, ours, theirs, b, n),
    decreases n,
{
    if n > 0 {
        lemma_picked_prefix(base, ours, theirs, a, b, n - 1);
    }
}

/// The text that a pick writes for a conflict.
pub fn conflict_fragment_text_for_choice(
    base: &str,
    ours: &str,
    theirs: &str,
    choice: ConflictChoice,
) -> (text: String)
    ensures
        text@ == picked_text(
            base@,
            ours@,
            theirs@,
            choice.sources(),
            choice.sources().len() as int,
        ),
{
    let mut out = String::new();
    push_slot(&mut out, base, ours, theirs, choice.first);
    push_slot(&mut out, base, ours, theirs, choice.second);
    push_slot(&mut out, base, ours, theirs, choice.third);
    proof {
        let none = Seq::<ConflictOutputSource>::empty();
        let one = slot_sources(choice.first);
        let two = one + slot_sources(choice.second);
        assert(none + one =~= one);
        assert(Seq::<char>::empty() + slot_text(base@, ours@, theirs@, choice.first) =~= slot_text(
            base@,
            ours@,
            theirs@,
            choice.first,
        ));
        lemma_slot_extends(base@, ours@, theirs@, none, choice.first);
        lemma_slot_extends(base@, ours@, theirs@, one, choice.second);
        lemma_slot_extends(base@, ours@, theirs@, two, choice.third);
    }
    out
}

impl ConflictBlock {
    /// The same conflict once more.
    pub fn copied(&self) -> (copy: ConflictBlock)
        ensures
            copy == *self,
    {
        ConflictBlock {
            base: clone_text(&self.base),
            ours: self.ours.clone(),
            theirs: self.theirs.clone(),
            choice: self.choice,
            resolved: self.resolved,
            whitespace_only: self.whitespace_only,
        }
    }
}

} // verus!
