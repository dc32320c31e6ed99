//! Following an edited text: which bytes and lines an edit touched, and where
//! the lines around it went.
use crate::lines::same_str;
use crate::num::less;
use crate::num::less_usize;
use crate::num::max;
use crate::num::max_usize;
use crate::num::min;
use crate::num::min_usize;
use crate::num::plus;
use crate::num::plus_usize;
use std::ops::Range;
use vstd::prelude::*;
use vstd::string::*;
use vstd::utf8::is_char_boundary;

verus! {

/// A revision of an edited text.
#[derive(Debug)]
pub struct TextSnapshot {
    pub model_id: u64,
    pub revision: u64,
    pub text: String,
}

#[derive(Clone, Copy, Debug, PartialEq, Eq, Structural)]
pub struct ResolvedOutputSourceRevision {
    pub model_id: u64,
    pub revision: u64,
}

impl ResolvedOutputSourceRevision {
    pub fn from_snapshot(snapshot: &TextSnapshot) -> (revision: Self)
        ensures
            revision.model_id == snapshot.model_id,
            revision.revision == snapshot.revision,
    {
        ResolvedOutputSourceRevision {
            model_id: snapshot.model_id,
            revision: snapshot.revision,
        }
    }
}

/// Whether there is a saved text and the current one reads differently.
pub fn resolved_output_snapshot_is_modified(
    saved: Option<&TextSnapshot>,
    current: &TextSnapshot,
) -> (modified: bool)
    ensures
        modified == (saved matches Some(saved) && current.text@ != saved.text@),
{
    match saved {
        Some(saved) => !same_str(current.text.as_str(), saved.text.as_str()),
        None => false,
    }
}

/// A styled row, with the syntax and the search it was styled for.
#[derive(Debug)]
pub struct VersionedCachedDiffStyledText {
    pub syntax_epoch: u64,
    pub query_generation: u64,
    pub styled: String,
}

pub fn versioned_cached_diff_styled_text_is_current(
    entry: Option<&VersionedCachedDiffStyledText>,
    syntax_epoch: u64,
) -> (styled: Option<&String>)
    ensures
        styled == (match entry {
            Some(entry) => if entry.syntax_epoch == syntax_epoch {
                Some(&entry.styled)
            } else {
                None
            },
            None => None,
        }),
{
    match entry {
        Some(entry) => if entry.syntax_epoch == syntax_epoch {
            Some(&entry.styled)
        } else {
            None
        },
        None => None,
    }
}

pub fn versioned_query_cached_diff_styled_text_is_current(
    entry: Option<&VersionedCachedDiffStyledText>,
    syntax_epoch: u64,
    query_generation: u64,
) -> (styled: Option<&String>)
    ensures
        styled == (match entry {
            Some(entry) => if entry.syntax_epoch == syntax_epoch && entry.query_generation
                == query_generation {
                Some(&entry.styled)
            } else {
                None
            },
            None => None,
        }),
{
    match entry {
        Some(entry) => if entry.syntax_epoch == syntax_epoch && entry.query_generation
            == query_generation {
            Some(&entry.styled)
        } else {
            None
        },
        None => None,
    }
}

/// The bytes that an edit replaced, and those that stand in their place.
#[derive(Debug, PartialEq, Eq)]
pub struct ResolvedOutlineDelta {
    pub old_range: Range<usize>,
    pub new_range: Range<usize>,
}

/// The same, for a parser that takes up an edited text.
#[derive(Debug, PartialEq, Eq)]
pub struct DiffSyntaxEdit {
    pub old_range: Range<usize>,
    pub new_range: Range<usize>,
}

/// How far two texts agree from a place on.
pub open spec fn common_prefix(a: Seq<u8>, b: Seq<u8>, from: int) -> int
    decreases a.len() - from,
{
    if 0 <= from < a.len() && from < b.len() && a[from] == b[from] {
        common_prefix(a, b, from + 1)
    } else {
        from
    }
}

/// How many bytes two texts share at their ends, counting on from some and
/// never more than there is room for.
pub open spec fn common_suffix(a: Seq<u8>, b: Seq<u8>, room: int, from: int) -> int
    decreases room - from,
{
    if from < room && a[a.len() - 1 - from] == b[b.len() - 1 - from] {
        common_suffix(a, b, room, from + 1)
    } else {
        from
    }
}

/// The last place up to here at which a character starts in both texts.
pub open spec fn prefix_boundary(a: Seq<u8>, b: Seq<u8>, at: int) -> int
    decreases at,
{
    if at > 0 && !(is_char_boundary(a, at) && is_char_boundary(b, at)) {
        prefix_boundary(a, b, at - 1)
    } else {
        at
    }
}

/// The longest shared end up to here that starts a character in both texts.
pub open spec fn suffix_boundary(a: Seq<u8>, b: Seq<u8>, count: int) -> int
    decreases count,
{
    if count > 0 && !(is_char_boundary(a, a.len() - count) && is_char_boundary(
        b,
        b.len() - count,
    )) {
        suffix_boundary(a, b, count - 1)
    } else {
        count
    }
}

/// Two texts share their start up to here.
pub open spec fn share_start(a: Seq<u8>, b: Seq<u8>, count: int) -> bool {
    &&& 0 <= count <= a.len()
    &&& count <= b.len()
    &&& forall|k: int| 0 <= k < count ==> #[trigger] a[k] == b[k]
}

/// Two texts share that many bytes at their ends.
pub open spec fn share_end(a: Seq<u8>, b: Seq<u8>, count: int) -> bool {
    &&& 0 <= count <= a.len()
    &&& count <= b.len()
    &&& a.skip(a.len() - count) == b.skip(b.len() - count)
}

proof fn lemma_common_prefix(a: Seq<u8>, b: Seq<u8>, from: int)
    requires
        share_start(a, b, from),
    ensures
        share_start(a, b, common_prefix(a, b, from)),
        from <= common_prefix(a, b, from),
    decreases a.len() - from,
{
    if 0 <= from < a.len() && from < b.len() && a[from] == b[from] {
        lemma_common_prefix(a, b, from + 1);
    }
}

proof fn lemma_common_suffix(a: Seq<u8>, b: Seq<u8>, room: int, from: int)
    requires
        share_end(a, b, from),
        from <= room,
        room <= a.len(),
        room <= b.len(),
    ensures
        share_end(a, b, common_suffix(a, b, room, from)),
        from <= common_suffix(a, b, room, from) <= room,
    decreases room - from,
{
    if from < room && a[a.len() - 1 - from] == b[b.len() - 1 - from] {
        assert(a.skip(a.len() - (from + 1)) =~= seq![a[a.len() - 1 - from]] + a.skip(
            a.len() - from,
        ));
        assert(b.skip(b.len() - (from + 1)) =~= seq![b[b.len() - 1 - from]] + b.skip(
            b.len() - from,
        ));
        lemma_common_suffix(a, b, room, from + 1);
    }
}

proof fn lemma_shorter_end(a: Seq<u8>, b: Seq<u8>, count: int, fewer: int)
    requires
        share_end(a, b, count),
        0 <= fewer <= count,
    ensures
        share_end(a, b, fewer),
{
    assert(a.skip(a.len() - fewer) =~= a.skip(a.len() - count).skip(count - fewer));
    assert(b.skip(b.len() - fewer) =~= b.skip(b.len() - count).skip(count - fewer));
}

proof fn lemma_prefix_boundary(a: Seq<u8>, b: Seq<u8>, at: int)
    requires
        at >= 0,
    ensures
        0 <= prefix_boundary(a, b, at) <= at,
        prefix_boundary(a, b, at) == 0 || (is_char_boundary(a, prefix_boundary(a, b, at))
            && is_char_boundary(b, prefix_boundary(a, b, at))),
    decreases at,
{
    if at > 0 && !(is_char_boundary(a, at) && is_char_boundary(b, at)) {
        lemma_prefix_boundary(a, b, at - 1);
    }
}

proof fn lemma_suffix_boundary(a: Seq<u8>, b: Seq<u8>, count: int)
    requires
        count >= 0,
    ensures
        0 <= suffix_boundary(a, b, count) <= count,
        suffix_boundary(a, b, count) == 0 || (is_char_boundary(
            a,
            a.len() - suffix_boundary(a, b, count),
        ) && is_char_boundary(b, b.len() - suffix_boundary(a, b, count))),
    decreases count,
{
    if count > 0 && !(is_char_boundary(a, a.len() - count) && is_char_boundary(
        b,
        b.len() - count,
    )) {
        lemma_suffix_boundary(a, b, count - 1);
    }
}

/// How many bytes two texts share at the start, and how many of the others
/// they share at the end.
pub open spec fn affixes(a: Seq<u8>, b: Seq<u8>) -> (int, int) {
    let prefix = common_prefix(a, b, 0);
    (prefix, common_suffix(a, b, min(a.len() as int, b.len() as int) - prefix, 0))
}

/// The same in whole characters.
pub open spec fn char_affixes(a: Seq<u8>, b: Seq<u8>) -> (int, int) {
    let prefix = prefix_boundary(a, b, common_prefix(a, b, 0));
    (
        prefix,
        suffix_boundary(
            a,
            b,
            common_suffix(a, b, min(a.len() as int, b.len() as int) - prefix, 0),
        ),
    )
}

/// Putting what changed in place of what it replaced gives the new text: what
/// is kept on both sides is shared, and does not overlap.
pub proof fn law_edit_rebuilds_text(a: Seq<u8>, b: Seq<u8>)
    ensures
        ({
            let (prefix, suffix) = affixes(a, b);
            &&& 0 <= prefix <= a.len() - suffix <= a.len()
            &&& prefix <= b.len() - suffix <= b.len()
            &&& b == a.take(prefix) + b.subrange(prefix, b.len() - suffix) + a.skip(
                a.len() - suffix,
            )
        }),
{
    let (prefix, suffix) = affixes(a, b);
    lemma_common_prefix(a, b, 0);
    assert(a.skip(a.len() as int) =~= b.skip(b.len() as int));
    lemma_common_suffix(a, b, min(a.len() as int, b.len() as int) - prefix, 0);
    lemma_rebuild(a, b, prefix, suffix);
}

/// The same of a change in whole characters, which cuts neither text within a
/// character.
pub proof fn law_delta_rebuilds_text(a: Seq<u8>, b: Seq<u8>)
    requires
        vstd::utf8::valid_utf8(a),
        vstd::utf8::valid_utf8(b),
    ensures
        ({
            let (prefix, suffix) = char_affixes(a, b);
            &&& 0 <= prefix <= a.len() - suffix <= a.len()
            &&& prefix <= b.len() - suffix <= b.len()
            &&& b == a.take(prefix) + b.subrange(prefix, b.len() - suffix) + a.skip(
                a.len() - suffix,
            )
            &&& is_char_boundary(a, prefix) && is_char_boundary(a, a.len() - suffix)
            &&& is_char_boundary(b, prefix) && is_char_boundary(b, b.len() - suffix)
        }),
{
    let (prefix, suffix) = char_affixes(a, b);
    lemma_common_prefix(a, b, 0);
    lemma_prefix_boundary(a, b, common_prefix(a, b, 0));
    assert(a.skip(a.len() as int) =~= b.skip(b.len() as int));
    let room = min(a.len() as int, b.len() as int) - prefix;
    lemma_common_suffix(a, b, room, 0);
    lemma_suffix_boundary(a, b, common_suffix(a, b, room, 0));
    lemma_shorter_end(a, b, common_suffix(a, b, room, 0), suffix);
    lemma_rebuild(a, b, prefix, suffix);
    vstd::utf8::is_char_boundary_start_end_of_seq(a);
    vstd::utf8::is_char_boundary_start_end_of_seq(b);
}

proof fn lemma_rebuild(a: Seq<u8>, b: Seq<u8>, prefix: int, suffix: int)
    requires
        share_start(a, b, prefix),
        share_end(a, b, suffix),
        prefix + suffix <= a.len(),
        prefix + suffix <= b.len(),
    ensures
        b == a.take(prefix) + b.subrange(prefix, b.len() - suffix) + a.skip(a.len() - suffix),
{
    let built = a.take(prefix) + b.subrange(prefix, b.len() - suffix) + a.skip(a.len() - suffix);
    assert forall|i: int| 0 <= i < b.len() implies b[i] == built[i] by {
        if i >= b.len() - suffix {
            assert(built[i] == a.skip(a.len() - suffix)[i - (b.len() - suffix)]);
            assert(b.skip(b.len() - suffix)[i - (b.len() - suffix)] == b[i]);
        }
    }
    assert(b =~= built);
}

fn shared_prefix(a: &[u8], b: &[u8]) -> (count: usize)
    ensures
        count == common_prefix(a@, b@, 0),
        count <= a@.len(),
        count <= b@.len(),
{
    let mut count: usize = 0;
    while count < a.len() && count < b.len() && a[count] == b[count]
        invariant
            0 <= count <= a@.len(),
            count <= b@.len(),
            common_prefix(a@, b@, 0) == common_prefix(a@, b@, count as int),
        decreases a@.len() - count,
    {
        count += 1;
    }
    count
}

fn shared_suffix(a: &[u8], b: &[u8], room: usize) -> (count: usize)
    requires
        room <= a@.len(),
        room <= b@.len(),
    ensures
        count == common_suffix(a@, b@, room as int, 0),
        count <= room,
{
    let mut count: usize = 0;
    while count < room && a[a.len() - 1 - count] == b[b.len() - 1 - count]
        invariant
            0 <= count <= room,
            room <= a@.len(),
            room <= b@.len(),
            common_suffix(a@, b@, room as int, 0) == common_suffix(
                a@,
                b@,
                room as int,
                count as int,
            ),
        decreases room - count,
    {
        count += 1;
    }
    count
}

/// Where the bytes that two texts share at the start end, and where those that
/// they share at the end start in each.
pub fn shared_byte_affix_bounds(a: &[u8], b: &[u8]) -> (bounds: (usize, usize, usize))
    ensures
        ({
            let (prefix, suffix) = affixes(a@, b@);
            bounds.0 == prefix && bounds.1 == a@.len() - suffix && bounds.2 == b@.len() - suffix
        }),
{
    let prefix = shared_prefix(a, b);
    let suffix = shared_suffix(a, b, min_usize(a.len(), b.len()) - prefix);
    (prefix, a.len() - suffix, b.len() - suffix)
}

/// What to tell a parser of how a text changed; nothing where it did not.
pub fn diff_syntax_edit_from_text_change(old: &str, new: &str) -> (edit: Option<DiffSyntaxEdit>)
    ensures
        match edit {
            Some(edit) => old@ != new@ && ({
                let (prefix, suffix) = affixes(old.spec_bytes(), new.spec_bytes());
                &&& edit.old_range.start == prefix
                &&& edit.new_range.start == prefix
                &&& edit.old_range.end == old.spec_bytes().len() - suffix
                &&& edit.new_range.end == new.spec_bytes().len() - suffix
            }),
            None => old@ == new@,
        },
{
    if same_str(old, new) {
        return None;
    }
    let (prefix, old_suffix_start, new_suffix_start) = shared_byte_affix_bounds(
        old.as_bytes(),
        new.as_bytes(),
    );
    Some(
        DiffSyntaxEdit { old_range: prefix..old_suffix_start, new_range: prefix..new_suffix_start },
    )
}

/// The characters in which two texts differ; nothing where they do not.
pub fn resolved_outline_delta_between_texts(old_text: &str, new_text: &str) -> (delta: Option<
    ResolvedOutlineDelta,
>)
    ensures
        match delta {
            Some(delta) => old_text@ != new_text@ && ({
                let (prefix, suffix) = char_affixes(old_text.spec_bytes(), new_text.spec_bytes());
                &&& delta.old_range.start == prefix
                &&& delta.new_range.start == prefix
                &&& delta.old_range.end == old_text.spec_bytes().len() - suffix
                &&& delta.new_range.end == new_text.spec_bytes().len() - suffix
            }),
            None => old_text@ == new_text@,
        },
{
    if same_str(old_text, new_text) {
        return None;
    }
    let old = old_text.as_bytes();
    let new = new_text.as_bytes();
    let old_len = old.len();
    let new_len = new.len();
    let mut prefix = shared_prefix(old, new);
    while prefix > 0 && (!old_text.is_char_boundary(prefix) || !new_text.is_char_boundary(prefix))
        invariant
            old@ == old_text.spec_bytes(),
            new@ == new_text.spec_bytes(),
            prefix <= old@.len(),
            prefix <= new@.len(),
            prefix_boundary(old@, new@, common_prefix(old@, new@, 0)) == prefix_boundary(
                old@,
                new@,
                prefix as int,
            ),
        decreases prefix,
    {
        prefix -= 1;
    }
    let room = min_usize(old_len, new_len) - prefix;
    let mut suffix = shared_suffix(old, new, room);
    let ghost shared = suffix as int;
    while suffix > 0 && (!old_text.is_char_boundary(old_len - suffix)
        || !new_text.is_char_boundary(new_len - suffix))
        invariant
            old@ == old_text.spec_bytes(),
            new@ == new_text.spec_bytes(),
            old_len == old@.len(),
            new_len == new@.len(),
            suffix <= old_len,
            suffix <= new_len,
            suffix_boundary(old@, new@, shared) == suffix_boundary(old@, new@, suffix as int),
        decreases suffix,
    {
        suffix -= 1;
    }
    Some(
        ResolvedOutlineDelta {
            old_range: prefix..old_len - suffix,
            new_range: prefix..new_len - suffix,
        },
    )
}

/// The edit that led from one revision to the next; nothing where revisions
/// were left out or the text is another one, for then the edit is not known.
pub fn resolved_outline_delta_for_snapshot_transition(
    old_snapshot: &TextSnapshot,
    new_snapshot: &TextSnapshot,
    recent_edit_delta: Option<(Range<usize>, Range<usize>)>,
) -> (delta: Option<ResolvedOutlineDelta>)
    ensures
        delta == (if old_snapshot.model_id == new_snapshot.model_id && new_snapshot.revision == min(
            old_snapshot.revision + 1,
            u64::MAX as int,
        ) {
            match recent_edit_delta {
                Some((old_range, new_range)) => Some(
                    (ResolvedOutlineDelta { old_range, new_range }),
                ),
                None => None,
            }
        } else {
            None
        }),
{
    if old_snapshot.model_id == new_snapshot.model_id && new_snapshot.revision
        == old_snapshot.revision.saturating_add(1) {
        match recent_edit_delta {
            Some((old_range, new_range)) => Some(ResolvedOutlineDelta { old_range, new_range }),
            None => None,
        }
    } else {
        None
    }
}

pub open spec fn is_sorted(starts: Seq<usize>) -> bool {
    forall|i: int, j: int| 0 <= i <= j < starts.len() ==> starts[i] <= starts[j]
}

/// The last line that starts at a byte or before it; the first where none does.
pub open spec fn line_at(starts: Seq<usize>, offset: int) -> int
    decreases starts.len(),
{
    if starts.len() <= 1 {
        0
    } else if starts.last() <= offset {
        starts.len() - 1
    } else {
        line_at(starts.drop_last(), offset)
    }
}

proof fn lemma_line_at_skips(starts: Seq<usize>, offset: int, bound: int)
    requires
        1 <= bound <= starts.len(),
        forall|k: int| bound <= k < starts.len() ==> #[trigger] starts[k] > offset,
    ensures
        line_at(starts, offset) == line_at(starts.take(bound), offset),
    decreases starts.len(),
{
    if starts.len() == bound {
        assert(starts.take(bound) =~= starts);
    } else {
        assert(starts.last() == starts[starts.len() - 1]);
        lemma_line_at_skips(starts.drop_last(), offset, bound);
        assert(starts.drop_last().take(bound) =~= starts.take(bound));
    }
}

/// The line that a byte is in is not after the byte, and the next line is.
pub proof fn law_line_at(starts: Seq<usize>, offset: int)
    requires
        starts.len() > 0,
        is_sorted(starts),
        starts[0] <= offset,
    ensures
        0 <= line_at(starts, offset) < starts.len(),
        starts[line_at(starts, offset)] <= offset,
        line_at(starts, offset) + 1 < starts.len() ==> starts[line_at(starts, offset) + 1] > offset,
    decreases starts.len(),
{
    if starts.len() > 1 && starts.last() > offset {
        let shorter = starts.drop_last();
        law_line_at(shorter, offset);
        assert(starts[line_at(starts, offset)] == shorter[line_at(shorter, offset)]);
    }
}

pub fn line_index_for_byte_offset(line_starts: &[usize], byte_offset: usize) -> (line_ix: usize)
    requires
        is_sorted(line_starts@),
    ensures
        line_ix == line_at(line_starts@, byte_offset as int),
        line_ix <= less(line_starts@.len() as int, 1),
{
    if line_starts.len() == 0 {
        return 0;
    }
    let mut low: usize = 0;
    let mut high: usize = line_starts.len();
    while low < high
        invariant
            0 <= low <= high <= line_starts@.len(),
            is_sorted(line_starts@),
            forall|k: int| 0 <= k < low ==> #[trigger] line_starts@[k] <= byte_offset,
            forall|k: int| high <= k < line_starts@.len() ==> #[trigger] line_starts@[k]
                > byte_offset,
        decreases high - low,
    {
        let middle = low + (high - low) / 2;
        if line_starts[middle] <= byte_offset {
            low = middle + 1;
        } else {
            high = middle;
        }
    }
    proof {
        lemma_line_at_skips(
            line_starts@,
            byte_offset as int,
            if low == 0 {
                1
            } else {
                low as int
            },
        );
        if low > 1 {
            assert(line_starts@.take(low as int).last() == line_starts@[low - 1]);
        }
    }
    less_usize(low, 1)
}

/// The lines that a change of bytes touches, at least one.
pub open spec fn dirty_lines(starts: Seq<usize>, text_len: int, start: int, end: int) -> (int, int) {
    let line_count = max(starts.len() as int, 1);
    let start_line = min(line_at(starts, min(start, text_len)), line_count - 1);
    let end_line = if start >= end {
        start_line + 1
    } else {
        line_at(starts, min(end, text_len)) + 1
    };
    (start_line, min(max(end_line, start_line + 1), line_count))
}

pub fn dirty_byte_range_to_line_range(
    line_starts: &[usize],
    text_len: usize,
    dirty_range: Range<usize>,
) -> (lines: Range<usize>)
    requires
        is_sorted(line_starts@),
    ensures
        (lines.start as int, lines.end as int) == dirty_lines(
            line_starts@,
            text_len as int,
            dirty_range.start as int,
            dirty_range.end as int,
        ),
        lines.start < lines.end,
{
    let line_count = max_usize(line_starts.len(), 1);
    let start_byte = min_usize(dirty_range.start, text_len);
    let end_byte = min_usize(dirty_range.end, text_len);
    let start_line = min_usize(
        line_index_for_byte_offset(line_starts, start_byte),
        line_count - 1,
    );
    let end_line = if dirty_range.start >= dirty_range.end {
        start_line + 1
    } else {
        plus_usize(line_index_for_byte_offset(line_starts, end_byte), 1)
    };
    let end_line_exclusive = min_usize(max_usize(end_line, start_line + 1), line_count);
    start_line..end_line_exclusive
}

/// A line moved by that many lines, held within what an index can be.
pub open spec fn shifted(ix: int, delta: int) -> int {
    if delta >= 0 {
        plus(ix, delta)
    } else {
        less(ix, -delta)
    }
}

pub fn shifted_line_index(ix: usize, delta: isize) -> (moved: usize)
    requires
        delta > isize::MIN,
    ensures
        moved == shifted(ix as int, delta as int),
{
    if delta >= 0 {
        plus_usize(ix, delta as usize)
    } else {
        less_usize(ix, (-delta) as usize)
    }
}

pub open spec fn width(range: Range<usize>) -> int {
    less(range.end as int, range.start as int)
}

/// Where the lines of a block stand after lines were replaced by others.
pub open spec fn remapped(
    block: Range<usize>,
    old_range: Range<usize>,
    new_range: Range<usize>,
    line_count: int,
) -> (int, int) {
    let delta = width(new_range) - width(old_range);
    let (start, end) = if block.end <= old_range.start {
        (block.start as int, block.end as int)
    } else if block.start >= old_range.end {
        (shifted(block.start as int, delta), shifted(block.end as int, delta))
    } else {
        (
            if old_range.start <= block.start {
                new_range.start as int
            } else {
                block.start as int
            },
            if block.end <= old_range.end {
                new_range.end as int
            } else {
                shifted(block.end as int, delta)
            },
        )
    };
    (min(start, line_count), max(min(end, line_count), min(start, line_count)))
}

/// A block that an edit does not reach keeps its lines: above the edit where
/// they were, below it moved by as many lines as the edit added.
pub proof fn law_edit_keeps_other_blocks(
    block: Range<usize>,
    old_range: Range<usize>,
    new_range: Range<usize>,
    line_count: int,
)
    requires
        block.start <= block.end,
        old_range.start <= old_range.end,
        new_range.start == old_range.start,
        new_range.start <= new_range.end,
        block.end + width(new_range) - width(old_range) <= line_count <= usize::MAX,
        block.end <= old_range.start || old_range.end <= block.start,
        block.end <= old_range.start ==> block.end <= line_count,
    ensures
        ({
            let moved = if block.end <= old_range.start {
                0
            } else {
                width(new_range) - width(old_range)
            };
            remapped(block, old_range, new_range, line_count) == (
                block.start + moved,
                block.end + moved,
            )
        }),
{
}

fn range_len(range: &Range<usize>) -> (len: usize)
    ensures
        len == width(*range),
{
    less_usize(range.end, range.start)
}

pub fn remap_resolved_output_conflict_block_ranges_for_delta(
    old_block_ranges: &[Range<usize>],
    old_range: Range<usize>,
    new_range: Range<usize>,
    new_line_count: usize,
) -> (ranges: Vec<Range<usize>>)
    requires
        width(old_range) <= isize::MAX,
        width(new_range) <= isize::MAX,
    ensures
        ranges@.len() == old_block_ranges@.len(),
        forall|i: int|
            0 <= i < ranges@.len() ==> (
                #[trigger] ranges@[i].start as int,
                ranges@[i].end as int,
            ) == remapped(old_block_ranges@[i], old_range, new_range, new_line_count as int),
{
    let line_delta = range_len(&new_range) as isize - range_len(&old_range) as isize;
    let mut ranges: Vec<Range<usize>> = Vec::with_capacity(old_block_ranges.len());
    let mut i: usize = 0;
    while i < old_block_ranges.len()
        invariant
            0 <= i <= old_block_ranges@.len(),
            line_delta == width(new_range) - width(old_range),
            line_delta > isize::MIN,
            ranges@.len() == i,
            forall|k: int|
                0 <= k < i ==> (#[trigger] ranges@[k].start as int, ranges@[k].end as int)
                    == remapped(old_block_ranges@[k], old_range, new_range, new_line_count as int),
        decreases old_block_ranges@.len() - i,
    {
        let range = &old_block_ranges[i];
        let (start, end) = if range.end <= old_range.start {
            (range.start, range.end)
        } else if range.start >= old_range.end {
            (
                shifted_line_index(range.start, line_delta),
                shifted_line_index(range.end, line_delta),
            )
        } else {
            let start = if old_range.start <= range.start {
                new_range.start
            } else {
                range.start
            };
            let end = if range.end <= old_range.end {
                new_range.end
            } else {
                shifted_line_index(range.end, line_delta)
            };
            (start, end)
        };
        let start = min_usize(start, new_line_count);
        let end = min_usize(end, new_line_count);
        ranges.push(start..max_usize(end, start));
        i += 1;
    }
    ranges
}

} // verus!
