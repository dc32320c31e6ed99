//! Whether what stands in the worktree is someone's own work.
use crate::diff::split_meta::as_ints;
use crate::lines::law_line_range;
use crate::lines::law_line_starts;
use crate::lines::line_range;
use crate::lines::line_starts_of_bytes;
use crate::lines::same_bytes;
use crate::lines::same_str;
use crate::lines::starts_of;
use crate::lines::terminated_lines;
use crate::lines::text_within;
use crate::lines::NEWLINE;
use std::ops::Range;
use vstd::prelude::*;
use vstd::string::*;

verus! {

pub const CARRIAGE_RETURN: u8 = 13;

/// A stretch of a document with conflict markers: plain text, or the bodies of
/// a conflict without the marker lines.
#[derive(Debug, PartialEq, Eq)]
pub enum ConflictSegmentRanges {
    Text(Range<usize>),
    Conflict { ours: Range<usize>, base: Option<Range<usize>>, theirs: Range<usize> },
}

/// A line of a text without its newline or the carriage return before it.
pub open spec fn text_line(bytes: Seq<u8>, line_ix: int) -> Seq<u8> {
    let (start, end) = line_range(bytes, line_ix);
    if end < bytes.len() && end > start && bytes[end - 1] == CARRIAGE_RETURN {
        bytes.subrange(start, end - 1)
    } else {
        bytes.subrange(start, end)
    }
}

/// The lines of a text; a trailing newline ends the last one.
pub open spec fn text_lines(bytes: Seq<u8>) -> Seq<Seq<u8>> {
    Seq::new(terminated_lines(bytes), |i: int| text_line(bytes, i))
}

pub open spec fn range_lines(bytes: Seq<u8>, range: Range<usize>) -> Seq<Seq<u8>> {
    text_lines(text_within(bytes, range.start as int, range.end as int))
}

pub open spec fn segment_lines(bytes: Seq<u8>, segment: ConflictSegmentRanges) -> Seq<Seq<u8>> {
    match segment {
        ConflictSegmentRanges::Text(range) => range_lines(bytes, range),
        ConflictSegmentRanges::Conflict { ours, base, theirs } => {
            let middle = match base {
                Some(base) => range_lines(bytes, base),
                None => Seq::empty(),
            };
            range_lines(bytes, ours) + middle + range_lines(bytes, theirs)
        },
    }
}

/// The lines of a document, the marker lines left out.
pub open spec fn content_lines(
    bytes: Seq<u8>,
    segments: Seq<ConflictSegmentRanges>,
    n: int,
) -> Seq<Seq<u8>>
    decreases n,
{
    if n <= 0 {
        Seq::empty()
    } else {
        content_lines(bytes, segments, n - 1) + segment_lines(bytes, segments[n - 1])
    }
}

pub open spec fn optional_lines(text: Option<&str>) -> Seq<Seq<u8>> {
    match text {
        Some(text) => text_lines(text.spec_bytes()),
        None => Seq::empty(),
    }
}

/// Every line of the document is a line of one of the versions that were merged.
pub open spec fn all_lines_known(
    current: &str,
    segments: Seq<ConflictSegmentRanges>,
    base: Option<&str>,
    ours: &str,
    theirs: &str,
) -> bool {
    let known = optional_lines(base) + text_lines(ours.spec_bytes()) + text_lines(
        theirs.spec_bytes(),
    );
    let lines = content_lines(current.spec_bytes(), segments, segments.len() as int);
    forall|i: int| 0 <= i < lines.len() ==> known.contains(#[trigger] lines[i])
}

pub open spec fn has_conflict(segments: Seq<ConflictSegmentRanges>) -> bool {
    exists|i: int| 0 <= i < segments.len() && (#[trigger] segments[i]) is Conflict
}

pub open spec fn slices_of(lines: Seq<&[u8]>) -> Seq<Seq<u8>> {
    lines.map_values(|line: &[u8]| line@)
}

fn push_text_lines<'a>(out: &mut Vec<&'a [u8]>, bytes: &'a [u8])
    ensures
        slices_of(final(out)@) == slices_of(old(out)@) + text_lines(bytes@),
{
    let starts = line_starts_of_bytes(bytes);
    proof {
        law_line_starts(bytes@);
        assert(as_ints(starts@).len() == starts@.len());
    }
    let count = if bytes.len() == 0 {
        0
    } else if bytes[bytes.len() - 1] == NEWLINE {
        starts.len() - 1
    } else {
        starts.len()
    };
    let ghost before = slices_of(out@);
    let ghost lines = text_lines(bytes@);
    let mut i: usize = 0;
    assert(lines.len() == count);
    assert(before + lines.take(0) =~= before);
    while i < count
        invariant
            0 <= i <= count,
            count <= starts@.len(),
            starts@.len() == starts_of(bytes@).len(),
            as_ints(starts@) == starts_of(bytes@),
            lines == text_lines(bytes@),
            lines.len() == count,
            slices_of(out@) == before + lines.take(i as int),
        decreases count - i,
    {
        proof {
            law_line_range(bytes@, i as int);
            law_line_starts(bytes@);
            assert(as_ints(starts@)[i as int] == starts@[i as int]);
            if i + 1 < starts@.len() {
                assert(as_ints(starts@)[i + 1] == starts@[i + 1]);
                assert(starts_of(bytes@)[i + 1] >= 1);
            }
        }
        let start = starts[i];
        let mut end = if starts.len() - i > 1 {
            starts[i + 1] - 1
        } else {
            bytes.len()
        };
        if end < bytes.len() && end > start && bytes[end - 1] == CARRIAGE_RETURN {
            end = end - 1;
        }
        let ghost sofar = slices_of(out@);
        let line = vstd::slice::slice_subrange(bytes, start, end);
        out.push(line);
        proof {
            assert(slices_of(out@) =~= sofar.push(line@));
            assert(lines[i as int] == text_line(bytes@, i as int));
            assert(line@ =~= text_line(bytes@, i as int));
            assert(lines.take(i + 1) =~= lines.take(i as int).push(lines[i as int]));
            assert(before + lines.take(i + 1) =~= sofar.push(line@));
        }
        i += 1;
    }
    assert(lines.take(count as int) =~= lines);
}

fn push_range_lines<'a>(out: &mut Vec<&'a [u8]>, text: &'a str, range: &Range<usize>)
    ensures
        slices_of(final(out)@) == slices_of(old(out)@) + range_lines(text.spec_bytes(), *range),
{
    let bytes = text.as_bytes();
    if range.start <= range.end && range.end <= bytes.len() && text.is_char_boundary(range.start)
        && text.is_char_boundary(range.end) {
        push_text_lines(out, vstd::slice::slice_subrange(bytes, range.start, range.end));
    } else {
        assert(text_lines(Seq::empty()) =~= Seq::empty());
        assert(slices_of(out@) + Seq::<Seq<u8>>::empty() =~= slices_of(out@));
    }
}

/// The lines of a document with conflict markers, the marker lines left out.
fn conflict_document_content_lines<'a>(
    current: &'a str,
    segments: &[ConflictSegmentRanges],
) -> (lines: Vec<&'a [u8]>)
    ensures
        slices_of(lines@) == content_lines(
            current.spec_bytes(),
            segments@,
            segments@.len() as int,
        ),
{
    let mut lines: Vec<&'a [u8]> = Vec::new();
    let mut i: usize = 0;
    assert(slices_of(lines@) =~= Seq::<Seq<u8>>::empty());
    while i < segments.len()
        invariant
            0 <= i <= segments@.len(),
            slices_of(lines@) == content_lines(current.spec_bytes(), segments@, i as int),
        decreases segments@.len() - i,
    {
        let ghost before = slices_of(lines@);
        match &segments[i] {
            ConflictSegmentRanges::Text(range) => {
                push_range_lines(&mut lines, current, range);
            },
            ConflictSegmentRanges::Conflict { ours, base, theirs } => {
                push_range_lines(&mut lines, current, ours);
                match base {
                    Some(base) => {
                        push_range_lines(&mut lines, current, base);
                    },
                    None => {
                        assert(slices_of(lines@) + Seq::<Seq<u8>>::empty() =~= slices_of(lines@));
                    },
                }
                push_range_lines(&mut lines, current, theirs);
                assert(slices_of(lines@) =~= before + segment_lines(
                    current.spec_bytes(),
                    segments@[i as int],
                ));
            },
        }
        i += 1;
    }
    lines
}

fn holds_line(known: &Vec<&[u8]>, line: &[u8]) -> (answer: bool)
    ensures
        answer == slices_of(known@).contains(line@),
{
    let mut i: usize = 0;
    while i < known.len()
        invariant
            0 <= i <= known@.len(),
            forall|k: int| 0 <= k < i ==> #[trigger] slices_of(known@)[k] != line@,
        decreases known@.len() - i,
    {
        assert(slices_of(known@)[i as int] == known@[i as int]@);
        if same_bytes(known[i], line) {
            return true;
        }
        i += 1;
    }
    assert(slices_of(known@).len() == known@.len());
    false
}

/// Whether what stands in the worktree has to be kept as it is, rather than
/// replaced by the markers drawn from the merged versions. It need not where it
/// reads as those markers, and else only where it is a conflict document of
/// which every line comes from one of the versions.
pub fn worktree_output_requires_protection(
    current: Option<&str>,
    marker_projection: Option<&str>,
    base: Option<&str>,
    ours: Option<&str>,
    theirs: Option<&str>,
    has_mixed_line_endings: bool,
    marker_ranges: &[ConflictSegmentRanges],
) -> (protect: bool)
    ensures
        protect == (match current {
            None => false,
            Some(current) => {
                &&& !(marker_projection matches Some(projection) && projection@ == current@)
                &&& (has_mixed_line_endings || !has_conflict(marker_ranges@) || (match (
                    ours,
                    theirs,
                ) {
                    (Some(ours), Some(theirs)) => !all_lines_known(
                        current,
                        marker_ranges@,
                        base,
                        ours,
                        theirs,
                    ),
                    _ => true,
                }))
            },
        }),
{
    let current = match current {
        Some(current) => current,
        None => {
            return false;
        },
    };
    if let Some(projection) = marker_projection {
        if same_str(projection, current) {
            return false;
        }
    }
    if has_mixed_line_endings {
        return true;
    }
    let mut found = false;
    let mut i: usize = 0;
    while i < marker_ranges.len()
        invariant
            0 <= i <= marker_ranges@.len(),
            found == exists|k: int| 0 <= k < i && (#[trigger] marker_ranges@[k]) is Conflict,
        decreases marker_ranges@.len() - i,
    {
        if let ConflictSegmentRanges::Conflict { .. } = &marker_ranges[i] {
            found = true;
            assert(marker_ranges@[i as int] is Conflict);
        }
        i += 1;
    }
    if !found {
        return true;
    }
    let (ours, theirs) = match (ours, theirs) {
        (Some(ours), Some(theirs)) => (ours, theirs),
        _ => {
            return true;
        },
    };
    let mut known: Vec<&[u8]> = Vec::new();
    assert(slices_of(known@) =~= Seq::<Seq<u8>>::empty());
    if let Some(base) = base {
        push_text_lines(&mut known, base.as_bytes());
    }
    assert(slices_of(known@) =~= optional_lines(base));
    push_text_lines(&mut known, ours.as_bytes());
    push_text_lines(&mut known, theirs.as_bytes());
    let lines = conflict_document_content_lines(current, marker_ranges);
    let ghost content = content_lines(
        current.spec_bytes(),
        marker_ranges@,
        marker_ranges@.len() as int,
    );
    assert(content.len() == lines@.len());
    let mut all_known = true;
    let mut k: usize = 0;
    while k < lines.len()
        invariant
            0 <= k <= lines@.len(),
            content == slices_of(lines@),
            content.len() == lines@.len(),
            all_known == forall|j: int|
                0 <= j < k ==> slices_of(known@).contains(#[trigger] content[j]),
        decreases lines@.len() - k,
    {
        assert(content[k as int] == lines@[k as int]@);
        if !holds_line(&known, lines[k]) {
            all_known = false;
        }
        k += 1;
    }
    !all_known
}

/// A document that someone has written a line into which none of the merged
/// versions holds is kept.
pub proof fn law_new_line_is_kept(
    current: &str,
    segments: Seq<ConflictSegmentRanges>,
    base: Option<&str>,
    ours: &str,
    theirs: &str,
    line: Seq<u8>,
)
    requires
        content_lines(current.spec_bytes(), segments, segments.len() as int).contains(line),
        !optional_lines(base).contains(line),
        !text_lines(ours.spec_bytes()).contains(line),
        !text_lines(theirs.spec_bytes()).contains(line),
    ensures
        !all_lines_known(current, segments, base, ours, theirs),
{
    let a = optional_lines(base);
    let b = text_lines(ours.spec_bytes());
    let c = text_lines(theirs.spec_bytes());
    let known = a + b + c;
    let lines = content_lines(current.spec_bytes(), segments, segments.len() as int);
    let i = choose|i: int| 0 <= i < lines.len() && lines[i] == line;
    if known.contains(lines[i]) {
        let k = choose|k: int| 0 <= k < known.len() && known[k] == line;
        if k < a.len() {
            assert(a[k] == line);
        } else if k < a.len() + b.len() {
            assert(b[k - a.len()] == line);
        } else {
            assert(c[k - a.len() - b.len()] == line);
        }
    }
}

} // verus!
