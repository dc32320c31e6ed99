//! Saving a merge result.
use crate::conflict::blocks::map_fits;
use crate::conflict::blocks::ResolvedOutputBlockMap;
use crate::conflict::model::block_count;
use crate::conflict::model::segment_views;
use crate::conflict::model::ConflictSegment;
use crate::conflict::model::SegmentView;
use crate::conflict::regions::as_pairs;
use crate::lines::same_str;
use crate::utf::chars_within;
use crate::utf::text_between;
use vstd::prelude::*;
use vstd::string::*;
use vstd::utf8::is_char_boundary;

verus! {

pub const FOCUSED_MERGETOOL_EXIT_SUCCESS: i32 = 0;

pub const FOCUSED_MERGETOOL_EXIT_CANCELED: i32 = 1;

#[derive(Clone, Copy, Debug, PartialEq, Eq, Structural)]
pub enum GitCometViewMode {
    Normal,
    FocusedMergetool,
}

#[derive(Clone, Copy, Debug, PartialEq, Eq, Structural)]
pub enum ClearDiffSelectionAction {
    ClearSelection,
    ExitFocusedMergetool,
}

pub fn clear_diff_selection_action(view_mode: GitCometViewMode) -> (action: ClearDiffSelectionAction)
    ensures
        action == (match view_mode {
            GitCometViewMode::Normal => ClearDiffSelectionAction::ClearSelection,
            GitCometViewMode::FocusedMergetool => ClearDiffSelectionAction::ExitFocusedMergetool,
        }),
{
    match view_mode {
        GitCometViewMode::Normal => ClearDiffSelectionAction::ClearSelection,
        GitCometViewMode::FocusedMergetool => ClearDiffSelectionAction::ExitFocusedMergetool,
    }
}

/// What the program exits with: success where no conflict is left.
pub fn focused_mergetool_save_exit_code(
    total_conflicts: usize,
    resolved_conflicts: usize,
) -> (code: i32)
    ensures
        code == (if total_conflicts == 0 || total_conflicts == resolved_conflicts {
            FOCUSED_MERGETOOL_EXIT_SUCCESS
        } else {
            FOCUSED_MERGETOOL_EXIT_CANCELED
        }),
{
    if total_conflicts == 0 || total_conflicts == resolved_conflicts {
        FOCUSED_MERGETOOL_EXIT_SUCCESS
    } else {
        FOCUSED_MERGETOOL_EXIT_CANCELED
    }
}

#[derive(Clone, Copy, Debug, PartialEq, Eq, Structural)]
pub enum ConflictResolverStrategy {
    FullTextResolver,
    BinarySidePick,
    TwoWayKeepDelete,
    DecisionOnly,
}

/// Whether a way of resolving needs each side whole.
pub fn conflict_strategy_needs_full_side_payloads(
    strategy: Option<ConflictResolverStrategy>,
) -> (needed: bool)
    ensures
        needed == (strategy matches Some(strategy) && (strategy
            == ConflictResolverStrategy::BinarySidePick || strategy
            == ConflictResolverStrategy::TwoWayKeepDelete || strategy
            == ConflictResolverStrategy::DecisionOnly)),
{
    match strategy {
        Some(ConflictResolverStrategy::BinarySidePick) => true,
        Some(ConflictResolverStrategy::TwoWayKeepDelete) => true,
        Some(ConflictResolverStrategy::DecisionOnly) => true,
        Some(ConflictResolverStrategy::FullTextResolver) => false,
        None => false,
    }
}

/// What a pane shows the difference of.
#[derive(Debug)]
pub enum DiffTarget {
    WorkingTree { file: String },
    Commit { commit_id: String, path: Option<String> },
}

/// Where a repository is being looked at.
#[derive(Debug)]
pub struct RepoBrowseState {
    pub content_preview: bool,
    pub browsing_commit: Option<String>,
}

/// Whether the pane shows a file as it was at the commit being looked at.
pub fn historical_browse_content(
    repo: &RepoBrowseState,
    rendered_target: Option<&DiffTarget>,
) -> (historical: bool)
    ensures
        historical == (repo.content_preview && (repo.browsing_commit matches Some(browsing) && (
        rendered_target matches Some(DiffTarget::Commit { commit_id, .. }) && commit_id@
            == browsing@))),
{
    if !repo.content_preview {
        return false;
    }
    match (&repo.browsing_commit, rendered_target) {
        (Some(browsing), Some(DiffTarget::Commit { commit_id, .. })) => same_str(
            commit_id.as_str(),
            browsing.as_str(),
        ),
        _ => false,
    }
}

/// What has become of a conflict, read back from the text.
#[derive(Clone, Copy, Debug, PartialEq, Eq, Structural)]
pub enum RegionResolution {
    Unresolved,
    Resolved,
}

/// What is written when a merge result is saved.
#[derive(Debug, PartialEq, Eq)]
pub struct FocusedMergetoolSavePayload {
    pub output: String,
    pub total_conflicts: usize,
    pub resolved_conflicts: usize,
}

/// How many of the first `n` conflicts are resolved.
pub open spec fn resolved_blocks(segments: Seq<SegmentView>, n: int) -> int
    decreases n,
{
    if n <= 0 {
        0
    } else {
        resolved_blocks(segments, n - 1) + (if segments[n - 1] matches SegmentView::Block(block)
            && block.resolved {
            1int
        } else {
            0int
        })
    }
}

pub open spec fn resolved_among(resolutions: Seq<RegionResolution>, n: int) -> int
    decreases n,
{
    if n <= 0 {
        0
    } else {
        resolved_among(resolutions, n - 1) + (if resolutions[n - 1] == RegionResolution::Unresolved
        {
            0int
        } else {
            1int
        })
    }
}

/// Where the text behind the first `n` conflicts starts.
pub open spec fn behind(ranges: Seq<(int, int)>, n: int) -> int {
    if n <= 0 {
        0
    } else {
        ranges[n - 1].1
    }
}

/// The text up to behind the first `n` conflicts, each of them that is not
/// resolved as its markers.
pub open spec fn with_markers(
    bytes: Seq<u8>,
    ranges: Seq<(int, int)>,
    resolutions: Seq<RegionResolution>,
    markers: Seq<String>,
    n: int,
) -> Seq<char>
    decreases n,
{
    if n <= 0 {
        Seq::empty()
    } else {
        let before = with_markers(bytes, ranges, resolutions, markers, n - 1);
        let between = chars_within(bytes, behind(ranges, n - 1), ranges[n - 1].0);
        before + between + (if resolutions[n - 1] == RegionResolution::Unresolved {
            markers[n - 1]@
        } else {
            chars_within(bytes, ranges[n - 1].0, ranges[n - 1].1)
        })
    }
}

/// The ranges of a map start and end between characters.
pub open spec fn between_chars(bytes: Seq<u8>, ranges: Seq<(int, int)>) -> bool {
    forall|i: int|
        0 <= i < ranges.len() ==> is_char_boundary(bytes, (#[trigger] ranges[i]).0)
            && is_char_boundary(bytes, ranges[i].1)
}

/// A text in which the conflicts that are not resolved stand as their markers.
pub fn write_unresolved_markers(
    output_text: &str,
    block_map: &ResolvedOutputBlockMap,
    resolutions: &Vec<RegionResolution>,
    marker_texts: &[String],
) -> (text: String)
    requires
        map_fits(
            as_pairs(block_map.ranges@),
            resolutions@.len() as int,
            output_text.spec_bytes().len() as int,
        ),
        between_chars(output_text.spec_bytes(), as_pairs(block_map.ranges@)),
        marker_texts@.len() == resolutions@.len(),
    ensures
        ({
            let bytes = output_text.spec_bytes();
            let ranges = as_pairs(block_map.ranges@);
            let n = resolutions@.len() as int;
            text@ == with_markers(bytes, ranges, resolutions@, marker_texts@, n) + chars_within(
                bytes,
                behind(ranges, n),
                bytes.len() as int,
            )
        }),
{
    let ghost bytes = output_text.spec_bytes();
    let ghost ranges = as_pairs(block_map.ranges@);
    let len = output_text.as_bytes().len();
    let mut text = String::new();
    let mut cursor: usize = 0;
    let mut i: usize = 0;
    proof {
        crate::utf::lemma_text_is_valid(output_text);
        vstd::utf8::is_char_boundary_start_end_of_seq(bytes);
    }
    while i < resolutions.len()
        invariant
            0 <= i <= resolutions@.len(),
            bytes == output_text.spec_bytes(),
            ranges == as_pairs(block_map.ranges@),
            map_fits(ranges, resolutions@.len() as int, bytes.len() as int),
            between_chars(bytes, ranges),
            marker_texts@.len() == resolutions@.len(),
            ranges.len() == block_map.ranges@.len(),
            cursor == behind(ranges, i as int),
            is_char_boundary(bytes, cursor as int),
            text@ == with_markers(bytes, ranges, resolutions@, marker_texts@, i as int),
        decreases resolutions@.len() - i,
    {
        let start = block_map.ranges[i].start;
        let end = block_map.ranges[i].end;
        proof {
            assert(ranges[i as int] == (start as int, end as int));
            if i > 0 {
                assert(ranges[i - 1].1 <= ranges[i as int].0);
            }
        }
        text.append(text_between(output_text, cursor, start));
        if resolutions[i] == RegionResolution::Unresolved {
            text.append(marker_texts[i].as_str());
        } else {
            text.append(text_between(output_text, start, end));
        }
        cursor = end;
        i += 1;
    }
    proof {
        if resolutions@.len() > 0 {
            assert(ranges[resolutions@.len() - 1].1 <= bytes.len());
        }
    }
    text.append(text_between(output_text, cursor, len));
    text
}

fn count_resolved(resolutions: &Vec<RegionResolution>) -> (count: usize)
    ensures
        count == resolved_among(resolutions@, resolutions@.len() as int),
{
    let mut count: usize = 0;
    let mut i: usize = 0;
    while i < resolutions.len()
        invariant
            0 <= i <= resolutions@.len(),
            count <= i,
            count == resolved_among(resolutions@, i as int),
        decreases resolutions@.len() - i,
    {
        if resolutions[i] != RegionResolution::Unresolved {
            count += 1;
        }
        i += 1;
    }
    count
}

/// How many conflicts there are.
pub fn conflict_count(segments: &[ConflictSegment]) -> (count: usize)
    ensures
        count == block_count(segment_views(segments@), segments@.len() as int),
{
    let ghost views = segment_views(segments@);
    let mut count: usize = 0;
    let mut i: usize = 0;
    while i < segments.len()
        invariant
            0 <= i <= segments@.len(),
            views == segment_views(segments@),
            count <= i,
            count == block_count(views, i as int),
        decreases segments@.len() - i,
    {
        assert(views[i as int] == segments@[i as int]@);
        if let ConflictSegment::Block(_) = &segments[i] {
            count += 1;
        }
        i += 1;
    }
    count
}

/// How many of them are resolved.
pub fn resolved_conflict_count(segments: &[ConflictSegment]) -> (count: usize)
    ensures
        count == resolved_blocks(segment_views(segments@), segments@.len() as int),
{
    let ghost views = segment_views(segments@);
    let mut count: usize = 0;
    let mut i: usize = 0;
    while i < segments.len()
        invariant
            0 <= i <= segments@.len(),
            views == segment_views(segments@),
            count <= i,
            count == resolved_blocks(views, i as int),
        decreases segments@.len() - i,
    {
        assert(views[i as int] == segments@[i as int]@);
        if let ConflictSegment::Block(block) = &segments[i] {
            if block.resolved {
                count += 1;
            }
        }
        i += 1;
    }
    count
}

/// What has been typed into a result, and what was read back from it.
pub struct EditedOutput<'a> {
    pub text: &'a str,
    /// What has become of each conflict, where the text still tells.
    pub resolutions: Option<Vec<RegionResolution>>,
    /// Whether the text holds conflict markers.
    pub has_markers: bool,
}

/// What is saved: the text as it was edited, open conflicts in it as markers,
/// or what the segments make where there is no such text.
pub fn build_focused_mergetool_save_payload(
    marker_segments: &[ConflictSegment],
    block_map: &ResolvedOutputBlockMap,
    edited: Option<EditedOutput<'_>>,
    marker_texts: &[String],
    generated: &str,
) -> (payload: FocusedMergetoolSavePayload)
    requires
        edited matches Some(edited) ==> (edited.resolutions matches Some(resolutions) ==> {
            &&& resolutions@.len() == block_count(
                segment_views(marker_segments@),
                marker_segments@.len() as int,
            )
            &&& map_fits(
                as_pairs(block_map.ranges@),
                resolutions@.len() as int,
                edited.text.spec_bytes().len() as int,
            )
            &&& between_chars(edited.text.spec_bytes(), as_pairs(block_map.ranges@))
            &&& marker_texts@.len() == resolutions@.len()
        }),
    ensures
        ({
            let segments = segment_views(marker_segments@);
            let total = block_count(segments, segments.len() as int);
            &&& payload.total_conflicts == total
            &&& match edited {
                Some(edited) => match edited.resolutions {
                    Some(resolutions) => {
                        let bytes = edited.text.spec_bytes();
                        let ranges = as_pairs(block_map.ranges@);
                        &&& payload.output@ == with_markers(
                            bytes,
                            ranges,
                            resolutions@,
                            marker_texts@,
                            total,
                        ) + chars_within(bytes, behind(ranges, total), bytes.len() as int)
                        &&& payload.resolved_conflicts == resolved_among(resolutions@, total)
                    },
                    None => {
                        &&& payload.output@ == edited.text@
                        &&& payload.resolved_conflicts == (if edited.has_markers {
                            0
                        } else {
                            total
                        })
                    },
                },
                None => {
                    &&& payload.output@ == generated@
                    &&& payload.resolved_conflicts == resolved_blocks(
                        segments,
                        segments.len() as int,
                    )
                },
            }
        }),
{
    let total_conflicts = conflict_count(marker_segments);
    match edited {
        Some(edited) => match &edited.resolutions {
            Some(resolutions) => FocusedMergetoolSavePayload {
                output: write_unresolved_markers(
                    edited.text,
                    block_map,
                    resolutions,
                    marker_texts,
                ),
                total_conflicts,
                resolved_conflicts: count_resolved(resolutions),
            },
            None => FocusedMergetoolSavePayload {
                output: edited.text.to_owned(),
                total_conflicts,
                resolved_conflicts: if edited.has_markers {
                    0
                } else {
                    total_conflicts
                },
            },
        },
        None => FocusedMergetoolSavePayload {
            output: generated.to_owned(),
            total_conflicts,
            resolved_conflicts: resolved_conflict_count(marker_segments),
        },
    }
}

proof fn lemma_resolved_bound(resolutions: Seq<RegionResolution>, n: int)
    requires
        0 <= n <= resolutions.len(),
    ensures
        0 <= resolved_among(resolutions, n) <= n,
        resolved_among(resolutions, n) == n ==> forall|i: int|
            0 <= i < n ==> #[trigger] resolutions[i] != RegionResolution::Unresolved,
    decreases n,
{
    if n > 0 {
        lemma_resolved_bound(resolutions, n - 1);
    }
}

/// Where every conflict counts as resolved, no markers are written.
pub proof fn law_success_means_no_open_conflict(resolutions: Seq<RegionResolution>, i: int)
    requires
        0 <= i < resolutions.len(),
        resolved_among(resolutions, resolutions.len() as int) == resolutions.len(),
    ensures
        resolutions[i] == RegionResolution::Resolved,
{
    lemma_resolved_bound(resolutions, resolutions.len() as int);
    assert(resolutions[i] != RegionResolution::Unresolved);
}

} // verus!
