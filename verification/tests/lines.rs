//! Lines of a text, and what is worked out from them.
use gitcomet_view::conflict::model::ConflictBlock;
use gitcomet_view::conflict::model::ConflictChoice;
use gitcomet_view::conflict::regions::unresolved_decision_regions_for_block;
use gitcomet_view::conflict::regions::PlanRegion;
use gitcomet_view::conflict::regions::SideBySidePlan;
use gitcomet_view::lines::build_line_starts_with_count;
use gitcomet_view::lines::indexed_line_count;
use gitcomet_view::lines::should_skip_resolved_outline_provenance;
use gitcomet_view::lines::ConflictResolverViewMode;
use gitcomet_view::lines::LARGE_RESOLVED_OUTLINE_THREE_WAY_PROVENANCE_MAX_LINES;
use gitcomet_view::lines::LARGE_RESOLVED_OUTLINE_TWO_WAY_PROVENANCE_MAX_LINES;

#[test]
fn indexed_line_count_returns_zero_for_empty_text() {
    assert_eq!(indexed_line_count("", &[]), 0);
}

#[test]
fn indexed_line_count_matches_nonempty_line_starts() {
    let text = "alpha\nbeta";
    let (line_starts, line_count) = build_line_starts_with_count(text);

    assert_eq!(line_count, 2);
    assert_eq!(indexed_line_count(text, &line_starts), 2);
}

#[test]
fn indexed_line_count_preserves_trailing_empty_row() {
    let text = "alpha\nbeta\n";
    let (line_starts, line_count) = build_line_starts_with_count(text);

    assert_eq!(line_count, 3);
    assert_eq!(line_starts, vec![0, 6, 11]);
    assert_eq!(indexed_line_count(text, &line_starts), 3);
}

#[test]
fn resolved_outline_provenance_skip_thresholds_match_view_mode() {
    assert!(!should_skip_resolved_outline_provenance(
        ConflictResolverViewMode::ThreeWay,
        LARGE_RESOLVED_OUTLINE_THREE_WAY_PROVENANCE_MAX_LINES,
    ));
    assert!(should_skip_resolved_outline_provenance(
        ConflictResolverViewMode::ThreeWay,
        LARGE_RESOLVED_OUTLINE_THREE_WAY_PROVENANCE_MAX_LINES + 1,
    ));
    assert!(!should_skip_resolved_outline_provenance(
        ConflictResolverViewMode::TwoWayDiff,
        LARGE_RESOLVED_OUTLINE_TWO_WAY_PROVENANCE_MAX_LINES,
    ));
    assert!(should_skip_resolved_outline_provenance(
        ConflictResolverViewMode::TwoWayDiff,
        LARGE_RESOLVED_OUTLINE_TWO_WAY_PROVENANCE_MAX_LINES + 1,
    ));
}

#[test]
fn unresolved_decision_regions_track_non_emitting_selected_rows() {
    let block = ConflictBlock {
        base: None,
        ours: "".to_string(),
        theirs: "added line\n".to_string(),
        choice: ConflictChoice::ours(),
        resolved: false,
        whitespace_only: false,
    };
    // One row, with nothing on the side of ours.
    let plan = SideBySidePlan {
        row_count: 1,
        regions: vec![PlanRegion { row_start: 0, row_end_exclusive: 1 }],
        old_prefix: vec![0, 0],
        new_prefix: vec![0, 1],
    };

    let regions =
        unresolved_decision_regions_for_block(&block, &plan).expect("expected one decision region");
    assert_eq!(regions.len(), 1);
    assert_eq!(regions[0].row_range, 0..1);
    assert_eq!(regions[0].selected_line_range, 0..0);
    assert_eq!(regions[0].alternate_line_range, 0..1);
    assert!(regions[0].has_non_emitting_rows);
}
