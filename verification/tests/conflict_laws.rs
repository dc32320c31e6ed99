//! Conflicts, what is picked for them, and what is saved.
use gitcomet_view::conflict::blocks::resolved_output_conflict_block_ranges_in_text;
use gitcomet_view::conflict::blocks::ResolvedOutputBlockMap;
use gitcomet_view::conflict::groups::append_choice_after_conflict_block;
use gitcomet_view::conflict::groups::conflict_group_member_indices_for_ix;
use gitcomet_view::conflict::groups::conflict_group_selected_choices_for_ix;
use gitcomet_view::conflict::groups::conflict_region_index_is_unique;
use gitcomet_view::conflict::groups::remove_conflict_block_at;
use gitcomet_view::conflict::groups::reset_conflict_block_selection;
use gitcomet_view::conflict::groups::should_remove_conflict_block_on_reset;
use gitcomet_view::conflict::highlights::apply_resolved_output_unresolved_highlights;
use gitcomet_view::conflict::highlights::ResolvedOutputUnresolvedSpans;
use gitcomet_view::conflict::model::conflict_fragment_text_for_choice;
use gitcomet_view::conflict::model::ConflictBlock;
use gitcomet_view::conflict::model::ConflictChoice;
use gitcomet_view::conflict::model::ConflictOutputSource;
use gitcomet_view::conflict::model::ConflictSegment;
use gitcomet_view::conflict::model::Subchunk;
use gitcomet_view::conflict::output::heuristic_provider_key_words;
use gitcomet_view::conflict::output::live_provider_key_words;
use gitcomet_view::conflict::output::resolution_fingerprint;
use gitcomet_view::conflict::output::resolution_words;
use gitcomet_view::conflict::output::resolved_output_live_syntax_mask;
use gitcomet_view::conflict::output::resolved_output_placeholder_protected_ranges;
use gitcomet_view::conflict::output::resolved_output_unresolved_spans_for_active;
use gitcomet_view::conflict::protection::worktree_output_requires_protection;
use gitcomet_view::conflict::protection::ConflictSegmentRanges;
use gitcomet_view::conflict::provenance::apply_conflict_choice_provenance_hints_for_ranges;
use gitcomet_view::conflict::provenance::generate_resolved_text;
use gitcomet_view::conflict::provenance::ResolvedLineMeta;
use gitcomet_view::conflict::provenance::ResolvedLineSource;
use gitcomet_view::conflict::regions::SideBySidePlan;
use gitcomet_view::conflict::save::build_focused_mergetool_save_payload;
use gitcomet_view::conflict::save::clear_diff_selection_action;
use gitcomet_view::conflict::save::focused_mergetool_save_exit_code;
use gitcomet_view::conflict::save::write_unresolved_markers;
use gitcomet_view::conflict::save::ClearDiffSelectionAction;
use gitcomet_view::conflict::save::EditedOutput;
use gitcomet_view::conflict::save::GitCometViewMode;
use gitcomet_view::conflict::save::RegionResolution;
use gitcomet_view::conflict::save::FOCUSED_MERGETOOL_EXIT_CANCELED;
use gitcomet_view::conflict::save::FOCUSED_MERGETOOL_EXIT_SUCCESS;
use gitcomet_view::conflict::split::slice_text_by_line_range;
use gitcomet_view::conflict::split::split_target_conflict_block_into_subchunks;
use gitcomet_view::lines::ConflictResolverViewMode;
use gitcomet_view::outline::ResolvedOutputSourceRevision;

fn text(text: &str) -> ConflictSegment {
    ConflictSegment::Text(text.to_string())
}

fn conflict(ours: &str, theirs: &str, choice: ConflictChoice, resolved: bool) -> ConflictSegment {
    ConflictSegment::Block(ConflictBlock {
        base: Some("base\n".to_string()),
        ours: ours.to_string(),
        theirs: theirs.to_string(),
        choice,
        resolved,
        whitespace_only: false,
    })
}

#[test]
fn versions_are_written_in_the_order_they_were_picked() {
    let pick = |choice| conflict_fragment_text_for_choice("b\n", "o\n", "t\n", choice);
    assert_eq!(pick(ConflictChoice::empty()), "");
    assert_eq!(pick(ConflictChoice::base()), "b\n");
    assert_eq!(pick(ConflictChoice::both()), "o\nt\n");
    assert!(ConflictChoice::both().contains(ConflictOutputSource::Theirs));
    assert!(!ConflictChoice::ours().contains(ConflictOutputSource::Theirs));
    assert!(ConflictChoice::empty().is_empty());
}

#[test]
fn slices_of_lines_join_to_the_text() {
    let all = "one\ntwo\nthree";
    assert_eq!(slice_text_by_line_range(all, 0..1), "one\n");
    assert_eq!(slice_text_by_line_range(all, 1..3), "two\nthree");
    assert_eq!(
        format!("{}{}", slice_text_by_line_range(all, 0..2), slice_text_by_line_range(all, 2..9)),
        all
    );
    assert_eq!(slice_text_by_line_range(all, 2..1), "");
}

#[test]
fn another_pick_is_put_behind_the_first_and_taken_back() {
    let mut segments =
        vec![text("head\n"), conflict("o\n", "t\n", ConflictChoice::ours(), true), text("tail\n")];
    let mut regions = vec![4];
    assert!(conflict_region_index_is_unique(&regions, 4));
    let inserted = append_choice_after_conflict_block(
        &mut segments,
        &mut regions,
        0,
        ConflictChoice::theirs(),
    );
    assert_eq!(inserted, Some(1));
    assert_eq!(regions, vec![4, 4]);
    assert_eq!(conflict_group_member_indices_for_ix(&segments, &regions, 0), vec![0, 1]);
    assert_eq!(
        conflict_group_selected_choices_for_ix(&segments, &regions, 1),
        vec![ConflictChoice::ours(), ConflictChoice::theirs()]
    );
    assert!(should_remove_conflict_block_on_reset(&segments, &regions, 1));
    assert!(remove_conflict_block_at(&mut segments, &mut regions, 1));
    assert_eq!(regions, vec![4]);
    assert_eq!(
        segments,
        vec![text("head\n"), conflict("o\n", "t\n", ConflictChoice::ours(), true), text("tail\n")]
    );
    assert!(!should_remove_conflict_block_on_reset(&segments, &regions, 0));
    assert!(reset_conflict_block_selection(&mut segments, &mut regions, 0));
    assert!(matches!(&segments[1], ConflictSegment::Block(block) if !block.resolved));
}

#[test]
fn a_conflict_is_split_into_smaller_ones() {
    let mut segments = vec![conflict("a\nx\nb\n", "c\nx\nd\n", ConflictChoice::ours(), false)];
    let mut regions = vec![7];
    let piece = |base: &str, ours: &str, theirs: &str| Subchunk::Conflict {
        base: base.to_string(),
        ours: ours.to_string(),
        theirs: theirs.to_string(),
    };
    let subchunks = Some(vec![
        piece("1\n", "a\n", "c\n"),
        Subchunk::Resolved("x\n".to_string()),
        piece("2\n", "b\n", "d\n"),
    ]);
    let plan = SideBySidePlan {
        row_count: 0,
        regions: Vec::new(),
        old_prefix: vec![0],
        new_prefix: vec![0],
    };
    assert!(split_target_conflict_block_into_subchunks(
        &mut segments,
        &mut regions,
        0,
        &subchunks,
        &plan,
    ));
    assert_eq!(regions, vec![7, 7]);
    assert_eq!(segments.len(), 3);
    assert_eq!(segments[1], text("x\n"));
    let drawn = ["a\n".to_string(), "b\n".to_string()];
    assert_eq!(generate_resolved_text(&segments, &drawn), "a\nx\nb\n");
    assert!(!split_target_conflict_block_into_subchunks(
        &mut segments,
        &mut regions,
        9,
        &None,
        &plan,
    ));
}

#[test]
fn conflicts_are_found_in_the_text_they_were_drawn_into() {
    let segments =
        [text("head\n"), conflict("o\n", "t\n", ConflictChoice::both(), true), text("tail\n")];
    let drawn = ["o\nt\n".to_string()];
    let output = generate_resolved_text(&segments, &drawn);
    assert_eq!(output, "head\no\nt\ntail\n");
    assert_eq!(
        resolved_output_conflict_block_ranges_in_text(&segments, &drawn, &output),
        Some(vec![1..3])
    );
    assert_eq!(
        resolved_output_conflict_block_ranges_in_text(&segments, &drawn, "edited\n"),
        None
    );
}

#[test]
fn lines_of_a_pick_tell_where_they_come_from() {
    let segments =
        [text("head\n"), conflict("o\n", "t\n", ConflictChoice::theirs(), true), text("tail\n")];
    let manual = ResolvedLineMeta { source: ResolvedLineSource::Manual, input_line: None };
    let mut meta = vec![manual; 3];
    apply_conflict_choice_provenance_hints_for_ranges(
        &mut meta,
        &segments,
        &[1..2],
        ConflictResolverViewMode::ThreeWay,
    );
    assert_eq!(meta[0], manual);
    assert_eq!(meta[2], manual);
    assert_eq!(meta[1], ResolvedLineMeta { source: ResolvedLineSource::C, input_line: Some(2) });
}

#[test]
fn unresolved_rows_hide_their_syntax() {
    let rows = [(10..20, 0), (30..40, 1)];
    let spans = resolved_output_unresolved_spans_for_active(&rows, Some(1));
    assert_eq!(spans.all, vec![10..20, 30..40]);
    assert_eq!(spans.active, vec![30..40]);
    assert!(spans.is_active(&(30..40)));
    assert!(!spans.is_active(&(10..20)));
    let painted = apply_resolved_output_unresolved_highlights(
        vec![(5..15, 1), (25..28, 1)],
        &spans,
        0..50,
        7,
        8,
    );
    for (range, style) in &painted {
        for hidden in &spans.all {
            let overlaps = range.start < hidden.end && hidden.start < range.end;
            assert!(!overlaps || *style == 7 || *style == 8, "{range:?}");
        }
    }
    assert!(painted.iter().any(|(range, style)| *range == (10..20) && *style == 7));
    assert!(painted.iter().any(|(range, style)| *range == (30..40) && *style == 8));
    assert!(painted.iter().any(|(range, style)| *range == (5..10) && *style == 1));
}

#[test]
fn a_mask_keeps_line_endings() {
    let output = "one\nopen\ntwo\n";
    let protected =
        resolved_output_placeholder_protected_ranges(output, &[false, true, false]);
    assert_eq!(protected, vec![4..9]);
    assert_eq!(resolved_output_live_syntax_mask(&protected, output), vec![4..8]);
}

#[test]
fn keys_tell_different_pictures_apart() {
    let spans = |active: Vec<std::ops::Range<usize>>| ResolvedOutputUnresolvedSpans {
        all: vec![1..2, 5..6],
        active,
    };
    assert_ne!(
        live_provider_key_words(1, 2, &spans(vec![1..2])),
        live_provider_key_words(1, 2, &spans(vec![5..6]))
    );
    assert_ne!(
        live_provider_key_words(u64::MAX, 2, &spans(vec![])),
        heuristic_provider_key_words(
            ResolvedOutputSourceRevision { model_id: 1, revision: 1 },
            2,
            &spans(vec![])
        )
    );
    let one = [conflict("o\n", "t\n", ConflictChoice::ours(), false)];
    let other = [conflict("o\n", "t\n", ConflictChoice::theirs(), false)];
    assert_ne!(resolution_words(&one), resolution_words(&other));
    assert_ne!(resolution_fingerprint(&one), resolution_fingerprint(&other));
    assert_eq!(resolution_fingerprint(&one), resolution_fingerprint(&one));
}

#[test]
fn open_conflicts_are_saved_as_markers() {
    let map = ResolvedOutputBlockMap { ranges: vec![2..4, 6..8] };
    let output = "a\nX\nb\nY\nc\n";
    let markers = ["<M1>\n".to_string(), "<M2>\n".to_string()];
    let saved = write_unresolved_markers(
        output,
        &map,
        &vec![RegionResolution::Unresolved, RegionResolution::Resolved],
        &markers,
    );
    assert_eq!(saved, "a\n<M1>\nb\nY\nc\n");
    let segments = [
        text("a\n"),
        conflict("X\n", "x\n", ConflictChoice::ours(), false),
        text("b\n"),
        conflict("Y\n", "y\n", ConflictChoice::ours(), true),
        text("c\n"),
    ];
    let payload = build_focused_mergetool_save_payload(
        &segments,
        &map,
        Some(EditedOutput {
            text: output,
            resolutions: Some(vec![RegionResolution::Unresolved, RegionResolution::Resolved]),
            has_markers: false,
        }),
        &markers,
        "",
    );
    assert_eq!(payload.output, saved);
    assert_eq!((payload.total_conflicts, payload.resolved_conflicts), (2, 1));
    let generated = build_focused_mergetool_save_payload(&segments, &map, None, &[], "made\n");
    assert_eq!(generated.output, "made\n");
    assert_eq!(generated.resolved_conflicts, 1);
}

#[test]
fn only_a_settled_merge_is_a_success() {
    assert_eq!(focused_mergetool_save_exit_code(0, 0), FOCUSED_MERGETOOL_EXIT_SUCCESS);
    assert_eq!(focused_mergetool_save_exit_code(2, 2), FOCUSED_MERGETOOL_EXIT_SUCCESS);
    assert_eq!(focused_mergetool_save_exit_code(2, 1), FOCUSED_MERGETOOL_EXIT_CANCELED);
    assert_eq!(
        clear_diff_selection_action(GitCometViewMode::FocusedMergetool),
        ClearDiffSelectionAction::ExitFocusedMergetool
    );
    assert_eq!(
        clear_diff_selection_action(GitCometViewMode::Normal),
        ClearDiffSelectionAction::ClearSelection
    );
}

#[test]
fn a_line_of_its_own_is_kept() {
    let current = "<<<\nours\n===\ntheirs\n>>>\n";
    let ranges = [ConflictSegmentRanges::Conflict { ours: 4..9, base: None, theirs: 13..20 }];
    let protects = |current: &str, projection: Option<&str>| {
        worktree_output_requires_protection(
            Some(current),
            projection,
            None,
            Some("ours\n"),
            Some("theirs\n"),
            false,
            &ranges,
        )
    };
    assert!(!protects(current, None));
    assert!(!protects("anything", Some("anything")));
    assert!(protects("<<<\nmine\n===\ntheirs\n>>>\n", None));
    assert!(worktree_output_requires_protection(
        Some("no conflict\n"),
        None,
        None,
        Some("ours\n"),
        Some("theirs\n"),
        false,
        &[],
    ));
    assert!(!worktree_output_requires_protection(None, None, None, None, None, false, &[]));
}
