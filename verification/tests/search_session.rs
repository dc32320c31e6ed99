//! Walking through matches while they come and go.
use gitcomet_view::search::matcher::DiffSearchOptions;
use gitcomet_view::search::session::DiffSearch;
use gitcomet_view::search::session::DiffSearchFinalizeMode;
use gitcomet_view::search::session::QueryChange;
use gitcomet_view::search::session::SearchDocumentKey;
use gitcomet_view::search::session::SearchOutcome;
use gitcomet_view::search::session::SearchStart;
use gitcomet_view::search::session::SearchStep;

fn key(preview: u64) -> SearchDocumentKey {
    SearchDocumentKey {
        repo: None,
        patch_repo: None,
        patch_rev: 0,
        file_repo: None,
        file_rev: 0,
        file_seq: 0,
        projection_rev: 0,
        split_view: false,
        word_wrap: false,
        wrap_plan: None,
        preview,
        editor: None,
        markdown: 0,
        markdown_wrap_single: None,
        markdown_wrap_inline: None,
        markdown_wrap_left: None,
        markdown_wrap_right: None,
        conflict_rev: 0,
        conflict_source: None,
        conflict_pending: 0,
        conflict_three_way: false,
        conflict_hide_resolved: false,
        conflict_projection: 0,
        editor_active: false,
        preview_active: false,
        markdown_active: false,
        collapsed_active: false,
    }
}

fn search(query: &str, matches: Vec<usize>) -> DiffSearch {
    DiffSearch {
        active: true,
        query: query.to_string(),
        options: DiffSearchOptions::default(),
        regex_error: None,
        matches,
        match_ix: None,
        sequence: 0,
        pending_previous_query: None,
        pending_finalize: DiffSearchFinalizeMode::ScrollToFirst,
        pending_navigation: 0,
        worker_running: false,
        worker_sequence: 0,
        document: None,
        editor_matches: Vec::new(),
        editor_rev: 0,
    }
}

#[test]
fn steps_go_round() {
    let mut search = search("a", vec![3, 8, 9]);
    search.diff_search_finalize_matches(DiffSearchFinalizeMode::ScrollToFirst);
    assert_eq!(search.match_ix, Some(0));
    assert_eq!(search.diff_search_next_match(), SearchStep::Moves(8));
    assert_eq!(search.diff_search_next_match(), SearchStep::Moves(9));
    assert_eq!(search.diff_search_next_match(), SearchStep::Moves(3));
    assert_eq!(search.diff_search_prev_match(), SearchStep::Moves(9));
    assert_eq!(search.diff_search_current_match_row(), Some(9));
}

#[test]
fn a_kept_place_does_not_move_the_screen() {
    let mut search = search("a", vec![3, 8, 9]);
    let mode = DiffSearchFinalizeMode::PreserveCurrent {
        previous_match_ix: Some(1),
        previous_visible_ix: Some(8),
    };
    assert_eq!(search.diff_search_finalize_matches(mode), None);
    assert_eq!(search.match_ix, Some(1));
    let mode = DiffSearchFinalizeMode::preserve_current(Some(9), None);
    search.diff_search_finalize_matches(mode);
    assert_eq!(search.match_ix, Some(2));
}

#[test]
fn a_changed_query_keeps_narrows_or_looks_anew() {
    let change = |query: &str, previous: &str, can_refine: bool| {
        let mut search = search(query, vec![1, 2]);
        search.diff_search_recompute_matches_for_query_change(previous, can_refine).0
    };
    assert_eq!(change("Needle", "needle", true), QueryChange::Keep);
    assert_eq!(change("needles", "needle", true), QueryChange::Refine);
    assert_eq!(change("needles", "needle", false), QueryChange::Scan);
    assert_eq!(change("other", "needle", true), QueryChange::Scan);
    assert_eq!(change("", "needle", true), QueryChange::Cleared);
    let mut idle = search("needle", vec![1]);
    idle.active = false;
    assert_eq!(
        idle.diff_search_recompute_matches_for_query_change("x", true).0,
        QueryChange::Inactive
    );
    assert!(idle.matches.is_empty());
}

#[test]
fn matches_found_at_once_are_taken_over() {
    let mut search = search("needle", vec![7]);
    let matcher = search.diff_search_begin_recompute().expect("a matcher");
    assert!(matcher.is_match("a NEEDLE"));
    let show = search.diff_search_end_recompute(
        vec![2, 4],
        DiffSearchFinalizeMode::ScrollToFirst,
    );
    assert_eq!(show, Some(2));
    assert_eq!(search.matches, vec![2, 4]);
    search.query = "(".to_string();
    search.options = DiffSearchOptions { regex: true, ..Default::default() };
    assert!(search.diff_search_begin_recompute().is_none());
    assert!(search.regex_error.is_some());
    assert!(search.matches.is_empty());
}

#[test]
fn a_finished_search_is_shown_where_it_is_still_wanted() {
    let mut pane = search("needle", vec![1]);
    assert!(pane.diff_search_schedule_query_recompute("need".to_string(), &key(1)));
    assert_eq!(pane.matches, vec![1]);
    assert!(pane.diff_search_result_pending());
    let sequence = match pane.diff_search_start_background(&key(1)) {
        SearchStart::Run { sequence, .. } => sequence,
        other => panic!("{other:?}"),
    };
    assert_eq!(pane.diff_search_start_background(&key(1)), SearchStart::Nothing);
    let outcome = pane.complete_background(
        sequence,
        &key(1),
        &key(1),
        DiffSearchFinalizeMode::ScrollToFirst,
        vec![5, 6],
        None,
        Vec::new(),
    );
    assert_eq!(outcome, SearchOutcome::Published(Some(5)));
    assert_eq!(pane.matches, vec![5, 6]);
    assert!(!pane.diff_search_result_pending());
}

#[test]
fn an_overtaken_search_is_dropped_or_run_again() {
    let mut pane = search("needle", vec![1]);
    pane.diff_search_schedule_query_recompute("need".to_string(), &key(1));
    let sequence = match pane.diff_search_start_background(&key(1)) {
        SearchStart::Run { sequence, .. } => sequence,
        other => panic!("{other:?}"),
    };
    let outcome = pane.complete_background(
        sequence,
        &key(1),
        &key(2),
        DiffSearchFinalizeMode::ScrollToFirst,
        vec![5],
        None,
        Vec::new(),
    );
    assert_eq!(outcome, SearchOutcome::Again);
    assert_eq!(pane.matches, vec![1]);
    pane.diff_search_cancel_pending_query_recompute(&key(2));
    let outcome = pane.complete_background(
        sequence,
        &key(2),
        &key(2),
        DiffSearchFinalizeMode::ScrollToFirst,
        vec![5],
        None,
        Vec::new(),
    );
    assert_eq!(outcome, SearchOutcome::Dropped);
    assert_eq!(pane.matches, vec![1]);
}

#[test]
fn the_matches_of_an_editor_carry_their_bytes() {
    let mut pane = search("needle", Vec::new());
    pane.file_editor_search_scan(vec![4..10, 15..21], vec![0, 2]);
    assert_eq!(pane.editor_rev, 1);
    pane.match_ix = Some(1);
    assert_eq!(pane.file_editor_search_current_range(), Some(15..21));
    pane.file_editor_search_clear();
    assert_eq!(pane.editor_rev, 2);
    pane.file_editor_search_clear();
    assert_eq!(pane.editor_rev, 2);
    assert_eq!(pane.file_editor_search_current_range(), None);
}
