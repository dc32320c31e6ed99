//! Lines, edits and outlines of a text.
use gitcomet_view::conflict::output::coalesce_resolved_output_edit_deltas;
use gitcomet_view::conflict::output::conflict_resolver_output_context_line;
use gitcomet_view::conflict::output::line_index_for_offset;
use gitcomet_view::diff::hunk_header::parse_hunk_start;
use gitcomet_view::lines::append_line_insertion_text;
use gitcomet_view::lines::build_line_starts;
use gitcomet_view::lines::count_newlines;
use gitcomet_view::lines::indexed_line_byte_range;
use gitcomet_view::lines::line_content_byte_range_for_index;
use gitcomet_view::lines::line_start_offset_for_index;
use gitcomet_view::lines::preview_line_flags_for_text;
use gitcomet_view::lines::preview_line_flags_from_source;
use gitcomet_view::lines::preview_line_has_tabs_without_loading;
use gitcomet_view::lines::preview_line_is_ascii_without_loading;
use gitcomet_view::lines::preview_source_text_and_line_starts_from_lines;
use gitcomet_view::lines::preview_source_text_from_lines;
use gitcomet_view::lines::source_line_count;
use gitcomet_view::lines::split_line_count;
use gitcomet_view::outline::diff_syntax_edit_from_text_change;
use gitcomet_view::outline::dirty_byte_range_to_line_range;
use gitcomet_view::outline::line_index_for_byte_offset;
use gitcomet_view::outline::remap_resolved_output_conflict_block_ranges_for_delta;
use gitcomet_view::outline::resolved_outline_delta_between_texts;
use gitcomet_view::outline::resolved_outline_delta_for_snapshot_transition;
use gitcomet_view::outline::resolved_output_snapshot_is_modified;
use gitcomet_view::outline::shifted_line_index;
use gitcomet_view::outline::versioned_cached_diff_styled_text_is_current;
use gitcomet_view::outline::versioned_query_cached_diff_styled_text_is_current;
use gitcomet_view::outline::ResolvedOutputSourceRevision;
use gitcomet_view::outline::TextSnapshot;
use gitcomet_view::outline::VersionedCachedDiffStyledText;
use gitcomet_view::view::parse_conflict_canvas_rows_env;

#[test]
fn lines_start_behind_newlines() {
    let text = "a\n\nbc\n";
    assert_eq!(count_newlines(text), 3);
    let starts = build_line_starts(text);
    assert_eq!(starts, vec![0, 2, 3, 6]);
    for pair in starts.windows(2) {
        assert_eq!(text.as_bytes()[pair[1] - 1], b'\n');
    }
    assert_eq!(count_newlines(""), 0);
    assert_eq!(build_line_starts(""), vec![0]);
}

#[test]
fn line_counts_differ_in_the_last_empty_line() {
    assert_eq!(source_line_count(""), 0);
    assert_eq!(source_line_count("a\nb"), 2);
    assert_eq!(source_line_count("a\nb\n"), 2);
    assert_eq!(split_line_count("a\nb\n"), 3);
    assert_eq!(split_line_count(""), 1);
}

#[test]
fn line_ranges_leave_out_the_newline() {
    let text = "ab\ncd\n";
    assert_eq!(line_content_byte_range_for_index(text, 0), Some(0..2));
    assert_eq!(line_content_byte_range_for_index(text, 1), Some(3..5));
    assert_eq!(line_content_byte_range_for_index(text, 9), None);
    let starts = build_line_starts(text);
    assert_eq!(line_start_offset_for_index(&starts, text.len(), 1), 3);
    assert_eq!(line_start_offset_for_index(&starts, text.len(), 9), text.len());
    assert_eq!(indexed_line_byte_range(&starts, text.len(), 1), Some(3..5));
}

#[test]
fn line_flags_are_read_back() {
    let flags = preview_line_flags_for_text("plain\ttext");
    assert!(preview_line_is_ascii_without_loading(flags));
    assert!(preview_line_has_tabs_without_loading(flags));
    let flags = preview_line_flags_for_text("żółw");
    assert!(!preview_line_is_ascii_without_loading(flags));
    assert!(!preview_line_has_tabs_without_loading(flags));
    let text = "a\tb\nż\n";
    let all = preview_line_flags_from_source(text, &build_line_starts(text));
    assert!(preview_line_has_tabs_without_loading(all[0]));
    assert!(!preview_line_is_ascii_without_loading(all[1]));
}

#[test]
fn lines_are_put_together() {
    let lines = vec!["one".to_string(), "two".to_string()];
    assert_eq!(preview_source_text_from_lines(&lines, 8), "one\ntwo\n");
    let (text, starts) = preview_source_text_and_line_starts_from_lines(&lines, 7);
    assert_eq!(text, "one\ntwo");
    assert_eq!(starts, build_line_starts(&text));
}

#[test]
fn an_inserted_line_starts_on_a_line_of_its_own() {
    for (existing, line) in [("", "x"), ("a", "x"), ("a\n", "x")] {
        let inserted = append_line_insertion_text(existing, line);
        let whole = format!("{existing}{inserted}");
        assert!(whole.lines().any(|found| found == "x"));
        assert!(whole.starts_with(existing));
    }
}

#[test]
fn an_edit_rebuilds_the_text() {
    for (old, new) in [
        ("let a = 1;\n", "let ab = 1;\n"),
        ("żółw", "żółty"),
        ("", "new"),
        ("gone", ""),
        ("same head X same tail", "same head YY same tail"),
    ] {
        let edit = diff_syntax_edit_from_text_change(old, new).expect("texts differ");
        let mut rebuilt = old.to_string();
        rebuilt.replace_range(edit.old_range.clone(), &new[edit.new_range.clone()]);
        assert_eq!(rebuilt, new);
        let delta = resolved_outline_delta_between_texts(old, new).expect("texts differ");
        let mut rebuilt = old.to_string();
        rebuilt.replace_range(delta.old_range.clone(), &new[delta.new_range.clone()]);
        assert_eq!(rebuilt, new);
    }
    assert!(diff_syntax_edit_from_text_change("same", "same").is_none());
    assert!(resolved_outline_delta_between_texts("same", "same").is_none());
}

fn snapshot(model_id: u64, revision: u64, text: &str) -> TextSnapshot {
    TextSnapshot { model_id, revision, text: text.to_string() }
}

#[test]
fn a_snapshot_is_told_from_a_saved_one() {
    let saved = snapshot(1, 4, "a");
    assert!(!resolved_output_snapshot_is_modified(Some(&saved), &snapshot(1, 4, "a")));
    assert!(resolved_output_snapshot_is_modified(Some(&saved), &snapshot(1, 5, "b")));
    let revision = ResolvedOutputSourceRevision::from_snapshot(&saved);
    assert_eq!(revision, ResolvedOutputSourceRevision { model_id: 1, revision: 4 });
    let step = |old: &TextSnapshot, new: &TextSnapshot| {
        resolved_outline_delta_for_snapshot_transition(old, new, Some((4..7, 4..8)))
    };
    let delta = step(&snapshot(1, 1, "one two"), &snapshot(1, 2, "one four")).expect("a step");
    assert_eq!(delta.old_range, 4..7);
    assert_eq!(delta.new_range, 4..8);
    assert!(step(&snapshot(1, 1, "a"), &snapshot(1, 3, "b")).is_none());
    assert!(step(&snapshot(1, 1, "a"), &snapshot(2, 2, "b")).is_none());
    assert!(resolved_outline_delta_for_snapshot_transition(&saved, &snapshot(1, 5, "b"), None)
        .is_none());
}

#[test]
fn a_line_is_found_by_a_byte() {
    let starts = [0, 4, 9];
    assert_eq!(line_index_for_byte_offset(&starts, 0), 0);
    assert_eq!(line_index_for_byte_offset(&starts, 4), 1);
    assert_eq!(line_index_for_byte_offset(&starts, 8), 1);
    assert_eq!(line_index_for_byte_offset(&starts, 99), 2);
    assert_eq!(line_index_for_byte_offset(&[], 7), 0);
    let lines = dirty_byte_range_to_line_range(&starts, 12, 5..6);
    assert!(lines.contains(&1));
    assert_eq!(shifted_line_index(5, -2), 3);
    assert_eq!(shifted_line_index(5, 2), 7);
    assert_eq!(shifted_line_index(1, -2), 0);
    assert_eq!(line_index_for_offset("a\nb\nc", 2), 1);
    assert_eq!(conflict_resolver_output_context_line("a\nb\nc", 0, Some(4)), 2);
    assert_eq!(conflict_resolver_output_context_line("a\nb\nc", 2, None), 1);
}

#[test]
fn an_edit_keeps_the_blocks_around_it() {
    let blocks = [0..2, 5..7, 9..12];
    let moved = remap_resolved_output_conflict_block_ranges_for_delta(&blocks, 5..7, 5..9, 20);
    assert_eq!(moved.len(), 3);
    assert_eq!(moved[0], 0..2);
    assert_eq!(moved[2], 11..14);
}

#[test]
fn two_edits_become_one() {
    assert_eq!(coalesce_resolved_output_edit_deltas(&[]), None);
    assert_eq!(coalesce_resolved_output_edit_deltas(&[(2..3, 2..5)]), Some((2..3, 2..5)));
    let (old, new) =
        coalesce_resolved_output_edit_deltas(&[(2..3, 2..5), (8..9, 8..8)]).expect("one edit");
    assert!(old.start <= 2);
    assert_eq!(new.len() as i64 - old.len() as i64, 1);
}

#[test]
fn hunk_headers_tell_where_lines_start() {
    assert_eq!(parse_hunk_start("@@ -12,3 +40,5 @@ fn f()"), Some((12, 40)));
    assert_eq!(parse_hunk_start("@@ -1 +2 @@"), Some((1, 2)));
    assert_eq!(parse_hunk_start("no header"), None);
    assert_eq!(parse_hunk_start("@@ -99999999999,1 +1 @@"), None);
}

#[test]
fn styled_text_is_current_for_its_epoch() {
    let entry = VersionedCachedDiffStyledText {
        syntax_epoch: 3,
        query_generation: 8,
        styled: "text".to_string(),
    };
    assert!(versioned_cached_diff_styled_text_is_current(Some(&entry), 3).is_some());
    assert!(versioned_cached_diff_styled_text_is_current(Some(&entry), 4).is_none());
    assert!(versioned_cached_diff_styled_text_is_current(None, 3).is_none());
    assert!(versioned_query_cached_diff_styled_text_is_current(Some(&entry), 3, 8).is_some());
    assert!(versioned_query_cached_diff_styled_text_is_current(Some(&entry), 3, 9).is_none());
}

#[test]
fn a_setting_is_off_only_where_it_says_so() {
    for off in ["0", "false", "off", "no", " FALSE "] {
        assert!(!parse_conflict_canvas_rows_env(off), "{off}");
    }
    for on in ["1", "true", "yes", "anything"] {
        assert!(parse_conflict_canvas_rows_env(on), "{on}");
    }
    assert!(!parse_conflict_canvas_rows_env("\u{2003}\u{85}off\u{a0}\u{3000}"));
    assert!(parse_conflict_canvas_rows_env("\u{200b}off"));
    assert!(parse_conflict_canvas_rows_env("\u{180e}off"));
}
