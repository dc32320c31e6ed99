//! Copies of what is on screen, searched aside.
use gitcomet_view::diff::collapsed::CollapsedDiffExpansionKind;
use gitcomet_view::diff::collapsed::CollapsedDiffVisibleRow;
use gitcomet_view::diff::patch_rows::Diff;
use gitcomet_view::diff::patch_rows::DiffLine;
use gitcomet_view::diff::patch_rows::DiffLineKind;
use gitcomet_view::diff::split_rows::FileDiffRow;
use gitcomet_view::diff::split_rows::FileDiffRowKind;
use gitcomet_view::lines::ConflictResolverViewMode;
use gitcomet_view::search::capture::capture_search_document;
use gitcomet_view::search::capture::DiffContents;
use gitcomet_view::search::capture::PaneContents;
use gitcomet_view::search::conflict_rows::ConflictResolverSearchContext;
use gitcomet_view::search::conflict_rows::ThreeWayAlignedMap;
use gitcomet_view::search::conflict_rows::TwoWaySearchRow;
use gitcomet_view::search::conflict_rows::VersionText;
use gitcomet_view::search::document::SearchResult;
use gitcomet_view::search::matcher::DiffSearchOptions;
use gitcomet_view::search::scan::MarkdownPage;
use gitcomet_view::search::scan::PreviewLines;
use gitcomet_view::search::scan::SearchView;
use gitcomet_view::search::wrap::DiffWrapVisualRow;
use rustc_hash::FxHashMap;

fn view() -> SearchView {
    SearchView {
        editor_active: false,
        markdown_active: false,
        markdown_surface: None,
        preview_active: false,
        preview_loaded: false,
        conflict: false,
        conflict_known: false,
        conflict_mergeable: false,
        split_view: false,
        file_view: false,
        collapsed: false,
        word_wrap: false,
        patch_ready: true,
    }
}

fn line(text: &str) -> DiffLine {
    DiffLine {
        kind: DiffLineKind::Context,
        text: text.to_string(),
        content: text[1..].to_string(),
    }
}

fn wrapped_row(source_visible_ix: usize, start: usize, end: usize) -> DiffWrapVisualRow {
    DiffWrapVisualRow {
        source_visible_ix,
        primary_start: start,
        primary_end: end,
        secondary_start: 0,
        secondary_end: 0,
    }
}

fn matches(view: SearchView, query: &str) -> Vec<usize> {
    let found = search(view, query, DiffSearchOptions::default());
    assert_eq!(found.regex_error, None);
    found.matches
}

fn search(view: SearchView, query: &str, options: DiffSearchOptions) -> SearchResult {
    let diff = Diff { lines: vec![line(" zero needle"), line(" one"), line(" two\tneedle")] };
    let mut headers = FxHashMap::default();
    headers.insert(1, "shown Needle".to_string());
    let mut collapsed_headers = FxHashMap::default();
    collapsed_headers.insert(7, "folded needle".to_string());
    let folded = [
        CollapsedDiffVisibleRow::HunkHeader {
            src_ix: 7,
            expansion_kind: CollapsedDiffExpansionKind::Nothing,
            display_src_ix: Some(7),
            hidden_rows: 0,
        },
        CollapsedDiffVisibleRow::FileRow { row_ix: 0 },
    ];
    let file_rows = [FileDiffRow {
        kind: FileDiffRowKind::Modify,
        old_line: Some(1),
        new_line: Some(1),
        old: Some("left".to_string()),
        new: Some("right needle".to_string()),
    }];
    let marker_segments = [];
    let two_way = [TwoWaySearchRow { old: None, new: Some("conflict needle".to_string()) }];
    let version = VersionText { text: "", line_starts: &[] };
    let aligned = ThreeWayAlignedMap::default();
    let lines = [Some("a".to_string()), None, Some("preview needle".to_string())];
    let contents = PaneContents {
        editor: Some("first\nneedle here\n"),
        pages: vec![MarkdownPage {
            rows: vec!["a".to_string(), "page needle".to_string()],
            visual_rows: Some(vec![0, 5]),
        }],
        conflict: ConflictResolverSearchContext {
            view_mode: ConflictResolverViewMode::TwoWayDiff,
            marker_segments: &marker_segments,
            three_way_visible: &[],
            base: version,
            ours: version,
            theirs: version,
            three_way_aligned: &aligned,
            two_way_rows: &two_way,
        },
        preview: PreviewLines { lines: &lines },
        preview_source_len: 10,
        preview_text_is_empty: false,
        diff: DiffContents {
            visible_len: if view.collapsed { 2 } else { 3 },
            map: None,
            indices: &[0, 1, 2],
            collapsed_rows: &folded,
            collapsed_headers: &collapsed_headers,
            headers: &headers,
            patch: &diff,
            split_rows: &[],
            inline_texts: &["file needle".to_string()],
            file_rows: &file_rows,
        },
        wrapped: vec![
            wrapped_row(0, 0, 6),
            wrapped_row(0, 6, 12),
            wrapped_row(1, 0, 20),
            wrapped_row(2, 0, 20),
        ],
    };
    let mut copy = capture_search_document(&view, contents);
    assert!(copy.rows_fit_in_memory());
    copy.search(query, options)
}

#[test]
fn the_screen_decides_what_is_copied() {
    assert_eq!(matches(SearchView { editor_active: true, ..view() }, "needle"), vec![1]);
    assert_eq!(matches(SearchView { markdown_active: true, ..view() }, "needle"), vec![5]);
    assert_eq!(matches(SearchView { conflict: true, ..view() }, "needle"), vec![0]);
    let preview = SearchView { preview_active: true, conflict: true, ..view() };
    assert_eq!(matches(preview, "preview"), vec![2]);
    assert_eq!(matches(preview, "conflict"), Vec::<usize>::new());
    assert_eq!(matches(view(), "needle"), vec![0, 1, 2]);
}

#[test]
fn rows_are_copied_as_they_are_laid_out() {
    let file = SearchView { file_view: true, ..view() };
    assert_eq!(matches(file, "needle"), vec![0]);
    let split = SearchView { split_view: true, ..file };
    assert_eq!(matches(split, "right"), vec![0]);
    assert_eq!(matches(split, "file"), Vec::<usize>::new());
    let folded = SearchView { collapsed: true, ..file };
    assert_eq!(matches(folded, "folded"), vec![0]);
    assert_eq!(matches(folded, "file"), vec![1]);
    assert_eq!(matches(folded, "shown"), Vec::<usize>::new());
    let wrapped = SearchView { word_wrap: true, ..view() };
    assert_eq!(matches(wrapped, "needle"), vec![1, 2, 3]);
}

#[test]
fn only_a_pattern_that_is_there_can_be_refused() {
    let pattern = DiffSearchOptions { match_case: false, whole_word: false, regex: true };
    let empty = search(view(), "", pattern);
    assert!(empty.regex_error.is_none() && empty.matches.is_empty());
    let refused = search(view(), "(", pattern);
    assert!(refused.regex_error.is_some() && refused.matches.is_empty());
    assert_eq!(search(view(), "need.e", pattern).matches, vec![0, 1, 2]);
    assert!(search(view(), "(", DiffSearchOptions::default()).regex_error.is_none());
}
