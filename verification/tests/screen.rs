//! Searching what is on screen at once.
use gitcomet_view::diff::patch_rows::Diff;
use gitcomet_view::diff::patch_rows::DiffLine;
use gitcomet_view::diff::patch_rows::DiffLineKind;
use gitcomet_view::diff::split_rows::DiffClickKind;
use gitcomet_view::lines::ConflictResolverViewMode;
use gitcomet_view::search::conflict_rows::ConflictResolverSearchContext;
use gitcomet_view::search::conflict_rows::ThreeWayAlignedMap;
use gitcomet_view::search::conflict_rows::TwoWaySearchRow;
use gitcomet_view::search::conflict_rows::VersionText;
use gitcomet_view::search::general::GeneralRows;
use gitcomet_view::search::inline_patch::InlinePatchRows;
use gitcomet_view::search::matcher::DiffSearchMatcher;
use gitcomet_view::search::matcher::DiffSearchOptions;
use gitcomet_view::search::scan::MarkdownPage;
use gitcomet_view::search::scan::MarkdownSearchSurface;
use gitcomet_view::search::scan::RowStyle;
use gitcomet_view::search::scan::SearchView;
use gitcomet_view::search::trigrams::DiffSearchVisibleTrigramIndex;
use gitcomet_view::search::view_rows::ScanResult;
use gitcomet_view::search::view_rows::Screen;
use gitcomet_view::search::view_rows::ScreenRow;
use gitcomet_view::search::view_rows::ScreenTexts;
use gitcomet_view::search::wrap::DiffWrapVisualRow;
use rustc_hash::FxHashMap;

fn view() -> SearchView {
    SearchView {
        editor_active: false,
        markdown_active: false,
        markdown_surface: None,
        preview_active: false,
        preview_loaded: false,
        conflict: false,
        conflict_known: false,
        conflict_mergeable: false,
        split_view: false,
        file_view: false,
        collapsed: false,
        word_wrap: false,
        patch_ready: false,
    }
}

fn some(text: &str) -> Option<String> {
    Some(text.to_string())
}

fn row(inline: &str, left: &str, right: &str) -> ScreenRow {
    ScreenRow { inline: inline.to_string(), left: left.to_string(), right: right.to_string() }
}

fn screen_line(source_visible_ix: usize, start: usize, end: usize) -> DiffWrapVisualRow {
    DiffWrapVisualRow {
        source_visible_ix,
        primary_start: start,
        primary_end: end,
        secondary_start: start,
        secondary_end: end,
    }
}

fn texts() -> ScreenTexts {
    ScreenTexts {
        preview_lines: vec![some("preview"), None, some("a needle")],
        preview_source_len: 9,
        preview_text_len: 9,
        shown_rows: vec![
            row("inline needle", "left", "right"),
            row("end", "needle", "x"),
            row("start", "y", "nee\tdle"),
        ],
        file_inline: vec![some("file"), None, some("needle\t")],
        file_sides: vec![
            Some((some("a\tb"), None)),
            None,
            Some((None, some("needle"))),
        ],
        full_rows: vec![row("abcdneedle", "left", "right"), row("needle", "l", "needle")],
        broken_rows: Some(2),
        broken_lines: vec![screen_line(0, 0, 4), screen_line(0, 4, 10), screen_line(1, 0, 6)],
    }
}

fn scan_with(
    view: SearchView,
    texts: ScreenTexts,
    query: &str,
    options: DiffSearchOptions,
    index: &mut Option<DiffSearchVisibleTrigramIndex>,
) -> ScanResult {
    let diff = Diff {
        lines: vec![
            DiffLine {
                kind: DiffLineKind::Context,
                text: " a".to_string(),
                content: "a".to_string(),
            },
            DiffLine {
                kind: DiffLineKind::Add,
                text: "+patch needle".to_string(),
                content: "patch needle".to_string(),
            },
        ],
    };
    let headers = FxHashMap::default();
    let two_way = [
        TwoWaySearchRow { old: some("x"), new: None },
        TwoWaySearchRow { old: None, new: some("conflict needle") },
    ];
    let version = VersionText { text: "", line_starts: &[] };
    let aligned = ThreeWayAlignedMap::default();
    let pages = [MarkdownPage {
        rows: vec!["a".to_string(), "page needle".to_string()],
        visual_rows: Some(vec![0, 5]),
    }];
    let screen = Screen {
        editor: "first\nneedle here\n",
        pages: &pages,
        conflict: ConflictResolverSearchContext {
            view_mode: ConflictResolverViewMode::TwoWayDiff,
            marker_segments: &[],
            three_way_visible: &[],
            base: version,
            ours: version,
            theirs: version,
            three_way_aligned: &aligned,
            two_way_rows: &two_way,
        },
        patch: InlinePatchRows {
            diff: &diff,
            click_kinds: &[DiffClickKind::Line, DiffClickKind::Line],
            headers: &headers,
            map: None,
            indices: &[0, 1],
        },
        preview_index: None,
        texts,
    };
    let matcher = DiffSearchMatcher::new(query, options);
    screen.diff_search_scan_current_view_with_matcher(&view, &matcher, index)
}

fn scan(view: SearchView, query: &str) -> Vec<usize> {
    scan_with(view, texts(), query, DiffSearchOptions::default(), &mut None).matches
}

fn scan_by_case(view: SearchView, query: &str) -> Vec<usize> {
    let options = DiffSearchOptions { match_case: true, ..Default::default() };
    scan_with(view, texts(), query, options, &mut None).matches
}

#[test]
fn what_covers_the_view_is_searched_first() {
    let editor = SearchView { editor_active: true, preview_active: true, ..view() };
    let found = scan_with(editor, texts(), "needle", Default::default(), &mut None);
    assert_eq!(found.matches, vec![1]);
    assert_eq!(found.editor_ranges, vec![6..12]);
    let page = SearchView {
        markdown_active: true,
        markdown_surface: Some(MarkdownSearchSurface::Worktree),
        preview_active: true,
        preview_loaded: true,
        ..view()
    };
    assert_eq!(scan(page, "needle"), vec![5]);
    assert!(scan(SearchView { markdown_surface: None, ..page }, "needle").is_empty());
    let conflict = SearchView { conflict: true, conflict_known: true, ..view() };
    assert_eq!(scan(conflict, "needle"), vec![1]);
    assert_eq!(scan_by_case(conflict, "needle"), vec![1]);
    assert!(scan(SearchView { conflict_known: false, ..conflict }, "needle").is_empty());
}

#[test]
fn a_preview_is_searched_by_the_lines_that_can_be_read() {
    let preview = SearchView { preview_active: true, preview_loaded: true, ..view() };
    assert_eq!(scan(preview, "needle"), vec![2]);
    assert_eq!(scan_by_case(preview, "w\na"), vec![0]);
    assert!(scan(SearchView { preview_loaded: false, ..preview }, "needle").is_empty());
    for (source_len, text_len, in_pieces) in [(9, 9, false), (0, 0, false), (9, 0, true)] {
        let texts = ScreenTexts {
            preview_source_len: source_len,
            preview_text_len: text_len,
            ..texts()
        };
        match texts.general_rows(&preview) {
            Some(GeneralRows::Listed { rows, streamed }) => {
                assert_eq!(rows, vec![(0, "preview".to_string()), (2, "a needle".to_string())]);
                assert_eq!(streamed, in_pieces);
            }
            other => panic!("{other:?}"),
        }
    }
}

#[test]
fn rows_are_searched_by_how_the_diff_is_laid_out() {
    assert_eq!(scan(view(), "needle"), vec![0]);
    assert_eq!(scan_by_case(view(), "end\nst"), vec![1]);
    let split = SearchView { split_view: true, ..view() };
    assert_eq!(scan(split, "needle"), vec![1]);
    assert_eq!(scan_by_case(split, "needle\ny"), vec![1]);
    assert_eq!(scan_by_case(split, "right\nx"), vec![0]);
    let file = SearchView { file_view: true, ..view() };
    assert_eq!(scan(file, "needle"), vec![2]);
    assert_eq!(scan_by_case(file, "file\nneedle\t"), vec![0]);
    let sides = SearchView { split_view: true, ..file };
    assert_eq!(scan(sides, "a    b"), vec![0]);
    assert_eq!(scan_by_case(sides, "a    b"), vec![0]);
    assert_eq!(scan(sides, "needle"), vec![2]);
}

#[test]
fn broken_rows_are_searched_whole() {
    let wrapped = SearchView { word_wrap: true, ..view() };
    assert_eq!(scan(wrapped, "needle"), vec![1, 2]);
    assert_eq!(scan(wrapped, "cdne"), vec![0]);
    assert_eq!(scan(SearchView { file_view: true, ..wrapped }, "needle"), vec![1, 2]);
    let split = SearchView { split_view: true, ..wrapped };
    assert_eq!(scan(split, "needle"), vec![2]);
    let unbroken = ScreenTexts { broken_rows: None, ..texts() };
    let found = scan_with(wrapped, unbroken, "needle", Default::default(), &mut None);
    assert_eq!(found.matches, vec![0, 1]);
    let fewer = ScreenTexts { broken_rows: Some(1), ..texts() };
    let found = scan_with(wrapped, fewer, "needle", Default::default(), &mut None);
    assert_eq!(found.matches, vec![1]);
}

#[test]
fn a_patch_in_one_column_is_searched_by_its_lines() {
    let patch = SearchView { patch_ready: true, ..view() };
    let mut index = None;
    let found = scan_with(patch, texts(), "needle", Default::default(), &mut index);
    assert_eq!(found.matches, vec![1]);
    assert!(index.is_some());
    let again = scan_with(patch, texts(), "needle", Default::default(), &mut index);
    assert_eq!(again.matches, vec![1]);
    assert_eq!(scan_by_case(patch, "a\n+patch"), vec![0]);
    assert_eq!(scan(SearchView { collapsed: true, ..patch }, "needle"), vec![0]);
}

#[test]
fn rows_are_picked_for_a_literal() {
    let texts = texts();
    let (style, rows) = texts.needle_rows(&view());
    assert_eq!(style, RowStyle::Inline);
    assert_eq!(rows[0].left, some("inline needle"));
    assert_eq!(rows[0].right, None);
    let sides = SearchView { split_view: true, file_view: true, ..view() };
    let (style, rows) = texts.needle_rows(&sides);
    assert_eq!(style, RowStyle::SplitFile);
    assert_eq!(rows.len(), 3);
    assert_eq!((&rows[0].left, &rows[0].right), (&some("a\tb"), &None));
    assert_eq!((&rows[1].left, &rows[1].right), (&None, &None));
    let (style, rows) = texts.needle_rows(&SearchView { word_wrap: true, ..sides });
    assert_eq!(style, RowStyle::Split);
    assert_eq!((&rows[1].left, &rows[1].right), (&some("needle"), &some("x")));
    assert!(texts.general_rows(&SearchView { editor_active: true, ..view() }).is_none());
}
