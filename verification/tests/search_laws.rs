//! What holds of every search.
use gitcomet_view::search::bytes::is_word_char;
use gitcomet_view::search::bytes::next_char_boundary_after;
use gitcomet_view::search::collect::collect_stream_match_row_offsets;
use gitcomet_view::search::collect::collect_stream_match_visible_rows;
use gitcomet_view::search::decode::decode_first_utf8_char;
use gitcomet_view::search::decode::trailing_utf8_char_is_word;
use gitcomet_view::search::decode::Utf8CharDecode;
use gitcomet_view::search::general::GeneralRows;
use gitcomet_view::search::hits::sort_and_dedup;
use gitcomet_view::search::long_rows::collect_file_diff_line_text_stream_match_visible_rows;
use gitcomet_view::search::matcher::normalize_diff_search_query;
use gitcomet_view::search::matcher::DiffSearchMatcher;
use gitcomet_view::search::matcher::DiffSearchOptions;
use gitcomet_view::search::needle::contains_ascii_case_insensitive;
use gitcomet_view::search::needle::expand_tabs_to_string;
use gitcomet_view::search::needle::AsciiCaseInsensitiveNeedle;
use gitcomet_view::search::prefix::build_literal_search_prefix_table;
use gitcomet_view::search::scan::active_conflict_target;
use gitcomet_view::search::scan::conflict_markdown_preview_reveal;
use gitcomet_view::search::scan::diff_search_refine_visible_rows;
use gitcomet_view::search::scan::diff_search_scan_current_view_with_needle;
use gitcomet_view::search::scan::file_editor_reveal_row;
use gitcomet_view::search::scan::markdown_preview_search_scan;
use gitcomet_view::search::scan::DiffArea;
use gitcomet_view::search::scan::MarkdownPage;
use gitcomet_view::search::scan::MarkdownSearchSurface;
use gitcomet_view::search::scan::PreviewLines;
use gitcomet_view::search::scan::RevealTarget;
use gitcomet_view::search::scan::RowStyle;
use gitcomet_view::search::scan::ScanPlan;
use gitcomet_view::search::scan::SearchView;
use gitcomet_view::search::scan::ViewRow;
use gitcomet_view::search::stream::next_row_start_after_stream_abs;
use gitcomet_view::search::stream::visible_ix_for_stream_abs;
use gitcomet_view::search::trigrams::encode_ascii_folded_byte_trigram;
use gitcomet_view::search::trigrams::DiffSearchVisibleCandidates;
use gitcomet_view::search::wrap::visual_row;
use gitcomet_view::search::wrap::DiffWrapVisualRow;

fn regex() -> DiffSearchOptions {
    DiffSearchOptions { regex: true, ..Default::default() }
}

#[test]
fn a_clean_query_stays_as_it_is() {
    let clean = normalize_diff_search_query("a\r\nb\rc\n");
    assert_eq!(clean, "a\nb\nc\n");
    assert_eq!(normalize_diff_search_query(&clean), clean);
}

#[test]
fn matches_are_in_order_and_apart() {
    let matcher = DiffSearchMatcher::new("aa", DiffSearchOptions::default());
    let mut ranges = Vec::new();
    matcher.find_ranges_into("aaaaa", &mut ranges, 10);
    assert_eq!(ranges, vec![0..2, 2..4]);
    ranges.clear();
    matcher.find_ranges_into("aaaaa", &mut ranges, 1);
    assert_eq!(ranges, vec![0..2]);
    assert_eq!(matcher.find_range_at_or_after("xaAx", 0), Some(1..3));
    assert_eq!(matcher.find_range_at_or_after("xaAx", 2), None);
}

#[test]
fn empty_matches_of_a_pattern_are_passed_over() {
    let matcher = DiffSearchMatcher::new("x*", regex());
    assert!(!matcher.is_match("abc"));
    assert_eq!(matcher.find_range_at_or_after("abxxc", 0), Some(2..4));
    let matcher = DiffSearchMatcher::new(
        "[a-z]+",
        DiffSearchOptions { match_case: true, regex: true, whole_word: false },
    );
    assert_eq!(matcher.find_range_at_or_after("ABC def", 0), Some(4..7));
}

#[test]
fn a_longer_query_matches_less() {
    for text in ["render_cache", "the render_cache_hot_path", "cache"] {
        if contains_ascii_case_insensitive(text, "render_cache") {
            assert!(contains_ascii_case_insensitive(text, "render"));
        }
        assert_eq!(
            contains_ascii_case_insensitive(text, "CACHE"),
            contains_ascii_case_insensitive(text, "cache")
        );
    }
    assert!(!contains_ascii_case_insensitive("naïve", "NAÏVE"));
}

#[test]
fn words_are_letters_digits_and_underscores() {
    for c in ['a', 'Z', '7', '_', 'β', '猫'] {
        assert!(is_word_char(c), "{c}");
    }
    for c in [' ', '-', '.', '\n'] {
        assert!(!is_word_char(c));
    }
    assert_eq!(next_char_boundary_after("aβ", 1), Some(3));
    assert_eq!(next_char_boundary_after("aβ", 0), Some(1));
}

#[test]
fn characters_are_read_from_bytes() {
    assert_eq!(decode_first_utf8_char("βx".as_bytes()), Utf8CharDecode::Complete('β'));
    assert_eq!(decode_first_utf8_char(&"β".as_bytes()[..1]), Utf8CharDecode::Incomplete);
    assert_eq!(decode_first_utf8_char(&[0xff]), Utf8CharDecode::Invalid);
    assert!(trailing_utf8_char_is_word("x β".as_bytes()));
    assert!(!trailing_utf8_char_is_word("β ".as_bytes()));
    assert!(!trailing_utf8_char_is_word(&[]));
}

#[test]
fn a_prefix_table_holds_the_longest_own_starts() {
    assert_eq!(build_literal_search_prefix_table(b"abcabd"), vec![0, 0, 0, 1, 2, 0]);
    assert_eq!(build_literal_search_prefix_table(b"aaaa"), vec![0, 1, 2, 3]);
}

#[test]
fn stream_places_belong_to_rows() {
    let starts = [(0, 10), (5, 11), (9, 12)];
    assert_eq!(visible_ix_for_stream_abs(&starts, 0), Some(10));
    assert_eq!(visible_ix_for_stream_abs(&starts, 8), Some(11));
    assert_eq!(visible_ix_for_stream_abs(&starts, 50), Some(12));
    assert_eq!(next_row_start_after_stream_abs(&starts, 5), Some(9));
    assert_eq!(next_row_start_after_stream_abs(&starts, 9), None);
}

#[test]
fn streaming_and_joining_rows_find_the_same() {
    let rows = [(3, "one needle"), (4, "two\r"), (6, "three need"), (7, "le needle needle")];
    for query in ["needle", "two\nthree", "need\nle", "absent", "e"] {
        for whole_word in [false, true] {
            for match_case in [false, true] {
                let options = DiffSearchOptions { match_case, whole_word, regex: false };
                let matcher = DiffSearchMatcher::new(query, options);
                let mut joined = Vec::new();
                collect_stream_match_visible_rows(&rows, &matcher, &mut joined);
                let mut streamed = Vec::new();
                collect_file_diff_line_text_stream_match_visible_rows(
                    &rows,
                    &matcher,
                    &mut streamed,
                );
                assert_eq!(joined, streamed, "{query} {whole_word} {match_case}");
            }
        }
    }
    let matcher = DiffSearchMatcher::new("^t[a-z]+", regex());
    let mut joined = Vec::new();
    collect_stream_match_visible_rows(&rows, &matcher, &mut joined);
    let mut streamed = Vec::new();
    collect_file_diff_line_text_stream_match_visible_rows(&rows, &matcher, &mut streamed);
    assert_eq!(joined, vec![4, 6]);
    assert_eq!(streamed, joined);
}

#[test]
fn offsets_are_within_their_rows() {
    let matcher = DiffSearchMatcher::new("b\nc", DiffSearchOptions::default());
    let mut offsets = Vec::new();
    collect_stream_match_row_offsets(&[(1, "ab"), (2, "cb"), (3, "cx")], &matcher, &mut offsets);
    assert_eq!(offsets, vec![(1, 1), (2, 1)]);
}

#[test]
fn rows_are_settled_once_and_in_order() {
    let mut rows = vec![5, 1, 5, 3, 1];
    sort_and_dedup(&mut rows);
    assert_eq!(rows, vec![1, 3, 5]);
}

#[test]
fn tabs_are_shown_as_spaces() {
    assert_eq!(expand_tabs_to_string("a\tb"), "a    b");
    assert_eq!(expand_tabs_to_string("\t"), "    ");
    assert_eq!(expand_tabs_to_string("plain"), "plain");
}

#[test]
fn three_bytes_make_one_number() {
    assert_eq!(encode_ascii_folded_byte_trigram(b"abc"), encode_ascii_folded_byte_trigram(b"ABC"));
    assert_ne!(encode_ascii_folded_byte_trigram(b"abc"), encode_ascii_folded_byte_trigram(b"acb"));
}

fn line(source_visible_ix: usize, start: usize, end: usize) -> DiffWrapVisualRow {
    DiffWrapVisualRow {
        source_visible_ix,
        primary_start: start,
        primary_end: end,
        secondary_start: 0,
        secondary_end: 0,
    }
}

#[test]
fn a_byte_of_a_broken_row_has_one_line() {
    let lines = [line(0, 0, 4), line(0, 4, 8), line(1, 0, 3)];
    assert_eq!(visual_row(&lines, 0, 0, 0), 0);
    assert_eq!(visual_row(&lines, 0, 0, 4), 1);
    assert_eq!(visual_row(&lines, 0, 0, 8), 1);
    assert_eq!(visual_row(&lines, 0, 0, 99), 0);
    assert_eq!(visual_row(&lines, 1, 0, 2), 2);
    assert_eq!(visual_row(&lines, 7, 0, 0), 7);
}

fn owned(rows: &[(usize, &str)]) -> Vec<(usize, String)> {
    rows.iter().map(|(ix, text)| (*ix, text.to_string())).collect()
}

#[test]
fn rows_on_screen_are_searched_in_every_layout() {
    let matcher = DiffSearchMatcher::new("b\nc", DiffSearchOptions::default());
    let left = [(0, "ab"), (1, "c"), (2, "b")];
    let right = [(0, "x"), (1, "b"), (2, "c")];
    for streamed in [false, true] {
        let rows = GeneralRows::Listed { rows: owned(&left), streamed };
        assert_eq!(rows.diff_search_scan_current_view_general(&matcher), vec![0]);
    }
    let rows = GeneralRows::Columns { left: owned(&left), right: owned(&right) };
    assert_eq!(rows.diff_search_scan_current_view_general(&matcher), vec![0, 1]);
    let sides = GeneralRows::Sides {
        rows: vec![
            (4, Some("a\tb".to_string()), None),
            (5, None, Some("a\tb".to_string())),
            (6, Some("ab".to_string()), None),
        ],
    };
    let spaced = DiffSearchMatcher::new(
        "a    b",
        DiffSearchOptions { match_case: true, ..Default::default() },
    );
    assert_eq!(sides.diff_search_scan_current_view_general(&spaced), vec![4, 5]);
    let wrapped = |lines_known| GeneralRows::Wrapped {
        columns: vec![owned(&[(0, "abcdefgh"), (1, "xyz")])],
        lines_known,
        lines: vec![line(0, 0, 4), line(0, 4, 8), line(1, 0, 3)],
    };
    let late = DiffSearchMatcher::new("fg", DiffSearchOptions::default());
    assert_eq!(wrapped(true).diff_search_scan_current_view_general(&late), vec![1]);
    assert_eq!(wrapped(false).diff_search_scan_current_view_general(&late), vec![0]);
}

#[test]
fn rows_are_looked_at_one_by_one_for_a_literal() {
    let rows = [
        ViewRow { left: Some("Needle".to_string()), right: None },
        ViewRow { left: None, right: Some("a\tneedle".to_string()) },
        ViewRow { left: Some("other".to_string()), right: None },
    ];
    let needle = AsciiCaseInsensitiveNeedle::new("needle").unwrap();
    let scan = |style, query| diff_search_scan_current_view_with_needle(style, &rows, query);
    assert_eq!(scan(RowStyle::Inline, needle), vec![0]);
    assert_eq!(scan(RowStyle::Split, needle), vec![0, 1]);
    let spaced = AsciiCaseInsensitiveNeedle::new("a    n").unwrap();
    assert_eq!(scan(RowStyle::SplitFile, spaced), vec![1]);
    assert!(scan(RowStyle::Split, spaced).is_empty());
    let mut matches = vec![0, 1, 2];
    diff_search_refine_visible_rows(RowStyle::Split, &rows, needle, &mut matches);
    assert_eq!(matches, vec![0, 1]);
}

#[test]
fn preview_lines_are_searched_by_candidates() {
    let lines = vec![
        Some("a needle".to_string()),
        None,
        Some("NEEDLE".to_string()),
        Some("hay".to_string()),
    ];
    let preview = PreviewLines { lines: &lines };
    let needle = AsciiCaseInsensitiveNeedle::new("needle").unwrap();
    assert_eq!(preview.diff_search_scan_preview_with_needle(needle, None), vec![0, 2]);
    assert_eq!(
        preview.scan_candidates(needle, DiffSearchVisibleCandidates::Indexed(&[2, 3])),
        vec![2]
    );
    assert!(preview.scan_candidates(needle, DiffSearchVisibleCandidates::Nothing).is_empty());
    let mut matches = vec![0, 2, 3];
    preview.diff_search_try_refine_worktree_preview_matches(
        needle,
        DiffSearchVisibleCandidates::Indexed(&[2]),
        &mut matches,
    );
    assert_eq!(matches, vec![2]);
}

#[test]
fn rendered_pages_are_searched_by_what_they_show() {
    let pages = [
        MarkdownPage {
            rows: vec!["bold".to_string(), "plain".to_string()],
            visual_rows: Some(vec![0, 3]),
        },
        MarkdownPage { rows: vec!["x".to_string(), "bold".to_string()], visual_rows: None },
    ];
    let matcher = DiffSearchMatcher::new("bold", DiffSearchOptions::default());
    assert_eq!(markdown_preview_search_scan(&pages, &matcher), vec![0, 1]);
    let plain = DiffSearchMatcher::new("plain", DiffSearchOptions::default());
    assert_eq!(markdown_preview_search_scan(&pages, &plain), vec![3]);
    assert!(conflict_markdown_preview_reveal(Some(&pages[1]), &matcher, 1));
    assert!(!conflict_markdown_preview_reveal(Some(&pages[1]), &matcher, 0));
    assert!(!conflict_markdown_preview_reveal(Some(&pages[1]), &matcher, 9));
    assert!(!conflict_markdown_preview_reveal(None, &matcher, 0));
}

fn screen() -> SearchView {
    SearchView {
        editor_active: false,
        markdown_active: false,
        markdown_surface: None,
        preview_active: false,
        preview_loaded: false,
        conflict: false,
        conflict_known: false,
        conflict_mergeable: false,
        split_view: false,
        file_view: false,
        collapsed: false,
        word_wrap: false,
        patch_ready: true,
    }
}

#[test]
fn what_is_on_top_is_searched() {
    assert_eq!(screen().diff_search_scan_plan(), ScanPlan::InlinePatch);
    assert_eq!(
        SearchView { word_wrap: true, ..screen() }.diff_search_scan_plan(),
        ScanPlan::Rows
    );
    let conflict = SearchView { conflict: true, conflict_known: true, ..screen() };
    assert_eq!(conflict.diff_search_scan_plan(), ScanPlan::Conflict);
    assert!(!conflict.diff_search_can_refine_current_matches());
    let preview = SearchView { preview_active: true, preview_loaded: true, ..conflict };
    assert_eq!(preview.diff_search_scan_plan(), ScanPlan::Preview);
    assert!(preview.diff_search_can_refine_current_matches());
    let page = SearchView {
        markdown_active: true,
        markdown_surface: Some(MarkdownSearchSurface::DiffSplit),
        ..preview
    };
    assert_eq!(
        page.diff_search_scan_plan(),
        ScanPlan::Markdown(MarkdownSearchSurface::DiffSplit)
    );
    assert!(!page.diff_search_can_refine_current_matches());
    let editor = SearchView { editor_active: true, ..page };
    assert_eq!(editor.diff_search_scan_plan(), ScanPlan::Editor);
    let plain = DiffSearchMatcher::new("a", DiffSearchOptions::default());
    assert!(screen().diff_search_uses_needle(&plain));
    assert!(!SearchView { word_wrap: true, ..screen() }.diff_search_uses_needle(&plain));
}

#[test]
fn a_match_moves_what_shows_it() {
    assert_eq!(screen().diff_search_scroll_to_visible_ix(), RevealTarget::Diff);
    assert!(RevealTarget::Diff.selects_row());
    assert!(RevealTarget::Diff.is_sideways());
    let conflict = SearchView { conflict: true, conflict_mergeable: true, ..screen() };
    assert_eq!(conflict.diff_search_scroll_to_visible_ix(), RevealTarget::ConflictColumns);
    assert!(!RevealTarget::Editor.is_sideways());
    assert_eq!(file_editor_reveal_row(&[0, 4, 9], 1), 4);
    assert_eq!(file_editor_reveal_row(&[], 3), 3);
    assert!(active_conflict_target(false, Some(DiffArea::Unstaged), true));
    assert!(!active_conflict_target(true, Some(DiffArea::Unstaged), true));
    assert!(!active_conflict_target(false, Some(DiffArea::Staged), true));
    assert!(!active_conflict_target(false, None, true));
}
