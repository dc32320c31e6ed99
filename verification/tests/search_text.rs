//! Finding a query in texts.
use gitcomet_view::search::editor::file_editor_search_ranges;
use gitcomet_view::search::editor::FILE_EDITOR_SEARCH_MAX_MATCHES;
use gitcomet_view::search::literal_rows::FILE_PREVIEW_SEARCH_SCAN_CHUNK_BYTES;
use gitcomet_view::search::long_rows::matches_text;
use gitcomet_view::search::long_rows::resolved_output_line_ix_matches_query;
use gitcomet_view::search::matcher::DiffSearchMatcher;
use gitcomet_view::search::matcher::DiffSearchOptions;
use gitcomet_view::search::needle::contains_ascii_case_insensitive;
use gitcomet_view::search::needle::diff_search_inline_patch_query_uses_trigram_index;
use gitcomet_view::search::needle::diff_search_query_reuse;
use gitcomet_view::search::needle::diff_search_split_row_texts_match_query;
use gitcomet_view::search::needle::AsciiCaseInsensitiveNeedle;
use gitcomet_view::search::needle::DiffSearchQueryReuse;
use gitcomet_view::search::session::diff_search_resume_match_ix;
use std::ops::Range;

fn editor_search(text: &str, query: &str, options: DiffSearchOptions) -> Vec<Range<usize>> {
    editor_search_capped(text, query, options, FILE_EDITOR_SEARCH_MAX_MATCHES)
}

fn editor_search_capped(
    text: &str,
    query: &str,
    options: DiffSearchOptions,
    cap: usize,
) -> Vec<Range<usize>> {
    let matcher = DiffSearchMatcher::new(query, options);
    file_editor_search_ranges(text, &matcher, cap)
}

#[test]
fn editor_search_reports_every_occurrence_including_repeats_on_one_line() {
    let text = "let needle = needle.needle();\nother\nlast needle\n";
    let ranges = editor_search(text, "needle", DiffSearchOptions::default());

    assert_eq!(ranges.len(), 4);
    for range in &ranges {
        assert_eq!(&text[range.clone()], "needle");
    }
    assert!(ranges.windows(2).all(|pair| pair[0].end <= pair[1].start));
    assert_eq!(ranges[3].start, text.rfind("needle").unwrap());
}

#[test]
fn editor_search_honors_case_whole_word_and_regex_options() {
    let text = "Needle needles needle\n";

    assert_eq!(
        editor_search(text, "needle", DiffSearchOptions::default()).len(),
        3,
        "case-insensitive by default"
    );
    assert_eq!(
        editor_search(
            text,
            "needle",
            DiffSearchOptions { match_case: true, ..Default::default() }
        )
        .len(),
        2
    );
    assert_eq!(
        editor_search(
            text,
            "needle",
            DiffSearchOptions { whole_word: true, ..Default::default() }
        )
        .len(),
        2,
        "`needles` is not a whole-word hit"
    );
    let regex = editor_search(
        text,
        r"n..dle",
        DiffSearchOptions { regex: true, ..Default::default() },
    );
    assert_eq!(regex.len(), 3);
}

#[test]
fn editor_search_whole_word_matches_at_a_line_edge() {
    let ranges = editor_search(
        "needle\nprefix needle\n",
        "needle",
        DiffSearchOptions { whole_word: true, ..Default::default() },
    );
    assert_eq!(ranges.len(), 2);
    assert_eq!(ranges[0], 0..6);
}

#[test]
fn editor_search_regex_anchors_are_per_line() {
    let ranges = editor_search(
        "alpha\nbeta\nalpha\n",
        r"^alpha$",
        DiffSearchOptions { regex: true, ..Default::default() },
    );
    assert_eq!(ranges.len(), 2);
    assert_eq!(ranges[1].start, 11);
}

#[test]
fn editor_search_finds_a_multi_line_query() {
    let text = "one\ntwo\nthree\n";
    let ranges = editor_search(text, "one\ntwo", DiffSearchOptions::default());
    assert_eq!(ranges.len(), 1);
    assert_eq!(&text[ranges[0].clone()], "one\ntwo");
}

#[test]
fn editor_search_stops_at_the_match_cap() {
    let text = "aaaaaaaa\naaaaaaaa\n";
    assert_eq!(editor_search_capped(text, "a", DiffSearchOptions::default(), 5).len(), 5);
}

#[test]
fn editor_search_reports_nothing_for_an_empty_or_invalid_query() {
    assert!(editor_search("needle\n", "", DiffSearchOptions::default()).is_empty());
    assert!(editor_search(
        "needle\n",
        "(unclosed",
        DiffSearchOptions { regex: true, ..Default::default() }
    )
    .is_empty());
}

#[test]
fn matches_empty_needle() {
    assert!(contains_ascii_case_insensitive("abc", ""));
}

#[test]
fn matches_case_insensitively() {
    assert!(contains_ascii_case_insensitive("Hello", "he"));
    assert!(contains_ascii_case_insensitive("Hello", "HEL"));
    assert!(contains_ascii_case_insensitive("Hello", "lo"));
}

#[test]
fn does_not_match_absent_substring() {
    assert!(!contains_ascii_case_insensitive("Hello", "world"));
}

#[test]
fn diff_search_query_reuse_detects_same_semantics_and_refinements() {
    assert_eq!(
        diff_search_query_reuse("Render_Cache", "render_cache"),
        DiffSearchQueryReuse::SameSemantics
    );
    assert_eq!(
        diff_search_query_reuse("Render_Cache", " render_cache "),
        DiffSearchQueryReuse::Nothing
    );
    assert_eq!(
        diff_search_query_reuse("render_cache", "render_cache_hot_path"),
        DiffSearchQueryReuse::Refinement
    );
    assert_eq!(diff_search_query_reuse("", "render_cache"), DiffSearchQueryReuse::Nothing);
    assert_eq!(
        diff_search_query_reuse("render_cache", "cache_render"),
        DiffSearchQueryReuse::Nothing
    );
}

#[test]
fn diff_search_inline_patch_short_queries_skip_trigram_index() {
    assert!(!diff_search_inline_patch_query_uses_trigram_index(
        AsciiCaseInsensitiveNeedle::new("a").expect("needle")
    ));
    assert!(!diff_search_inline_patch_query_uses_trigram_index(
        AsciiCaseInsensitiveNeedle::new("ab").expect("needle")
    ));
    assert!(diff_search_inline_patch_query_uses_trigram_index(
        AsciiCaseInsensitiveNeedle::new("abc").expect("needle")
    ));
}

#[test]
fn diff_search_matcher_honors_case_sensitivity() {
    let default_matcher = DiffSearchMatcher::new("render", DiffSearchOptions::default());
    assert!(default_matcher.is_match("Render path"));

    let case_sensitive = DiffSearchMatcher::new(
        "render",
        DiffSearchOptions { match_case: true, ..DiffSearchOptions::default() },
    );
    assert!(!case_sensitive.is_match("Render path"));
    assert!(case_sensitive.is_match("render path"));
}

#[test]
fn diff_search_matcher_honors_whole_word_boundaries() {
    let matcher = DiffSearchMatcher::new(
        "render",
        DiffSearchOptions { whole_word: true, ..DiffSearchOptions::default() },
    );

    assert!(matcher.is_match("render cache"));
    assert!(!matcher.is_match("prerender cache"));
    assert!(!matcher.is_match("render_cache"));
}

#[test]
fn diff_search_matcher_whole_word_uses_unicode_boundaries() {
    let literal = DiffSearchMatcher::new(
        "β",
        DiffSearchOptions { whole_word: true, ..DiffSearchOptions::default() },
    );
    assert!(!literal.is_match("αβγ"));
    assert!(literal.is_match("β value"));

    let regex = DiffSearchMatcher::new(
        "β",
        DiffSearchOptions { whole_word: true, regex: true, ..DiffSearchOptions::default() },
    );
    assert!(!regex.is_match("αβγ"));
    assert!(regex.is_match("β value"));
}

#[test]
fn diff_search_matcher_handles_regex_and_invalid_regex() {
    let regex = DiffSearchMatcher::new(
        r"render\d+",
        DiffSearchOptions { regex: true, ..DiffSearchOptions::default() },
    );
    assert!(regex.regex_error().is_none());
    assert!(regex.is_match("RENDER42"));

    let invalid = DiffSearchMatcher::new(
        "(",
        DiffSearchOptions { regex: true, ..DiffSearchOptions::default() },
    );
    assert!(invalid.regex_error().is_some());
    assert!(!invalid.is_match("("));
}

#[test]
fn diff_search_row_overlay_does_not_highlight_multiline_fragments() {
    let matcher = DiffSearchMatcher::new("foo\nbar", DiffSearchOptions::default());
    let mut ranges = Vec::new();

    matcher.find_row_overlay_ranges_into("foo", &mut ranges, 64);
    assert!(ranges.is_empty());

    matcher.find_row_overlay_ranges_into("bar", &mut ranges, 64);
    assert!(ranges.is_empty());
}

#[test]
fn diff_search_resume_keeps_exact_visible_match() {
    assert_eq!(diff_search_resume_match_ix(Some(20), &[4, 20, 30]), Some(1));
}

#[test]
fn diff_search_resume_positions_before_next_later_match_when_previous_disappears() {
    let matches = [4, 30, 50];
    let ix = diff_search_resume_match_ix(Some(20), &matches).expect("resume ix");
    assert_eq!(ix, 0);
    assert_eq!(matches[(ix + 1) % matches.len()], 30);
}

#[test]
fn diff_search_resume_wraps_when_no_later_match_remains() {
    let matches = [4, 12];
    let ix = diff_search_resume_match_ix(Some(20), &matches).expect("resume ix");
    assert_eq!(ix, 1);
    assert_eq!(matches[(ix + 1) % matches.len()], 4);
}

#[test]
fn diff_search_resume_starts_at_first_without_previous_match() {
    assert_eq!(diff_search_resume_match_ix(None, &[4, 20, 30]), Some(0));
    assert_eq!(diff_search_resume_match_ix(Some(20), &[]), None);
}

#[test]
fn split_row_text_search_matches_rendered_tab_expansion() {
    let query = AsciiCaseInsensitiveNeedle::new("a    b").expect("query");
    let mut expanded_tabs = String::new();

    assert!(diff_search_split_row_texts_match_query(
        query,
        Some("a\tb"),
        None,
        &mut expanded_tabs,
    ));
    assert!(diff_search_split_row_texts_match_query(
        query,
        None,
        Some("a\tb"),
        &mut expanded_tabs,
    ));
}

#[test]
fn long_line_match_survives_a_chunk_ending_inside_a_character() {
    let mut line = "x".repeat(100);
    line.push_str("needle");
    line.push_str(&"x".repeat(FILE_PREVIEW_SEARCH_SCAN_CHUNK_BYTES - line.len() - 1));
    line.push('é');
    line.push_str(&"y".repeat(FILE_PREVIEW_SEARCH_SCAN_CHUNK_BYTES));
    assert!(!line.is_char_boundary(FILE_PREVIEW_SEARCH_SCAN_CHUNK_BYTES));

    let matcher = DiffSearchMatcher::new("NEEDLE", DiffSearchOptions::default());
    assert!(matches_text(&matcher, &line));
    let needle = AsciiCaseInsensitiveNeedle::new("NEEDLE").unwrap();
    assert!(resolved_output_line_ix_matches_query(&line, needle));
    let matcher = DiffSearchMatcher::new("xéy", DiffSearchOptions::default());
    assert!(matches_text(&matcher, &line));
}
