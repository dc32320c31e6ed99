//! Finding a query in rows.
use gitcomet_view::search::collect::collect_split_stream_match_visible_rows;
use gitcomet_view::search::collect::collect_stream_match_visible_rows;
use gitcomet_view::search::collect::collect_stream_match_visible_rows_with_mode;
use gitcomet_view::search::collect::StreamMatchCollectionMode;
use gitcomet_view::search::document::DocumentSource;
use gitcomet_view::search::document::SearchDocument;
use gitcomet_view::search::literal_rows::FILE_PREVIEW_SEARCH_SCAN_CHUNK_BYTES;
use gitcomet_view::search::long_rows::collect_file_diff_line_text_stream_match_visible_rows;
use gitcomet_view::search::matcher::DiffSearchMatcher;
use gitcomet_view::search::matcher::DiffSearchOptions;
use gitcomet_view::search::pieces::collect_stored_rows;
use gitcomet_view::search::pieces::collect_text_rows;
use gitcomet_view::search::pieces::StoredPiece;
use gitcomet_view::search::pieces::StoredRow;
use gitcomet_view::search::pieces::TextPiece;
use gitcomet_view::search::pieces::TextRow;
use gitcomet_view::search::rows::RowDocument;

#[test]
fn diff_search_matcher_regex_anchors_match_visible_rows() {
    let start_anchor = DiffSearchMatcher::new(
        r"^use",
        DiffSearchOptions { regex: true, ..DiffSearchOptions::default() },
    );
    let mut matches = Vec::new();
    collect_stream_match_visible_rows(
        &[(10, "mod app;"), (11, "use crate::app;"), (12, "  use crate::other;")],
        &start_anchor,
        &mut matches,
    );
    assert_eq!(matches, vec![11]);

    let end_anchor = DiffSearchMatcher::new(
        r";$",
        DiffSearchOptions { regex: true, ..DiffSearchOptions::default() },
    );
    matches.clear();
    collect_stream_match_visible_rows(
        &[(20, "let x = 1"), (21, "let y = 2;"), (22, "let z = 3")],
        &end_anchor,
        &mut matches,
    );
    assert_eq!(matches, vec![21]);
}

#[test]
fn diff_search_matcher_matches_across_adjacent_visible_rows() {
    let matcher = DiffSearchMatcher::new("alpha\nbeta", DiffSearchOptions::default());
    let mut matches = Vec::new();
    collect_stream_match_visible_rows(
        &[(10, "alpha"), (11, "beta"), (12, "gamma")],
        &matcher,
        &mut matches,
    );

    assert_eq!(matches, vec![10]);
}

#[test]
fn diff_search_stream_collector_normalizes_crlf_row_endings() {
    let matcher = DiffSearchMatcher::new("foo\nbar", DiffSearchOptions::default());
    let mut matches = Vec::new();
    collect_stream_match_visible_rows(
        &[(10, "foo\r"), (11, "bar\r"), (12, "baz\r")],
        &matcher,
        &mut matches,
    );

    assert_eq!(matches, vec![10]);
}

#[test]
fn diff_search_file_slice_stream_collector_normalizes_crlf_row_endings() {
    let source = "foo\r\nbar\r\nbaz\r\n";
    let rows = [(10, &source[0..4]), (11, &source[5..9]), (12, &source[10..14])];

    let matcher = DiffSearchMatcher::new("foo\nbar", DiffSearchOptions::default());
    let mut matches = Vec::new();
    collect_file_diff_line_text_stream_match_visible_rows(&rows, &matcher, &mut matches);

    assert_eq!(matches, vec![10]);
}

fn large_source(start: &[u8]) -> Vec<u8> {
    let payload_bytes = FILE_PREVIEW_SEARCH_SCAN_CHUNK_BYTES * 128;
    let mut source = Vec::with_capacity(payload_bytes);
    source.extend_from_slice(start);
    source.extend(std::iter::repeat(b'x').take(FILE_PREVIEW_SEARCH_SCAN_CHUNK_BYTES));
    source.push(0xff);
    source.resize(payload_bytes, b'x');
    source
}

fn stored_row(visible_ix: usize, source: &[u8]) -> StoredRow<'_> {
    StoredRow {
        visible_ix,
        pieces: source
            .chunks(FILE_PREVIEW_SEARCH_SCAN_CHUNK_BYTES)
            .map(StoredPiece::Bytes)
            .collect(),
    }
}

fn text_row(visible_ix: usize, source: &[u8]) -> TextRow<'_> {
    TextRow {
        visible_ix,
        len: source.len(),
        pieces: source
            .chunks(FILE_PREVIEW_SEARCH_SCAN_CHUNK_BYTES)
            .map(|chunk| match std::str::from_utf8(chunk) {
                Ok(text) => TextPiece::Text(text),
                Err(_) => TextPiece::Gap(chunk.len()),
            })
            .collect(),
    }
}

#[test]
fn diff_search_file_slice_general_collector_does_not_materialize_large_rows() {
    let source = large_source(b"needle ");
    assert!(
        std::str::from_utf8(&source).is_err(),
        "invalid UTF-8 sentinel should make full-row materialization unusable"
    );

    let matcher = DiffSearchMatcher::new(
        "needle",
        DiffSearchOptions { whole_word: true, ..DiffSearchOptions::default() },
    );
    let mut matches = Vec::new();
    collect_stored_rows(&[stored_row(77, &source)], &matcher, &mut matches);
    assert_eq!(matches, vec![77]);

    let regex_matcher = DiffSearchMatcher::new(
        r"^needle",
        DiffSearchOptions { regex: true, ..DiffSearchOptions::default() },
    );
    let mut regex_matches = Vec::new();
    collect_text_rows(&[text_row(78, &source)], &regex_matcher, &mut regex_matches);
    assert_eq!(regex_matches, vec![78]);
}

#[test]
fn diff_search_file_slice_case_sensitive_collector_does_not_materialize_large_rows() {
    let source = large_source(b"Needle ");
    assert!(
        std::str::from_utf8(&source).is_err(),
        "invalid UTF-8 sentinel should make full-row materialization unusable"
    );

    let matcher = DiffSearchMatcher::new(
        "Needle",
        DiffSearchOptions { match_case: true, ..DiffSearchOptions::default() },
    );
    let mut matches = Vec::new();
    collect_stored_rows(&[stored_row(77, &source)], &matcher, &mut matches);
    assert_eq!(matches, vec![77]);
}

#[test]
fn diff_search_file_slice_literal_stream_respects_unicode_whole_word_boundaries() {
    let row1 = "αβγ";
    let row2 = "β delta";
    let matcher = DiffSearchMatcher::new(
        "β",
        DiffSearchOptions { whole_word: true, ..DiffSearchOptions::default() },
    );
    let mut matches = Vec::new();
    collect_file_diff_line_text_stream_match_visible_rows(
        &[(10, row1), (11, row2)],
        &matcher,
        &mut matches,
    );
    assert_eq!(matches, vec![11]);

    let mut stored = Vec::new();
    collect_stored_rows(
        &[stored_row(10, row1.as_bytes()), stored_row(11, row2.as_bytes())],
        &matcher,
        &mut stored,
    );
    assert_eq!(stored, vec![11]);
}

#[test]
fn diff_search_matcher_does_not_match_multiline_fragments_on_non_adjacent_rows() {
    let matcher = DiffSearchMatcher::new("foo\nbar", DiffSearchOptions::default());
    let mut matches = Vec::new();
    collect_stream_match_visible_rows(
        &[(10, "foo"), (11, "not the middle of the query"), (12, "bar")],
        &matcher,
        &mut matches,
    );

    assert!(matches.is_empty());
}

#[test]
fn diff_search_stream_collector_reports_each_start_row_once() {
    let matcher = DiffSearchMatcher::new(
        "a",
        DiffSearchOptions { match_case: true, ..DiffSearchOptions::default() },
    );
    let mut matches = Vec::new();
    collect_stream_match_visible_rows(
        &[(10, "aaaa"), (11, "bbbb"), (12, "caca")],
        &matcher,
        &mut matches,
    );

    assert_eq!(matches, vec![10, 12]);
}

#[test]
fn diff_search_single_line_literal_stream_collector_avoids_concat_allocations() {
    let rows = (0..8192)
        .map(|ix| (ix, format!("row_{ix:04}_alpha_beta_gamma_delta")))
        .collect::<Vec<_>>();
    let matcher = DiffSearchMatcher::new(
        "NEEDLE",
        DiffSearchOptions { match_case: true, ..DiffSearchOptions::default() },
    );

    let refs =
        rows.iter().map(|(visible_ix, text)| (*visible_ix, text.as_str())).collect::<Vec<_>>();
    let mut matches = Vec::new();
    let mode = collect_stream_match_visible_rows_with_mode(&refs, &matcher, &mut matches);

    assert!(matches.is_empty());
    assert_eq!(mode, StreamMatchCollectionMode::SingleRowLiteral);
}

#[test]
fn diff_search_single_line_literal_split_collector_honors_whole_word_boundaries() {
    let matcher = DiffSearchMatcher::new(
        "cat",
        DiffSearchOptions { whole_word: true, ..DiffSearchOptions::default() },
    );
    let mut matches = Vec::new();

    collect_split_stream_match_visible_rows(
        &[
            (10, Some("concatenate"), Some("bobcat")),
            (11, Some("cat"), None),
            (12, None, Some("dog cat mouse")),
            (13, Some("cat_thing"), Some("copycat")),
        ],
        &matcher,
        &mut matches,
    );

    assert_eq!(matches, vec![11, 12]);
}

#[test]
fn diff_search_stream_collector_keeps_empty_row_separators() {
    let matcher = DiffSearchMatcher::new("\nbar", DiffSearchOptions::default());
    let mut matches = Vec::new();
    collect_stream_match_visible_rows(
        &[(10, ""), (11, "bar"), (12, "baz")],
        &matcher,
        &mut matches,
    );

    assert_eq!(matches, vec![10]);
}

#[test]
fn diff_search_split_stream_collector_preserves_missing_side_rows() {
    let rows = [
        (10, Some("foo"), Some("alpha")),
        (11, None, Some("beta")),
        (12, Some("bar"), Some("gamma")),
    ];
    let mut matches = Vec::new();
    collect_split_stream_match_visible_rows(
        &rows,
        &DiffSearchMatcher::new("foo\nbar", DiffSearchOptions::default()),
        &mut matches,
    );
    assert!(
        matches.is_empty(),
        "a missing split side cell must not collapse out of the search stream"
    );

    collect_split_stream_match_visible_rows(
        &rows,
        &DiffSearchMatcher::new("foo\n\nbar", DiffSearchOptions::default()),
        &mut matches,
    );
    assert_eq!(matches, vec![10]);
}

fn row_document(len: usize) -> RowDocument {
    RowDocument { len, columns: 1, wrapped: Vec::new(), streamed: false, previous: Vec::new() }
}

#[test]
fn background_search_reuses_rows_and_preserves_query_semantics() {
    let texts = ["needle alpha", "Needle beta", "gamma", "猫 alpha", "tail"];
    let mut document = row_document(texts.len());
    let mut search = |query: &str, options: DiffSearchOptions| -> (Vec<usize>, usize) {
        let matcher = DiffSearchMatcher::new(query, options);
        let mut reads = 0;
        let mut search = document.begin(&matcher);
        while let Some(row) = search.wanted() {
            reads += 1;
            search.feed(&matcher, vec![Some(texts[row].to_string())]);
        }
        (document.finish(&matcher, search), reads)
    };
    let (matches, reads) = search("needle", DiffSearchOptions::default());
    assert_eq!(matches, vec![0, 1]);
    assert_eq!(
        reads,
        texts.len(),
        "the first query scans once without building an eager index"
    );
    let (matches, reads) = search("needle beta", DiffSearchOptions::default());
    assert_eq!(matches, vec![1]);
    assert_eq!(reads, 2, "query refinement only checks previous matches");
    let (matches, reads) = search("needle", DiffSearchOptions::default());
    assert_eq!(matches, vec![0, 1]);
    assert_eq!(reads, 2, "backspacing reuses the broader cached query, preserving its matches");
    for (query, options) in [
        ("alpha\nNeedle", DiffSearchOptions::default()),
        ("猫", DiffSearchOptions::default()),
        ("^Needle", DiffSearchOptions { regex: true, match_case: true, ..Default::default() }),
        ("alpha", DiffSearchOptions { whole_word: true, ..Default::default() }),
    ] {
        let rows = texts.iter().enumerate().map(|(ix, text)| (ix, *text)).collect::<Vec<_>>();
        let mut expected = Vec::new();
        collect_stream_match_visible_rows(
            &rows,
            &DiffSearchMatcher::new(query, options),
            &mut expected,
        );
        assert_eq!(search(query, options).0, expected);
    }
}

#[test]
fn background_search_cancellation_does_not_cache_partial_results() {
    let document = row_document(100_000);
    let matcher = DiffSearchMatcher::new("needle", DiffSearchOptions::default());
    let mut search = document.begin(&matcher);
    let mut reads = 0;
    let mut cancelled = false;
    while !cancelled && search.wanted().is_some() {
        search.feed(&matcher, vec![Some("needle".to_string())]);
        reads += 1;
        cancelled = reads == 3;
    }
    drop(search);
    assert_eq!(reads, 3);
    assert!(document.previous.is_empty());
}

#[test]
fn a_document_is_searched_for_plain_and_other_queries() {
    let texts = ["needle alpha", "Needle beta", "gamma"];
    let mut document = SearchDocument {
        source: DocumentSource::Rows {
            document: row_document(texts.len()),
            texts: texts.iter().map(|text| vec![Some(text.to_string())]).collect(),
        },
    };
    let plain = document.search("needle", DiffSearchOptions::default());
    assert_eq!(plain.matches, vec![0, 1]);
    assert!(plain.editor_ranges.is_empty());
    let refined = document.search("needle beta", DiffSearchOptions::default());
    assert_eq!(refined.matches, vec![1]);
    let across = document.search("alpha\nneedle", DiffSearchOptions::default());
    assert_eq!(across.matches, vec![0]);
    let refused = document.search("(", DiffSearchOptions { regex: true, ..Default::default() });
    assert!(refused.matches.is_empty());
    assert!(refused.regex_error.is_some());
    assert!(document.search("", DiffSearchOptions::default()).matches.is_empty());
}

#[test]
fn an_editor_document_gives_ranges_and_their_rows() {
    let mut document = SearchDocument {
        source: DocumentSource::Editor("one needle\ntwo\nneedle needle\n".to_string()),
    };
    let found = document.search("needle", DiffSearchOptions::default());
    assert_eq!(found.editor_ranges, vec![4..10, 15..21, 22..28]);
    assert_eq!(found.matches, vec![0, 2, 2]);
}

#[test]
fn bytes_that_could_not_be_read_break_a_match() {
    let matcher = DiffSearchMatcher::new("needle", DiffSearchOptions::default());
    let broken = StoredRow {
        visible_ix: 5,
        pieces: vec![
            StoredPiece::Bytes(b"nee"),
            StoredPiece::Missing(0),
            StoredPiece::Bytes(b"dle"),
        ],
    };
    let joined = StoredRow {
        visible_ix: 6,
        pieces: vec![StoredPiece::Bytes(b"nee"), StoredPiece::Bytes(b"dle")],
    };
    let mut matches = Vec::new();
    collect_stored_rows(&[broken, joined], &matcher, &mut matches);
    assert_eq!(matches, vec![6]);
}
