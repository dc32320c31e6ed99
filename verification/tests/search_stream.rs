//! Bytes that come in a stream, and characters at their ends.
use gitcomet_view::search::decode::decode_first_utf8_char;
use gitcomet_view::search::decode::Utf8CharDecode;
use gitcomet_view::search::matcher::DiffSearchMatcher;
use gitcomet_view::search::matcher::DiffSearchOptions;
use gitcomet_view::search::needle::diff_search_split_row_texts_match_query;
use gitcomet_view::search::needle::AsciiCaseInsensitiveNeedle;
use gitcomet_view::search::scan::diff_search_visible_row_matches_query;
use gitcomet_view::search::scan::PreviewLines;
use gitcomet_view::search::scan::RowStyle;
use gitcomet_view::search::scan::ViewRow;
use gitcomet_view::search::stream::LiteralFileDiffLineTextStreamSearch;
use gitcomet_view::search::trigrams::DiffSearchVisibleTrigramIndex;

fn stream(query: &str, match_case: bool) -> LiteralFileDiffLineTextStreamSearch {
    let options = DiffSearchOptions { match_case, whole_word: false, regex: false };
    LiteralFileDiffLineTextStreamSearch::new(&DiffSearchMatcher::new(query, options))
        .expect("a search")
}

#[test]
fn a_row_is_reported_just_when_it_holds_the_literal() {
    let bytes = b"xxaNaNas";
    for (query, match_case, holds) in [
        ("nana", false, true),
        ("anana", false, true),
        ("nanan", false, false),
        ("ANAS", false, true),
        ("anas", true, false),
        ("aNaN", true, true),
    ] {
        let stands = bytes.windows(query.len()).any(|window| match match_case {
            true => window == query.as_bytes(),
            false => window.eq_ignore_ascii_case(query.as_bytes()),
        });
        assert_eq!(stands, holds, "{query}");
        for cut in 0..=bytes.len() {
            let mut search = stream(query, match_case);
            search.push_row_start(7);
            let mut out = Vec::new();
            search.push_bytes(&bytes[..cut], &mut out);
            search.push_bytes(&bytes[cut..], &mut out);
            let expected = if holds { vec![7] } else { Vec::new() };
            assert_eq!(out, expected, "{query} cut at {cut}");
        }
    }
}

#[test]
fn what_had_begun_before_a_skip_is_forgotten() {
    let mut search = stream("needle", false);
    let mut out = Vec::new();
    search.push_row_start(1);
    search.push_bytes(b"needle nee", &mut out);
    assert_eq!(out, vec![1]);
    search.skip_bytes_until_next_row(4);
    search.push_row_start(2);
    search.push_bytes(b"dle", &mut out);
    assert_eq!(out, vec![1]);
    search.skip_bytes_until_next_row(1);
    search.push_row_start(3);
    search.push_bytes(b"a needle", &mut out);
    assert_eq!(out, vec![1, 3]);
}

#[test]
fn characters_are_read_back_and_cuts_are_told() {
    for c in [
        'a',
        '\u{7f}',
        '\u{80}',
        'β',
        '\u{7ff}',
        '\u{800}',
        '漢',
        '\u{ffff}',
        '\u{10000}',
        '\u{10ffff}',
    ] {
        let text = c.to_string();
        let bytes = text.as_bytes();
        for tail in [&b""[..], &b"x"[..], &[0xff, 0x80][..]] {
            let all = [bytes, tail].concat();
            assert_eq!(decode_first_utf8_char(&all), Utf8CharDecode::Complete(c));
        }
        for cut in 0..bytes.len() {
            assert_eq!(decode_first_utf8_char(&bytes[..cut]), Utf8CharDecode::Incomplete);
        }
    }
    for first in (0x80..=0xc1u8).chain(0xf5..=0xff) {
        assert_eq!(decode_first_utf8_char(&[first]), Utf8CharDecode::Invalid);
        assert_eq!(decode_first_utf8_char(&[first, 0x80, 0x80, 0x80]), Utf8CharDecode::Invalid);
    }
}

#[test]
fn the_buffer_holds_what_was_shown_last() {
    let needle = AsciiCaseInsensitiveNeedle::new("x").unwrap();
    let mut buffer = "old".to_string();
    assert!(!diff_search_split_row_texts_match_query(needle, Some("a"), None, &mut buffer));
    assert_eq!(buffer, "old");
    assert!(diff_search_split_row_texts_match_query(
        needle,
        Some("a\t"),
        Some("\tx"),
        &mut buffer
    ));
    assert_eq!(buffer, "    x");
    assert!(diff_search_split_row_texts_match_query(
        needle,
        Some("x\t"),
        Some("\tx"),
        &mut buffer
    ));
    assert_eq!(buffer, "x    ");
    let row = ViewRow { left: Some("\ta".to_string()), right: None };
    assert!(!diff_search_visible_row_matches_query(RowStyle::Split, &row, needle, &mut buffer));
    assert_eq!(buffer, "x    ");
    assert!(!diff_search_visible_row_matches_query(RowStyle::SplitFile, &row, needle, &mut buffer));
    assert_eq!(buffer, "    a");
}

#[test]
fn an_index_decides_which_lines_are_looked_at() {
    let lines = [Some("needle".to_string()), Some("other".to_string())];
    let preview = PreviewLines { lines: &lines };
    let needle = AsciiCaseInsensitiveNeedle::new("needle").unwrap();
    assert_eq!(preview.diff_search_scan_preview_with_needle(needle, None), vec![0]);
    let empty = DiffSearchVisibleTrigramIndex::default();
    let found = preview.diff_search_scan_preview_with_needle(needle, Some(&empty));
    assert_eq!(found, Vec::<usize>::new());
    let short = AsciiCaseInsensitiveNeedle::new("ne").unwrap();
    assert_eq!(preview.diff_search_scan_preview_with_needle(short, Some(&empty)), vec![0]);
}
