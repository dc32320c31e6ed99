//! Searching the merge view.
use gitcomet_view::conflict::model::ConflictBlock;
use gitcomet_view::conflict::model::ConflictChoice;
use gitcomet_view::conflict::model::ConflictSegment;
use gitcomet_view::lines::ConflictResolverViewMode;
use gitcomet_view::search::conflict_rows::ConflictResolverSearchContext;
use gitcomet_view::search::conflict_rows::ConflictResolverState;
use gitcomet_view::search::conflict_rows::ThreeWayAlignedMap;
use gitcomet_view::search::conflict_rows::ThreeWayVisibleItem;
use gitcomet_view::search::conflict_rows::ThreeWayVisibleSpan;
use gitcomet_view::search::conflict_rows::TwoWaySearchRow;
use gitcomet_view::search::conflict_rows::VersionText;
use gitcomet_view::search::matcher::DiffSearchMatcher;
use gitcomet_view::search::matcher::DiffSearchOptions;
use gitcomet_view::search::needle::contains_ascii_case_insensitive;
use gitcomet_view::search::needle::AsciiCaseInsensitiveNeedle;

fn block(
    base: Option<&str>,
    ours: &str,
    theirs: &str,
    choice: ConflictChoice,
    resolved: bool,
) -> ConflictSegment {
    ConflictSegment::Block(ConflictBlock {
        base: base.map(|text| text.to_string()),
        ours: ours.to_string(),
        theirs: theirs.to_string(),
        choice,
        resolved,
        whitespace_only: false,
    })
}

fn version<'a>(text: &'a str, line_starts: &'a [usize]) -> VersionText<'a> {
    VersionText { text, line_starts }
}

fn three_way_search_context<'a>(
    marker_segments: &'a [ConflictSegment],
    visible: &'a [ThreeWayVisibleSpan],
    base: VersionText<'a>,
    ours: VersionText<'a>,
    theirs: VersionText<'a>,
    aligned: &'a ThreeWayAlignedMap,
) -> ConflictResolverSearchContext<'a> {
    ConflictResolverSearchContext {
        view_mode: ConflictResolverViewMode::ThreeWay,
        marker_segments,
        three_way_visible: visible,
        base,
        ours,
        theirs,
        three_way_aligned: aligned,
        two_way_rows: &[],
    }
}

fn conflict_resolver_visible_match_indices(
    query: &str,
    ctx: &ConflictResolverSearchContext<'_>,
) -> Vec<usize> {
    match AsciiCaseInsensitiveNeedle::new(query) {
        Some(needle) => ctx.conflict_resolver_visible_match_indices_with_needle(needle),
        None => Vec::new(),
    }
}

fn lines(visible_start: usize, source_line_start: usize, len: usize) -> ThreeWayVisibleSpan {
    ThreeWayVisibleSpan::Lines { visible_start, source_line_start, len }
}

#[test]
fn conflict_search_three_way_mode_uses_three_way_visible_rows() {
    let marker_segments =
        vec![block(Some("base"), "needle\n", "remote\n", ConflictChoice::theirs(), true)];
    let visible = [lines(0, 0, 1)];
    let aligned = ThreeWayAlignedMap::default();
    let two_way_rows = [TwoWaySearchRow {
        old: Some("needle".to_string()),
        new: Some("remote".to_string()),
    }];
    let three_way_ctx = three_way_search_context(
        &marker_segments,
        &visible,
        version("base text\n", &[0]),
        version("needle\n", &[0]),
        version("remote text\n", &[0]),
        &aligned,
    );

    assert_eq!(conflict_resolver_visible_match_indices("needle", &three_way_ctx), vec![0]);
    assert!(
        conflict_resolver_visible_match_indices("split-only", &three_way_ctx).is_empty(),
        "three-way search should ignore two-way rows",
    );

    let two_way_ctx = ConflictResolverSearchContext {
        view_mode: ConflictResolverViewMode::TwoWayDiff,
        two_way_rows: &two_way_rows,
        ..three_way_ctx
    };
    assert_eq!(conflict_resolver_visible_match_indices("needle", &two_way_ctx), vec![0]);
}

#[test]
fn conflict_search_two_way_general_matches_across_adjacent_rows() {
    let marker_segments =
        vec![block(None, "foo\nbar\n", "remote\nside\n", ConflictChoice::ours(), false)];
    let aligned = ThreeWayAlignedMap::default();
    let rows = [
        TwoWaySearchRow { old: Some("foo".to_string()), new: Some("remote".to_string()) },
        TwoWaySearchRow { old: Some("bar".to_string()), new: Some("side".to_string()) },
    ];
    let ctx = ConflictResolverSearchContext {
        view_mode: ConflictResolverViewMode::TwoWayDiff,
        two_way_rows: &rows,
        ..three_way_search_context(
            &marker_segments,
            &[],
            version("", &[]),
            version("", &[]),
            version("", &[]),
            &aligned,
        )
    };
    let matcher = DiffSearchMatcher::new("foo\nbar", DiffSearchOptions::default());

    assert_eq!(ctx.conflict_resolver_visible_match_indices_with_matcher(&matcher), vec![0]);
}

#[test]
fn conflict_search_three_way_collapsed_rows_match_choice_summary() {
    let marker_segments =
        vec![block(Some("base"), "ours", "theirs", ConflictChoice::theirs(), true)];
    let visible =
        [ThreeWayVisibleSpan::CollapsedResolvedBlock { visible_index: 0, conflict_ix: 0 }];
    let aligned = ThreeWayAlignedMap::default();
    let ctx = three_way_search_context(
        &marker_segments,
        &visible,
        version("", &[]),
        version("", &[]),
        version("", &[]),
        &aligned,
    );

    assert_eq!(conflict_resolver_visible_match_indices("resolved", &ctx), vec![0]);
    assert_eq!(conflict_resolver_visible_match_indices("remote", &ctx), vec![0]);
}

#[test]
fn conflict_search_three_way_projection_uses_streamed_visible_rows() {
    let marker_segments =
        vec![block(Some("base"), "needle\n", "remote\n", ConflictChoice::ours(), false)];
    let visible = [lines(0, 0, 1)];
    let aligned = ThreeWayAlignedMap::default();
    let ctx = three_way_search_context(
        &marker_segments,
        &visible,
        version("base\n", &[0]),
        version("needle\n", &[0]),
        version("remote\n", &[0]),
        &aligned,
    );

    assert_eq!(conflict_resolver_visible_match_indices("needle", &ctx), vec![0]);
}

#[test]
fn three_way_span_search_matches_per_item_search() {
    let marker_segments = vec![
        ConflictSegment::Text("header\n".to_string()),
        block(
            Some("base_needle\nbase_plain\n"),
            "ours_plain\nours_needle\n",
            "theirs_plain\ntheirs_plain\n",
            ConflictChoice::ours(),
            false,
        ),
        ConflictSegment::Text("footer\n".to_string()),
    ];
    let visible = [lines(0, 0, 1), lines(1, 1, 2), lines(3, 3, 1)];
    let aligned = ThreeWayAlignedMap::default();
    let ctx = three_way_search_context(
        &marker_segments,
        &visible,
        version("header\nbase_needle\nbase_plain\nfooter\n", &[0, 7, 19, 30]),
        version("header\nours_plain\nours_needle\nfooter\n", &[0, 7, 18, 30]),
        version("header\ntheirs_plain\ntheirs_plain\nfooter\n", &[0, 7, 21, 35]),
        &aligned,
    );
    let proj_matches = conflict_resolver_visible_match_indices("needle", &ctx);
    let manual_matches: Vec<usize> = (0..4)
        .filter(|&visible_ix| {
            ctx.three_way_visible_item_matches_query(
                ThreeWayVisibleItem::Line(visible_ix),
                "needle",
            )
        })
        .collect();

    assert_eq!(
        manual_matches, proj_matches,
        "span-based search must produce same results as per-item search"
    );
    assert!(!proj_matches.is_empty(), "should find at least one needle match");
}

#[test]
fn two_way_source_text_search_matches_row_based_search() {
    let pairs = [
        ("context_line", "context_line"),
        ("alpha", "delta"),
        ("needle_ours", "epsilon"),
        ("gamma", "needle_theirs"),
    ];
    let marker_segments = vec![
        ConflictSegment::Text("context_line\n".to_string()),
        block(
            None,
            "alpha\nneedle_ours\ngamma\n",
            "delta\nepsilon\nneedle_theirs\n",
            ConflictChoice::ours(),
            false,
        ),
    ];
    let rows = pairs
        .iter()
        .map(|(old, new)| TwoWaySearchRow {
            old: Some(old.to_string()),
            new: Some(new.to_string()),
        })
        .collect::<Vec<_>>();
    let aligned = ThreeWayAlignedMap::default();
    let ctx = ConflictResolverSearchContext {
        view_mode: ConflictResolverViewMode::TwoWayDiff,
        two_way_rows: &rows,
        ..three_way_search_context(
            &marker_segments,
            &[],
            version("", &[]),
            version("", &[]),
            version("", &[]),
            &aligned,
        )
    };
    let query = "needle";
    let source_text_matches = conflict_resolver_visible_match_indices(query, &ctx);
    let row_based_matches = (0..pairs.len())
        .filter(|&ix| {
            contains_ascii_case_insensitive(pairs[ix].0, query)
                || contains_ascii_case_insensitive(pairs[ix].1, query)
        })
        .collect::<Vec<_>>();

    assert_eq!(
        source_text_matches, row_based_matches,
        "source-text search must match row-based search"
    );
    assert!(!source_text_matches.is_empty(), "should find needle matches");
}

#[test]
fn three_way_span_search_handles_collapsed_blocks() {
    let marker_segments =
        vec![block(Some("base\n"), "ours\n", "theirs\n", ConflictChoice::theirs(), true)];
    let visible =
        [ThreeWayVisibleSpan::CollapsedResolvedBlock { visible_index: 0, conflict_ix: 0 }];
    let aligned = ThreeWayAlignedMap::default();
    let ctx = three_way_search_context(
        &marker_segments,
        &visible,
        version("base\n", &[0]),
        version("ours\n", &[0]),
        version("theirs\n", &[0]),
        &aligned,
    );

    assert_eq!(conflict_resolver_visible_match_indices("resolved", &ctx), vec![0]);
    assert_eq!(conflict_resolver_visible_match_indices("remote", &ctx), vec![0]);
    assert!(
        conflict_resolver_visible_match_indices("ours", &ctx).is_empty(),
        "collapsed block should not expose line content in search"
    );
}

#[test]
fn search_context_from_conflict_resolver_uses_streamed_mode_state() {
    let marker_segments = vec![ConflictSegment::Text("context\n".to_string())];
    let aligned = ThreeWayAlignedMap::default();
    let rows = [TwoWaySearchRow { old: None, new: Some("context".to_string()) }];
    let conflict_resolver = ConflictResolverState {
        view_mode: ConflictResolverViewMode::TwoWayDiff,
        marker_segments: &marker_segments,
        three_way_visible: &[],
        base: version("", &[]),
        ours: version("context", &[0]),
        theirs: version("context", &[0]),
        three_way_aligned: &aligned,
        two_way_rows: &rows,
    };

    let ctx = ConflictResolverSearchContext::from_conflict_resolver(&conflict_resolver);

    assert!(ctx.three_way_visible.is_empty());
    assert_eq!(ctx.two_way_rows.len(), 1);
    assert_eq!(ctx.ours.text, "context");
    assert!(ctx.ours.line_starts.is_empty() && ctx.theirs.line_starts.is_empty());
    assert_eq!(conflict_resolver_visible_match_indices("context", &ctx), vec![0]);

    let three_way = ConflictResolverState {
        view_mode: ConflictResolverViewMode::ThreeWay,
        ..conflict_resolver
    };
    let ctx = ConflictResolverSearchContext::from_conflict_resolver(&three_way);
    assert_eq!(ctx.ours.line_starts, &[0]);
}
