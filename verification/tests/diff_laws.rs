//! Folded diffs, caches and visible rows.
use gitcomet_view::diff::change_flags::compute_diff_scrollbar_markers;
use gitcomet_view::diff::change_flags::diff_scrollbar_flags_collapsed_wrapped;
use gitcomet_view::diff::change_flags::diff_scrollbar_flags_file_inline;
use gitcomet_view::diff::change_flags::diff_scrollbar_flags_file_split;
use gitcomet_view::diff::change_flags::diff_scrollbar_ranges_collapsed;
use gitcomet_view::diff::change_flags::ensure_diff_split_cache;
use gitcomet_view::diff::change_flags::MarkerSource;
use gitcomet_view::diff::collapsed::collapsed_hunk_change_summary;
use gitcomet_view::diff::collapsed::CollapsedDiffExpansionKind;
use gitcomet_view::diff::collapsed::CollapsedDiffProjection;
use gitcomet_view::diff::collapsed::CollapsedDiffProjectionIdentity;
use gitcomet_view::diff::collapsed::CollapsedDiffSource;
use gitcomet_view::diff::collapsed::CollapsedDiffVisibleRow;
use gitcomet_view::diff::collapsed::DiffViewMode;
use gitcomet_view::diff::collapsed::ParsedHunkHeader;
use gitcomet_view::diff::file_cache::FileDiffCache;
use gitcomet_view::diff::file_cache::FileDiffCacheAction;
use gitcomet_view::diff::file_cache::FileDiffInputs;
use gitcomet_view::diff::file_cache::FileDiffPayload;
use gitcomet_view::diff::file_cache::FileDiffRebuildOutcome;
use gitcomet_view::diff::file_cache::FileDiffRebuildResult;
use gitcomet_view::diff::file_cache::RenderedFileDiff;
use gitcomet_view::diff::patch_cache::build_patch_line_tables;
use gitcomet_view::diff::patch_cache::DiffLineFacts;
use gitcomet_view::diff::patch_cache::HunkHeaderDisplay;
use gitcomet_view::diff::patch_cache::PatchDiffCache;
use gitcomet_view::diff::patch_cache::PatchDiffCacheAction;
use gitcomet_view::diff::patch_cache::RenderedPatch;
use gitcomet_view::diff::patch_rows::Diff;
use gitcomet_view::diff::patch_rows::DiffLine;
use gitcomet_view::diff::patch_rows::DiffLineKind;
use gitcomet_view::diff::patch_rows::PagedPatchDiffRows;
use gitcomet_view::diff::side_syntax::apply_background_syntax_documents;
use gitcomet_view::diff::side_syntax::apply_file_diff_syntax_attempts;
use gitcomet_view::diff::side_syntax::complete_file_diff_syntax_refresh;
use gitcomet_view::diff::side_syntax::file_diff_prepared_syntax_key;
use gitcomet_view::diff::side_syntax::file_diff_reparse_seed;
use gitcomet_view::diff::side_syntax::file_diff_side_document_text;
use gitcomet_view::diff::side_syntax::file_diff_source_is_current;
use gitcomet_view::diff::side_syntax::install_side_syntax_document;
use gitcomet_view::diff::side_syntax::PrepareAttempt;
use gitcomet_view::diff::side_syntax::SideCompletion;
use gitcomet_view::diff::side_syntax::follow_file_diff_generation;
use gitcomet_view::diff::side_syntax::SideFacts;
use gitcomet_view::diff::side_syntax::SideRequestAction;
use gitcomet_view::diff::side_syntax::SideSlot;
use gitcomet_view::diff::side_syntax::SideTicket;
use gitcomet_view::diff::split_rows::DiffClickKind;
use gitcomet_view::diff::split_rows::FileDiffRow;
use gitcomet_view::diff::split_rows::FileDiffRowKind;
use gitcomet_view::diff::split_rows::PatchSplitRow;
use gitcomet_view::diff::syntax_cache::prepared_syntax_document_key;
use gitcomet_view::diff::syntax_cache::DiffTextRegion;
use gitcomet_view::diff::syntax_cache::FileDiffStyleCacheEpochs;
use gitcomet_view::diff::syntax_cache::PreparedSyntaxDocumentKey;
use gitcomet_view::diff::syntax_cache::PreparedSyntaxDocuments;
use gitcomet_view::diff::syntax_cache::PreparedSyntaxViewMode;
use gitcomet_view::diff::syntax_cache::PREPARED_SYNTAX_DOCUMENT_CACHE_MAX_ENTRIES;
use gitcomet_view::diff::visible_map::PatchInlineVisibleMap;
use gitcomet_view::diff::visible_rows::DiffVisibleLayoutKey;
use gitcomet_view::diff::visible_rows::DiffVisibleRows;
use gitcomet_view::diff::visible_rows::DiffVisibleScene;
use gitcomet_view::diff::visible_rows::PatchRowsSource;
use gitcomet_view::search::inline_patch::InlinePatchRows;
use gitcomet_view::search::matcher::DiffSearchMatcher;
use gitcomet_view::search::matcher::DiffSearchOptions;
use gitcomet_view::search::needle::AsciiCaseInsensitiveNeedle;
use gitcomet_view::search::source::DiffRowsSource;
use gitcomet_view::search::trigrams::DiffSearchVisibleCandidates;
use rustc_hash::FxHashMap;

fn line(kind: DiffLineKind, text: &str) -> DiffLine {
    let content = match kind {
        DiffLineKind::Add | DiffLineKind::Remove | DiffLineKind::Context => &text[1..],
        _ => text,
    };
    DiffLine { kind, text: text.to_string(), content: content.to_string() }
}

fn small_patch() -> Diff {
    Diff {
        lines: vec![
            line(DiffLineKind::Header, "diff --git a/a b/a"),
            line(DiffLineKind::Header, "index 1..2"),
            line(DiffLineKind::Hunk, "@@ -5,2 +5,2 @@ fn f()"),
            line(DiffLineKind::Context, " keep needle"),
            line(DiffLineKind::Remove, "-old"),
            line(DiffLineKind::Add, "+\tneedle"),
        ],
    }
}

#[test]
fn lines_of_a_patch_are_numbered() {
    let mut rows = PagedPatchDiffRows::new(small_patch(), 2);
    let numbers = (0..6)
        .map(|ix| rows.row_at(ix).map(|row| (row.old_line, row.new_line)).expect("row"))
        .collect::<Vec<_>>();
    assert_eq!(numbers[3], (Some(5), Some(5)));
    assert_eq!(numbers[4], (Some(6), None));
    assert_eq!(numbers[5], (None, Some(6)));
    assert!(rows.row_at(6).is_none());
    assert_eq!(rows.line_text(4), Some("-old".to_string()));
}

fn folded_source(total_rows: usize) -> CollapsedDiffSource {
    // Two hunks, of lines 11..=12 and 31..=32 of both files.
    let kinds = vec![
        DiffLineKind::Hunk,
        DiffLineKind::Remove,
        DiffLineKind::Add,
        DiffLineKind::Hunk,
        DiffLineKind::Context,
        DiffLineKind::Add,
    ];
    let clicks = kinds
        .iter()
        .map(|kind| match kind {
            DiffLineKind::Hunk => DiffClickKind::HunkHeader,
            _ => DiffClickKind::Line,
        })
        .collect::<Vec<_>>();
    let header = |start: u32| ParsedHunkHeader {
        old_start_line: start,
        old_line_count: 2,
        new_start_line: start,
        new_line_count: 2,
    };
    let line_to_row = (0..total_rows).map(Some).collect::<Vec<_>>();
    CollapsedDiffSource {
        patch_len: 6,
        click_kinds: clicks,
        visual_line_kinds: kinds.clone(),
        line_kinds: kinds,
        headers: vec![Some(header(11)), None, None, Some(header(31)), None, None],
        old_line_to_row: line_to_row.clone(),
        new_line_to_row: line_to_row,
        total_rows,
        row_lines: (0..total_rows)
            .map(|row| (Some(row as u32 + 1), Some(row as u32 + 1)))
            .collect(),
    }
}

fn identity(path: &str) -> CollapsedDiffProjectionIdentity {
    CollapsedDiffProjectionIdentity {
        repo_id: 1,
        diff_target: "target".to_string(),
        file_path: path.to_string(),
        diff_whitespace_mode: 0,
        patch_content_signature: Some(7),
        file_content_signature: Some(8),
    }
}

fn file_rows(projection: &CollapsedDiffProjection) -> Vec<usize> {
    projection.visible_rows.iter().filter_map(|row| row.row_ix()).collect()
}

#[test]
fn a_folded_diff_shows_its_hunks_and_reveals_more() {
    let source = folded_source(60);
    let mut projection = CollapsedDiffProjection::new();
    projection.rebuild_collapsed_diff_projection(true, Some(identity("a")), &source);
    assert_eq!(file_rows(&projection), vec![10, 11, 30, 31]);
    assert_eq!(projection.hunks.len(), 2);
    assert!(projection.hunks[0].has_additions && projection.hunks[0].has_removals);
    assert!(projection.hunks[1].has_additions && !projection.hunks[1].has_removals);
    assert_eq!(projection.collapsed_diff_hidden_up_rows(0), 10);
    assert_eq!(projection.collapsed_diff_hidden_down_rows(3, 60), 28);

    assert!(projection.collapsed_diff_reveal_hunk_up(0));
    projection.rebuild_collapsed_diff_projection(true, Some(identity("a")), &source);
    assert_eq!(projection.collapsed_diff_hidden_up_rows(0), 0);
    let rows = file_rows(&projection);
    assert_eq!(&rows[..12], &(0..12).collect::<Vec<_>>()[..]);
    assert!(rows.windows(2).all(|pair| pair[0] < pair[1]));

    assert!(projection.collapsed_diff_reveal_hunk_down(3, 60));
    projection.rebuild_collapsed_diff_projection(true, Some(identity("a")), &source);
    assert_eq!(projection.collapsed_diff_hidden_down_rows(3, 60), 8);

    projection.rebuild_collapsed_diff_projection(true, Some(identity("b")), &source);
    assert_eq!(file_rows(&projection), vec![10, 11, 30, 31]);
    projection.rebuild_collapsed_diff_projection(false, Some(identity("b")), &source);
    assert!(projection.visible_rows.is_empty());
}

#[test]
fn a_folded_diff_is_marked_where_its_hunks_are() {
    let source = folded_source(60);
    let mut projection = CollapsedDiffProjection::new();
    projection.rebuild_collapsed_diff_projection(true, Some(identity("a")), &source);
    let ranges = diff_scrollbar_ranges_collapsed(&projection);
    assert_eq!(ranges.len(), 2);
    assert_eq!(ranges[0].flag, 3);
    assert_eq!(ranges[1].flag, 1);
    let flags = diff_scrollbar_flags_collapsed_wrapped(
        &ranges,
        &(0..projection.visible_rows.len()).collect::<Vec<_>>(),
    );
    for (row, flag) in projection.visible_rows.iter().zip(flags) {
        assert_eq!(row.row_ix().is_some(), flag != 0);
    }
}

#[test]
fn headers_of_a_folded_diff_are_found_again() {
    let header = CollapsedDiffVisibleRow::HunkHeader {
        src_ix: 4,
        expansion_kind: CollapsedDiffExpansionKind::Up,
        display_src_ix: Some(4),
        hidden_rows: 2,
    };
    assert_eq!(header.row_ix(), None);
    assert_eq!(header.header_display_src_ix(), Some(4));
    assert_eq!(header.header_action_src_ix(), Some(4));
    assert_eq!(CollapsedDiffVisibleRow::FileRow { row_ix: 3 }.row_ix(), Some(3));
}

#[test]
fn marks_come_from_what_is_on_screen() {
    let of = |collapsed, file_view, view, has_provider, word_wrap| {
        compute_diff_scrollbar_markers(collapsed, file_view, view, has_provider, word_wrap)
    };
    assert_eq!(of(true, true, DiffViewMode::Split, true, false), MarkerSource::CollapsedRanges);
    assert_eq!(of(true, true, DiffViewMode::Split, true, true), MarkerSource::CollapsedLines);
    assert_eq!(of(false, false, DiffViewMode::Inline, true, false), MarkerSource::PatchInline);
    assert_eq!(of(false, false, DiffViewMode::Split, true, false), MarkerSource::PatchSplitMeta);
    assert_eq!(of(false, false, DiffViewMode::Split, true, true), MarkerSource::PatchSplit);
    assert_eq!(of(false, true, DiffViewMode::Inline, true, false), MarkerSource::FileProvider);
    assert_eq!(of(false, true, DiffViewMode::Inline, false, false), MarkerSource::FileInline);
    assert_eq!(of(false, true, DiffViewMode::Split, true, true), MarkerSource::FileSplit);
    assert_eq!(
        diff_scrollbar_flags_file_inline(&[
            Some(DiffLineKind::Add),
            Some(DiffLineKind::Remove),
            Some(DiffLineKind::Context),
            None,
        ]),
        vec![1, 2, 0, 0]
    );
    assert_eq!(
        diff_scrollbar_flags_file_split(&[Some(FileDiffRowKind::Modify), None]),
        vec![3, 0]
    );
    assert!(ensure_diff_split_cache(false, 3, 4, false));
    assert!(ensure_diff_split_cache(false, 4, 4, true));
    assert!(!ensure_diff_split_cache(false, 4, 4, false));
    assert!(!ensure_diff_split_cache(true, 3, 4, true));
}

#[test]
fn visible_lines_and_their_sources_are_found_from_each_other() {
    let map = PatchInlineVisibleMap::from_hidden_flags(&[true, false, false, true, false]);
    assert_eq!(map.visible_len(), 3);
    assert_eq!(map.for_each_visible_src_ix(), vec![(0, 1), (1, 2), (2, 4)]);
    for (visible_ix, src_ix) in map.for_each_visible_src_ix() {
        assert_eq!(map.src_ix_for_visible_ix(visible_ix), Some(src_ix));
        assert_eq!(map.visible_ix_for_src_ix(src_ix), Some(visible_ix));
    }
    assert_eq!(map.src_ix_for_visible_ix(3), None);
    assert_eq!(map.visible_ix_for_src_ix(0), None);
}

fn scene() -> DiffVisibleScene {
    DiffVisibleScene {
        view: DiffViewMode::Inline,
        is_file_view: false,
        collapsed_projection_active: false,
        projection_rev: 3,
        collapsed_len: 9,
        file_inline_len: 4,
        file_split_len: 5,
        patch_len: 3,
        patch_split_len: 2,
    }
}

#[test]
fn rows_are_laid_out_once_for_a_scene() {
    let mut rows = DiffVisibleRows {
        key: DiffVisibleLayoutKey {
            len: 0,
            view: DiffViewMode::Inline,
            is_file_view: false,
            projection_rev: u64::MAX,
        },
        indices: Vec::new(),
        inline_map: None,
        split_flags: None,
    };
    let inline = || PatchRowsSource::Inline {
        kept: vec![false, true, false],
        rows: vec![false, true, false],
    };
    let outcome = rows.ensure_diff_visible_indices_inner(&scene(), inline(), true, true);
    assert!(outcome.laid_out && outcome.reset_horizontal_scroll && outcome.recompute_search);
    assert_eq!(rows.inline_map.as_ref().map(|map| map.visible_len()), Some(2));
    let outcome = rows.ensure_diff_visible_indices_inner(&scene(), inline(), true, true);
    assert!(!outcome.laid_out && !outcome.recompute_search);
    let file = DiffVisibleScene { is_file_view: true, ..scene() };
    assert!(rows.ensure_diff_visible_indices_inner(&file, inline(), false, true).laid_out);
    assert_eq!(rows.indices, vec![0, 1, 2, 3]);
}

fn patch(rev: u64, signature: Option<u64>) -> Option<RenderedPatch> {
    Some(RenderedPatch {
        repo_id: 1,
        rev,
        target: Some("t".to_string()),
        has_workdir: true,
        content_signature: signature,
    })
}

#[test]
fn an_unchanged_patch_keeps_its_rows() {
    let mut cache =
        PatchDiffCache { repo_id: None, rev: 0, content_signature: None, target: None };
    assert!(!cache.ensure_rendered_patch_diff_cache(&None, 0, 0));
    assert!(cache.ensure_rendered_patch_diff_cache(&patch(1, Some(5)), 0, 3));
    assert_eq!(
        cache.rebuild_diff_cache(&patch(1, Some(5))),
        PatchDiffCacheAction::Replace { clear_reveals: true, build: true }
    );
    assert!(!cache.ensure_rendered_patch_diff_cache(&patch(1, Some(5)), 3, 3));
    assert_eq!(cache.rebuild_diff_cache(&patch(2, Some(5))), PatchDiffCacheAction::Keep);
    assert_eq!(cache.rebuild_diff_cache(&patch(3, None)), PatchDiffCacheAction::Keep);
    assert_eq!(
        cache.rebuild_diff_cache(&patch(4, Some(6))),
        PatchDiffCacheAction::Replace { clear_reveals: true, build: true }
    );
    assert_eq!(
        cache.rebuild_diff_cache(&None),
        PatchDiffCacheAction::Replace { clear_reveals: true, build: false }
    );
}

#[test]
fn tables_of_a_patch_hold_every_line() {
    let diff = small_patch();
    let facts = diff
        .lines
        .iter()
        .map(|_| DiffLineFacts {
            file: Some("a".to_string()),
            language: Some(2),
            hunk_display: Some(HunkHeaderDisplay {
                old: "-5,2".to_string(),
                new: "+5,2".to_string(),
                heading: Some("fn f()".to_string()),
            }),
        })
        .collect::<Vec<_>>();
    let tables = build_patch_line_tables(&diff, &facts);
    assert_eq!(tables.line_kinds.len(), 6);
    assert_eq!(tables.hidden, vec![false, true, false, false, false, false]);
    assert_eq!(tables.header_display.get(&0), Some(&"a".to_string()));
    assert_eq!(tables.header_display.get(&2), Some(&"-5,2 +5,2  fn f()".to_string()));
    assert_eq!(tables.header_display.len(), 2);
    assert_eq!(tables.split_row_count, 5);
}

fn key(rev: u64, mode: PreparedSyntaxViewMode) -> PreparedSyntaxDocumentKey {
    prepared_syntax_document_key(1, rev, "a", mode)
}

#[test]
fn syntax_documents_move_with_their_revision() {
    let mut documents = PreparedSyntaxDocuments::new();
    assert!(documents
        .insert_prepared_syntax_document(key(1, PreparedSyntaxViewMode::FileDiffSplitLeft), 10));
    assert!(!documents
        .insert_prepared_syntax_document(key(1, PreparedSyntaxViewMode::FileDiffSplitLeft), 11));
    documents.rekey_file_diff_prepared_syntax_documents_for_rev(
        Some(1),
        &Some("a".to_string()),
        1,
        2,
    );
    let left = key(2, PreparedSyntaxViewMode::FileDiffSplitLeft);
    assert_eq!(documents.prepared_syntax_document(&left, &[10]), Some(10));
    assert_eq!(documents.prepared_syntax_document(&left, &[]), None);
    documents.remove_file_diff_prepared_syntax_documents_for_rev(1, 2, "a");
    assert_eq!(documents.prepared_syntax_document(&left, &[10]), None);
    for rev in 0..PREPARED_SYNTAX_DOCUMENT_CACHE_MAX_ENTRIES as u64 + 5 {
        documents.insert_prepared_syntax_document(
            key(rev, PreparedSyntaxViewMode::FileDiffSplitLeft),
            rev,
        );
    }
    assert_eq!(documents.entries.len(), PREPARED_SYNTAX_DOCUMENT_CACHE_MAX_ENTRIES);
}

#[test]
fn counters_of_sides_move_apart() {
    let mut epochs = FileDiffStyleCacheEpochs { split_left: 0, split_right: u64::MAX };
    epochs.bump_left();
    assert_eq!(epochs.split_epoch(DiffTextRegion::SplitLeft), 1);
    assert_eq!(epochs.split_epoch(DiffTextRegion::SplitRight), u64::MAX);
    epochs.bump_both();
    assert_eq!(epochs.split_epoch(DiffTextRegion::SplitLeft), 2);
    assert_eq!(epochs.split_epoch(DiffTextRegion::SplitRight), 0);
    assert_eq!(epochs.inline_epoch(DiffLineKind::Remove), 2);
    assert_eq!(epochs.inline_epoch(DiffLineKind::Hunk), 0);
}

fn rendered(rev: u64) -> RenderedFileDiff {
    RenderedFileDiff { repo_id: 1, rev, target: "t".to_string(), path: "a".to_string() }
}

fn inputs(text_signature: u64) -> FileDiffInputs {
    FileDiffInputs {
        file: Some(FileDiffPayload { text_signature, source_backed: false }),
        patch_signature: Some(3),
        patch_loading: false,
        whitespace_mode: 0,
        whitespace_key_len: 0,
    }
}

#[test]
fn a_build_that_is_awaited_is_installed_and_others_are_dropped() {
    let mut documents = PreparedSyntaxDocuments::new();
    let mut cache = FileDiffCache::new();
    let action = cache.ensure_file_diff_cache(&mut documents, &Some(rendered(1)), &inputs(9));
    let (seq, signature) = match action {
        FileDiffCacheAction::Rebuild { seq, content_signature, .. } => (seq, content_signature),
        other => panic!("{other:?}"),
    };
    let dropped = cache.complete_file_diff_rebuild(
        &mut documents,
        seq + 1,
        &rendered(1),
        0,
        signature,
        FileDiffRebuildResult::Built { path: Some("a".to_string()) },
    );
    assert_eq!(dropped, FileDiffRebuildOutcome::Dropped);
    let installed = cache.complete_file_diff_rebuild(
        &mut documents,
        seq,
        &rendered(1),
        0,
        signature,
        FileDiffRebuildResult::Built { path: Some("a".to_string()) },
    );
    assert_eq!(installed, FileDiffRebuildOutcome::Installed);
    assert_eq!(cache.rows_of, Some(seq));
    let kept = cache.ensure_file_diff_cache(&mut documents, &Some(rendered(2)), &inputs(9));
    assert!(!matches!(kept, FileDiffCacheAction::Rebuild { .. }), "{kept:?}");
    assert_eq!(cache.rows_of, Some(seq));
    assert_eq!(
        cache.ensure_file_diff_cache(&mut documents, &None, &inputs(9)),
        FileDiffCacheAction::Cleared
    );
    assert_eq!(cache.rows_of, None);
}

fn facts() -> SideFacts {
    SideFacts {
        source_is_current: true,
        has_document: false,
        has_language: true,
        resident_len: 12,
        source_file_len: None,
        has_line_starts: true,
    }
}

#[test]
fn one_worker_at_a_time_prepares_a_side() {
    let mut slot = SideSlot::new();
    let cache = FileDiffCache::new();
    let generation = cache.syntax_generation;
    assert_eq!(
        slot.request_file_diff_side_syntax_document(&facts(), true, generation),
        SideRequestAction::Start { generation, reads_file: false }
    );
    assert_eq!(
        slot.request_file_diff_side_syntax_document(&facts(), true, generation),
        SideRequestAction::AlreadyRunning
    );
    let ticket = SideTicket {
        generation,
        repo_id: cache.repo_id,
        rev: cache.rev,
        target: None,
        reads_file: false,
    };
    assert_eq!(
        slot.complete_file_diff_side_syntax_document(&cache, &ticket, true, Some(12)),
        SideCompletion::Install { retain_text: false }
    );
    let overtaken = SideTicket { generation: generation + 1, ..ticket };
    slot.inflight = Some(generation);
    assert_eq!(
        slot.complete_file_diff_side_syntax_document(&cache, &overtaken, true, Some(12)),
        SideCompletion::Superseded
    );
    assert_eq!(slot.inflight, Some(generation));
}

#[test]
fn new_rows_free_both_sides() {
    let mut cache = FileDiffCache::new();
    let mut left = SideSlot::new();
    let mut right = SideSlot::new();
    let seen = cache.syntax_generation;
    assert_eq!(
        left.request_file_diff_side_syntax_document(&facts(), true, seen),
        SideRequestAction::Start { generation: seen, reads_file: false }
    );
    right.retained_text_len = Some(7);
    assert!(!follow_file_diff_generation(&cache, seen, &mut left, &mut right));
    assert_eq!((left.inflight, right.retained_text_len), (Some(seen), Some(7)));
    cache.reset_file_diff_cache_data();
    assert!(follow_file_diff_generation(&cache, seen, &mut left, &mut right));
    assert_eq!((left.inflight, right.retained_text_len), (None, None));
    let generation = cache.syntax_generation;
    assert_eq!(
        left.request_file_diff_side_syntax_document(&facts(), true, generation),
        SideRequestAction::Start { generation, reads_file: false }
    );
    let stale =
        SideTicket { generation: seen, repo_id: None, rev: 0, target: None, reads_file: false };
    assert_eq!(
        left.complete_file_diff_side_syntax_document(&cache, &stale, true, Some(12)),
        SideCompletion::Superseded
    );
    assert_eq!(left.inflight, Some(generation));
    let on_disk = SideFacts { resident_len: 0, source_file_len: Some(7), ..facts() };
    assert_eq!(
        right.request_file_diff_side_syntax_document(&on_disk, true, generation),
        SideRequestAction::Start { generation, reads_file: true }
    );
}

#[test]
fn documents_of_both_sides_are_kept_while_their_rows_are_shown() {
    let mut documents = PreparedSyntaxDocuments::new();
    let left = || Some(key(1, PreparedSyntaxViewMode::FileDiffSplitLeft));
    let right = || Some(key(1, PreparedSyntaxViewMode::FileDiffSplitRight));
    let applied =
        apply_background_syntax_documents(&mut documents, left(), Some(1), right(), None);
    assert!(applied.split_left && !applied.split_right && applied.any());
    let mut cache = FileDiffCache::new();
    let mut ticket = SideTicket {
        generation: cache.syntax_generation + 1,
        repo_id: None,
        rev: 0,
        target: None,
        reads_file: false,
    };
    let late = complete_file_diff_syntax_refresh(
        &mut cache,
        &mut documents,
        &ticket,
        left(),
        Some(1),
        right(),
        Some(2),
    );
    assert!(!late.any());
    ticket.generation = cache.syntax_generation;
    let epochs = cache.style_epochs;
    let done = complete_file_diff_syntax_refresh(
        &mut cache,
        &mut documents,
        &ticket,
        left(),
        Some(1),
        right(),
        Some(2),
    );
    assert!(!done.split_left && done.split_right);
    assert_eq!(cache.style_epochs.split_left, epochs.split_left);
    assert_ne!(cache.style_epochs.split_right, epochs.split_right);
}

#[test]
fn attempts_at_both_sides_are_kept_or_left_to_a_worker() {
    let mut documents = PreparedSyntaxDocuments::new();
    let mut cache = FileDiffCache::new();
    let epochs = cache.style_epochs;
    let ready = Some(PrepareAttempt::Ready { document: 4 });
    let none = apply_file_diff_syntax_attempts(&mut cache, &mut documents, ready, None);
    assert!(!none.inserted_left && !none.background_left);
    cache.repo_id = Some(1);
    cache.path = Some("a".to_string());
    cache.rev = 2;
    let outcome = apply_file_diff_syntax_attempts(
        &mut cache,
        &mut documents,
        ready,
        Some(PrepareAttempt::TimedOut),
    );
    assert!(outcome.inserted_left && !outcome.background_left);
    assert!(!outcome.inserted_right && outcome.background_right);
    assert_eq!(cache.style_epochs.split_left, epochs.split_left + 1);
    assert_eq!(cache.style_epochs.split_right, epochs.split_right);
    let left = file_diff_prepared_syntax_key(&cache, DiffTextRegion::SplitLeft);
    assert_eq!(
        documents.prepared_syntax_document(left.as_ref().expect("a key"), &[4]),
        Some(4)
    );
    assert_eq!(file_diff_reparse_seed(&documents, None, &left), None);
    cache.rev = 3;
    let left = file_diff_prepared_syntax_key(&cache, DiffTextRegion::SplitLeft);
    assert_eq!(file_diff_reparse_seed(&documents, None, &left), Some(4));
    assert_eq!(file_diff_reparse_seed(&documents, Some(9), &left), Some(9));
    assert_eq!(file_diff_reparse_seed(&documents, None, &None), None);
}

#[test]
fn a_side_is_read_from_memory_before_disk() {
    assert_eq!(file_diff_side_document_text("resident", Some("read")), "resident");
    assert_eq!(file_diff_side_document_text("", Some("read")), "read");
    assert_eq!(file_diff_side_document_text("", None), "");
    let seen = Some("id".to_string());
    assert!(file_diff_source_is_current(false, &seen, &None));
    assert!(file_diff_source_is_current(true, &None, &None));
    assert!(file_diff_source_is_current(true, &seen, &Some("id".to_string())));
    assert!(!file_diff_source_is_current(true, &seen, &Some("other".to_string())));
    assert!(!file_diff_source_is_current(true, &seen, &None));
}

fn inline_rows<'a>(
    diff: &'a Diff,
    clicks: &'a [DiffClickKind],
    headers: &'a FxHashMap<usize, String>,
    indices: &'a [usize],
) -> InlinePatchRows<'a> {
    InlinePatchRows { diff, click_kinds: clicks, headers, map: None, indices }
}

#[test]
fn a_patch_is_searched_by_its_index_and_without_it() {
    let diff = small_patch();
    let clicks = [
        DiffClickKind::FileHeader,
        DiffClickKind::Line,
        DiffClickKind::HunkHeader,
        DiffClickKind::Line,
        DiffClickKind::Line,
        DiffClickKind::Line,
    ];
    let mut headers = FxHashMap::default();
    headers.insert(0, "shown name".to_string());
    let indices = [0, 2, 3, 4, 5];
    let rows = inline_rows(&diff, &clicks, &headers, &indices);
    let needle = AsciiCaseInsensitiveNeedle::new("NEEDLE").unwrap();
    let mut plain = Vec::new();
    rows.collect_inline_patch_diff_visible_matches_with_needle(needle, &mut plain);
    assert_eq!(plain, vec![2, 4]);
    let mut index = None;
    let mut indexed = Vec::new();
    rows.diff_search_scan_inline_patch_diff_with_needle(needle, &mut index, &mut indexed);
    assert_eq!(indexed, plain);
    let index = index.expect("an index");
    assert!(matches!(
        index.candidates(b"needle"),
        DiffSearchVisibleCandidates::Indexed(rows) if rows == [2, 4]
    ));
    assert!(matches!(index.candidates(b"zzz"), DiffSearchVisibleCandidates::Nothing));
    assert!(matches!(index.candidates(b"ne"), DiffSearchVisibleCandidates::All));
    let longer = AsciiCaseInsensitiveNeedle::new("keep needle").unwrap();
    let mut refined = plain;
    rows.diff_search_try_refine_inline_patch_matches(longer, &index, &mut refined);
    assert_eq!(refined, vec![2]);
    let name = AsciiCaseInsensitiveNeedle::new("shown").unwrap();
    let mut found = Vec::new();
    rows.collect_inline_patch_diff_visible_matches_with_needle(name, &mut found);
    assert_eq!(found, vec![0]);
    let across = DiffSearchMatcher::new("needle\n-old", DiffSearchOptions::default());
    let mut general = Vec::new();
    rows.diff_search_scan_inline_patch_diff_general(&across, &mut general);
    assert_eq!(general, vec![2]);
}

#[test]
fn rows_are_searched_by_the_text_they_show() {
    let diff = small_patch();
    let mut headers = FxHashMap::default();
    headers.insert(0, "name".to_string());
    let indices = [0, 3, 5];
    let split = [PatchSplitRow::Aligned {
        row: FileDiffRow {
            kind: FileDiffRowKind::Modify,
            old_line: Some(6),
            new_line: Some(6),
            old: Some("old".to_string()),
            new: Some("\tnew".to_string()),
        },
        old_src_ix: Some(4),
        new_src_ix: Some(5),
    }];
    let inline = DiffRowsSource {
        view: DiffViewMode::Inline,
        file_view: false,
        word_wrap: false,
        collapsed: None,
        map: None,
        indices: &indices,
        headers: &headers,
        patch: &diff,
        split_rows: &split,
        inline_texts: &["\ttabbed".to_string()],
        file_rows: &[],
    };
    assert_eq!(inline.columns(), 1);
    assert_eq!(inline.row_text(0, 0), Some("name".to_string()));
    assert_eq!(inline.row_text(1, 0), Some(" keep needle".to_string()));
    assert_eq!(inline.row_text(2, 0), Some("+    needle".to_string()));
    assert_eq!(inline.row_text(3, 0), None);
    let two = DiffRowsSource { view: DiffViewMode::Split, indices: &[0], ..inline };
    assert_eq!(two.columns(), 2);
    assert_eq!(two.row_text(0, 0), Some("old".to_string()));
    assert_eq!(two.row_text(0, 1), Some("    new".to_string()));
    let file = DiffRowsSource { file_view: true, indices: &[0], ..inline };
    assert_eq!(file.row_text(0, 0), Some("\ttabbed".to_string()));
    let wrapped = DiffRowsSource { word_wrap: true, ..file };
    assert_eq!(wrapped.row_text(0, 0), Some("    tabbed".to_string()));
    let folded = [
        CollapsedDiffVisibleRow::HunkHeader {
            src_ix: 0,
            expansion_kind: CollapsedDiffExpansionKind::Nothing,
            display_src_ix: Some(0),
            hidden_rows: 0,
        },
        CollapsedDiffVisibleRow::FileRow { row_ix: 0 },
    ];
    let folded = DiffRowsSource { collapsed: Some(&folded), ..file };
    assert_eq!(folded.row_text(0, 0), Some("name".to_string()));
    assert_eq!(folded.row_text(1, 0), Some("\ttabbed".to_string()));
}

#[test]
fn a_hunk_is_summed_up_wherever_it_is_asked_for() {
    let source = folded_source(60);
    assert_eq!(collapsed_hunk_change_summary(&source, 0), (true, true));
    assert_eq!(collapsed_hunk_change_summary(&source, 3), (true, false));
    assert_eq!(collapsed_hunk_change_summary(&source, 6), (false, false));
    assert_eq!(collapsed_hunk_change_summary(&source, usize::MAX), (false, false));
}

#[test]
fn the_greatest_line_number_is_counted() {
    let mut source = folded_source(60);
    source.row_lines[0] = (Some(u32::MAX), Some(1));
    let mut projection = CollapsedDiffProjection::new();
    projection.rebuild_collapsed_diff_projection(true, Some(identity("a")), &source);
    assert!(projection.collapsed_diff_reveal_hunk_up(0));
    projection.rebuild_collapsed_diff_projection(true, Some(identity("a")), &source);
    assert_eq!(
        projection.collapsed_diff_dynamic_hunk_range_display(&source, 0),
        Some("-2,4294967294 +1,12".to_string())
    );
}

#[test]
fn joining_hunks_drops_header_texts_and_nothing_else_does() {
    let source = folded_source(60);
    let mut projection = CollapsedDiffProjection::new();
    projection.rebuild_collapsed_diff_projection(true, Some(identity("a")), &source);
    projection.header_display_cache.insert(0, "kept".to_string());
    projection.normalize_collapsed_diff_hunks_after_rebuild();
    assert_eq!(projection.header_display_cache.get(&0), Some(&"kept".to_string()));
    projection.hunks[0].reveal_down_lines = 40;
    projection.normalize_collapsed_diff_hunks_after_rebuild();
    assert_eq!(projection.hunks.len(), 1);
    assert!(projection.header_display_cache.is_empty());
}

#[test]
fn a_document_of_one_side_draws_that_side_anew() {
    let mut documents = PreparedSyntaxDocuments::new();
    let mut cache = FileDiffCache::new();
    let right = || key(1, PreparedSyntaxViewMode::FileDiffSplitRight);
    let region = DiffTextRegion::SplitRight;
    assert!(install_side_syntax_document(&mut cache, &mut documents, region, right(), 5));
    assert_eq!((cache.style_epochs.split_left, cache.style_epochs.split_right), (0, 1));
    assert!(!install_side_syntax_document(&mut cache, &mut documents, region, right(), 6));
    assert_eq!(cache.style_epochs.split_right, 1);
    assert_eq!(documents.prepared_syntax_document(&right(), &[5, 6]), Some(5));
}
