//! Previews of files and rendered pages.
use gitcomet_view::preview::DrawnDocument;
use gitcomet_view::preview::MarkdownAction;
use gitcomet_view::preview::MarkdownOutcome;
use gitcomet_view::preview::MarkdownPreviewRefusal;
use gitcomet_view::preview::PreviewRows;
use gitcomet_view::preview::SingleMarkdownPreview;
use gitcomet_view::preview::WorktreePreview;
use gitcomet_view::scroll::centered_reveal_scroll_y;
use gitcomet_view::scroll::DiffHorizontalScrollColumn;
use gitcomet_view::scroll::DiffHorizontalScrollState;
use gitcomet_view::view::DiffChangeSide;
use gitcomet_view::view::DiffChangeSides;
use gitcomet_view::view::FocusedChangeBlockRow;
use gitcomet_view::view::RemoteMarkdownImageDocumentSet;

fn preview() -> WorktreePreview {
    WorktreePreview {
        path: None,
        source_path: None,
        rows: PreviewRows::NotLoaded,
        source_len: 0,
        text: String::new(),
        line_starts: Vec::new(),
        line_flags: Vec::new(),
        has_trigram_index: false,
        syntax_language: None,
        segments_cache_path: None,
        cache_write_blocked_until_rev: None,
        content_rev: 0,
        style_cache_epoch: 0,
        markdown: SingleMarkdownPreview {
            path: None,
            source_rev: 0,
            document: DrawnDocument::NotLoaded,
            inflight: None,
            seq: 0,
        },
    }
}

fn show(preview: &mut WorktreePreview, text: &str) {
    preview.set_worktree_preview_ready_source(
        "a.md".to_string(),
        text.to_string(),
        gitcomet_view::lines::build_line_starts(text),
        None,
        false,
    );
}

#[test]
fn a_source_that_stays_keeps_its_revision() {
    let mut preview = preview();
    assert_eq!(preview.worktree_preview_line_count(), None);
    show(&mut preview, "one\ntwo");
    assert_eq!(preview.worktree_preview_line_count(), Some(2));
    let rev = preview.content_rev;
    show(&mut preview, "one\ntwo");
    assert_eq!(preview.content_rev, rev);
    show(&mut preview, "one\nthree");
    assert_ne!(preview.content_rev, rev);
}

#[test]
fn a_page_that_was_begun_is_shown_unless_it_is_overtaken() {
    let mut preview = preview();
    show(&mut preview, "# one");
    let too_large = || "too large".to_string();
    let seq = match preview.ensure_single_markdown_preview_cache(1000, too_large()) {
        MarkdownAction::Draw { seq, .. } => seq,
        other => panic!("{other:?}"),
    };
    assert_eq!(
        preview.ensure_single_markdown_preview_cache(1000, too_large()),
        MarkdownAction::Keep
    );
    let rev = preview.content_rev;
    let path = "a.md".to_string();
    assert_eq!(
        preview.complete_single_markdown_preview(seq + 1, &path, rev, Ok(())),
        MarkdownOutcome::Stale
    );
    assert_eq!(
        preview.complete_single_markdown_preview(seq, &path, rev, Ok(())),
        MarkdownOutcome::Shown
    );
    assert!(matches!(preview.markdown.document, DrawnDocument::Ready));
    show(&mut preview, "# two");
    assert_eq!(
        preview.ensure_single_markdown_preview_cache(2, too_large()),
        MarkdownAction::Refused
    );
}

#[test]
fn a_page_that_cannot_be_drawn_says_so() {
    let mut preview = preview();
    show(&mut preview, "# one");
    let seq = match preview.ensure_single_markdown_preview_cache(1000, String::new()) {
        MarkdownAction::Draw { seq, .. } => seq,
        other => panic!("{other:?}"),
    };
    let rev = preview.content_rev;
    let outcome = preview.complete_single_markdown_preview(
        seq,
        &"a.md".to_string(),
        rev,
        Err(MarkdownPreviewRefusal { message: "no".to_string(), prefers_source: true }),
    );
    assert_eq!(outcome, MarkdownOutcome::Refused { to_source: true });
    assert!(matches!(&preview.markdown.document, DrawnDocument::Error(message) if message == "no"));
}

#[test]
fn a_row_is_brought_to_the_middle() {
    assert_eq!(centered_reveal_scroll_y(100, 20, 400, 5000, 0), Some(-1810));
    assert_eq!(centered_reveal_scroll_y(3, 20, 400, 5000, 0), None);
    assert_eq!(centered_reveal_scroll_y(100, 20, 0, 5000, 0), None);
    assert_eq!(centered_reveal_scroll_y(1000, 20, 400, 500, 0), Some(-500));
}

#[test]
fn a_column_grows_to_its_widest_content() {
    let mut state = DiffHorizontalScrollState::new();
    assert!(state.record_content_width(DiffHorizontalScrollColumn::SplitRight, 50));
    assert!(!state.record_content_width(DiffHorizontalScrollColumn::SplitRight, 40));
    assert_eq!(state.content_widths[DiffHorizontalScrollColumn::SplitRight.index()], 50);
    assert_eq!(state.content_widths[DiffHorizontalScrollColumn::Primary.index()], 0);
    state.reset();
    assert_eq!(state.content_widths, [0, 0]);
}

#[test]
fn outlines_take_the_colour_of_their_side() {
    let removed = DiffChangeSides { removed: true, added: false };
    let added = DiffChangeSides { removed: false, added: true };
    assert_eq!(removed.union(added), DiffChangeSides { removed: true, added: true });
    let row = FocusedChangeBlockRow {
        top: true,
        bottom: false,
        row_sides: removed,
        block_sides: removed.union(added),
    };
    assert_eq!(row.inline_outline(), DiffChangeSide::Removed);
    assert_eq!(row.column_outline(true), Some(DiffChangeSide::Removed));
    assert_eq!(row.column_outline(false), Some(DiffChangeSide::Added));
}

#[test]
fn sets_of_documents_are_told_apart() {
    let one = RemoteMarkdownImageDocumentSet::Worktree(1);
    assert!(one.has_same_identity(&RemoteMarkdownImageDocumentSet::Worktree(1)));
    assert!(!one.has_same_identity(&RemoteMarkdownImageDocumentSet::Worktree(2)));
    assert!(!one.has_same_identity(&RemoteMarkdownImageDocumentSet::Diff(1)));
    assert!(RemoteMarkdownImageDocumentSet::Nothing
        .has_same_identity(&RemoteMarkdownImageDocumentSet::Nothing));
}
