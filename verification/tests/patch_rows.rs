//! Rows of a patch, in one column and in two.
use gitcomet_view::diff::patch_rows::Diff;
use gitcomet_view::diff::patch_rows::DiffLine;
use gitcomet_view::diff::patch_rows::DiffLineKind;
use gitcomet_view::diff::patch_rows::PagedPatchDiffRows;
use gitcomet_view::diff::split_meta::build_patch_split_visible_meta_from_src;
use gitcomet_view::diff::split_meta::diff_line_click_kind;
use gitcomet_view::diff::split_meta::should_hide_unified_diff_header_raw;
use gitcomet_view::diff::split_meta::PatchSplitVisibleMeta;
use gitcomet_view::diff::split_rows::DiffClickKind;
use gitcomet_view::diff::split_rows::FileDiffRowKind;
use gitcomet_view::diff::split_rows::PagedPatchSplitRows;
use gitcomet_view::diff::split_rows::PatchSplitRow;
use gitcomet_view::diff::visible_map::PatchInlineVisibleMap;

/// The lines of a unified diff.
fn from_unified(text: &str) -> Diff {
    let mut in_hunk = false;
    let lines = text
        .lines()
        .map(|line| {
            if line.starts_with("diff --git ") {
                in_hunk = false;
            }
            let kind = if line.starts_with("@@") {
                in_hunk = true;
                DiffLineKind::Hunk
            } else if !in_hunk {
                DiffLineKind::Header
            } else if line.starts_with('+') {
                DiffLineKind::Add
            } else if line.starts_with('-') {
                DiffLineKind::Remove
            } else {
                DiffLineKind::Context
            };
            let content = match kind {
                DiffLineKind::Add | DiffLineKind::Remove => &line[1..],
                DiffLineKind::Context => line.strip_prefix(' ').unwrap_or(line),
                _ => line,
            };
            DiffLine { kind, text: line.to_string(), content: content.to_string() }
        })
        .collect();
    Diff { lines }
}

/// All rows of a patch in two columns, one after the other.
fn eager_split_rows(text: &str) -> Vec<PatchSplitRow> {
    let rows = PagedPatchDiffRows::new(from_unified(text), 256);
    let mut split = PagedPatchSplitRows::new(rows);
    (0..split.len_hint()).map(|ix| split.row_at(ix).expect("split row")).collect()
}

fn hidden_flags(diff: &Diff) -> Vec<bool> {
    diff.lines
        .iter()
        .map(|line| should_hide_unified_diff_header_raw(line.kind, &line.text))
        .collect()
}

fn split_visible_meta_for_diff(diff: &Diff) -> PatchSplitVisibleMeta {
    let line_kinds = diff.lines.iter().map(|line| line.kind).collect::<Vec<_>>();
    let visual_line_kinds = line_kinds.clone();
    let click_kinds = diff.lines.iter().map(diff_line_click_kind).collect::<Vec<_>>();
    build_patch_split_visible_meta_from_src(
        &line_kinds,
        &visual_line_kinds,
        &click_kinds,
        &hidden_flags(diff),
    )
}

fn synthetic_patch(line_count: usize) -> String {
    let mut text = String::new();
    text.push_str("diff --git a/src/lib.rs b/src/lib.rs\n");
    text.push_str("index 1111111..2222222 100644\n");
    text.push_str("--- a/src/lib.rs\n");
    text.push_str("+++ b/src/lib.rs\n");
    text.push_str(&format!(
        "@@ -1,{} +1,{} @@ fn synthetic() {{\n",
        line_count.saturating_mul(2),
        line_count.saturating_mul(2)
    ));
    for ix in 0..line_count {
        if ix % 7 == 0 {
            text.push_str(&format!("-let old_{ix} = old_call({ix});\n"));
            text.push_str(&format!("+let new_{ix} = new_call({ix});\n"));
        } else {
            text.push_str(&format!(" let shared_{ix} = keep({ix});\n"));
        }
    }
    text
}

#[test]
fn paged_patch_rows_load_pages_on_demand() {
    let diff = from_unified(
        "\
diff --git a/src/lib.rs b/src/lib.rs\n\
index 1111111..2222222 100644\n\
@@ -1,4 +1,4 @@\n\
 old1\n\
-old2\n\
+new2\n\
 old3\n",
    );
    let mut provider = PagedPatchDiffRows::new(diff, 2);

    assert_eq!(provider.cached_page_count(), 0);
    assert!(provider.row_at(3).is_some());
    assert_eq!(provider.cached_page_count(), 1);
    assert!(provider.row_at(0).is_some());
    assert_eq!(provider.cached_page_count(), 2);

    let slice = provider.slice(2, 5).iter().map(|line| line.text.to_string()).collect::<Vec<_>>();
    assert_eq!(slice, vec!["@@ -1,4 +1,4 @@", "old1", "-old2"]);
    assert_eq!(provider.cached_page_count(), 3);
}

#[test]
fn paged_patch_split_rows_materialize_prefix_before_full_scan() {
    let text = "\
diff --git a/src/lib.rs b/src/lib.rs\n\
index 1111111..2222222 100644\n\
@@ -1,5 +1,6 @@\n\
 old1\n\
-old2\n\
-old3\n\
+new2\n\
+new3\n\
 old4\n";
    let rows_provider = PagedPatchDiffRows::new(from_unified(text), 2);
    let mut split_provider = PagedPatchSplitRows::new(rows_provider);

    let eager = eager_split_rows(text);
    assert_eq!(split_provider.len_hint(), eager.len());
    assert_eq!(split_provider.materialized_row_count(), 0);

    let first = split_provider.row_at(0).expect("first split row");
    assert!(matches!(first, PatchSplitRow::Raw { click_kind: DiffClickKind::FileHeader, .. }));
    assert!(split_provider.materialized_row_count() < split_provider.len_hint());

    let _ = split_provider
        .row_at(split_provider.len_hint().saturating_sub(1))
        .expect("last split row");
    assert_eq!(split_provider.materialized_row_count(), split_provider.len_hint());
}

#[test]
fn paged_patch_split_rows_first_window_stops_inside_large_hunk() {
    let diff = from_unified(&synthetic_patch(20_000));
    let rows_provider = PagedPatchDiffRows::new(diff, 256);
    let mut split_provider = PagedPatchSplitRows::new(rows_provider);

    let first_window = split_provider.slice(0, 200);

    assert_eq!(first_window.len(), 200);
    assert_eq!(split_provider.source().cached_page_count(), 1);
    assert_eq!(split_provider.source().materialized_row_count(), 256);
    assert!(split_provider.materialized_row_count() < 256);
    assert!(split_provider.materialized_row_count() < split_provider.len_hint());
}

#[test]
fn paged_patch_split_rows_deep_window_returns_full_requested_slice() {
    let diff = from_unified(&synthetic_patch(20_000));
    let rows_provider = PagedPatchDiffRows::new(diff, 256);
    let mut split_provider = PagedPatchSplitRows::new(rows_provider);
    let window = 200usize;
    let start = split_provider
        .len_hint()
        .saturating_mul(9)
        .checked_div(10)
        .unwrap_or(0)
        .min(split_provider.len_hint().saturating_sub(window));

    let deep_window = split_provider.slice(start, start + window);

    assert_eq!(deep_window.len(), window);
    assert!(split_provider.materialized_row_count() >= window);
    assert!(split_provider.materialized_row_count() < split_provider.len_hint());
    assert!(split_provider.source().cached_page_count() > 0);
}

#[test]
fn a_window_of_fresh_rows_is_all_that_was_asked_for() {
    let text = synthetic_patch(400);
    let eager = eager_split_rows(&text);
    for (start, end) in [(0, 1), (0, 300), (3, 399), (100, 350), (150, eager.len() + 5)] {
        let mut fresh = PagedPatchSplitRows::new(PagedPatchDiffRows::new(from_unified(&text), 64));
        let stop = end.min(eager.len());
        assert_eq!(fresh.slice(start, end), eager[start..stop].to_vec());
        assert_eq!(fresh.slice(0, 10), eager[..10].to_vec());
        assert_eq!(fresh.slice(start, end), eager[start..stop].to_vec());
    }
}

#[test]
fn patch_inline_visible_map_matches_eager_visible_indices() {
    let diff = from_unified(
        "\
diff --git a/src/lib.rs b/src/lib.rs\n\
index 1111111..2222222 100644\n\
--- a/src/lib.rs\n\
+++ b/src/lib.rs\n\
@@ -1,3 +1,3 @@\n\
 old1\n\
-old2\n\
+new2\n",
    );
    let hidden = hidden_flags(&diff);
    let map = PatchInlineVisibleMap::from_hidden_flags(&hidden);

    let eager_visible = hidden
        .iter()
        .enumerate()
        .filter_map(|(src_ix, hide)| (!hide).then_some(src_ix))
        .collect::<Vec<_>>();
    let mapped_visible = (0..map.visible_len())
        .filter_map(|visible_ix| map.src_ix_for_visible_ix(visible_ix))
        .collect::<Vec<_>>();

    assert_eq!(mapped_visible, eager_visible);
    for (visible_ix, src_ix) in eager_visible.iter().copied().enumerate() {
        assert_eq!(map.visible_ix_for_src_ix(src_ix), Some(visible_ix));
    }
    for hidden_src_ix in
        hidden.iter().enumerate().filter_map(|(src_ix, hide)| hide.then_some(src_ix))
    {
        assert_eq!(map.visible_ix_for_src_ix(hidden_src_ix), None);
    }
    assert!(map.visible_len() < diff.lines.len());
}

#[test]
fn patch_inline_visible_map_build_does_not_load_paged_rows() {
    let text = "\
diff --git a/src/lib.rs b/src/lib.rs\n\
index 1111111..2222222 100644\n\
--- a/src/lib.rs\n\
+++ b/src/lib.rs\n\
@@ -1,4 +1,4 @@\n\
 old1\n\
-old2\n\
+new2\n\
 old3\n";
    let diff = from_unified(text);
    let provider = PagedPatchDiffRows::new(from_unified(text), 2);
    assert_eq!(provider.cached_page_count(), 0);

    let map = PatchInlineVisibleMap::from_hidden_flags(&hidden_flags(&diff));

    assert_eq!(provider.cached_page_count(), 0);
    assert_eq!(map.visible_len(), diff.lines.len().saturating_sub(3));
    assert_eq!(map.src_ix_for_visible_ix(0), Some(0));
}

#[test]
fn split_visible_meta_filters_hidden_unified_headers() {
    let text = "\
diff --git a/src/lib.rs b/src/lib.rs\n\
index 1111111..2222222 100644\n\
--- a/src/lib.rs\n\
+++ b/src/lib.rs\n\
@@ -1,3 +1,3 @@\n\
 old1\n\
-old2\n\
+new2\n";
    let diff = from_unified(text);
    let hidden = hidden_flags(&diff);
    let eager_split = eager_split_rows(text);
    let expected_visible = eager_split
        .iter()
        .enumerate()
        .filter_map(|(ix, row)| match row {
            PatchSplitRow::Raw { src_ix, .. } => (!hidden[*src_ix]).then_some(ix),
            PatchSplitRow::Aligned { .. } => Some(ix),
        })
        .collect::<Vec<_>>();

    let meta = split_visible_meta_for_diff(&diff);
    assert_eq!(meta.total_rows, eager_split.len());
    assert_eq!(meta.visible_indices, expected_visible);
    assert!(meta.visible_indices.len() < meta.total_rows);
}

#[test]
fn split_visible_meta_builds_non_empty_scrollbar_markers() {
    let text = "\
diff --git a/src/lib.rs b/src/lib.rs\n\
index 1111111..2222222 100644\n\
--- a/src/lib.rs\n\
+++ b/src/lib.rs\n\
@@ -1,6 +1,7 @@\n\
 old0\n\
-old1\n\
+new1\n\
-old2\n\
+new2\n\
+new3\n\
 old4\n";
    let diff = from_unified(text);
    let hidden = hidden_flags(&diff);
    let expected_visible_flags = eager_split_rows(text)
        .iter()
        .filter_map(|row| match row {
            PatchSplitRow::Raw { src_ix, .. } => (!hidden[*src_ix]).then_some(0),
            PatchSplitRow::Aligned { row, .. } => Some(match row.kind {
                FileDiffRowKind::Add => 1,
                FileDiffRowKind::Remove => 2,
                FileDiffRowKind::Modify => 3,
                FileDiffRowKind::Context => 0,
            }),
        })
        .collect::<Vec<u8>>();

    let meta = split_visible_meta_for_diff(&diff);
    assert_eq!(meta.visible_flags, expected_visible_flags);
    assert!(meta.visible_flags.iter().any(|flag| *flag != 0));
}
