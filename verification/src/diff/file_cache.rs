//! When the rows of a file diff are built again, kept or dropped.
//!
//! The pane asks on every change of state. Rows of the same file stay on screen
//! while they are built again; rows of another file go at once. Building runs
//! elsewhere, so its result is taken only if nothing has moved on since.
use super::syntax_cache::next_counter;
use super::syntax_cache::next_epoch;
use super::syntax_cache::rekeyed_sides;
use super::syntax_cache::FileDiffStyleCacheEpochs;
use super::syntax_cache::KeyView;
use super::syntax_cache::PreparedSyntaxDocuments;
use super::syntax_cache::PreparedSyntaxViewMode;
use crate::text::is_same_number;
use crate::text::is_text;
use vstd::prelude::*;

verus! {

/// The file diff that the pane is to show.
#[derive(Debug)]
pub struct RenderedFileDiff {
    pub repo_id: u64,
    pub rev: u64,
    pub target: String,
    pub path: String,
}

/// The texts of a file diff that have arrived: a digest of them, and whether
/// they are left on disk.
#[derive(Clone, Copy, Debug, PartialEq, Eq, Structural)]
pub struct FileDiffPayload {
    pub text_signature: u64,
    pub source_backed: bool,
}

/// What has arrived for the file diff that the pane is to show.
#[derive(Clone, Copy, Debug, PartialEq, Eq, Structural)]
pub struct FileDiffInputs {
    pub file: Option<FileDiffPayload>,
    pub patch_signature: Option<u64>,
    pub patch_loading: bool,
    pub whitespace_mode: u8,
    pub whitespace_key_len: u64,
}

pub open spec fn rotated_left(x: u64, k: u64) -> u64 {
    (x << k) | (x >> ((64 - k) as u64))
}

/// A digest of all that the rows depend on: the texts, the patch and the
/// whitespace setting.
pub open spec fn content_signature(inputs: FileDiffInputs) -> Option<u64> {
    match inputs.file {
        Some(file) => {
            let with_patch = match inputs.patch_signature {
                Some(patch) => file.text_signature ^ rotated_left(patch, 1),
                None => file.text_signature,
            };
            Some(with_patch ^ rotated_left(inputs.whitespace_key_len, 7))
        },
        None => None,
    }
}

pub fn file_content_signature(inputs: &FileDiffInputs) -> (signature: Option<u64>)
    ensures
        signature == content_signature(*inputs),
{
    match inputs.file {
        Some(file) => {
            let mut signature = file.text_signature;
            if let Some(patch) = inputs.patch_signature {
                signature = signature ^ ((patch << 1u64) | (patch >> 63u64));
            }
            let key_len = inputs.whitespace_key_len;
            Some(signature ^ ((key_len << 7u64) | (key_len >> 57u64)))
        },
        None => None,
    }
}

/// What the rows on screen belong to, and the build that is under way.
#[derive(Debug)]
pub struct FileDiffCache {
    pub repo_id: Option<u64>,
    pub rev: u64,
    pub whitespace_mode: u8,
    pub target: Option<String>,
    pub path: Option<String>,
    pub content_signature: Option<u64>,
    pub error: Option<String>,
    pub inflight: Option<u64>,
    pub seq: u64,
    pub syntax_generation: u64,
    pub style_epochs: FileDiffStyleCacheEpochs,
    /// The build that the rows on screen came from.
    pub rows_of: Option<u64>,
}

/// What the pane has to do.
#[derive(Clone, Copy, Debug, PartialEq, Eq, Structural)]
pub enum FileDiffCacheAction {
    /// Nothing is to be shown: all rows are gone.
    Cleared,
    /// The patch is still on its way; `reset` says that the rows are gone.
    WaitForPatch { reset: bool },
    /// The rows stay as they are.
    Keep,
    /// The rows stay; syntax may have to be prepared for them.
    RefreshSyntax,
    /// There is nothing to build rows from; the old ones are gone.
    Emptied,
    /// Rows have to be built; `keep_rows` says that the old ones stay meanwhile.
    Rebuild { seq: u64, content_signature: u64, keep_rows: bool },
}

/// The cache without its rows.
pub open spec fn without_rows(cache: FileDiffCache) -> FileDiffCache {
    FileDiffCache {
        path: None,
        content_signature: None,
        error: None,
        inflight: None,
        syntax_generation: next_epoch(cache.syntax_generation),
        style_epochs: FileDiffStyleCacheEpochs {
            split_left: next_epoch(cache.style_epochs.split_left),
            split_right: next_epoch(cache.style_epochs.split_right),
        },
        rows_of: None,
        ..cache
    }
}

/// The cache holds rows of this very file under this very setting.
pub open spec fn holds_same_file(
    cache: FileDiffCache,
    rendered: RenderedFileDiff,
    whitespace_mode: u8,
) -> bool {
    &&& cache.repo_id == Some(rendered.repo_id)
    &&& cache.target matches Some(target) && target@ == rendered.target@
    &&& cache.whitespace_mode == whitespace_mode
    &&& cache.path matches Some(path) && path@ == rendered.path@
}

/// The cache set to another file, with its rows as they are.
pub open spec fn moved_to(
    cache: FileDiffCache,
    rendered: RenderedFileDiff,
    whitespace_mode: u8,
) -> FileDiffCache {
    FileDiffCache {
        repo_id: Some(rendered.repo_id),
        rev: rendered.rev,
        whitespace_mode,
        target: Some(rendered.target),
        ..cache
    }
}

/// What becomes of the cache, and what the pane has to do.
pub open spec fn ensured(
    cache: FileDiffCache,
    rendered: Option<RenderedFileDiff>,
    inputs: FileDiffInputs,
) -> (FileDiffCache, FileDiffCacheAction) {
    match rendered {
        None => (
            without_rows(FileDiffCache { repo_id: None, target: None, rev: 0, ..cache }),
            FileDiffCacheAction::Cleared,
        ),
        Some(rendered) => {
            let same = holds_same_file(cache, rendered, inputs.whitespace_mode);
            let signature = content_signature(inputs);
            let waiting = inputs.patch_loading && inputs.patch_signature is None && (
            inputs.file matches Some(file) && file.source_backed);
            let moved = moved_to(cache, rendered, inputs.whitespace_mode);
            if waiting && same {
                (
                    FileDiffCache { inflight: None, rev: rendered.rev, ..cache },
                    FileDiffCacheAction::WaitForPatch { reset: false },
                )
            } else if waiting {
                (without_rows(moved), FileDiffCacheAction::WaitForPatch { reset: true })
            } else if same && inputs.file is None && cache.content_signature is Some {
                (FileDiffCache { rev: rendered.rev, ..cache }, FileDiffCacheAction::Keep)
            } else if same && cache.rev == rendered.rev && (signature is None
                || cache.content_signature == signature) {
                (cache, FileDiffCacheAction::Keep)
            } else if same && signature is Some && cache.content_signature == signature {
                (
                    FileDiffCache { inflight: None, rev: rendered.rev, ..cache },
                    FileDiffCacheAction::RefreshSyntax,
                )
            } else {
                match signature {
                    None => (without_rows(moved), FileDiffCacheAction::Emptied),
                    Some(content_signature) => {
                        let kept = if same {
                            moved
                        } else {
                            without_rows(moved)
                        };
                        let seq = next_epoch(cache.seq);
                        (
                            FileDiffCache { seq, inflight: Some(seq), ..kept },
                            FileDiffCacheAction::Rebuild {
                                seq,
                                content_signature,
                                keep_rows: same,
                            },
                        )
                    },
                }
            }
        },
    }
}

/// The rows stay and only their revision moves on, so that documents prepared
/// for them have to move with it.
pub open spec fn only_revision_moves(
    cache: FileDiffCache,
    rendered: Option<RenderedFileDiff>,
    inputs: FileDiffInputs,
) -> bool {
    rendered matches Some(rendered) && holds_same_file(cache, rendered, inputs.whitespace_mode) && (
    match ensured(cache, Some(rendered), inputs).1 {
        FileDiffCacheAction::WaitForPatch { .. } => true,
        FileDiffCacheAction::Keep => true,
        FileDiffCacheAction::RefreshSyntax => true,
        _ => false,
    })
}

/// How a build ended.
#[derive(Debug)]
pub enum FileDiffRebuildResult {
    Built { path: Option<String> },
    Failed { error: String },
}

#[derive(Clone, Copy, Debug, PartialEq, Eq, Structural)]
pub enum FileDiffRebuildOutcome {
    /// The pane has moved on: the result is dropped.
    Dropped,
    /// The error is shown in place of rows.
    ShowError,
    /// The rows are replaced.
    Installed,
}

/// Whether a build is the one that the cache waits for.
pub open spec fn awaited(
    cache: FileDiffCache,
    seq: u64,
    rendered: RenderedFileDiff,
    whitespace_mode: u8,
) -> bool {
    &&& cache.inflight == Some(seq)
    &&& cache.repo_id == Some(rendered.repo_id)
    &&& cache.rev == rendered.rev
    &&& cache.whitespace_mode == whitespace_mode
    &&& cache.target matches Some(target) && target@ == rendered.target@
}

/// What becomes of the cache when a build ends.
pub open spec fn rebuild_completed(
    cache: FileDiffCache,
    seq: u64,
    rendered: RenderedFileDiff,
    whitespace_mode: u8,
    content_signature: u64,
    result: FileDiffRebuildResult,
) -> (FileDiffCache, FileDiffRebuildOutcome) {
    if !awaited(cache, seq, rendered, whitespace_mode) {
        (cache, FileDiffRebuildOutcome::Dropped)
    } else {
        match result {
            FileDiffRebuildResult::Failed { error } => (
                FileDiffCache {
                    path: Some(rendered.path),
                    content_signature: Some(content_signature),
                    error: Some(error),
                    ..without_rows(moved_to(cache, rendered, whitespace_mode))
                },
                FileDiffRebuildOutcome::ShowError,
            ),
            FileDiffRebuildResult::Built { path } => (
                FileDiffCache {
                    path,
                    content_signature: Some(content_signature),
                    error: None,
                    inflight: None,
                    syntax_generation: next_epoch(cache.syntax_generation),
                    rows_of: Some(seq),
                    ..cache
                },
                FileDiffRebuildOutcome::Installed,
            ),
        }
    }
}

impl FileDiffCache {
    pub fn new() -> (cache: Self)
        ensures
            cache == (FileDiffCache {
                repo_id: None,
                rev: 0,
                whitespace_mode: 0,
                target: None,
                path: None,
                content_signature: None,
                error: None,
                inflight: None,
                seq: 0,
                syntax_generation: 0,
                style_epochs: FileDiffStyleCacheEpochs { split_left: 0, split_right: 0 },
                rows_of: None,
            }),
    {
        FileDiffCache {
            repo_id: None,
            rev: 0,
            whitespace_mode: 0,
            target: None,
            path: None,
            content_signature: None,
            error: None,
            inflight: None,
            seq: 0,
            syntax_generation: 0,
            style_epochs: FileDiffStyleCacheEpochs { split_left: 0, split_right: 0 },
            rows_of: None,
        }
    }

    /// Makes workers that were started for the rows on screen stale.
    pub fn advance_file_diff_syntax_generation(&mut self)
        ensures
            *final(self) == (FileDiffCache {
                syntax_generation: next_epoch(old(self).syntax_generation),
                ..*old(self)
            }),
    {
        self.syntax_generation = next_counter(self.syntax_generation);
    }

    /// Drops the rows and all that belongs to them, but not what they are for.
    pub fn reset_file_diff_cache_data(&mut self)
        ensures
            *final(self) == without_rows(*old(self)),
    {
        self.content_signature = None;
        self.inflight = None;
        self.error = None;
        self.advance_file_diff_syntax_generation();
        self.style_epochs.bump_both();
        self.path = None;
        self.rows_of = None;
    }

    fn move_to(&mut self, rendered: &RenderedFileDiff, whitespace_mode: u8)
        ensures
            *final(self) == moved_to(*old(self), *rendered, whitespace_mode),
    {
        self.repo_id = Some(rendered.repo_id);
        self.rev = rendered.rev;
        self.whitespace_mode = whitespace_mode;
        self.target = Some(rendered.target.clone());
    }

    /// Holds the cache against what the pane is to show.
    pub fn ensure_file_diff_cache(
        &mut self,
        documents: &mut PreparedSyntaxDocuments,
        rendered: &Option<RenderedFileDiff>,
        inputs: &FileDiffInputs,
    ) -> (action: FileDiffCacheAction)
        requires
            old(documents).wf(),
        ensures
            *final(self) == ensured(*old(self), *rendered, *inputs).0,
            action == ensured(*old(self), *rendered, *inputs).1,
            final(documents).wf(),
            final(documents).documents() == (match (old(self).repo_id, old(self).path, *rendered) {
                (Some(repo_id), Some(path), Some(rendered)) => if only_revision_moves(
                    *old(self),
                    Some(rendered),
                    *inputs,
                ) {
                    rekeyed_sides(
                        old(documents).documents(),
                        repo_id,
                        path@,
                        old(self).rev,
                        rendered.rev,
                    )
                } else {
                    old(documents).documents()
                },
                _ => old(documents).documents(),
            }),
    {
        let rendered = match rendered {
            Some(rendered) => rendered,
            None => {
                self.repo_id = None;
                self.target = None;
                self.rev = 0;
                self.reset_file_diff_cache_data();
                return FileDiffCacheAction::Cleared;
            },
        };
        let signature = file_content_signature(inputs);
        let same = is_same_number(self.repo_id, Some(rendered.repo_id)) && is_text(
            &self.target,
            &rendered.target,
        ) && self.whitespace_mode == inputs.whitespace_mode && is_text(&self.path, &rendered.path);
        let source_backed = match inputs.file {
            Some(file) => file.source_backed,
            None => false,
        };
        if inputs.patch_loading && inputs.patch_signature.is_none() && source_backed {
            if same {
                self.inflight = None;
                documents.rekey_file_diff_prepared_syntax_documents_for_rev(
                    self.repo_id,
                    &self.path,
                    self.rev,
                    rendered.rev,
                );
                self.rev = rendered.rev;
                return FileDiffCacheAction::WaitForPatch { reset: false };
            }
            self.move_to(rendered, inputs.whitespace_mode);
            self.reset_file_diff_cache_data();
            return FileDiffCacheAction::WaitForPatch { reset: true };
        }
        if same && inputs.file.is_none() && self.content_signature.is_some() {
            documents.rekey_file_diff_prepared_syntax_documents_for_rev(
                self.repo_id,
                &self.path,
                self.rev,
                rendered.rev,
            );
            self.rev = rendered.rev;
            return FileDiffCacheAction::Keep;
        }
        if same && self.rev == rendered.rev {
            let changed_without_rev_bump = signature.is_some() && !is_same_number(
                self.content_signature,
                signature,
            );
            if !changed_without_rev_bump {
                proof {
                    lemma_rekey_same_revision(
                        documents.documents(),
                        rendered.repo_id,
                        rendered.path@,
                        rendered.rev,
                    );
                }
                return FileDiffCacheAction::Keep;
            }
        }
        if same && signature.is_some() && is_same_number(self.content_signature, signature) {
            self.inflight = None;
            documents.rekey_file_diff_prepared_syntax_documents_for_rev(
                self.repo_id,
                &self.path,
                self.rev,
                rendered.rev,
            );
            self.rev = rendered.rev;
            return FileDiffCacheAction::RefreshSyntax;
        }
        self.move_to(rendered, inputs.whitespace_mode);
        let keep_rows = same && signature.is_some();
        if !keep_rows {
            self.reset_file_diff_cache_data();
        }
        match signature {
            None => FileDiffCacheAction::Emptied,
            Some(content_signature) => {
                let seq = next_counter(self.seq);
                self.seq = seq;
                self.inflight = Some(seq);
                FileDiffCacheAction::Rebuild { seq, content_signature, keep_rows }
            },
        }
    }

    /// Takes the result of a build, or drops it where the pane has moved on.
    /// Documents that were prepared for the old rows under the new revision go.
    pub fn complete_file_diff_rebuild(
        &mut self,
        documents: &mut PreparedSyntaxDocuments,
        seq: u64,
        rendered: &RenderedFileDiff,
        whitespace_mode: u8,
        content_signature: u64,
        result: FileDiffRebuildResult,
    ) -> (outcome: FileDiffRebuildOutcome)
        requires
            old(documents).wf(),
        ensures
            ({
                let after = rebuild_completed(
                    *old(self),
                    seq,
                    *rendered,
                    whitespace_mode,
                    content_signature,
                    result,
                );
                *final(self) == after.0 && outcome == after.1
            }),
            final(documents).wf(),
            final(documents).documents() == (if outcome == FileDiffRebuildOutcome::Installed {
                old(documents).documents().remove(
                    KeyView {
                        repo_id: rendered.repo_id,
                        target_rev: rendered.rev,
                        file_path: rendered.path@,
                        view_mode: PreparedSyntaxViewMode::FileDiffSplitLeft,
                    },
                ).remove(
                    KeyView {
                        repo_id: rendered.repo_id,
                        target_rev: rendered.rev,
                        file_path: rendered.path@,
                        view_mode: PreparedSyntaxViewMode::FileDiffSplitRight,
                    },
                )
            } else {
                old(documents).documents()
            }),
    {
        if !is_same_number(self.inflight, Some(seq)) {
            return FileDiffRebuildOutcome::Dropped;
        }
        if !is_same_number(self.repo_id, Some(rendered.repo_id)) || self.rev != rendered.rev
            || self.whitespace_mode != whitespace_mode || !is_text(&self.target, &rendered.target) {
            return FileDiffRebuildOutcome::Dropped;
        }
        self.inflight = None;
        match result {
            FileDiffRebuildResult::Failed { error } => {
                self.reset_file_diff_cache_data();
                self.move_to(rendered, whitespace_mode);
                self.path = Some(rendered.path.clone());
                self.content_signature = Some(content_signature);
                self.error = Some(error);
                FileDiffRebuildOutcome::ShowError
            },
            FileDiffRebuildResult::Built { path } => {
                self.error = None;
                self.advance_file_diff_syntax_generation();
                documents.remove_file_diff_prepared_syntax_documents_for_rev(
                    rendered.repo_id,
                    rendered.rev,
                    rendered.path.as_str(),
                );
                self.path = path;
                self.content_signature = Some(content_signature);
                self.rows_of = Some(seq);
                FileDiffRebuildOutcome::Installed
            },
        }
    }
}

proof fn lemma_rekey_same_revision(
    documents: Map<KeyView, u64>,
    repo_id: u64,
    path: Seq<char>,
    rev: u64,
)
    ensures
        rekeyed_sides(documents, repo_id, path, rev, rev) == documents,
{
}

/// A build that was asked for is taken if nothing happened in between.
pub proof fn law_awaited_rebuild_is_installed(
    cache: FileDiffCache,
    rendered: RenderedFileDiff,
    inputs: FileDiffInputs,
    path: Option<String>,
)
    requires
        ensured(cache, Some(rendered), inputs).1 is Rebuild,
    ensures
        ({
            let (asked, action) = ensured(cache, Some(rendered), inputs);
            let after = rebuild_completed(
                asked,
                action->seq,
                rendered,
                inputs.whitespace_mode,
                action->content_signature,
                FileDiffRebuildResult::Built { path },
            );
            &&& after.1 == FileDiffRebuildOutcome::Installed
            &&& after.0.rows_of == Some(action->seq)
            &&& after.0.content_signature == content_signature(inputs)
            &&& after.0.inflight is None
        }),
{
}

/// A build is dropped once another one has been asked for.
pub proof fn law_superseded_rebuild_is_dropped(
    cache: FileDiffCache,
    rendered: RenderedFileDiff,
    inputs: FileDiffInputs,
    earlier: u64,
    earlier_rendered: RenderedFileDiff,
    earlier_mode: u8,
    signature: u64,
    result: FileDiffRebuildResult,
)
    requires
        ensured(cache, Some(rendered), inputs).1 is Rebuild,
        earlier != next_epoch(cache.seq),
    ensures
        ({
            let asked = ensured(cache, Some(rendered), inputs).0;
            rebuild_completed(asked, earlier, earlier_rendered, earlier_mode, signature, result) == (
                asked,
                FileDiffRebuildOutcome::Dropped,
            )
        }),
{
}

/// Asking again changes nothing while nothing new arrives: once rows are there,
/// they are kept.
pub proof fn law_installed_rows_are_kept(
    cache: FileDiffCache,
    rendered: RenderedFileDiff,
    inputs: FileDiffInputs,
)
    requires
        holds_same_file(cache, rendered, inputs.whitespace_mode),
        cache.rev == rendered.rev,
        cache.content_signature == content_signature(inputs),
        inputs.file is Some,
        inputs.patch_signature is Some,
    ensures
        ensured(cache, Some(rendered), inputs) == (cache, FileDiffCacheAction::Keep),
{
}

} // verus!
