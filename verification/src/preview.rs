//! The file that a pane shows as it stands, and what was drawn from it.
use crate::diff::file_cache::RenderedFileDiff;
use crate::diff::side_syntax::key_view;
use crate::diff::side_syntax::ready_document;
use crate::diff::side_syntax::PrepareAttempt;
use crate::diff::syntax_cache::document_kept;
use crate::diff::syntax_cache::next_counter;
use crate::diff::syntax_cache::next_epoch;
use crate::diff::syntax_cache::prepared_syntax_document_key;
use crate::diff::syntax_cache::KeyView;
use crate::diff::syntax_cache::PreparedSyntaxDocumentKey;
use crate::diff::syntax_cache::PreparedSyntaxDocuments;
use crate::diff::syntax_cache::PreparedSyntaxViewMode;
use crate::lines::indexed_line_count_from_len;
use crate::lines::indexed_range;
use crate::lines::indexed_rows;
use crate::lines::line_flags;
use crate::lines::preview_line_flags_from_source;
use crate::lines::preview_source_text_and_line_starts_from_lines;
use crate::lines::same_bytes;
use crate::lines::same_str;
use crate::lines::text_within;
use crate::text::is_same_number;
use crate::text::is_text;
use vstd::prelude::*;
use vstd::string::*;
use vstd::utf8::encode_utf8;

verus! {

/// How far the rows of a file are.
#[derive(Debug)]
pub enum PreviewRows {
    NotLoaded,
    Loading,
    Ready(usize),
    Error(String),
}

/// How far a document drawn from a file is.
#[derive(Debug)]
pub enum DrawnDocument {
    NotLoaded,
    Loading,
    Ready,
    Error(String),
}

/// A document drawn from the file on screen, and the work on it that is under
/// way.
#[derive(Debug)]
pub struct SingleMarkdownPreview {
    pub path: Option<String>,
    pub source_rev: u64,
    pub document: DrawnDocument,
    pub inflight: Option<u64>,
    pub seq: u64,
}

/// A file on screen.
#[derive(Debug)]
pub struct WorktreePreview {
    pub path: Option<String>,
    pub source_path: Option<String>,
    pub rows: PreviewRows,
    pub source_len: usize,
    pub text: String,
    pub line_starts: Vec<usize>,
    pub line_flags: Vec<u8>,
    pub has_trigram_index: bool,
    pub syntax_language: Option<u32>,
    pub segments_cache_path: Option<String>,
    pub cache_write_blocked_until_rev: Option<u64>,
    pub content_rev: u64,
    pub style_cache_epoch: u64,
    pub markdown: SingleMarkdownPreview,
}

/// A file that has been read: where it is shown as being, where it was read,
/// and what it holds. The text is left out where only the file's lines are
/// known.
#[derive(Debug)]
pub struct PreviewSource {
    pub display_path: String,
    pub source_path: String,
    pub source_len: usize,
    pub text: String,
    pub line_starts: Vec<usize>,
    pub line_flags: Vec<u8>,
    pub syntax_language: Option<u32>,
}

/// What the pane has to drop, and when to take up writing its cache again.
#[derive(Clone, Copy, Debug, PartialEq, Eq)]
pub struct PreviewEffects {
    pub drop_segments: bool,
    pub drop_highlights: bool,
    pub unblock_later: Option<u64>,
}

pub open spec fn reads(text: Option<String>, other: String) -> bool {
    text matches Some(text) && text@ == other@
}

/// The file on screen is the one that has been read.
pub open spec fn shows_source(preview: WorktreePreview, source: PreviewSource) -> bool {
    &&& reads(preview.path, source.display_path)
    &&& reads(preview.source_path, source.source_path)
    &&& preview.rows matches PreviewRows::Ready(count) && count == indexed_rows(
        source.source_len as int,
        source.line_starts@,
    )
    &&& preview.source_len == source.source_len
    &&& preview.text@ == source.text@
    &&& preview.line_starts@ == source.line_starts@
    &&& preview.line_flags@ == source.line_flags@
}

/// The preview without a drawn document.
pub open spec fn undrawn(markdown: SingleMarkdownPreview) -> SingleMarkdownPreview {
    SingleMarkdownPreview {
        path: None,
        source_rev: 0,
        document: DrawnDocument::NotLoaded,
        inflight: None,
        seq: markdown.seq,
    }
}

/// The pane after a file was read. Another file, or the same one with other
/// content, is a new revision: rows are styled and documents drawn afresh.
/// While the same file is read again its cached rows are not written for a
/// moment, if work is done elsewhere at all.
pub open spec fn with_source(
    preview: WorktreePreview,
    source: PreviewSource,
    uses_background: bool,
) -> WorktreePreview {
    let changed = !shows_source(preview, source);
    let same_path = reads(preview.segments_cache_path, source.display_path);
    let rev = if changed {
        next_epoch(preview.content_rev)
    } else {
        preview.content_rev
    };
    WorktreePreview {
        path: Some(source.display_path),
        source_path: Some(source.source_path),
        rows: PreviewRows::Ready(indexed_rows(source.source_len as int, source.line_starts@) as usize),
        source_len: source.source_len,
        text: source.text,
        line_starts: source.line_starts,
        line_flags: source.line_flags,
        has_trigram_index: false,
        syntax_language: source.syntax_language,
        segments_cache_path: Some(source.display_path),
        cache_write_blocked_until_rev: if changed && same_path && uses_background {
            Some(rev)
        } else {
            None
        },
        content_rev: rev,
        style_cache_epoch: if changed {
            next_epoch(preview.style_cache_epoch)
        } else {
            preview.style_cache_epoch
        },
        markdown: if changed {
            undrawn(preview.markdown)
        } else {
            preview.markdown
        },
    }
}

pub open spec fn source_effects(
    preview: WorktreePreview,
    source: PreviewSource,
    uses_background: bool,
) -> PreviewEffects {
    let changed = !shows_source(preview, source);
    let same_path = reads(preview.segments_cache_path, source.display_path);
    PreviewEffects {
        drop_segments: changed || !same_path,
        drop_highlights: changed,
        unblock_later: with_source(
            preview,
            source,
            uses_background,
        ).cache_write_blocked_until_rev,
    }
}

/// A file that is read again as it was is no new revision, and what was drawn
/// from it stays.
pub proof fn law_unchanged_source_keeps_revision(
    preview: WorktreePreview,
    source: PreviewSource,
    uses_background: bool,
)
    ensures
        ({
            let once = with_source(preview, source, uses_background);
            let twice = with_source(once, source, uses_background);
            &&& shows_source(once, source)
            &&& twice.content_rev == once.content_rev
            &&& twice.style_cache_epoch == once.style_cache_epoch
            &&& twice.markdown == once.markdown
            &&& !source_effects(once, source, uses_background).drop_segments
        }),
{
    let once = with_source(preview, source, uses_background);
    assert(indexed_rows(source.source_len as int, source.line_starts@) <= usize::MAX) by {
        lemma_rows_fit(source);
    }
    assert(shows_source(once, source));
}

proof fn lemma_rows_fit(source: PreviewSource)
    ensures
        0 <= indexed_rows(source.source_len as int, source.line_starts@) <= usize::MAX,
{
    vstd::std_specs::vec::axiom_spec_len(&source.line_starts);
}

fn same_starts(a: &Vec<usize>, b: &Vec<usize>) -> (same: bool)
    ensures
        same == (a@ == b@),
{
    if a.len() != b.len() {
        return false;
    }
    let mut i: usize = 0;
    while i < a.len()
        invariant
            0 <= i <= a@.len(),
            a@.len() == b@.len(),
            forall|k: int| 0 <= k < i ==> #[trigger] a@[k] == b@[k],
        decreases a@.len() - i,
    {
        if a[i] != b[i] {
            assert(a@[i as int] != b@[i as int]);
            return false;
        }
        i += 1;
    }
    assert(a@ =~= b@);
    true
}

impl WorktreePreview {
    /// How many rows there are, once they are known.
    pub fn worktree_preview_line_count(&self) -> (count: Option<usize>)
        ensures
            count == (match self.rows {
                PreviewRows::Ready(count) => Some(count),
                _ => None,
            }),
    {
        match &self.rows {
            PreviewRows::Ready(count) => Some(*count),
            _ => None,
        }
    }

    /// Takes up a file that was read.
    pub fn apply_worktree_preview_ready_state(
        &mut self,
        source: PreviewSource,
        uses_background: bool,
    ) -> (effects: PreviewEffects)
        ensures
            *final(self) == with_source(*old(self), source, uses_background),
            effects == source_effects(*old(self), source, uses_background),
    {
        let line_count = indexed_line_count_from_len(
            source.source_len,
            source.line_starts.as_slice(),
        );
        let same_count = match self.worktree_preview_line_count() {
            Some(count) => count == line_count,
            None => false,
        };
        let source_changed = !(is_text(&self.path, &source.display_path) && is_text(
            &self.source_path,
            &source.source_path,
        ) && same_count && self.source_len == source.source_len && same_str(
            self.text.as_str(),
            source.text.as_str(),
        ) && same_starts(&self.line_starts, &source.line_starts) && same_bytes(
            self.line_flags.as_slice(),
            source.line_flags.as_slice(),
        ));
        let same_path = is_text(&self.segments_cache_path, &source.display_path);
        self.path = Some(source.display_path.clone());
        self.source_path = Some(source.source_path);
        self.rows = PreviewRows::Ready(line_count);
        self.source_len = source.source_len;
        self.text = source.text;
        self.line_starts = source.line_starts;
        self.line_flags = source.line_flags;
        self.has_trigram_index = false;
        self.syntax_language = source.syntax_language;
        self.segments_cache_path = Some(source.display_path);
        self.cache_write_blocked_until_rev = None;
        if source_changed {
            self.content_rev = next_counter(self.content_rev);
            self.style_cache_epoch = next_counter(self.style_cache_epoch);
            let seq = self.markdown.seq;
            self.markdown = SingleMarkdownPreview {
                path: None,
                source_rev: 0,
                document: DrawnDocument::NotLoaded,
                inflight: None,
                seq,
            };
        }
        if source_changed && same_path && uses_background {
            self.cache_write_blocked_until_rev = Some(self.content_rev);
        }
        PreviewEffects {
            drop_segments: source_changed || !same_path,
            drop_highlights: source_changed,
            unblock_later: self.cache_write_blocked_until_rev,
        }
    }

    /// Takes up writing the cache again, unless it was blocked anew since.
    pub fn unblock_cache_writes(&mut self, blocked_rev: u64)
        ensures
            *final(self) == (WorktreePreview {
                cache_write_blocked_until_rev: if old(self).cache_write_blocked_until_rev == Some(
                    blocked_rev,
                ) {
                    None
                } else {
                    old(self).cache_write_blocked_until_rev
                },
                ..*old(self)
            }),
    {
        if is_same_number(self.cache_write_blocked_until_rev, Some(blocked_rev)) {
            self.cache_write_blocked_until_rev = None;
        }
    }

    /// Takes up a file whose text is at hand.
    pub fn set_worktree_preview_ready_source(
        &mut self,
        path: String,
        source_text: String,
        line_starts: Vec<usize>,
        syntax_language: Option<u32>,
        uses_background: bool,
    ) -> (effects: PreviewEffects)
        ensures
            exists|source: PreviewSource|
                {
                    &&& *final(self) == #[trigger] with_source(*old(self), source, uses_background)
                    &&& effects == source_effects(*old(self), source, uses_background)
                    &&& is_read_text(source, path, source_text, line_starts@, syntax_language)
                },
    {
        let line_flags = preview_line_flags_from_source(
            source_text.as_str(),
            line_starts.as_slice(),
        );
        let source = PreviewSource {
            display_path: path.clone(),
            source_path: path,
            source_len: source_text.as_str().as_bytes().len(),
            text: source_text,
            line_starts,
            line_flags,
            syntax_language,
        };
        let ghost read = source;
        let ghost before = *self;
        let effects = self.apply_worktree_preview_ready_state(source, uses_background);
        assert(*self == with_source(before, read, uses_background));
        effects
    }

    /// Takes up a file whose text and line flags are at hand.
    pub fn set_worktree_preview_ready_materialized_source(
        &mut self,
        display_path: String,
        source_path: String,
        source_text: String,
        line_starts: Vec<usize>,
        line_flags: Vec<u8>,
        syntax_language: Option<u32>,
        uses_background: bool,
    ) -> (effects: PreviewEffects)
        ensures
            ({
                let source = PreviewSource {
                    display_path,
                    source_path,
                    source_len: encode_utf8(source_text@).len() as usize,
                    text: source_text,
                    line_starts,
                    line_flags,
                    syntax_language,
                };
                &&& *final(self) == with_source(*old(self), source, uses_background)
                &&& effects == source_effects(*old(self), source, uses_background)
            }),
    {
        let source_len = source_text.as_str().as_bytes().len();
        self.apply_worktree_preview_ready_state(
            PreviewSource {
                display_path,
                source_path,
                source_len,
                text: source_text,
                line_starts,
                line_flags,
                syntax_language,
            },
            uses_background,
        )
    }

    /// Takes up a file of which only the lines are known.
    pub fn set_worktree_preview_ready_indexed_source(
        &mut self,
        display_path: String,
        source_path: String,
        source_len: usize,
        line_starts: Vec<usize>,
        line_flags: Vec<u8>,
        syntax_language: Option<u32>,
        uses_background: bool,
    ) -> (effects: PreviewEffects)
        ensures
            exists|text: String|
                {
                    let source = PreviewSource {
                        display_path,
                        source_path,
                        source_len,
                        text,
                        line_starts,
                        line_flags,
                        syntax_language,
                    };
                    &&& (#[trigger] text@).len() == 0
                    &&& *final(self) == with_source(*old(self), source, uses_background)
                    &&& effects == source_effects(*old(self), source, uses_background)
                },
    {
        let text = String::new();
        let ghost empty = text;
        let effects = self.apply_worktree_preview_ready_state(
            PreviewSource {
                display_path,
                source_path,
                source_len,
                text,
                line_starts,
                line_flags,
                syntax_language,
            },
            uses_background,
        );
        assert(empty@.len() == 0);
        effects
    }

    /// Takes up a file by its lines.
    pub fn set_worktree_preview_ready_rows(
        &mut self,
        path: String,
        lines: &[String],
        source_len: usize,
        syntax_language: Option<u32>,
        uses_background: bool,
    ) -> (effects: PreviewEffects)
        ensures
            exists|source: PreviewSource|
                {
                    &&& *final(self) == #[trigger] with_source(*old(self), source, uses_background)
                    &&& effects == source_effects(*old(self), source, uses_background)
                    &&& is_read_text(
                        source,
                        path,
                        source.text,
                        source.line_starts@,
                        syntax_language,
                    )
                    &&& lines@.len() == 0 ==> source.text@.len() == 0 && source.line_starts@.len()
                        == 0
                    &&& lines@.len() > 0 ==> source.text@ == crate::lines::source_text(
                        lines@,
                        source_len as int,
                    ) && crate::diff::split_meta::as_ints(source.line_starts@)
                        == crate::lines::starts_of(encode_utf8(source.text@))
                },
    {
        let (source_text, line_starts) = preview_source_text_and_line_starts_from_lines(
            lines,
            source_len,
        );
        let ghost text = source_text;
        let ghost starts = line_starts@;
        let ghost before = *self;
        let effects = self.set_worktree_preview_ready_source(
            path,
            source_text,
            line_starts,
            syntax_language,
            uses_background,
        );
        proof {
            let source = choose|source: PreviewSource|
                {
                    &&& *self == #[trigger] with_source(before, source, uses_background)
                    &&& effects == source_effects(before, source, uses_background)
                    &&& is_read_text(source, path, text, starts, syntax_language)
                };
            assert(*self == with_source(before, source, uses_background));
        }
        effects
    }
}

/// A file that was read from where it is shown as being, its text at hand and
/// its line flags those of the text.
pub open spec fn is_read_text(
    source: PreviewSource,
    path: String,
    text: String,
    line_starts: Seq<usize>,
    syntax_language: Option<u32>,
) -> bool {
    let bytes = encode_utf8(text@);
    &&& source.display_path@ == path@
    &&& source.source_path@ == path@
    &&& source.source_len == bytes.len()
    &&& source.text@ == text@
    &&& source.line_starts@ == line_starts
    &&& source.syntax_language == syntax_language
    &&& source.line_flags@.len() == indexed_rows(bytes.len() as int, line_starts)
    &&& forall|i: int|
        0 <= i < source.line_flags@.len() ==> #[trigger] source.line_flags@[i] == ({
            let range = indexed_range(line_starts, bytes.len() as int, i);
            line_flags(text_within(bytes, range.0, range.1))
        })
}

/// What is to be done for a document.
#[derive(Clone, Copy, Debug, PartialEq, Eq, Structural)]
pub enum MarkdownAction {
    /// Nothing.
    Keep,
    /// Nothing: there is nothing to draw from.
    Cleared,
    /// Nothing: the source is too large.
    Refused,
    /// Draw it, from the text at hand or else from the file.
    Draw { seq: u64, from_text: bool },
}

/// How many bytes a document is drawn from.
pub open spec fn drawn_len(preview: WorktreePreview) -> int {
    if preview.text@.len() == 0 {
        preview.source_len as int
    } else {
        encode_utf8(preview.text@).len() as int
    }
}

/// The document on screen is that of the file on screen, or is being drawn.
pub open spec fn is_drawn(preview: WorktreePreview) -> bool {
    &&& preview.path matches Some(path) && reads(preview.markdown.path, path)
    &&& preview.markdown.source_rev == preview.content_rev
    &&& match preview.markdown.document {
        DrawnDocument::Ready => true,
        DrawnDocument::Error(_) => true,
        DrawnDocument::Loading => preview.markdown.inflight is Some,
        DrawnDocument::NotLoaded => false,
    }
}

/// The pane after it was asked for the document of the file on screen.
pub open spec fn single_ensured(
    preview: WorktreePreview,
    max_source_bytes: usize,
    too_large: String,
) -> (WorktreePreview, MarkdownAction) {
    if preview.path is None || !(preview.rows is Ready) || is_drawn(preview) {
        (preview, MarkdownAction::Keep)
    } else if drawn_len(preview) > max_source_bytes {
        (
            WorktreePreview {
                markdown: SingleMarkdownPreview {
                    path: preview.path,
                    source_rev: preview.content_rev,
                    document: DrawnDocument::Error(too_large),
                    inflight: None,
                    seq: preview.markdown.seq,
                },
                ..preview
            },
            MarkdownAction::Refused,
        )
    } else {
        let seq = next_epoch(preview.markdown.seq);
        (
            WorktreePreview {
                markdown: SingleMarkdownPreview {
                    path: preview.path,
                    source_rev: preview.content_rev,
                    document: DrawnDocument::Loading,
                    inflight: Some(seq),
                    seq,
                },
                ..preview
            },
            MarkdownAction::Draw { seq, from_text: preview.text@.len() > 0 },
        )
    }
}

/// Why a document was not drawn, and whether the source reads better.
#[derive(Debug)]
pub struct MarkdownPreviewRefusal {
    pub message: String,
    pub prefers_source: bool,
}

/// What has become of a drawing.
#[derive(Clone, Copy, Debug, PartialEq, Eq, Structural)]
pub enum MarkdownOutcome {
    /// It came too late.
    Stale,
    /// It is on screen; an open search has to look again.
    Shown,
    /// There is none; `to_source` says to show the source instead.
    Refused { to_source: bool },
}

/// The pane after a drawing of its document has ended.
pub open spec fn single_completed(
    preview: WorktreePreview,
    seq: u64,
    path: String,
    source_rev: u64,
    result: Result<(), MarkdownPreviewRefusal>,
) -> (WorktreePreview, MarkdownOutcome) {
    if preview.markdown.inflight != Some(seq) || !reads(preview.path, path) || preview.content_rev
        != source_rev {
        (preview, MarkdownOutcome::Stale)
    } else {
        match result {
            Ok(_) => (
                WorktreePreview {
                    markdown: SingleMarkdownPreview {
                        inflight: None,
                        document: DrawnDocument::Ready,
                        ..preview.markdown
                    },
                    ..preview
                },
                MarkdownOutcome::Shown,
            ),
            Err(refusal) => (
                WorktreePreview {
                    markdown: SingleMarkdownPreview {
                        inflight: None,
                        document: DrawnDocument::Error(refusal.message),
                        ..preview.markdown
                    },
                    ..preview
                },
                MarkdownOutcome::Refused { to_source: refusal.prefers_source },
            ),
        }
    }
}

proof fn lemma_empty_text(text: Seq<char>)
    ensures
        (encode_utf8(text).len() == 0) == (text.len() == 0),
{
    vstd::utf8::encode_utf8_decode_utf8(text);
    if encode_utf8(text).len() == 0 {
        reveal_with_fuel(vstd::utf8::decode_utf8, 1);
    }
}

impl WorktreePreview {
    /// Sees to the document of the file on screen.
    pub fn ensure_single_markdown_preview_cache(
        &mut self,
        max_source_bytes: usize,
        too_large: String,
    ) -> (action: MarkdownAction)
        ensures
            (*final(self), action) == single_ensured(*old(self), max_source_bytes, too_large),
    {
        let path = match &self.path {
            Some(path) => path.clone(),
            None => {
                return MarkdownAction::Keep;
            },
        };
        if let PreviewRows::Ready(_) = &self.rows {
        } else {
            return MarkdownAction::Keep;
        }
        if is_text(&self.markdown.path, &path) && self.markdown.source_rev == self.content_rev {
            let settled = match &self.markdown.document {
                DrawnDocument::Ready => true,
                DrawnDocument::Error(_) => true,
                DrawnDocument::Loading => self.markdown.inflight.is_some(),
                DrawnDocument::NotLoaded => false,
            };
            if settled {
                return MarkdownAction::Keep;
            }
        }
        proof {
            lemma_empty_text(self.text@);
        }
        let text_len = self.text.as_str().as_bytes().len();
        let source_len = if text_len == 0 {
            self.source_len
        } else {
            text_len
        };
        let old_seq = self.markdown.seq;
        if source_len > max_source_bytes {
            self.markdown = SingleMarkdownPreview {
                path: Some(path),
                source_rev: self.content_rev,
                document: DrawnDocument::Error(too_large),
                inflight: None,
                seq: old_seq,
            };
            return MarkdownAction::Refused;
        }
        let seq = next_counter(old_seq);
        self.markdown = SingleMarkdownPreview {
            path: Some(path),
            source_rev: self.content_rev,
            document: DrawnDocument::Loading,
            inflight: Some(seq),
            seq,
        };
        MarkdownAction::Draw { seq, from_text: text_len > 0 }
    }

    /// Takes up a drawing that has ended, unless something else is on screen.
    pub fn complete_single_markdown_preview(
        &mut self,
        seq: u64,
        path: &String,
        source_rev: u64,
        result: Result<(), MarkdownPreviewRefusal>,
    ) -> (outcome: MarkdownOutcome)
        ensures
            (*final(self), outcome) == single_completed(
                *old(self),
                seq,
                *path,
                source_rev,
                result,
            ),
    {
        if !is_same_number(self.markdown.inflight, Some(seq)) {
            return MarkdownOutcome::Stale;
        }
        if !is_text(&self.path, path) || self.content_rev != source_rev {
            return MarkdownOutcome::Stale;
        }
        self.markdown.inflight = None;
        match result {
            Ok(_) => {
                self.markdown.document = DrawnDocument::Ready;
                MarkdownOutcome::Shown
            },
            Err(refusal) => {
                self.markdown.document = DrawnDocument::Error(refusal.message);
                MarkdownOutcome::Refused { to_source: refusal.prefers_source }
            },
        }
    }
}

/// A drawing that was begun and not overtaken is shown.
pub proof fn law_begun_drawing_is_shown(
    preview: WorktreePreview,
    max_source_bytes: usize,
    too_large: String,
)
    requires
        single_ensured(preview, max_source_bytes, too_large).1 is Draw,
    ensures
        ({
            let (begun, action) = single_ensured(preview, max_source_bytes, too_large);
            let (shown, outcome) = single_completed(
                begun,
                action->Draw_seq,
                preview.path->Some_0,
                preview.content_rev,
                Ok(()),
            );
            outcome == MarkdownOutcome::Shown && is_drawn(shown)
        }),
{
}

/// A drawing of a file that has changed since is not shown.
pub proof fn law_overtaken_drawing_is_dropped(
    preview: WorktreePreview,
    source: PreviewSource,
    uses_background: bool,
    seq: u64,
    path: String,
    source_rev: u64,
    result: Result<(), MarkdownPreviewRefusal>,
)
    requires
        !shows_source(preview, source),
    ensures
        ({
            let changed = with_source(preview, source, uses_background);
            single_completed(changed, seq, path, source_rev, result) == (
                changed,
                MarkdownOutcome::Stale,
            )
        }),
{
}

/// A document drawn from both sides of a file diff.
#[derive(Debug)]
pub struct FileMarkdownPreview {
    pub repo_id: Option<u64>,
    pub target: Option<String>,
    pub rev: u64,
    pub content_signature: Option<u64>,
    pub document: DrawnDocument,
    pub inflight: Option<u64>,
    pub seq: u64,
}

/// The texts that a document of a file diff is drawn from: a digest of them,
/// and how many bytes they have.
#[derive(Clone, Copy, Debug, PartialEq, Eq, Structural)]
pub struct FileMarkdownSource {
    pub content_signature: u64,
    pub combined_len: usize,
}

/// The document is that of this very file diff.
pub open spec fn is_of_diff(
    preview: FileMarkdownPreview,
    rendered: RenderedFileDiff,
    shows_path: bool,
) -> bool {
    preview.repo_id == Some(rendered.repo_id) && reads(preview.target, rendered.target)
        && shows_path
}

/// The preview after it was asked for the document of a file diff. `shows_path`
/// says whether the pane shows the file that the diff is of.
pub open spec fn file_ensured(
    preview: FileMarkdownPreview,
    rendered: Option<RenderedFileDiff>,
    shows_path: bool,
    source: Option<FileMarkdownSource>,
    max_source_bytes: usize,
    too_large: String,
) -> (FileMarkdownPreview, MarkdownAction) {
    match rendered {
        None => (
            FileMarkdownPreview {
                repo_id: None,
                target: None,
                rev: 0,
                content_signature: None,
                document: DrawnDocument::NotLoaded,
                inflight: None,
                seq: preview.seq,
            },
            MarkdownAction::Cleared,
        ),
        Some(rendered) => {
            let same = is_of_diff(preview, rendered, shows_path);
            let moved = FileMarkdownPreview {
                repo_id: Some(rendered.repo_id),
                target: Some(rendered.target),
                rev: rendered.rev,
                content_signature: None,
                document: DrawnDocument::NotLoaded,
                inflight: None,
                seq: preview.seq,
            };
            if same && preview.rev == rendered.rev {
                (preview, MarkdownAction::Keep)
            } else if same && (source matches Some(source) && preview.content_signature == Some(
                source.content_signature,
            )) {
                (
                    FileMarkdownPreview {
                        rev: if preview.inflight is None {
                            rendered.rev
                        } else {
                            preview.rev
                        },
                        ..preview
                    },
                    MarkdownAction::Keep,
                )
            } else {
                match source {
                    None => (moved, MarkdownAction::Cleared),
                    Some(source) => if source.combined_len > max_source_bytes {
                        (
                            FileMarkdownPreview {
                                document: DrawnDocument::Error(too_large),
                                content_signature: Some(source.content_signature),
                                ..moved
                            },
                            MarkdownAction::Refused,
                        )
                    } else {
                        let seq = next_epoch(preview.seq);
                        (
                            FileMarkdownPreview {
                                document: DrawnDocument::Loading,
                                seq,
                                inflight: Some(seq),
                                ..moved
                            },
                            MarkdownAction::Draw { seq, from_text: false },
                        )
                    },
                }
            }
        },
    }
}

/// The preview after a drawing has ended.
pub open spec fn file_completed(
    preview: FileMarkdownPreview,
    seq: u64,
    rendered: RenderedFileDiff,
    content_signature: u64,
    result: Result<(), String>,
) -> (FileMarkdownPreview, MarkdownOutcome) {
    if preview.inflight != Some(seq) || preview.repo_id != Some(rendered.repo_id) || preview.rev
        != rendered.rev || !reads(preview.target, rendered.target) {
        (preview, MarkdownOutcome::Stale)
    } else {
        let settled = FileMarkdownPreview {
            inflight: None,
            content_signature: Some(content_signature),
            ..preview
        };
        match result {
            Ok(_) => (
                FileMarkdownPreview { document: DrawnDocument::Ready, ..settled },
                MarkdownOutcome::Shown,
            ),
            Err(message) => (
                FileMarkdownPreview { document: DrawnDocument::Error(message), ..settled },
                MarkdownOutcome::Refused { to_source: false },
            ),
        }
    }
}

impl FileMarkdownPreview {
    /// Sees to the document of the file diff on screen.
    pub fn ensure_file_markdown_preview_cache(
        &mut self,
        rendered: &Option<RenderedFileDiff>,
        shows_path: bool,
        source: Option<FileMarkdownSource>,
        max_source_bytes: usize,
        too_large: String,
    ) -> (action: MarkdownAction)
        ensures
            (*final(self), action) == file_ensured(
                *old(self),
                *rendered,
                shows_path,
                source,
                max_source_bytes,
                too_large,
            ),
    {
        let rendered = match rendered {
            Some(rendered) => rendered,
            None => {
                self.repo_id = None;
                self.target = None;
                self.rev = 0;
                self.content_signature = None;
                self.document = DrawnDocument::NotLoaded;
                self.inflight = None;
                return MarkdownAction::Cleared;
            },
        };
        let same = is_same_number(self.repo_id, Some(rendered.repo_id)) && is_text(
            &self.target,
            &rendered.target,
        ) && shows_path;
        if same && self.rev == rendered.rev {
            return MarkdownAction::Keep;
        }
        if same {
            if let Some(source) = source {
                if is_same_number(self.content_signature, Some(source.content_signature)) {
                    if self.inflight.is_none() {
                        self.rev = rendered.rev;
                    }
                    return MarkdownAction::Keep;
                }
            }
        }
        self.repo_id = Some(rendered.repo_id);
        self.rev = rendered.rev;
        self.content_signature = None;
        self.target = Some(rendered.target.clone());
        self.document = DrawnDocument::NotLoaded;
        self.inflight = None;
        let source = match source {
            Some(source) => source,
            None => {
                return MarkdownAction::Cleared;
            },
        };
        if source.combined_len > max_source_bytes {
            self.document = DrawnDocument::Error(too_large);
            self.content_signature = Some(source.content_signature);
            return MarkdownAction::Refused;
        }
        self.document = DrawnDocument::Loading;
        self.seq = next_counter(self.seq);
        self.inflight = Some(self.seq);
        MarkdownAction::Draw { seq: self.seq, from_text: false }
    }

    /// Takes up a drawing that has ended, unless something else is on screen.
    pub fn complete_file_markdown_preview(
        &mut self,
        seq: u64,
        rendered: &RenderedFileDiff,
        content_signature: u64,
        result: Result<(), String>,
    ) -> (outcome: MarkdownOutcome)
        ensures
            (*final(self), outcome) == file_completed(
                *old(self),
                seq,
                *rendered,
                content_signature,
                result,
            ),
    {
        if !is_same_number(self.inflight, Some(seq)) || !is_same_number(
            self.repo_id,
            Some(rendered.repo_id),
        ) || self.rev != rendered.rev || !is_text(&self.target, &rendered.target) {
            return MarkdownOutcome::Stale;
        }
        self.inflight = None;
        self.content_signature = Some(content_signature);
        match result {
            Ok(_) => {
                self.document = DrawnDocument::Ready;
                MarkdownOutcome::Shown
            },
            Err(message) => {
                self.document = DrawnDocument::Error(message);
                MarkdownOutcome::Refused { to_source: false }
            },
        }
    }
}

/// A drawing of a file diff that was begun and not overtaken is shown, and
/// stays as long as the texts are the same.
pub proof fn law_drawn_diff_is_kept(
    preview: FileMarkdownPreview,
    rendered: RenderedFileDiff,
    shows_path: bool,
    source: FileMarkdownSource,
    max_source_bytes: usize,
    too_large: String,
    later: RenderedFileDiff,
)
    requires
        file_ensured(
            preview,
            Some(rendered),
            shows_path,
            Some(source),
            max_source_bytes,
            too_large,
        ).1 is Draw,
        later.repo_id == rendered.repo_id,
        later.target@ == rendered.target@,
    ensures
        ({
            let (begun, action) = file_ensured(
                preview,
                Some(rendered),
                shows_path,
                Some(source),
                max_source_bytes,
                too_large,
            );
            let (shown, outcome) = file_completed(
                begun,
                action->Draw_seq,
                rendered,
                source.content_signature,
                Ok(()),
            );
            let (kept, next) = file_ensured(
                shown,
                Some(later),
                true,
                Some(source),
                max_source_bytes,
                too_large,
            );
            &&& outcome == MarkdownOutcome::Shown
            &&& next == MarkdownAction::Keep
            &&& kept.document is Ready
        }),
{
}

/// The key of the syntax document of the file on screen.
pub open spec fn preview_syntax_key(preview: WorktreePreview, repo_id: Option<u64>) -> Option<
    KeyView,
> {
    match (repo_id, preview.path) {
        (Some(repo_id), Some(path)) => Some(
            (KeyView {
                repo_id,
                target_rev: preview.content_rev,
                file_path: path@,
                view_mode: PreparedSyntaxViewMode::WorktreePreview,
            }),
        ),
        _ => None,
    }
}

/// What has become of a syntax document.
#[derive(Clone, Copy, Debug, PartialEq, Eq, Structural)]
pub enum PreviewSyntaxStep {
    Nothing,
    /// A document is there; a click that waited for it is taken up again.
    RetryClick,
    /// It has to be prepared elsewhere.
    PrepareInBackground,
}

impl WorktreePreview {
    pub fn worktree_preview_prepared_syntax_key(&self, repo_id: Option<u64>) -> (key: Option<
        PreparedSyntaxDocumentKey,
    >)
        ensures
            key_view(key) == preview_syntax_key(*self, repo_id),
    {
        match (repo_id, &self.path) {
            (Some(repo_id), Some(path)) => Some(
                prepared_syntax_document_key(
                    repo_id,
                    self.content_rev,
                    path.as_str(),
                    PreparedSyntaxViewMode::WorktreePreview,
                ),
            ),
            _ => None,
        }
    }

    /// The document to prepare, if the file has a language, its text is at hand
    /// and there is none yet.
    pub fn refresh_worktree_preview_syntax_document(
        &self,
        repo_id: Option<u64>,
        has_document: bool,
    ) -> (key: Option<PreparedSyntaxDocumentKey>)
        ensures
            key_view(key) == (if self.syntax_language is Some && self.rows is Ready
                && self.text@.len() > 0 && !has_document {
                preview_syntax_key(*self, repo_id)
            } else {
                None
            }),
    {
        if self.syntax_language.is_none() || has_document {
            return None;
        }
        if let PreviewRows::Ready(_) = &self.rows {
        } else {
            return None;
        }
        proof {
            lemma_empty_text(self.text@);
        }
        if self.text.as_str().is_empty() {
            return None;
        }
        self.worktree_preview_prepared_syntax_key(repo_id)
    }

    /// Takes up a document that was prepared elsewhere, and says whether the
    /// pane is to be drawn again for it: where it was kept and is of the file
    /// on screen.
    pub fn complete_worktree_preview_syntax_document(
        &mut self,
        documents: &mut PreparedSyntaxDocuments,
        repo_id: Option<u64>,
        key: PreparedSyntaxDocumentKey,
        document: Option<u64>,
    ) -> (redraw: bool)
        requires
            old(documents).wf(),
        ensures
            final(documents).wf(),
            redraw == (document is Some && !old(documents).documents().dom().contains(key@)
                && preview_syntax_key(*old(self), repo_id) == Some(key@)),
            document_kept(
                old(documents).documents(),
                Some(key@),
                document,
                final(documents).documents(),
                document is Some && !old(documents).documents().dom().contains(key@),
            ),
            *final(self) == (if redraw {
                (WorktreePreview {
                    style_cache_epoch: next_epoch(old(self).style_cache_epoch),
                    ..*old(self)
                })
            } else {
                *old(self)
            }),
    {
        let document = match document {
            Some(document) => document,
            None => {
                return false;
            },
        };
        let is_current = match self.worktree_preview_prepared_syntax_key(repo_id) {
            Some(current) => current.same(&key),
            None => false,
        };
        let inserted = documents.insert_prepared_syntax_document(key, document);
        if inserted && is_current {
            self.style_cache_epoch = next_counter(self.style_cache_epoch);
            true
        } else {
            false
        }
    }
}

/// Keeps what a quick attempt at a document gave.
pub fn apply_worktree_preview_syntax_attempt(
    documents: &mut PreparedSyntaxDocuments,
    key: PreparedSyntaxDocumentKey,
    attempt: PrepareAttempt,
) -> (step: PreviewSyntaxStep)
    requires
        old(documents).wf(),
    ensures
        final(documents).wf(),
        step == (match attempt {
            PrepareAttempt::Ready { .. } => if old(documents).documents().dom().contains(key@) {
                PreviewSyntaxStep::Nothing
            } else {
                PreviewSyntaxStep::RetryClick
            },
            PrepareAttempt::TimedOut => PreviewSyntaxStep::PrepareInBackground,
            PrepareAttempt::Unsupported => PreviewSyntaxStep::Nothing,
        }),
        document_kept(
            old(documents).documents(),
            Some(key@),
            ready_document(Some(attempt)),
            final(documents).documents(),
            step == PreviewSyntaxStep::RetryClick,
        ),
{
    match attempt {
        PrepareAttempt::Ready { document } => {
            if documents.insert_prepared_syntax_document(key, document) {
                PreviewSyntaxStep::RetryClick
            } else {
                PreviewSyntaxStep::Nothing
            }
        },
        PrepareAttempt::TimedOut => PreviewSyntaxStep::PrepareInBackground,
        PrepareAttempt::Unsupported => PreviewSyntaxStep::Nothing,
    }
}

} // verus!
