//! Preparing the syntax of one side of a file diff.
//!
//! A side whose text is in memory can be parsed at once; one that is left on
//! disk has to be read first, and the file may have changed since the rows were
//! built from it. Every step is given what was seen outside and says what to do
//! next.
use super::file_cache::rebuild_completed;
use super::file_cache::FileDiffCache;
use super::file_cache::FileDiffRebuildOutcome;
use super::file_cache::FileDiffRebuildResult;
use super::file_cache::RenderedFileDiff;
use super::syntax_cache::document_kept;
use super::syntax_cache::is_reparse_seed;
use super::syntax_cache::mode_of;
use super::syntax_cache::next_epoch;
use super::syntax_cache::view_mode_for_region;
use super::syntax_cache::DiffTextRegion;
use super::syntax_cache::FileDiffStyleCacheEpochs;
use super::syntax_cache::KeyView;
use super::syntax_cache::PreparedSyntaxDocumentKey;
use super::syntax_cache::PreparedSyntaxDocuments;
use super::syntax_cache::DIFF_CLICK_FOREGROUND_COMPLETION_MAX_TEXT_BYTES;
use super::syntax_cache::PREPARED_DIFF_SYNTAX_DOCUMENT_MAX_TEXT_BYTES;
use super::syntax_cache::prepared_syntax_document_key;
use crate::text::is_same_number;
use crate::text::is_same_text;
use crate::text::same_text;
use vstd::prelude::*;

verus! {

/// What is kept per side: the worker that is under way, by the generation it
/// was started for, and the text that was read back for it.
#[derive(Debug)]
pub struct SideSlot {
    pub inflight: Option<u64>,
    pub retained_text_len: Option<usize>,
}

/// One side of the file diff as the pane holds it.
#[derive(Clone, Copy, Debug, PartialEq, Eq, Structural)]
pub struct SideFacts {
    /// The file behind the side is the one that the rows were built from.
    pub source_is_current: bool,
    pub has_document: bool,
    pub has_language: bool,
    /// Length of the text in memory; 0 where the text is on disk.
    pub resident_len: usize,
    /// Length of the file behind the side, where there is one that can be read.
    pub source_file_len: Option<u64>,
    pub has_line_starts: bool,
}

/// What a request for a side's document leads to.
#[derive(Clone, Copy, Debug, PartialEq, Eq, Structural)]
pub enum SideRequestAction {
    /// The file has changed: a click that waits for the document is dropped.
    DropPendingClick,
    /// The document is there: a click that waits for it is run again.
    ReplayPendingClick,
    /// A worker is under way already.
    AlreadyRunning,
    /// A worker has to be started.
    Start { generation: u64, reads_file: bool },
}

/// The slot once the cache is as it is now, where its generation was `seen` when the
/// slot was last brought up to date: rows of another generation leave no worker and no
/// text behind.
pub open spec fn followed(slot: SideSlot, cache: FileDiffCache, seen: u64) -> SideSlot {
    if cache.syntax_generation == seen {
        slot
    } else {
        SideSlot { inflight: None, retained_text_len: None }
    }
}

pub open spec fn usable_text_len(slot: SideSlot, facts: SideFacts) -> Option<usize> {
    if facts.resident_len > 0 {
        Some(facts.resident_len)
    } else {
        slot.retained_text_len
    }
}

/// There is text of a size that can be parsed, in memory or on disk.
pub open spec fn has_parsable_text(slot: SideSlot, facts: SideFacts) -> bool {
    match usable_text_len(slot, facts) {
        Some(len) => len <= PREPARED_DIFF_SYNTAX_DOCUMENT_MAX_TEXT_BYTES,
        None => facts.source_file_len matches Some(len) && len
            <= PREPARED_DIFF_SYNTAX_DOCUMENT_MAX_TEXT_BYTES,
    }
}

pub open spec fn requested(
    slot: SideSlot,
    facts: SideFacts,
    has_key: bool,
    generation: u64,
) -> (SideSlot, SideRequestAction) {
    if !facts.source_is_current {
        (SideSlot { retained_text_len: None, ..slot }, SideRequestAction::DropPendingClick)
    } else if facts.has_document {
        (slot, SideRequestAction::ReplayPendingClick)
    } else if slot.inflight is Some {
        (slot, SideRequestAction::AlreadyRunning)
    } else if !facts.has_language || !has_parsable_text(slot, facts) || !has_key {
        (slot, SideRequestAction::DropPendingClick)
    } else {
        (
            SideSlot { inflight: Some(generation), ..slot },
            SideRequestAction::Start {
                generation,
                reads_file: usable_text_len(slot, facts) is None,
            },
        )
    }
}

/// What the end of a worker leads to.
#[derive(Clone, Copy, Debug, PartialEq, Eq, Structural)]
pub enum SideCompletion {
    /// The pane has moved on: the result is dropped.
    Superseded,
    /// There is no document: a click that waits for it is dropped.
    DropPendingClick,
    /// The document is to be kept, and a click that waits for it run again.
    Install { retain_text: bool },
}

/// What a worker was started for.
#[derive(Debug)]
pub struct SideTicket {
    pub generation: u64,
    pub repo_id: Option<u64>,
    pub rev: u64,
    pub target: Option<String>,
    pub reads_file: bool,
}

pub open spec fn is_current_ticket(cache: FileDiffCache, ticket: SideTicket) -> bool {
    &&& cache.syntax_generation == ticket.generation
    &&& cache.repo_id == ticket.repo_id
    &&& cache.rev == ticket.rev
    &&& same_text(cache.target, ticket.target)
}

/// The slot once a worker is done: its own mark goes, that of another worker
/// stays.
pub open spec fn released(slot: SideSlot, generation: u64) -> SideSlot {
    if slot.inflight == Some(generation) {
        SideSlot { inflight: None, ..slot }
    } else {
        slot
    }
}

pub open spec fn completed(
    slot: SideSlot,
    cache: FileDiffCache,
    ticket: SideTicket,
    source_is_current: bool,
    prepared_text_len: Option<usize>,
) -> (SideSlot, SideCompletion) {
    let slot = released(slot, ticket.generation);
    if !is_current_ticket(cache, ticket) {
        (slot, SideCompletion::Superseded)
    } else if !source_is_current {
        (SideSlot { retained_text_len: None, ..slot }, SideCompletion::DropPendingClick)
    } else {
        match prepared_text_len {
            None => (slot, SideCompletion::DropPendingClick),
            Some(len) => (
                if ticket.reads_file {
                    SideSlot { retained_text_len: Some(len), ..slot }
                } else {
                    slot
                },
                SideCompletion::Install { retain_text: ticket.reads_file },
            ),
        }
    }
}

impl SideSlot {
    pub fn new() -> (slot: Self)
        ensures
            slot.inflight is None,
            slot.retained_text_len is None,
    {
        SideSlot { inflight: None, retained_text_len: None }
    }

    /// The rows belong to another generation: the worker that is under way is for rows
    /// that are gone, and so is the text that was kept.
    pub fn forget_generation(&mut self)
        ensures
            final(self).inflight is None,
            final(self).retained_text_len is None,
    {
        self.inflight = None;
        self.retained_text_len = None;
    }

    /// A document for this side is wanted.
    pub fn request_file_diff_side_syntax_document(
        &mut self,
        facts: &SideFacts,
        has_key: bool,
        generation: u64,
    ) -> (action: SideRequestAction)
        ensures
            *final(self) == requested(*old(self), *facts, has_key, generation).0,
            action == requested(*old(self), *facts, has_key, generation).1,
    {
        if !facts.source_is_current {
            self.retained_text_len = None;
            return SideRequestAction::DropPendingClick;
        }
        if facts.has_document {
            return SideRequestAction::ReplayPendingClick;
        }
        if self.inflight.is_some() {
            return SideRequestAction::AlreadyRunning;
        }
        if !facts.has_language {
            return SideRequestAction::DropPendingClick;
        }
        let text_len = if facts.resident_len > 0 {
            Some(facts.resident_len)
        } else {
            self.retained_text_len
        };
        let parsable = match text_len {
            Some(len) => len <= PREPARED_DIFF_SYNTAX_DOCUMENT_MAX_TEXT_BYTES,
            None => match facts.source_file_len {
                Some(len) => len <= PREPARED_DIFF_SYNTAX_DOCUMENT_MAX_TEXT_BYTES as u64,
                None => false,
            },
        };
        if !parsable || !has_key {
            return SideRequestAction::DropPendingClick;
        }
        self.inflight = Some(generation);
        SideRequestAction::Start { generation, reads_file: text_len.is_none() }
    }

    /// Whether a worker that has just been started is still wanted. Where it is
    /// not, its mark goes.
    pub fn worker_may_start(&mut self, cache: &FileDiffCache, generation: u64) -> (still_current:
        bool)
        ensures
            still_current == (cache.syntax_generation == generation),
            *final(self) == (if still_current {
                *old(self)
            } else {
                released(*old(self), generation)
            }),
    {
        if cache.syntax_generation == generation {
            return true;
        }
        if is_same_number(self.inflight, Some(generation)) {
            self.inflight = None;
        }
        false
    }

    /// A worker is done; `prepared_text_len` is the length of the text that it
    /// parsed, where it could.
    pub fn complete_file_diff_side_syntax_document(
        &mut self,
        cache: &FileDiffCache,
        ticket: &SideTicket,
        source_is_current: bool,
        prepared_text_len: Option<usize>,
    ) -> (completion: SideCompletion)
        ensures
            ({
                let after = completed(
                    *old(self),
                    *cache,
                    *ticket,
                    source_is_current,
                    prepared_text_len,
                );
                *final(self) == after.0 && completion == after.1
            }),
    {
        if is_same_number(self.inflight, Some(ticket.generation)) {
            self.inflight = None;
        }
        if cache.syntax_generation != ticket.generation || !is_same_number(
            cache.repo_id,
            ticket.repo_id,
        ) || cache.rev != ticket.rev || !is_same_text(&cache.target, &ticket.target) {
            return SideCompletion::Superseded;
        }
        if !source_is_current {
            self.retained_text_len = None;
            return SideCompletion::DropPendingClick;
        }
        match prepared_text_len {
            None => SideCompletion::DropPendingClick,
            Some(len) => {
                if ticket.reads_file {
                    self.retained_text_len = Some(len);
                }
                SideCompletion::Install { retain_text: ticket.reads_file }
            },
        }
    }
}

/// Brings both sides up to date with the cache, whose generation was `seen` before.
/// Tells whether text that was kept for them goes.
pub fn follow_file_diff_generation(
    cache: &FileDiffCache,
    seen: u64,
    left: &mut SideSlot,
    right: &mut SideSlot,
) -> (forgot: bool)
    ensures
        forgot == (cache.syntax_generation != seen),
        *final(left) == followed(*old(left), *cache, seen),
        *final(right) == followed(*old(right), *cache, seen),
{
    if cache.syntax_generation == seen {
        return false;
    }
    left.forget_generation();
    right.forget_generation();
    true
}

/// Once rows were swapped or dropped, the first request for a side is not held up by a
/// worker for the old ones, and does not parse their text.
pub proof fn law_new_rows_free_the_sides(
    cache: FileDiffCache,
    seq: u64,
    rendered: RenderedFileDiff,
    whitespace_mode: u8,
    content_signature: u64,
    result: FileDiffRebuildResult,
    slot: SideSlot,
    facts: SideFacts,
    has_key: bool,
)
    requires
        rebuild_completed(
            cache,
            seq,
            rendered,
            whitespace_mode,
            content_signature,
            result,
        ).1 != FileDiffRebuildOutcome::Dropped,
    ensures
        ({
            let now = rebuild_completed(
                cache,
                seq,
                rendered,
                whitespace_mode,
                content_signature,
                result,
            ).0;
            let (after, action) = requested(
                followed(slot, now, cache.syntax_generation),
                facts,
                has_key,
                now.syntax_generation,
            );
            &&& action != SideRequestAction::AlreadyRunning
            &&& after.retained_text_len is None
            &&& action matches SideRequestAction::Start { reads_file, .. } ==> reads_file == (
            facts.resident_len == 0)
        }),
{
}

/// A worker that was started for rows that are gone changes nothing when it ends: the
/// one that was started for the new rows stays under way.
pub proof fn law_stale_worker_leaves_the_new_one(
    slot: SideSlot,
    cache: FileDiffCache,
    ticket: SideTicket,
    source_is_current: bool,
    prepared_text_len: Option<usize>,
)
    requires
        ticket.generation != cache.syntax_generation,
        slot.inflight == Some(cache.syntax_generation),
    ensures
        completed(slot, cache, ticket, source_is_current, prepared_text_len) == (
            slot,
            SideCompletion::Superseded,
        ),
{
}

/// The text of a worker can be parsed: there is some, not too much, and the
/// line index was made from it.
pub fn worker_text_is_usable(text_len: usize, line_starts_describe: bool) -> (usable: bool)
    ensures
        usable == (0 < text_len <= PREPARED_DIFF_SYNTAX_DOCUMENT_MAX_TEXT_BYTES
            && line_starts_describe),
{
    !(text_len == 0 || text_len > PREPARED_DIFF_SYNTAX_DOCUMENT_MAX_TEXT_BYTES
        || !line_starts_describe)
}

/// What a click does to get at a side's document.
#[derive(Clone, Copy, Debug, PartialEq, Eq, Structural)]
pub enum PairDocumentStep {
    /// There is none to be had now.
    Unavailable,
    /// It is there.
    UseDocument,
    /// The text in memory is to be parsed.
    ParseResident,
    /// The text that was read back before is to be parsed.
    ParseRetained,
    /// The file is small enough to be read at once.
    ReadFile,
}

pub open spec fn pair_step(slot: SideSlot, facts: SideFacts) -> (SideSlot, PairDocumentStep) {
    let most = PREPARED_DIFF_SYNTAX_DOCUMENT_MAX_TEXT_BYTES;
    if !facts.source_is_current {
        (SideSlot { retained_text_len: None, ..slot }, PairDocumentStep::Unavailable)
    } else if facts.has_document {
        (slot, PairDocumentStep::UseDocument)
    } else if !facts.has_language {
        (slot, PairDocumentStep::Unavailable)
    } else if facts.resident_len > 0 {
        if facts.has_line_starts && facts.resident_len <= most {
            (slot, PairDocumentStep::ParseResident)
        } else {
            (slot, PairDocumentStep::Unavailable)
        }
    } else {
        match slot.retained_text_len {
            Some(len) => if facts.has_line_starts && 0 < len <= most {
                (slot, PairDocumentStep::ParseRetained)
            } else {
                (slot, PairDocumentStep::Unavailable)
            },
            None => if facts.source_file_len matches Some(len) && len
                <= DIFF_CLICK_FOREGROUND_COMPLETION_MAX_TEXT_BYTES {
                (slot, PairDocumentStep::ReadFile)
            } else {
                (slot, PairDocumentStep::Unavailable)
            },
        }
    }
}

/// A click wants a side's document at once.
pub fn file_diff_pair_syntax_document(slot: &mut SideSlot, facts: &SideFacts) -> (step:
    PairDocumentStep)
    ensures
        *final(slot) == pair_step(*old(slot), *facts).0,
        step == pair_step(*old(slot), *facts).1,
{
    if !facts.source_is_current {
        slot.retained_text_len = None;
        return PairDocumentStep::Unavailable;
    }
    if facts.has_document {
        return PairDocumentStep::UseDocument;
    }
    if !facts.has_language {
        return PairDocumentStep::Unavailable;
    }
    let most = PREPARED_DIFF_SYNTAX_DOCUMENT_MAX_TEXT_BYTES;
    if facts.resident_len > 0 {
        return if facts.has_line_starts && facts.resident_len <= most {
            PairDocumentStep::ParseResident
        } else {
            PairDocumentStep::Unavailable
        };
    }
    match slot.retained_text_len {
        Some(len) => {
            if facts.has_line_starts && 0 < len && len <= most {
                PairDocumentStep::ParseRetained
            } else {
                PairDocumentStep::Unavailable
            }
        },
        None => match facts.source_file_len {
            Some(len) => {
                if len > most as u64 {
                    return PairDocumentStep::Unavailable;
                }
                if len > DIFF_CLICK_FOREGROUND_COMPLETION_MAX_TEXT_BYTES as u64 {
                    return PairDocumentStep::Unavailable;
                }
                PairDocumentStep::ReadFile
            },
            None => PairDocumentStep::Unavailable,
        },
    }
}

/// The file was read for a click. The text is kept if the line index was made
/// from it; says whether it is to be parsed.
pub fn file_diff_pair_text_read(
    slot: &mut SideSlot,
    facts: &SideFacts,
    text_len: usize,
    line_starts_describe: bool,
) -> (parse: bool)
    ensures
        final(slot).inflight == old(slot).inflight,
        final(slot).retained_text_len == (if line_starts_describe {
            Some(text_len)
        } else {
            old(slot).retained_text_len
        }),
        parse == (line_starts_describe && facts.has_line_starts && 0 < text_len
            <= PREPARED_DIFF_SYNTAX_DOCUMENT_MAX_TEXT_BYTES),
{
    if !line_starts_describe {
        return false;
    }
    slot.retained_text_len = Some(text_len);
    facts.has_line_starts && 0 < text_len && text_len
        <= PREPARED_DIFF_SYNTAX_DOCUMENT_MAX_TEXT_BYTES
}

/// The key of a side's document; none before there is a file.
pub open spec fn side_key(cache: FileDiffCache, region: DiffTextRegion) -> Option<KeyView> {
    match (cache.repo_id, cache.path) {
        (Some(repo_id), Some(path)) => Some(
            KeyView {
                repo_id,
                target_rev: cache.rev,
                file_path: path@,
                view_mode: mode_of(region),
            },
        ),
        _ => None,
    }
}

/// The key of a side's document; none before there is a file.
pub fn file_diff_prepared_syntax_key(
    cache: &FileDiffCache,
    region: DiffTextRegion,
) -> (key: Option<PreparedSyntaxDocumentKey>)
    ensures
        key_view(key) == side_key(*cache, region),
{
    match (cache.repo_id, &cache.path) {
        (Some(repo_id), Some(path)) => Some(
            prepared_syntax_document_key(
                repo_id,
                cache.rev,
                path.as_str(),
                view_mode_for_region(region),
            ),
        ),
        _ => None,
    }
}

/// How an attempt to parse at once ended.
#[derive(Clone, Copy, Debug, PartialEq, Eq, Structural)]
pub enum PrepareAttempt {
    Ready { document: u64 },
    TimedOut,
    Unsupported,
}

/// The document of an attempt that succeeded.
pub open spec fn ready_document(attempt: Option<PrepareAttempt>) -> Option<u64> {
    match attempt {
        Some(PrepareAttempt::Ready { document }) => Some(document),
        _ => None,
    }
}

pub open spec fn key_view(key: Option<PreparedSyntaxDocumentKey>) -> Option<KeyView> {
    match key {
        Some(key) => Some(key@),
        None => None,
    }
}

/// What came of an attempt: a document that was kept, or work for later.
#[derive(Clone, Copy, Debug, PartialEq, Eq, Structural)]
pub struct SyncFileDiffPreparedSyntaxApplyResult {
    pub inserted: bool,
    pub needs_background_prepare: bool,
}

/// Keeps what an attempt gave.
pub fn apply_sync_syntax_result(
    documents: &mut PreparedSyntaxDocuments,
    attempt: Option<PrepareAttempt>,
    key: Option<PreparedSyntaxDocumentKey>,
) -> (result: SyncFileDiffPreparedSyntaxApplyResult)
    requires
        old(documents).wf(),
    ensures
        final(documents).wf(),
        result.needs_background_prepare == (attempt == Some(PrepareAttempt::TimedOut)),
        document_kept(
            old(documents).documents(),
            key_view(key),
            ready_document(attempt),
            final(documents).documents(),
            result.inserted,
        ),
{
    match attempt {
        Some(PrepareAttempt::Ready { document }) => {
            let inserted = match key {
                Some(key) => documents.insert_prepared_syntax_document(key, document),
                None => false,
            };
            SyncFileDiffPreparedSyntaxApplyResult { inserted, needs_background_prepare: false }
        },
        Some(PrepareAttempt::TimedOut) => SyncFileDiffPreparedSyntaxApplyResult {
            inserted: false,
            needs_background_prepare: true,
        },
        _ => SyncFileDiffPreparedSyntaxApplyResult {
            inserted: false,
            needs_background_prepare: false,
        },
    }
}

/// What the two sides of a file diff need.
#[derive(Clone, Copy, Debug, PartialEq, Eq, Structural)]
pub struct SyntaxRefreshPlan {
    pub request_left: bool,
    pub request_right: bool,
    pub prepare_left: bool,
    pub prepare_right: bool,
}

/// A side whose text is a file on disk, without a document.
pub open spec fn needs_reading(resident_len: usize, source_backed: bool, has_document: bool) -> bool {
    resident_len == 0 && source_backed && !has_document
}

/// Plans what to prepare: sides on disk are left to a worker, and where there
/// is any text in memory, every side that has a key and no document is tried
/// at once.
pub fn plan_file_diff_syntax_refresh(
    has_language: bool,
    left: &SideFacts,
    left_source_backed: bool,
    left_has_key: bool,
    right: &SideFacts,
    right_source_backed: bool,
    right_has_key: bool,
) -> (plan: SyntaxRefreshPlan)
    ensures
        plan.request_left == (has_language && needs_reading(
            left.resident_len,
            left_source_backed,
            left.has_document,
        )),
        plan.request_right == (has_language && needs_reading(
            right.resident_len,
            right_source_backed,
            right.has_document,
        )),
        plan.prepare_left == (has_language && (left.resident_len > 0 || right.resident_len > 0)
            && left_has_key && !left.has_document),
        plan.prepare_right == (has_language && (left.resident_len > 0 || right.resident_len > 0)
            && right_has_key && !right.has_document),
{
    if !has_language {
        return SyntaxRefreshPlan {
            request_left: false,
            request_right: false,
            prepare_left: false,
            prepare_right: false,
        };
    }
    let request_left = left.resident_len == 0 && left_source_backed && !left.has_document;
    let request_right = right.resident_len == 0 && right_source_backed && !right.has_document;
    if left.resident_len == 0 && right.resident_len == 0 {
        return SyntaxRefreshPlan {
            request_left,
            request_right,
            prepare_left: false,
            prepare_right: false,
        };
    }
    SyntaxRefreshPlan {
        request_left,
        request_right,
        prepare_left: left_has_key && !left.has_document,
        prepare_right: right_has_key && !right.has_document,
    }
}

/// Which documents of a worker that parsed both sides were kept.
#[derive(Clone, Copy, Debug, PartialEq, Eq, Structural)]
pub struct FileDiffPreparedSyntaxApplyResult {
    pub split_left: bool,
    pub split_right: bool,
}

impl FileDiffPreparedSyntaxApplyResult {
    pub fn any(self) -> (answer: bool)
        ensures
            answer == (self.split_left || self.split_right),
    {
        self.split_left || self.split_right
    }
}

/// The documents of both sides come, the left one first.
pub open spec fn both_kept(
    before: Map<KeyView, u64>,
    left: (Option<KeyView>, Option<u64>),
    right: (Option<KeyView>, Option<u64>),
    after: Map<KeyView, u64>,
    kept: (bool, bool),
) -> bool {
    exists|between: Map<KeyView, u64>| #[trigger]
        document_kept(before, left.0, left.1, between, kept.0) && document_kept(
            between,
            right.0,
            right.1,
            after,
            kept.1,
        )
}

proof fn lemma_both_kept(
    before: Map<KeyView, u64>,
    left: (Option<KeyView>, Option<u64>),
    between: Map<KeyView, u64>,
    right: (Option<KeyView>, Option<u64>),
    after: Map<KeyView, u64>,
    kept: (bool, bool),
)
    requires
        document_kept(before, left.0, left.1, between, kept.0),
        document_kept(between, right.0, right.1, after, kept.1),
    ensures
        both_kept(before, left, right, after, kept),
{
}

/// Sides with a new document are drawn anew.
pub open spec fn epochs_after(
    epochs: FileDiffStyleCacheEpochs,
    left: bool,
    right: bool,
) -> FileDiffStyleCacheEpochs {
    FileDiffStyleCacheEpochs {
        split_left: if left {
            next_epoch(epochs.split_left)
        } else {
            epochs.split_left
        },
        split_right: if right {
            next_epoch(epochs.split_right)
        } else {
            epochs.split_right
        },
    }
}

/// Keeps the documents of both sides, each unless its key has one.
pub fn apply_background_syntax_documents(
    documents: &mut PreparedSyntaxDocuments,
    left_key: Option<PreparedSyntaxDocumentKey>,
    left_document: Option<u64>,
    right_key: Option<PreparedSyntaxDocumentKey>,
    right_document: Option<u64>,
) -> (applied: FileDiffPreparedSyntaxApplyResult)
    requires
        old(documents).wf(),
    ensures
        final(documents).wf(),
        both_kept(
            old(documents).documents(),
            (key_view(left_key), left_document),
            (key_view(right_key), right_document),
            final(documents).documents(),
            (applied.split_left, applied.split_right),
        ),
{
    let ghost before = documents.documents();
    let ghost left = (key_view(left_key), left_document);
    let ghost right = (key_view(right_key), right_document);
    let split_left = match (left_key, left_document) {
        (Some(key), Some(document)) => documents.insert_prepared_syntax_document(key, document),
        _ => false,
    };
    let ghost between = documents.documents();
    let split_right = match (right_key, right_document) {
        (Some(key), Some(document)) => documents.insert_prepared_syntax_document(key, document),
        _ => false,
    };
    proof {
        lemma_both_kept(
            before,
            left,
            between,
            right,
            documents.documents(),
            (split_left, split_right),
        );
    }
    FileDiffPreparedSyntaxApplyResult { split_left, split_right }
}

/// What came of the attempts at both sides: whose documents were kept, and whose
/// are left to a worker.
#[derive(Clone, Copy, Debug, PartialEq, Eq, Structural)]
pub struct SyntaxRefreshOutcome {
    pub inserted_left: bool,
    pub inserted_right: bool,
    pub background_left: bool,
    pub background_right: bool,
}

/// The document that parsing starts from: the one that is given, or else that of
/// the latest other revision of the same side.
pub fn file_diff_reparse_seed(
    documents: &PreparedSyntaxDocuments,
    given: Option<u64>,
    key: &Option<PreparedSyntaxDocumentKey>,
) -> (seed: Option<u64>)
    requires
        documents.wf(),
    ensures
        given is Some ==> seed == given,
        given is None ==> match *key {
            Some(key) => is_reparse_seed(documents.documents(), key@, seed),
            None => seed is None,
        },
{
    if given.is_some() {
        return given;
    }
    match key {
        Some(key) => documents.prepared_syntax_reparse_seed_document(key),
        None => None,
    }
}

/// Keeps what attempts at both sides gave, each under the key of its side. A side
/// with a new document is drawn anew, and one that took too long is left to a
/// worker.
pub fn apply_file_diff_syntax_attempts(
    cache: &mut FileDiffCache,
    documents: &mut PreparedSyntaxDocuments,
    left: Option<PrepareAttempt>,
    right: Option<PrepareAttempt>,
) -> (outcome: SyntaxRefreshOutcome)
    requires
        old(documents).wf(),
    ensures
        final(documents).wf(),
        outcome.background_left == (left == Some(PrepareAttempt::TimedOut)),
        outcome.background_right == (right == Some(PrepareAttempt::TimedOut)),
        both_kept(
            old(documents).documents(),
            (side_key(*old(cache), DiffTextRegion::SplitLeft), ready_document(left)),
            (side_key(*old(cache), DiffTextRegion::SplitRight), ready_document(right)),
            final(documents).documents(),
            (outcome.inserted_left, outcome.inserted_right),
        ),
        *final(cache) == (FileDiffCache {
            style_epochs: epochs_after(
                old(cache).style_epochs,
                outcome.inserted_left,
                outcome.inserted_right,
            ),
            ..*old(cache)
        }),
{
    let left_key = file_diff_prepared_syntax_key(cache, DiffTextRegion::SplitLeft);
    let right_key = file_diff_prepared_syntax_key(cache, DiffTextRegion::SplitRight);
    let ghost before = documents.documents();
    let left_result = apply_sync_syntax_result(documents, left, left_key);
    let ghost between = documents.documents();
    let right_result = apply_sync_syntax_result(documents, right, right_key);
    proof {
        lemma_both_kept(
            before,
            (side_key(*cache, DiffTextRegion::SplitLeft), ready_document(left)),
            between,
            (side_key(*cache, DiffTextRegion::SplitRight), ready_document(right)),
            documents.documents(),
            (left_result.inserted, right_result.inserted),
        );
    }
    if left_result.inserted {
        cache.style_epochs.bump_left();
    }
    if right_result.inserted {
        cache.style_epochs.bump_right();
    }
    SyntaxRefreshOutcome {
        inserted_left: left_result.inserted,
        inserted_right: right_result.inserted,
        background_left: left_result.needs_background_prepare,
        background_right: right_result.needs_background_prepare,
    }
}

/// Keeps the document of a worker that is done with one side. The side is drawn anew
/// where its key had none.
pub fn install_side_syntax_document(
    cache: &mut FileDiffCache,
    documents: &mut PreparedSyntaxDocuments,
    region: DiffTextRegion,
    key: PreparedSyntaxDocumentKey,
    document: u64,
) -> (inserted: bool)
    requires
        old(documents).wf(),
    ensures
        final(documents).wf(),
        document_kept(
            old(documents).documents(),
            Some(key@),
            Some(document),
            final(documents).documents(),
            inserted,
        ),
        *final(cache) == (FileDiffCache {
            style_epochs: epochs_after(
                old(cache).style_epochs,
                inserted && region is SplitLeft,
                inserted && !(region is SplitLeft),
            ),
            ..*old(cache)
        }),
{
    let inserted = documents.insert_prepared_syntax_document(key, document);
    if inserted {
        match region {
            DiffTextRegion::SplitLeft => {
                cache.style_epochs.bump_left();
            },
            DiffTextRegion::SplitRight | DiffTextRegion::Inline => {
                cache.style_epochs.bump_right();
            },
        }
    }
    inserted
}

/// A worker that parsed both sides is done. Its documents are kept where the rows
/// that it was started for are still on screen; a side with a new document is
/// drawn anew. Tells whether anything changed.
pub fn complete_file_diff_syntax_refresh(
    cache: &mut FileDiffCache,
    documents: &mut PreparedSyntaxDocuments,
    ticket: &SideTicket,
    left_key: Option<PreparedSyntaxDocumentKey>,
    left_document: Option<u64>,
    right_key: Option<PreparedSyntaxDocumentKey>,
    right_document: Option<u64>,
) -> (applied: FileDiffPreparedSyntaxApplyResult)
    requires
        old(documents).wf(),
    ensures
        final(documents).wf(),
        !is_current_ticket(*old(cache), *ticket) ==> !applied.split_left && !applied.split_right
            && *final(documents) == *old(documents),
        is_current_ticket(*old(cache), *ticket) ==> both_kept(
            old(documents).documents(),
            (key_view(left_key), left_document),
            (key_view(right_key), right_document),
            final(documents).documents(),
            (applied.split_left, applied.split_right),
        ),
        *final(cache) == (FileDiffCache {
            style_epochs: epochs_after(
                old(cache).style_epochs,
                applied.split_left,
                applied.split_right,
            ),
            ..*old(cache)
        }),
{
    if cache.syntax_generation != ticket.generation || !is_same_number(
        cache.repo_id,
        ticket.repo_id,
    ) || cache.rev != ticket.rev || !is_same_text(&cache.target, &ticket.target) {
        return FileDiffPreparedSyntaxApplyResult { split_left: false, split_right: false };
    }
    let applied = apply_background_syntax_documents(
        documents,
        left_key,
        left_document,
        right_key,
        right_document,
    );
    if applied.split_left {
        cache.style_epochs.bump_left();
    }
    if applied.split_right {
        cache.style_epochs.bump_right();
    }
    applied
}

/// The file behind a side is the one that its rows were built from: nothing was
/// noted of either, or they say the same now as then.
pub fn file_diff_source_is_current(
    has_source: bool,
    indexed: &Option<String>,
    now: &Option<String>,
) -> (answer: bool)
    ensures
        answer == (!has_source || *indexed is None || same_text(*now, *indexed)),
{
    if !has_source || indexed.is_none() {
        return true;
    }
    is_same_text(now, indexed)
}

/// The text of a side: that in memory, or else the one that was read back.
pub fn file_diff_side_document_text<'a>(
    resident: &'a str,
    read_back: Option<&'a str>,
) -> (text: &'a str)
    ensures
        text@ == (if resident@.len() > 0 {
            resident@
        } else {
            match read_back {
                Some(text) => text@,
                None => Seq::empty(),
            }
        }),
{
    proof {
        crate::search::matcher::lemma_empty_text(resident@);
        reveal_strlit("");
        assert(""@ =~= Seq::<char>::empty());
    }
    if !resident.is_empty() {
        return resident;
    }
    match read_back {
        Some(text) => text,
        None => "",
    }
}

/// A worker that was started for rows that are still on screen is taken, and
/// leaves no mark behind.
pub proof fn law_started_worker_completes(
    slot: SideSlot,
    facts: SideFacts,
    cache: FileDiffCache,
    text_len: usize,
)
    requires
        requested(slot, facts, true, cache.syntax_generation).1 is Start,
    ensures
        ({
            let (started, action) = requested(slot, facts, true, cache.syntax_generation);
            let ticket = SideTicket {
                generation: action->generation,
                repo_id: cache.repo_id,
                rev: cache.rev,
                target: cache.target,
                reads_file: action->reads_file,
            };
            let (after, completion) = completed(started, cache, ticket, true, Some(text_len));
            &&& completion is Install
            &&& after.inflight is None
        }),
{
}

/// A worker that was overtaken by a newer generation does not take the newer
/// worker's mark with it.
pub proof fn law_overtaken_worker_keeps_newer_mark(
    slot: SideSlot,
    cache: FileDiffCache,
    ticket: SideTicket,
    newer: u64,
    source_is_current: bool,
    text_len: Option<usize>,
)
    requires
        slot.inflight == Some(newer),
        newer != ticket.generation,
    ensures
        completed(slot, cache, ticket, source_is_current, text_len).0.inflight == Some(newer),
{
}

} // verus!
