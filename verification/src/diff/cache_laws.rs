//! When rows and documents on screen are still those of what is to be shown.
use crate::diff::file_cache::content_signature;
use crate::diff::file_cache::ensured;
use crate::diff::file_cache::rebuild_completed;
use crate::diff::file_cache::FileDiffCache;
use crate::diff::file_cache::FileDiffCacheAction;
use crate::diff::file_cache::FileDiffInputs;
use crate::diff::file_cache::FileDiffRebuildOutcome;
use crate::diff::file_cache::FileDiffRebuildResult;
use crate::diff::file_cache::RenderedFileDiff;
use crate::diff::patch_cache::header_text;
use crate::diff::patch_cache::is_outdated;
use crate::diff::patch_cache::line_language;
use crate::diff::patch_cache::rebuilt;
use crate::diff::patch_cache::DiffLineFacts;
use crate::diff::patch_cache::PatchDiffCache;
use crate::diff::patch_cache::PatchDiffCacheAction;
use crate::diff::patch_cache::RenderedPatch;
use crate::diff::patch_rows::DiffLine;
use crate::diff::patch_rows::DiffLineKind;
use crate::diff::side_syntax::completed;
use crate::diff::side_syntax::epochs_after;
use crate::diff::side_syntax::pair_step;
use crate::diff::side_syntax::requested;
use crate::diff::side_syntax::side_key;
use crate::diff::side_syntax::PairDocumentStep;
use crate::diff::side_syntax::SideCompletion;
use crate::diff::side_syntax::SideFacts;
use crate::diff::side_syntax::SideRequestAction;
use crate::diff::side_syntax::SideSlot;
use crate::diff::side_syntax::SideTicket;
use crate::diff::syntax_cache::document_kept;
use crate::diff::syntax_cache::is_reparse_seed;
use crate::diff::syntax_cache::next_epoch;
use crate::diff::syntax_cache::rekeyed;
use crate::diff::syntax_cache::DiffTextRegion;
use crate::diff::syntax_cache::FileDiffStyleCacheEpochs;
use crate::diff::syntax_cache::KeyView;
use crate::diff::syntax_cache::PreparedSyntaxViewMode;
use vstd::prelude::*;

verus! {

/// A text that there may be reads as another one.
pub open spec fn reads_as_text(text: Option<String>, other: String) -> bool {
    text is Some && text->Some_0@ == other@
}

/// A counter gives another number each time, the next one up until it starts
/// over.
pub proof fn law_counter_moves_on(epoch: u64)
    ensures
        next_epoch(epoch) != epoch,
        epoch < u64::MAX ==> next_epoch(epoch) == epoch + 1,
        epoch == u64::MAX ==> next_epoch(epoch) == 0,
{
}

/// Rows stay on screen only where they are of the very file that is to be shown,
/// under the same setting for white space, and where nothing is known to have
/// changed: the file has not arrived again, or it and the patch read as they did
/// when the rows were built. Otherwise the rows are built again, or gone.
pub proof fn law_rows_are_kept_for_their_own_file(
    cache: FileDiffCache,
    rendered: RenderedFileDiff,
    inputs: FileDiffInputs,
)
    ensures
        ({
            let (after, action) = ensured(cache, Some(rendered), inputs);
            let same = cache.repo_id == Some(rendered.repo_id) && reads_as_text(
                cache.target,
                rendered.target,
            ) && cache.whitespace_mode == inputs.whitespace_mode && reads_as_text(
                cache.path,
                rendered.path,
            );
            let unchanged = inputs.file is None || cache.content_signature == content_signature(
                inputs,
            );
            &&& !(action is Cleared)
            &&& action is Keep || action is RefreshSyntax ==> same && unchanged
            &&& action is Keep || action is RefreshSyntax ==> after.rows_of == cache.rows_of
                && after.content_signature == cache.content_signature && after.path == cache.path
                && after.syntax_generation == cache.syntax_generation
            &&& same && inputs.file is Some && !unchanged ==> action is Rebuild
                || action is WaitForPatch
            &&& !same ==> after.rows_of is None && after.path is None && after.content_signature
                is None && after.error is None && after.syntax_generation
                != cache.syntax_generation && after.style_epochs.split_left
                != cache.style_epochs.split_left && after.style_epochs.split_right
                != cache.style_epochs.split_right
            &&& action matches FileDiffCacheAction::Rebuild {
                seq,
                content_signature: signature,
                keep_rows,
            } ==> after.inflight == Some(seq) && seq != cache.seq && after.seq == seq
                && content_signature(inputs) == Some(signature) && keep_rows == same
                && inputs.file is Some && (same ==> after.rows_of == cache.rows_of)
            &&& action is Emptied ==> inputs.file is None && after.rows_of is None
                && after.inflight is None
        }),
{
}

/// The cache is set to what is to be shown, whatever is done about the rows.
pub proof fn law_cache_is_set_to_what_is_shown(
    cache: FileDiffCache,
    rendered: RenderedFileDiff,
    inputs: FileDiffInputs,
)
    ensures
        ({
            let after = ensured(cache, Some(rendered), inputs).0;
            &&& after.repo_id == Some(rendered.repo_id)
            &&& reads_as_text(after.target, rendered.target)
            &&& after.whitespace_mode == inputs.whitespace_mode
            &&& after.rev == rendered.rev
        }),
        ({
            let (after, action) = ensured(cache, None, inputs);
            &&& action is Cleared
            &&& after.repo_id is None && after.target is None && after.path is None
            &&& after.rows_of is None && after.content_signature is None && after.inflight is None
            &&& after.syntax_generation != cache.syntax_generation
        }),
{
}

/// Rows are not built while the patch that they need is on its way: a file that
/// is read from disk waits for it, and a build that was under way is given up.
pub proof fn law_rows_wait_for_their_patch(
    cache: FileDiffCache,
    rendered: RenderedFileDiff,
    inputs: FileDiffInputs,
)
    ensures
        ({
            let (after, action) = ensured(cache, Some(rendered), inputs);
            let waits = inputs.patch_loading && inputs.patch_signature is None && inputs.file
                is Some && inputs.file->Some_0.source_backed;
            &&& action is WaitForPatch <==> waits
            &&& waits ==> after.inflight is None
        }),
{
}

proof fn lemma_turned_apart(a: u64, b: u64)
    requires
        a != b,
    ensures
        ((a << 1u64) | (a >> 63u64)) != ((b << 1u64) | (b >> 63u64)),
        ((a << 7u64) | (a >> 57u64)) != ((b << 7u64) | (b >> 57u64)),
{
    assert(((a << 1u64) | (a >> 63u64)) != ((b << 1u64) | (b >> 63u64))) by (bit_vector)
        requires
            a != b,
    ;
    assert(((a << 7u64) | (a >> 57u64)) != ((b << 7u64) | (b >> 57u64))) by (bit_vector)
        requires
            a != b,
    ;
}

proof fn lemma_mixed_apart(a: u64, b: u64, c: u64)
    requires
        a != b,
    ensures
        a ^ c != b ^ c,
        c ^ a != c ^ b,
{
    assert(a ^ c != b ^ c && c ^ a != c ^ b) by (bit_vector)
        requires
            a != b,
    ;
}

/// Another text, another patch, or another setting for white space alone gives
/// another digest, and only what has arrived has one.
pub proof fn law_any_one_change_is_another_digest(a: FileDiffInputs, b: FileDiffInputs)
    requires
        a.file is Some,
        b.file is Some,
    ensures
        content_signature(a) is Some,
        content_signature(FileDiffInputs { file: None, ..a }) is None,
        a.file->Some_0.text_signature != b.file->Some_0.text_signature && a.patch_signature
            == b.patch_signature && a.whitespace_key_len == b.whitespace_key_len
            ==> content_signature(a) != content_signature(b),
        a.file->Some_0.text_signature == b.file->Some_0.text_signature && a.patch_signature is Some
            && b.patch_signature is Some && a.patch_signature != b.patch_signature
            && a.whitespace_key_len == b.whitespace_key_len ==> content_signature(a)
            != content_signature(b),
        a.file->Some_0.text_signature == b.file->Some_0.text_signature && a.patch_signature
            == b.patch_signature && a.whitespace_key_len != b.whitespace_key_len
            ==> content_signature(a) != content_signature(b),
{
    let text_a = a.file->Some_0.text_signature;
    let text_b = b.file->Some_0.text_signature;
    let turned = |x: u64, k: u64| crate::diff::file_cache::rotated_left(x, k);
    let with_a = match a.patch_signature {
        Some(patch) => text_a ^ turned(patch, 1),
        None => text_a,
    };
    let with_b = match b.patch_signature {
        Some(patch) => text_b ^ turned(patch, 1),
        None => text_b,
    };
    let key_a = turned(a.whitespace_key_len, 7);
    let key_b = turned(b.whitespace_key_len, 7);
    if a.whitespace_key_len == b.whitespace_key_len {
        if text_a != text_b && a.patch_signature == b.patch_signature {
            if let Some(patch) = a.patch_signature {
                lemma_mixed_apart(text_a, text_b, turned(patch, 1));
            }
            lemma_mixed_apart(with_a, with_b, key_a);
        }
        if text_a == text_b && a.patch_signature is Some && b.patch_signature is Some
            && a.patch_signature != b.patch_signature {
            let patch_a = a.patch_signature->Some_0;
            let patch_b = b.patch_signature->Some_0;
            lemma_turned_apart(patch_a, patch_b);
            lemma_mixed_apart(turned(patch_a, 1), turned(patch_b, 1), text_a);
            lemma_mixed_apart(with_a, with_b, key_a);
        }
    } else if text_a == text_b && a.patch_signature == b.patch_signature {
        lemma_turned_apart(a.whitespace_key_len, b.whitespace_key_len);
        lemma_mixed_apart(key_a, key_b, with_a);
    }
}

/// A build is taken up only where it is the one that is waited for, of the file,
/// revision and setting that the pane shows; any other changes nothing. Rows that
/// are taken up, or an error in their place, make what was drawn for the old
/// rows stale.
pub proof fn law_only_the_awaited_build_is_taken_up(
    cache: FileDiffCache,
    seq: u64,
    rendered: RenderedFileDiff,
    whitespace_mode: u8,
    signature: u64,
    result: FileDiffRebuildResult,
)
    ensures
        ({
            let (after, outcome) = rebuild_completed(
                cache,
                seq,
                rendered,
                whitespace_mode,
                signature,
                result,
            );
            let waited_for = cache.inflight == Some(seq) && cache.repo_id == Some(rendered.repo_id)
                && cache.rev == rendered.rev && cache.whitespace_mode == whitespace_mode
                && reads_as_text(cache.target, rendered.target);
            &&& outcome == FileDiffRebuildOutcome::Dropped <==> !waited_for
            &&& !waited_for ==> after == cache
            &&& waited_for ==> after.inflight is None && after.content_signature == Some(signature)
                && after.syntax_generation != cache.syntax_generation && after.repo_id
                == cache.repo_id && after.rev == cache.rev && after.whitespace_mode
                == cache.whitespace_mode
            &&& waited_for ==> match result {
                FileDiffRebuildResult::Built { path } => outcome
                    == FileDiffRebuildOutcome::Installed && after.rows_of == Some(seq) && after.path
                    == path && after.error is None,
                FileDiffRebuildResult::Failed { error } => outcome
                    == FileDiffRebuildOutcome::ShowError && after.rows_of is None && after.error
                    == Some(error) && reads_as_text(after.path, rendered.path),
            }
        }),
{
}

/// The rows of a patch stay where the same patch has arrived with the same
/// content, or is on its way again. Any other patch replaces them, and one that
/// has not arrived has none.
pub proof fn law_patch_rows_are_kept_for_their_patch(cache: PatchDiffCache, next: RenderedPatch)
    ensures
        ({
            let (after, action) = rebuilt(cache, Some(next));
            let same_target = match (cache.target, next.target) {
                (Some(a), Some(b)) => a@ == b@,
                (None, None) => true,
                _ => false,
            };
            let same = cache.repo_id == Some(next.repo_id) && same_target;
            let stays = same && cache.content_signature is Some && (next.content_signature is None
                || next.content_signature == cache.content_signature);
            &&& action is Keep <==> stays
            &&& after.rev == next.rev
            &&& stays ==> after.repo_id == cache.repo_id && after.target == cache.target
                && after.content_signature == cache.content_signature
            &&& !stays ==> after.repo_id == Some(next.repo_id) && after.target == next.target
                && after.content_signature == next.content_signature
            &&& action matches PatchDiffCacheAction::Replace { clear_reveals, build } ==> build == (
            next.content_signature is Some && next.has_workdir) && clear_reveals
        }),
        ({
            let (after, action) = rebuilt(cache, None);
            &&& action == PatchDiffCacheAction::Replace { clear_reveals: true, build: false }
            &&& after.repo_id is None && after.target is None && after.content_signature is None
                && after.rev == 0
        }),
{
}

/// The rows of a patch are looked at again where anything of it is another: its
/// repository, its target, its revision, or, once it has arrived, how many lines
/// it has or what it says.
pub proof fn law_any_change_of_a_patch_is_seen(
    cache: PatchDiffCache,
    next: RenderedPatch,
    cached_len: usize,
    ready_len: usize,
)
    ensures
        ({
            let same_target = match (cache.target, next.target) {
                (Some(a), Some(b)) => a@ == b@,
                (None, None) => true,
                _ => false,
            };
            is_outdated(cache, Some(next), cached_len, ready_len) <==> cache.repo_id != Some(
                next.repo_id,
            ) || !same_target || cache.rev != next.rev || (next.content_signature is Some && (
            cached_len != ready_len || cache.content_signature != next.content_signature))
        }),
        is_outdated(cache, None, cached_len, ready_len) <==> cache.repo_id is Some || cache.target
            is Some || cache.rev != 0,
{
}

/// A header line of a file is shown as the file's path, and one of a hunk as its
/// two ranges with a space between them, and behind two more the heading if it
/// has one; a header of which nothing is known as it reads. Lines of code are
/// shown as they are, and they alone have the language of their file.
pub proof fn law_headers_are_shown_by_what_they_name(line: DiffLine, facts: DiffLineFacts)
    ensures
        ({
            let shown = header_text(line, facts);
            &&& line.kind == DiffLineKind::Hunk ==> (match facts.hunk_display {
                None => shown == Some(line.text@),
                Some(display) => {
                    let ranges = display.old@ + seq![' '] + display.new@;
                    if display.heading is Some && display.heading->Some_0@.len() > 0 {
                        shown == Some(ranges + seq![' ', ' '] + display.heading->Some_0@)
                    } else {
                        shown == Some(ranges)
                    }
                },
            })
            &&& line.kind != DiffLineKind::Hunk && line.kind != DiffLineKind::Header ==> shown
                is None && line_language(line, facts) == facts.language
            &&& line.kind == DiffLineKind::Header && shown is Some ==> shown == Some(
                match facts.file {
                    Some(file) => file@,
                    None => line.text@,
                },
            )
            &&& line.kind == DiffLineKind::Hunk || line.kind == DiffLineKind::Header
                ==> line_language(line, facts) is None
        }),
{
    reveal_strlit(" ");
    reveal_strlit("  ");
    assert(" "@ =~= seq![' ']);
    assert("  "@ =~= seq![' ', ' ']);
}

/// A document is kept under its key where that has none, and nothing is written
/// over. No other key gains one, no more than one goes, and none does while there
/// is room.
pub proof fn law_document_is_kept_under_its_key(
    before: Map<KeyView, u64>,
    key: KeyView,
    document: u64,
    after: Map<KeyView, u64>,
    kept: bool,
    other: KeyView,
)
    requires
        document_kept(before, Some(key), Some(document), after, kept),
        other != key,
    ensures
        kept <==> !before.dom().contains(key),
        after.dom().contains(key),
        kept ==> after[key] == document,
        !kept ==> after[key] == before[key],
        after.dom().contains(other) ==> before.dom().contains(other) && after[other]
            == before[other],
        before.dom().len() < 256 && before.dom().contains(other) ==> after.dom().contains(other),
        !kept && before.dom().contains(other) ==> after.dom().contains(other),
{
}

/// Parsing starts from the document of the latest other revision of the same side
/// of the same file, where there is one.
pub proof fn law_parsing_starts_from_the_latest_other_revision(
    documents: Map<KeyView, u64>,
    key: KeyView,
    seed: Option<u64>,
    other: KeyView,
)
    requires
        is_reparse_seed(documents, key, seed),
        documents.dom().contains(other),
        other.repo_id == key.repo_id,
        other.file_path == key.file_path,
        other.view_mode == key.view_mode,
        other.target_rev != key.target_rev,
    ensures
        seed is Some,
        exists|k: KeyView|
            #![trigger documents.dom().contains(k)]
            documents.dom().contains(k) && documents[k] == seed->Some_0 && k.repo_id == key.repo_id
                && k.file_path == key.file_path && k.view_mode == key.view_mode && k.target_rev
                != key.target_rev && other.target_rev <= k.target_rev,
{
    assert(crate::diff::syntax_cache::is_other_revision(other, key));
}

/// A document that moves to another key is there and no longer where it was; one
/// that is at the new key already stays, and all others do.
pub proof fn law_document_moves_to_its_new_key(
    documents: Map<KeyView, u64>,
    old_key: KeyView,
    new_key: KeyView,
    other: KeyView,
)
    requires
        old_key != new_key,
        other != old_key,
        other != new_key,
    ensures
        ({
            let after = rekeyed(documents, old_key, new_key);
            &&& !after.dom().contains(old_key)
            &&& after.dom().contains(new_key) <==> documents.dom().contains(old_key)
                || documents.dom().contains(new_key)
            &&& documents.dom().contains(new_key) ==> after[new_key] == documents[new_key]
            &&& documents.dom().contains(old_key) && !documents.dom().contains(new_key)
                ==> after[new_key] == documents[old_key]
            &&& after.dom().contains(other) == documents.dom().contains(other)
            &&& documents.dom().contains(other) ==> after[other] == documents[other]
        }),
{
}

/// A side's document is that of its own side, of the repository, revision and
/// file that are shown; rows in one column show the new side.
pub proof fn law_sides_have_documents_of_their_own(cache: FileDiffCache, region: DiffTextRegion)
    ensures
        side_key(cache, region) is Some <==> cache.repo_id is Some && cache.path is Some,
        side_key(cache, region) matches Some(key) ==> {
            &&& Some(key.repo_id) == cache.repo_id
            &&& key.target_rev == cache.rev
            &&& key.file_path == cache.path->Some_0@
            &&& region is SplitLeft ==> key.view_mode == PreparedSyntaxViewMode::FileDiffSplitLeft
            &&& !(region is SplitLeft) ==> key.view_mode
                == PreparedSyntaxViewMode::FileDiffSplitRight
        },
{
}

/// A side that has a new document is drawn anew, and the other is not.
pub proof fn law_side_with_a_new_document_is_drawn_anew(
    epochs: FileDiffStyleCacheEpochs,
    left: bool,
    right: bool,
)
    ensures
        (epochs_after(epochs, left, right).split_left != epochs.split_left) == left,
        (epochs_after(epochs, left, right).split_right != epochs.split_right) == right,
{
}

/// A worker is started for a side just where its text is that of the rows, has no
/// document and no worker yet, is in a language that can be parsed and no larger
/// than eight mebibytes, in memory or on disk. It reads the file where no text is
/// in memory.
pub proof fn law_worker_is_started_where_there_is_something_to_parse(
    slot: SideSlot,
    facts: SideFacts,
    has_key: bool,
    generation: u64,
)
    ensures
        ({
            let (after, action) = requested(slot, facts, has_key, generation);
            let in_memory = facts.resident_len > 0 || slot.retained_text_len is Some;
            let size: int = if facts.resident_len > 0 {
                facts.resident_len as int
            } else if slot.retained_text_len is Some {
                slot.retained_text_len->Some_0 as int
            } else {
                facts.source_file_len->Some_0 as int
            };
            let has_text = in_memory || facts.source_file_len is Some;
            let wanted = facts.source_is_current && !facts.has_document && slot.inflight is None
                && facts.has_language && has_key && has_text && size <= 8 * 1024 * 1024;
            &&& action is Start <==> wanted
            &&& wanted ==> after.inflight == Some(generation) && action
                == SideRequestAction::Start { generation, reads_file: !in_memory }
            &&& !wanted ==> after.inflight == slot.inflight
            &&& facts.source_is_current ==> after.retained_text_len == slot.retained_text_len
            &&& !facts.source_is_current ==> after.retained_text_len is None && action
                is DropPendingClick
            &&& action is ReplayPendingClick <==> facts.source_is_current && facts.has_document
            &&& action is AlreadyRunning <==> facts.source_is_current && !facts.has_document
                && slot.inflight is Some
        }),
{
}

/// What a worker made is taken up just where the rows that it was started for are
/// still those on screen, and its file is; it is then no longer under way.
pub proof fn law_worker_is_taken_up_for_its_own_rows(
    slot: SideSlot,
    cache: FileDiffCache,
    ticket: SideTicket,
    source_is_current: bool,
    prepared_text_len: Option<usize>,
)
    ensures
        ({
            let (after, completion) = completed(
                slot,
                cache,
                ticket,
                source_is_current,
                prepared_text_len,
            );
            let same_target = match (cache.target, ticket.target) {
                (Some(a), Some(b)) => a@ == b@,
                (None, None) => true,
                _ => false,
            };
            let current = cache.syntax_generation == ticket.generation && cache.repo_id
                == ticket.repo_id && cache.rev == ticket.rev && same_target;
            &&& completion == SideCompletion::Superseded <==> !current
            &&& completion is Install <==> current && source_is_current && prepared_text_len is Some
            &&& completion is Install ==> completion == SideCompletion::Install {
                retain_text: ticket.reads_file,
            }
            &&& after.inflight == (if slot.inflight == Some(ticket.generation) {
                None
            } else {
                slot.inflight
            })
            &&& completion is Install && ticket.reads_file ==> after.retained_text_len
                == prepared_text_len
            &&& current && !source_is_current ==> after.retained_text_len is None
            &&& !current || (completion is Install && !ticket.reads_file) ==> after.retained_text_len
                == slot.retained_text_len
        }),
{
}

/// A click uses the document there is, or else parses what is in memory if that
/// is no larger than eight mebibytes and its lines are known, or else reads the
/// file if that is no larger than one.
pub proof fn law_click_parses_what_is_nearest(slot: SideSlot, facts: SideFacts)
    ensures
        ({
            let (after, step) = pair_step(slot, facts);
            let usable = facts.source_is_current && !facts.has_document && facts.has_language;
            let most = 8int * 1024 * 1024;
            &&& after.inflight == slot.inflight
            &&& !facts.source_is_current ==> step == PairDocumentStep::Unavailable
                && after.retained_text_len is None
            &&& facts.source_is_current ==> after.retained_text_len == slot.retained_text_len
            &&& step == PairDocumentStep::UseDocument <==> facts.source_is_current
                && facts.has_document
            &&& step == PairDocumentStep::ParseResident <==> usable && 0 < facts.resident_len
                <= most && facts.has_line_starts
            &&& step == PairDocumentStep::ParseRetained <==> usable && facts.resident_len == 0
                && slot.retained_text_len is Some && 0 < slot.retained_text_len->Some_0 <= most
                && facts.has_line_starts
            &&& step == PairDocumentStep::ReadFile <==> usable && facts.resident_len == 0
                && slot.retained_text_len is None && facts.source_file_len is Some
                && facts.source_file_len->Some_0 <= 1024 * 1024
        }),
{
}

} // verus!
