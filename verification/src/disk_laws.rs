//! When a file counts as changed, and what is then owed.
use crate::disk::adopted;
use crate::disk::bytes_outcome;
use crate::disk::check_step;
use crate::disk::due_check;
use crate::disk::known_position;
use crate::disk::loaded_identity;
use crate::disk::missing_identity;
use crate::disk::names;
use crate::disk::nanos_of;
use crate::disk::only_pending;
use crate::disk::same_disk;
use crate::disk::same_screen;
use crate::disk::same_state;
use crate::disk::seen_at;
use crate::disk::surface_of;
use crate::disk::with_pending;
use crate::disk::DiskCheckCause;
use crate::disk::DiskCheckOutcome;
use crate::disk::DiskCheckStep;
use crate::disk::DiskStamp;
use crate::disk::DiskStat;
use crate::disk::DiskSurface;
use crate::disk::DiskTime;
use crate::disk::FileDiskNotice;
use crate::disk::FileDiskRevs;
use crate::disk::FileDiskScene;
use crate::disk::FileDiskSeen;
use crate::disk::FileDiskTarget;
use crate::disk::IdentityView;
use crate::disk::KnownView;
use crate::disk::ScreenSurface;
use crate::disk::DISK_STAMP_RACY_WINDOW_NANOS;
use vstd::prelude::*;
use vstd::utf8::encode_utf8;

verus! {

/// The file system says the same of a file: nothing of what it says differs.
pub open spec fn nothing_differs(a: DiskStamp, b: DiskStamp) -> bool {
    &&& a.len == b.len
    &&& a.modified == b.modified
    &&& a.change.0 == b.change.0
    &&& a.change.1 == b.change.1
    &&& a.change.2 == b.change.2
}

/// Two stamps are of one state just where the length, the time of the last write, the
/// inode and the time of the last change are all the same.
pub proof fn law_any_difference_is_another_state(a: DiskStamp, b: DiskStamp)
    ensures
        same_state(a, b) == nothing_differs(a, b),
{
}

/// A file is left alone only where its stamp is trusted and nothing of it differs. Any
/// other file is read, if it is not too large and there is something to compare it
/// with. What cannot be compared has changed where its stamp differs.
pub proof fn law_file_is_read_unless_its_stamp_settles(
    known: IdentityView,
    fresh: DiskStamp,
    hash_limit: u64,
)
    ensures
        ({
            let step = check_step(known, DiskStat::File { stamp: fresh }, hash_limit);
            let differs = known.stamp is None || !nothing_differs(known.stamp->Some_0, fresh);
            let settled = !differs && known.stamp->Some_0.trusted;
            &&& settled ==> step == (DiskCheckStep::Done { outcome: DiskCheckOutcome::Unchanged })
            &&& !settled && fresh.len <= hash_limit && known.known.len() > 0 ==> step == (
            DiskCheckStep::ReadBytes { fresh })
            &&& !settled && (fresh.len > hash_limit || known.known.len() == 0) ==> step == (
            DiskCheckStep::Done {
                outcome: if differs {
                    DiskCheckOutcome::Changed { fresh, hash: None }
                } else {
                    DiskCheckOutcome::Same { fresh, matched: None }
                },
            })
        }),
{
}

/// A file that is gone is reported unless it was gone before; one that cannot be looked
/// at is no change.
pub proof fn law_missing_file_is_reported(known: IdentityView, hash_limit: u64)
    ensures
        !known.missing ==> check_step(known, DiskStat::NotFound, hash_limit) == (
        DiskCheckStep::Done { outcome: DiskCheckOutcome::Missing }),
        known.missing ==> check_step(known, DiskStat::NotFound, hash_limit) == (
        DiskCheckStep::Done { outcome: DiskCheckOutcome::Unchanged }),
        check_step(known, DiskStat::Unreadable, hash_limit) == (DiskCheckStep::Done {
            outcome: DiskCheckOutcome::Unchanged,
        }),
        check_step(known, DiskStat::Directory, hash_limit) == (DiskCheckStep::Done {
            outcome: DiskCheckOutcome::Unchanged,
        }),
{
}

/// A version that is known is the one on disk: by digest where it was seen, by its very
/// bytes where it was sent.
pub open spec fn is_version(known: KnownView, bytes: Seq<u8>, digest: u64) -> bool {
    match known {
        KnownView::Seen(seen) => seen == digest,
        KnownView::Pending(text) => encode_utf8(text) == bytes,
    }
}

proof fn lemma_position(known: Seq<KnownView>, bytes: Seq<u8>, digest: u64, i: int)
    requires
        0 <= i <= known.len() <= usize::MAX,
    ensures
        match known_position(known, bytes, digest, i) {
            Some(ix) => i <= ix < known.len() && is_version(known[ix as int], bytes, digest)
                && forall|k: int| i <= k < ix ==> !is_version(#[trigger] known[k], bytes, digest),
            None => forall|k: int|
                i <= k < known.len() ==> !is_version(#[trigger] known[k], bytes, digest),
        },
    decreases known.len() - i,
{
    if i < known.len() && !is_version(known[i], bytes, digest) {
        lemma_position(known, bytes, digest, i + 1);
    }
}

/// Bytes are the surface's own just where they are one of the versions it knows; then
/// the first such version is named. Any other bytes are a change.
pub proof fn law_unknown_bytes_are_a_change(
    known: IdentityView,
    fresh: DiskStamp,
    bytes: Seq<u8>,
    digest: u64,
)
    requires
        known.known.len() <= usize::MAX,
    ensures
        match bytes_outcome(known, fresh, bytes, digest) {
            DiskCheckOutcome::Same { fresh: stamp, matched } => {
                &&& stamp == fresh
                &&& matched matches Some((ix, hash)) && hash == digest && ix < known.known.len()
                    && is_version(known.known[ix as int], bytes, digest) && forall|k: int|
                    0 <= k < ix ==> !is_version(#[trigger] known.known[k], bytes, digest)
            },
            DiskCheckOutcome::Changed { fresh: stamp, hash } => {
                &&& stamp == fresh
                &&& hash == Some(digest)
                &&& forall|k: int|
                    0 <= k < known.known.len() ==> !is_version(
                        #[trigger] known.known[k],
                        bytes,
                        digest,
                    )
            },
            _ => false,
        },
{
    lemma_position(known.known, bytes, digest, 0);
}

/// What was read is what is known: its stamp, and its digest where it was taken.
pub proof fn law_what_was_read_is_known(stamp: DiskStamp, digest: Option<u64>)
    ensures
        ({
            let identity = loaded_identity(stamp, digest);
            &&& identity.stamp == Some(stamp)
            &&& !identity.missing
            &&& digest is None ==> identity.known.len() == 0
            &&& digest matches Some(hash) ==> identity.known.len() == 1 && identity.known[0]
                == KnownView::Seen(hash)
        }),
        missing_identity().missing,
        missing_identity().stamp is None,
        missing_identity().known.len() == 0,
{
}

/// A write that was sent is the newest version that is known, and what was known stays
/// known, but for the oldest where there are too many. The stamp is trusted no more.
pub proof fn law_sent_write_is_the_newest_version(identity: IdentityView, text: Seq<char>)
    requires
        identity.known.len() <= 8,
    ensures
        ({
            let after = with_pending(identity, text);
            let repeated = identity.known.len() > 0 && identity.known.last() == KnownView::Pending(
                text,
            );
            &&& after.known.len() > 0
            &&& after.known.last() == KnownView::Pending(text)
            &&& after.known.len() == (if repeated {
                identity.known.len() as int
            } else if identity.known.len() == 8 {
                8
            } else {
                identity.known.len() + 1int
            })
            &&& !repeated ==> forall|k: int|
                0 <= k < after.known.len() - 1 ==> #[trigger] after.known[k]
                    == identity.known[identity.known.len() - (after.known.len() - 1) + k]
            &&& repeated ==> after.known == identity.known
            &&& after.missing == identity.missing
            &&& after.stamp is Some == identity.stamp is Some
            &&& after.stamp matches Some(stamp) ==> !stamp.trusted && nothing_differs(
                stamp,
                identity.stamp->Some_0,
            )
        }),
{
}

/// Only writes that are on their way are carried over, all of them and in order.
pub proof fn law_pending_writes_are_kept_in_order(known: Seq<KnownView>)
    ensures
        only_pending(known) == known.filter(|entry: KnownView| entry is Pending),
    decreases known.len(),
{
    reveal(Seq::filter);
    if known.len() > 0 {
        law_pending_writes_are_kept_in_order(known.drop_last());
        assert(only_pending(known) =~= known.filter(|entry: KnownView| entry is Pending));
    } else {
        assert(only_pending(known) =~= known.filter(|entry: KnownView| entry is Pending));
    }
}

/// Taking over what is on disk makes that what is known first, and keeps the newest of
/// the writes that are on their way behind it, as many as there is room for.
pub proof fn law_taking_over_keeps_writes_on_their_way(identity: IdentityView, seen: IdentityView)
    requires
        seen.known.len() <= 8,
    ensures
        ({
            let after = adopted(identity, seen);
            let pending = only_pending(identity.known);
            let n = seen.known.len();
            &&& after.stamp == seen.stamp
            &&& after.missing == seen.missing
            &&& after.known.len() <= 8
            &&& after.known.take(n as int) == seen.known
            &&& pending.len() + n <= 8 ==> after.known.skip(n as int) == pending
            &&& pending.len() + n > 8 ==> after.known.len() == 8 && after.known.skip(n as int)
                == pending.skip(pending.len() - (8 - n))
        }),
{
    let after = adopted(identity, seen);
    let pending = only_pending(identity.known);
    let n = seen.known.len() as int;
    assert(after.known.take(n) =~= seen.known);
    if pending.len() + n <= 8 {
        assert(after.known.skip(n) =~= pending);
    } else {
        assert(after.known.skip(n) =~= pending.skip(pending.len() - (8 - n)));
    }
}

/// Two looks saw the same disk just where the file is there or gone in both, the
/// versions are the same and so are the stamps.
pub proof fn law_same_disk_is_the_same_in_all(a: IdentityView, b: IdentityView)
    ensures
        same_disk(a, b) == (a.missing == b.missing && a.known == b.known && a.stamp is Some
            == b.stamp is Some && (a.stamp is Some ==> nothing_differs(
            a.stamp->Some_0,
            b.stamp->Some_0,
        ))),
{
}

/// A stamp is trusted once two seconds have passed since the last write.
pub proof fn law_stamps_settle_after_two_seconds(modified: DiskTime, now: DiskTime)
    ensures
        (nanos_of(now) - nanos_of(modified) > DISK_STAMP_RACY_WINDOW_NANOS) == ((now.secs
            - modified.secs) * 1000000000 + (now.nanos - modified.nanos) > 2000000000),
{
}

/// The file is on screen in the editor where the editor has read it, and in the preview
/// where the preview shows the file itself and no editor covers it.
pub proof fn law_file_is_shown_by_one_surface(
    scene: FileDiskScene,
    target: FileDiskTarget,
)
    ensures
        surface_of(scene, None) is None,
        (surface_of(scene, Some(target)) == Some(DiskSurface::Editor)) == (scene.editor_active
            && !scene.editor_loading && !scene.editor_failed && scene.editor_repo_id == Some(
            target.repo_id,
        ) && scene.editor_path is Some && scene.editor_path->Some_0@ == target.path@),
        (surface_of(scene, Some(target)) == Some(DiskSurface::Preview)) == (!scene.editor_active
            && scene.preview_ready && scene.preview_active && scene.preview_path is Some
            && scene.preview_path->Some_0@ == target.abs_path@ && scene.preview_source_path is Some
            && scene.preview_source_path->Some_0@ == target.abs_path@),
{
}

/// A notice is about what is on screen only where repository, file and surface are the
/// same, and so is a look at it.
pub proof fn law_notice_names_one_surface(
    notice: FileDiskNotice,
    a: ScreenSurface,
    b: ScreenSurface,
)
    ensures
        names(notice, a) == (notice.repo_id == a.repo_id && notice.abs_path@ == a.abs_path@
            && notice.surface == a.surface),
        same_screen(a, b) == (a.repo_id == b.repo_id && a.abs_path@ == b.abs_path@ && a.surface
            == b.surface),
{
}

/// A look is due when another surface comes into view, and when the repository has
/// moved: by an operation of its own where one wrote or runs. It is due for nothing
/// else.
pub proof fn law_look_is_due_when_something_moved(
    seen: FileDiskSeen,
    next: FileDiskSeen,
    git_operation_in_flight: bool,
)
    ensures
        ({
            let elsewhere = seen.repo_id != next.repo_id || seen.surface != next.surface;
            let wrote = seen.local_write_rev != next.local_write_rev;
            let moved = seen.worktree_rev != next.worktree_rev;
            let due = due_check(Some(seen), next, git_operation_in_flight);
            &&& due_check(None, next, git_operation_in_flight) == Some(DiskCheckCause::CameIntoView)
            &&& (due == Some(DiskCheckCause::CameIntoView)) == elsewhere
            &&& (due == Some(DiskCheckCause::GitOperation)) == (!elsewhere && (wrote || (moved
                && git_operation_in_flight)))
            &&& (due == Some(DiskCheckCause::WorktreeChanged)) == (!elsewhere && !wrote && moved
                && !git_operation_in_flight)
        }),
{
}

/// What a surface was read at is remembered with both revisions of its repository.
pub proof fn law_both_revisions_are_remembered(surface: DiskSurface, revs: FileDiskRevs)
    ensures
        seen_at(surface, revs).repo_id == revs.repo_id,
        seen_at(surface, revs).surface == surface,
        seen_at(surface, revs).worktree_rev == revs.worktree_rev,
        seen_at(surface, revs).local_write_rev == revs.local_write_rev,
{
}

} // verus!
