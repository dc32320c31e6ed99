//! Looking at a file on disk, and telling about it.
use gitcomet_view::disk::check_disk_bytes;
use gitcomet_view::disk::check_disk_stat;
use gitcomet_view::disk::disk_content_hash;
use gitcomet_view::disk::stamp_is_trusted;
use gitcomet_view::disk::DiskCheckCause;
use gitcomet_view::disk::DiskCheckOutcome;
use gitcomet_view::disk::DiskCheckStep;
use gitcomet_view::disk::DiskIdentity;
use gitcomet_view::disk::DiskStamp;
use gitcomet_view::disk::DiskStat;
use gitcomet_view::disk::DiskSurface;
use gitcomet_view::disk::DiskTime;
use gitcomet_view::disk::FileDiskApplied;
use gitcomet_view::disk::FileDiskRevs;
use gitcomet_view::disk::FileDiskState;
use gitcomet_view::disk::ScreenSurface;

fn stamp(len: u64, trusted: bool) -> DiskStamp {
    DiskStamp { len, modified: None, change: (1, 2, 3), trusted }
}

#[test]
fn a_stamp_is_trusted_once_it_is_old() {
    let at = |secs| DiskTime { secs, nanos: 0 };
    assert!(stamp_is_trusted(Some(at(10)), at(13)));
    assert!(!stamp_is_trusted(Some(at(10)), at(12)));
    assert!(!stamp_is_trusted(Some(at(10)), at(5)));
    assert!(!stamp_is_trusted(None, at(99)));
}

#[test]
fn bytes_are_read_only_where_the_stamp_does_not_settle_it() {
    let known = DiskIdentity::loaded(stamp(5, true), Some(1));
    let file = |stamp| DiskStat::File { stamp };
    assert_eq!(
        check_disk_stat(&known, file(stamp(5, true)), 100),
        DiskCheckStep::Done { outcome: DiskCheckOutcome::Unchanged }
    );
    let fresh = stamp(6, false);
    assert_eq!(check_disk_stat(&known, file(fresh), 100), DiskCheckStep::ReadBytes { fresh });
    assert_eq!(
        check_disk_stat(&known, file(fresh), 5),
        DiskCheckStep::Done { outcome: DiskCheckOutcome::Changed { fresh, hash: None } }
    );
    assert_eq!(
        check_disk_stat(&known, DiskStat::NotFound, 100),
        DiskCheckStep::Done { outcome: DiskCheckOutcome::Missing }
    );
    assert_eq!(
        check_disk_stat(&DiskIdentity::gone(), DiskStat::NotFound, 100),
        DiskCheckStep::Done { outcome: DiskCheckOutcome::Unchanged }
    );
    for stat in [DiskStat::Directory, DiskStat::Unreadable] {
        assert_eq!(
            check_disk_stat(&known, stat, 100),
            DiskCheckStep::Done { outcome: DiskCheckOutcome::Unchanged }
        );
    }
}

#[test]
fn a_write_of_our_own_is_no_change() {
    let loaded = disk_content_hash(b"before");
    let mut known = DiskIdentity::loaded(stamp(6, false), Some(loaded));
    known.note_pending_write("mine".to_string());
    let fresh = stamp(4, false);
    let digest = disk_content_hash(b"mine");
    assert_eq!(
        check_disk_bytes(&known, fresh, Some(b"mine")),
        DiskCheckOutcome::Same { fresh, matched: Some((1, digest)) }
    );
    assert_eq!(
        check_disk_bytes(&known, fresh, Some(b"before")),
        DiskCheckOutcome::Same { fresh, matched: Some((0, loaded)) }
    );
    assert_eq!(
        check_disk_bytes(&known, fresh, Some(b"theirs")),
        DiskCheckOutcome::Changed { fresh, hash: Some(disk_content_hash(b"theirs")) }
    );
    assert_eq!(check_disk_bytes(&known, fresh, None), DiskCheckOutcome::Unchanged);
    assert_ne!(disk_content_hash(b"a"), disk_content_hash(b"b"));
}

fn surface(surface: DiskSurface) -> ScreenSurface {
    ScreenSurface { repo_id: 1, abs_path: "/a".to_string(), surface }
}

fn state() -> FileDiskState {
    FileDiskState {
        notice: None,
        check_seq: 0,
        check_in_flight: None,
        seen: None,
        editor_disk: DiskIdentity::loaded(stamp(1, false), Some(1)),
        preview_disk: DiskIdentity::loaded(stamp(1, false), Some(1)),
    }
}

fn revs(worktree_rev: u64) -> Option<FileDiskRevs> {
    Some(FileDiskRevs { repo_id: 1, worktree_rev, local_write_rev: 0 })
}

#[test]
fn a_change_is_told_once_and_can_be_put_aside() {
    let mut disk = state();
    let changed = DiskCheckOutcome::Changed { fresh: stamp(9, false), hash: Some(9) };
    let seq = disk.begin_file_disk_check(DiskCheckCause::WorktreeChanged);
    let applied = disk.apply_file_disk_check(
        seq,
        surface(DiskSurface::Editor),
        &Some(surface(DiskSurface::Editor)),
        DiskCheckCause::WorktreeChanged,
        changed,
        true,
    );
    assert_eq!(applied, FileDiskApplied::Told);
    assert!(disk.file_disk_notice_for_screen(&Some(surface(DiskSurface::Editor))));
    let seq = disk.begin_file_disk_check(DiskCheckCause::WorktreeChanged);
    let again = disk.apply_file_disk_check(
        seq,
        surface(DiskSurface::Editor),
        &Some(surface(DiskSurface::Editor)),
        DiskCheckCause::WorktreeChanged,
        changed,
        true,
    );
    assert_eq!(again, FileDiskApplied::AlreadyTold);
    let dismissed = disk.dismiss_file_disk_notice(false, true);
    assert!(dismissed.dismissed);
    assert!(disk.notice.is_none());
    assert_eq!(disk.editor_disk.stamp, Some(stamp(9, false)));
}

#[test]
fn a_clean_surface_follows_the_file() {
    let mut disk = state();
    let changed = DiskCheckOutcome::Changed { fresh: stamp(9, false), hash: Some(9) };
    let seq = disk.begin_file_disk_check(DiskCheckCause::GitOperation);
    let applied = disk.apply_file_disk_check(
        seq,
        surface(DiskSurface::Preview),
        &Some(surface(DiskSurface::Preview)),
        DiskCheckCause::GitOperation,
        changed,
        true,
    );
    assert_eq!(applied, FileDiskApplied::Reload { surface: DiskSurface::Preview });
    let seq = disk.begin_file_disk_check(DiskCheckCause::WorktreeChanged);
    let ignored = disk.apply_file_disk_check(
        seq + 1,
        surface(DiskSurface::Preview),
        &Some(surface(DiskSurface::Preview)),
        DiskCheckCause::WorktreeChanged,
        changed,
        false,
    );
    assert_eq!(ignored, FileDiskApplied::Ignored);
}

#[test]
fn a_surface_is_looked_at_when_its_file_may_have_changed() {
    let mut disk = state();
    let screen = Some(surface(DiskSurface::Preview));
    let first = disk.sync_file_disk_check(false, &screen, revs(1), false);
    assert_eq!(first.check, Some(DiskCheckCause::CameIntoView));
    let same = disk.sync_file_disk_check(false, &screen, revs(1), false);
    assert_eq!(same.check, None);
    let moved = disk.sync_file_disk_check(false, &screen, revs(2), false);
    assert!(moved.check.is_some());
    let gone = disk.sync_file_disk_check(false, &None, revs(2), false);
    assert!(gone.retry_failed_editor);
}
