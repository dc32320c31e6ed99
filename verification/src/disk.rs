//! Whether the file on screen has changed on disk.
//!
//! A surface remembers what it read: a stamp of the file and what its bytes
//! were. When the worktree moves, the file is looked at again, and read again
//! only where the stamp does not settle the matter. A change is put to the
//! user; content is never swapped under them.
use crate::diff::syntax_cache::next_counter;
use crate::diff::syntax_cache::next_epoch;
use crate::digest::fx_bytes_digest;
use crate::digest::fx_hash_bytes;
use crate::lines::same_bytes;
use vstd::prelude::*;
use vstd::utf8::encode_utf8;

verus! {

/// A stamp younger than this many nanoseconds cannot be trusted: the same
/// length at the same time may still be other bytes.
pub const DISK_STAMP_RACY_WINDOW_NANOS: u64 = 2000000000;

/// How many versions of its own a surface remembers at most.
pub const MAX_KNOWN_BYTES: usize = 8;

/// A point in time: seconds, and nanoseconds within the second.
#[derive(Clone, Copy, Debug, PartialEq, Eq, Structural)]
pub struct DiskTime {
    pub secs: i64,
    pub nanos: u32,
}

/// What the file system says of a file. `change` is its inode and the time of
/// its last change, in seconds and nanoseconds.
#[derive(Clone, Copy, Debug, PartialEq, Eq)]
pub struct DiskStamp {
    pub len: u64,
    pub modified: Option<DiskTime>,
    pub change: (u64, i64, i64),
    pub trusted: bool,
}

pub open spec fn nanos_of(time: DiskTime) -> int {
    time.secs * 1000000000 + time.nanos
}

/// A stamp is trusted once the file has not been written for a while.
pub fn stamp_is_trusted(modified: Option<DiskTime>, now: DiskTime) -> (trusted: bool)
    ensures
        trusted == (modified matches Some(modified) && nanos_of(now) - nanos_of(modified)
            > DISK_STAMP_RACY_WINDOW_NANOS),
{
    match modified {
        Some(modified) => {
            let secs: i128 = now.secs as i128 - modified.secs as i128;
            let nanos: i128 = now.nanos as i128 - modified.nanos as i128;
            secs * 1000000000 + nanos > DISK_STAMP_RACY_WINDOW_NANOS as i128
        },
        None => false,
    }
}

/// Two stamps of a file that was not written in between.
pub open spec fn same_state(a: DiskStamp, b: DiskStamp) -> bool {
    a.change == b.change && a.len == b.len && a.modified == b.modified
}

fn same_time(a: Option<DiskTime>, b: Option<DiskTime>) -> (answer: bool)
    ensures
        answer == (a == b),
{
    match (a, b) {
        (Some(a), Some(b)) => a == b,
        (None, None) => true,
        _ => false,
    }
}

impl DiskStamp {
    pub fn same_file_state(self, other: DiskStamp) -> (answer: bool)
        ensures
            answer == same_state(self, other),
    {
        if self.change.0 != other.change.0 || self.change.1 != other.change.1 || self.change.2
            != other.change.2 {
            return false;
        }
        self.len == other.len && same_time(self.modified, other.modified)
    }
}

/// Bytes that a surface knows to be its own: seen on disk, by digest, or sent
/// there and not seen yet, by their text.
#[derive(Debug, PartialEq, Eq)]
pub enum KnownBytes {
    Seen(u64),
    Pending(String),
}

pub enum KnownView {
    Seen(u64),
    Pending(Seq<char>),
}

impl View for KnownBytes {
    type V = KnownView;

    open spec fn view(&self) -> KnownView {
        match self {
            KnownBytes::Seen(digest) => KnownView::Seen(*digest),
            KnownBytes::Pending(text) => KnownView::Pending(text@),
        }
    }
}

impl Clone for KnownBytes {
    fn clone(&self) -> (copy: Self)
        ensures
            copy == *self,
    {
        match self {
            KnownBytes::Seen(digest) => KnownBytes::Seen(*digest),
            KnownBytes::Pending(text) => KnownBytes::Pending(text.clone()),
        }
    }
}

/// Bytes with this digest are the known ones.
pub open spec fn known_matches(known: KnownView, bytes: Seq<u8>, digest: u64) -> bool {
    match known {
        KnownView::Seen(seen) => seen == digest,
        KnownView::Pending(text) => encode_utf8(text) == bytes,
    }
}

impl KnownBytes {
    pub fn matches(&self, bytes: &[u8], hash: u64) -> (answer: bool)
        ensures
            answer == known_matches(self@, bytes@, hash),
    {
        match self {
            KnownBytes::Seen(seen) => *seen == hash,
            KnownBytes::Pending(text) => same_bytes(text.as_str().as_bytes(), bytes),
        }
    }

    fn same(&self, other: &KnownBytes) -> (answer: bool)
        ensures
            answer == (self@ == other@),
    {
        match (self, other) {
            (KnownBytes::Seen(a), KnownBytes::Seen(b)) => *a == *b,
            (KnownBytes::Pending(a), KnownBytes::Pending(b)) => *a == *b,
            _ => false,
        }
    }
}

/// What a surface agrees with on disk: the stamp it last saw, the content seen
/// there followed by what was sent there since, and whether the file was gone.
#[derive(Debug, PartialEq, Eq)]
pub struct DiskIdentity {
    pub stamp: Option<DiskStamp>,
    pub known: Vec<KnownBytes>,
    pub missing: bool,
}

#[verifier::ext_equal]
pub struct IdentityView {
    pub stamp: Option<DiskStamp>,
    pub known: Seq<KnownView>,
    pub missing: bool,
}

pub open spec fn known_views(known: Seq<KnownBytes>) -> Seq<KnownView> {
    Seq::new(known.len(), |i: int| known[i]@)
}

impl View for DiskIdentity {
    type V = IdentityView;

    open spec fn view(&self) -> IdentityView {
        IdentityView {
            stamp: self.stamp,
            known: known_views(self.known@),
            missing: self.missing,
        }
    }
}

pub open spec fn loaded_identity(stamp: DiskStamp, digest: Option<u64>) -> IdentityView {
    IdentityView {
        stamp: Some(stamp),
        known: match digest {
            Some(digest) => seq![KnownView::Seen(digest)],
            None => Seq::empty(),
        },
        missing: false,
    }
}

pub open spec fn missing_identity() -> IdentityView {
    IdentityView { stamp: None, known: Seq::empty(), missing: true }
}

/// The identity once a write of `text` was sent.
pub open spec fn with_pending(identity: IdentityView, text: Seq<char>) -> IdentityView {
    let known = if identity.known.len() > 0 && identity.known.last() == KnownView::Pending(text) {
        identity.known
    } else if identity.known.len() >= MAX_KNOWN_BYTES {
        identity.known.push(KnownView::Pending(text)).skip(1)
    } else {
        identity.known.push(KnownView::Pending(text))
    };
    IdentityView {
        stamp: match identity.stamp {
            Some(stamp) => Some(DiskStamp { trusted: false, ..stamp }),
            None => None,
        },
        known,
        missing: identity.missing,
    }
}

/// The identity once the disk was seen to hold entry `matched.0`: what was sent
/// before it has landed and is nobody's any more.
pub open spec fn confirmed(
    identity: IdentityView,
    stamp: DiskStamp,
    matched: Option<(usize, u64)>,
) -> IdentityView {
    IdentityView {
        stamp: Some(stamp),
        known: match matched {
            Some((ix, digest)) => if ix < identity.known.len() {
                identity.known.skip(ix as int).update(0, KnownView::Seen(digest))
            } else {
                identity.known
            },
            None => identity.known,
        },
        missing: false,
    }
}

pub open spec fn only_pending(known: Seq<KnownView>) -> Seq<KnownView>
    decreases known.len(),
{
    if known.len() == 0 {
        Seq::empty()
    } else {
        let before = only_pending(known.drop_last());
        if known.last() is Pending {
            before.push(known.last())
        } else {
            before
        }
    }
}

/// The first entries, as many as there may be.
pub open spec fn cut_to(known: Seq<KnownView>, len: int) -> Seq<KnownView> {
    if known.len() <= len {
        known
    } else {
        known.take(len)
    }
}

/// The last entries, as many as there is room for.
pub open spec fn newest(known: Seq<KnownView>, room: int) -> Seq<KnownView> {
    if known.len() <= room {
        known
    } else {
        known.skip(known.len() - room)
    }
}

/// What was seen on disk, with the writes that are still on their way: the newest
/// of them, where there are too many.
pub open spec fn adopted(identity: IdentityView, seen: IdentityView) -> IdentityView {
    let first = cut_to(seen.known, MAX_KNOWN_BYTES as int);
    IdentityView {
        stamp: seen.stamp,
        known: first + newest(only_pending(identity.known), MAX_KNOWN_BYTES - first.len()),
        missing: seen.missing,
    }
}

pub open spec fn same_disk(a: IdentityView, b: IdentityView) -> bool {
    &&& a.missing == b.missing
    &&& a.known == b.known
    &&& match (a.stamp, b.stamp) {
        (Some(a), Some(b)) => same_state(a, b),
        (None, None) => true,
        _ => false,
    }
}

impl Default for DiskIdentity {
    fn default() -> (identity: Self)
        ensures
            identity@ == (IdentityView { stamp: None, known: Seq::empty(), missing: false }),
    {
        let identity = DiskIdentity { stamp: None, known: Vec::new(), missing: false };
        assert(identity@.known =~= Seq::empty());
        identity
    }
}

impl Clone for DiskIdentity {
    fn clone(&self) -> (copy: Self)
        ensures
            copy@ == self@,
    {
        let mut known: Vec<KnownBytes> = Vec::new();
        let mut i: usize = 0;
        while i < self.known.len()
            invariant
                0 <= i <= self.known@.len(),
                known@ == self.known@.take(i as int),
            decreases self.known@.len() - i,
        {
            known.push(self.known[i].clone());
            i += 1;
            assert(known@ =~= self.known@.take(i as int));
        }
        assert(self.known@.take(self.known@.len() as int) =~= self.known@);
        DiskIdentity { stamp: self.stamp, known, missing: self.missing }
    }
}

impl DiskIdentity {
    pub fn loaded(stamp: DiskStamp, hash: Option<u64>) -> (identity: Self)
        ensures
            identity@ == loaded_identity(stamp, hash),
    {
        let mut known: Vec<KnownBytes> = Vec::new();
        if let Some(hash) = hash {
            known.push(KnownBytes::Seen(hash));
        }
        let identity = DiskIdentity { stamp: Some(stamp), known, missing: false };
        assert(identity@ =~= loaded_identity(stamp, hash));
        identity
    }

    /// A file that is gone.
    pub fn gone() -> (identity: Self)
        ensures
            identity@ == missing_identity(),
    {
        let identity = DiskIdentity { stamp: None, known: Vec::new(), missing: true };
        assert(identity@ =~= missing_identity());
        identity
    }

    /// A write was sent but has not necessarily landed, so both the bytes
    /// before it and the bytes it writes are the surface's own for now.
    pub fn note_pending_write(&mut self, text: String)
        requires
            old(self)@.known.len() <= MAX_KNOWN_BYTES,
        ensures
            final(self)@ == with_pending(old(self)@, text@),
            final(self)@.known.len() <= MAX_KNOWN_BYTES,
    {
        let pending = KnownBytes::Pending(text);
        let len = self.known.len();
        let ghost before = self@;
        let already = len > 0 && self.known[len - 1].same(&pending);
        if !already {
            self.known.push(pending);
            if self.known.len() > MAX_KNOWN_BYTES {
                self.known.remove(0);
            }
        }
        if let Some(stamp) = self.stamp {
            let mut stamp = stamp;
            stamp.trusted = false;
            self.stamp = Some(stamp);
        }
        assert(self@ =~= with_pending(before, text@));
    }

    /// The disk was seen holding entry `matched.0`, with digest `matched.1`.
    pub fn confirm(&mut self, stamp: DiskStamp, matched: Option<(usize, u64)>)
        ensures
            final(self)@ == confirmed(old(self)@, stamp, matched),
    {
        self.stamp = Some(stamp);
        self.missing = false;
        let ghost before = old(self)@;
        if let Some((ix, hash)) = matched {
            if ix < self.known.len() {
                let mut kept = self.known.split_off(ix);
                kept.set(0, KnownBytes::Seen(hash));
                self.known = kept;
            }
        }
        assert(self@ =~= confirmed(before, stamp, matched));
    }

    /// Takes `seen` as what is on disk, with the writes that are still on their
    /// way: they will land on top of it. Where there are too many, the oldest go.
    pub fn adopt(&mut self, seen: DiskIdentity)
        ensures
            final(self)@ == adopted(old(self)@, seen@),
            final(self)@.known.len() <= MAX_KNOWN_BYTES,
    {
        let mut known = seen.known;
        known.truncate(MAX_KNOWN_BYTES);
        let ghost first = known_views(known@);
        proof {
            assert(first =~= cut_to(seen@.known, MAX_KNOWN_BYTES as int));
        }
        let room = MAX_KNOWN_BYTES - known.len();
        let mut pending = self.pending_writes();
        let ghost all = known_views(pending@);
        if pending.len() > room {
            let oldest = pending.len() - room;
            pending = pending.split_off(oldest);
        }
        proof {
            assert(known_views(pending@) =~= newest(all, room as int));
        }
        let ghost kept = known_views(pending@);
        known.append(&mut pending);
        proof {
            assert(known_views(known@) =~= first + kept);
        }
        self.stamp = seen.stamp;
        self.missing = seen.missing;
        self.known = known;
        assert(self@ =~= adopted(old(self)@, seen@));
    }

    /// The writes that are still on their way, oldest first.
    fn pending_writes(&self) -> (pending: Vec<KnownBytes>)
        ensures
            known_views(pending@) == only_pending(self@.known),
    {
        let mut pending: Vec<KnownBytes> = Vec::new();
        let ghost own = self@.known;
        let mut i: usize = 0;
        assert(own.take(0) =~= Seq::empty());
        assert(known_views(pending@) =~= only_pending(own.take(0)));
        while i < self.known.len()
            invariant
                0 <= i <= self.known@.len(),
                own == known_views(self.known@),
                known_views(pending@) == only_pending(own.take(i as int)),
            decreases self.known@.len() - i,
        {
            proof {
                let next = own.take(i + 1);
                assert(next.drop_last() =~= own.take(i as int));
                assert(next.last() == self.known@[i as int]@);
            }
            let ghost before = known_views(pending@);
            if let KnownBytes::Pending(text) = &self.known[i] {
                pending.push(KnownBytes::Pending(text.clone()));
                assert(known_views(pending@) =~= before.push(KnownView::Pending(text@)));
            }
            i += 1;
        }
        assert(own.take(own.len() as int) =~= own);
        pending
    }

    pub fn same_disk_state(&self, other: &DiskIdentity) -> (answer: bool)
        ensures
            answer == same_disk(self@, other@),
    {
        assert(self@.known.len() == self.known@.len() && other@.known.len() == other.known@.len());
        if self.missing != other.missing || self.known.len() != other.known.len() {
            return false;
        }
        let mut i: usize = 0;
        while i < self.known.len()
            invariant
                0 <= i <= self.known@.len(),
                self.known@.len() == other.known@.len(),
                forall|k: int| 0 <= k < i ==> (#[trigger] self.known@[k])@ == other.known@[k]@,
            decreases self.known@.len() - i,
        {
            if !self.known[i].same(&other.known[i]) {
                assert(self@.known[i as int] != other@.known[i as int]);
                return false;
            }
            i += 1;
        }
        assert(self@.known =~= other@.known);
        match (self.stamp, other.stamp) {
            (Some(a), Some(b)) => a.same_file_state(b),
            (None, None) => true,
            _ => false,
        }
    }
}

/// The digest of a file's bytes. It is compared only with digests made by the same
/// program: beside the bytes it depends on how the target multiplies.
pub fn disk_content_hash(bytes: &[u8]) -> (digest: u64)
    ensures
        exists|wide: bool| digest == #[trigger] fx_bytes_digest(bytes@, wide),
{
    fx_hash_bytes(bytes)
}

/// What a look at the file found.
#[derive(Clone, Copy, Debug, PartialEq, Eq)]
pub enum DiskCheckOutcome {
    Unchanged,
    /// The surface's own bytes under a new stamp.
    Same { fresh: DiskStamp, matched: Option<(usize, u64)> },
    Changed { fresh: DiskStamp, hash: Option<u64> },
    Missing,
}

/// What the file system said.
#[derive(Clone, Copy, Debug, PartialEq, Eq)]
pub enum DiskStat {
    NotFound,
    /// Another error, which is no change worth speaking of.
    Unreadable,
    Directory,
    File { stamp: DiskStamp },
}

/// What to do after the file system was asked.
#[derive(Clone, Copy, Debug, PartialEq, Eq)]
pub enum DiskCheckStep {
    Done { outcome: DiskCheckOutcome },
    ReadBytes { fresh: DiskStamp },
}

pub open spec fn stamp_matches(known: IdentityView, fresh: DiskStamp) -> bool {
    known.stamp matches Some(stamp) && same_state(stamp, fresh)
}

/// The bytes are read only where the stamp does not settle the matter, there is
/// something to compare them with, and the file is not too large.
pub open spec fn check_step(known: IdentityView, stat: DiskStat, hash_limit: u64) -> DiskCheckStep {
    match stat {
        DiskStat::NotFound => DiskCheckStep::Done {
            outcome: if known.missing {
                DiskCheckOutcome::Unchanged
            } else {
                DiskCheckOutcome::Missing
            },
        },
        DiskStat::Unreadable | DiskStat::Directory => DiskCheckStep::Done {
            outcome: DiskCheckOutcome::Unchanged,
        },
        DiskStat::File { stamp: fresh } => if stamp_matches(known, fresh)
            && known.stamp->0.trusted {
            DiskCheckStep::Done { outcome: DiskCheckOutcome::Unchanged }
        } else if fresh.len <= hash_limit && known.known.len() > 0 {
            DiskCheckStep::ReadBytes { fresh }
        } else if stamp_matches(known, fresh) {
            DiskCheckStep::Done { outcome: DiskCheckOutcome::Same { fresh, matched: None } }
        } else {
            DiskCheckStep::Done { outcome: DiskCheckOutcome::Changed { fresh, hash: None } }
        },
    }
}

/// The first step of a look at the file.
pub fn check_disk_stat(known: &DiskIdentity, stat: DiskStat, hash_limit: u64) -> (step:
    DiskCheckStep)
    ensures
        step == check_step(known@, stat, hash_limit),
{
    let fresh = match stat {
        DiskStat::NotFound => {
            return DiskCheckStep::Done {
                outcome: if known.missing {
                    DiskCheckOutcome::Unchanged
                } else {
                    DiskCheckOutcome::Missing
                },
            };
        },
        DiskStat::Unreadable | DiskStat::Directory => {
            return DiskCheckStep::Done { outcome: DiskCheckOutcome::Unchanged };
        },
        DiskStat::File { stamp } => stamp,
    };
    let (stamp_matches, stamp_trusted) = match known.stamp {
        Some(stamp) => (stamp.same_file_state(fresh), stamp.trusted),
        None => (false, false),
    };
    if stamp_matches && stamp_trusted {
        return DiskCheckStep::Done { outcome: DiskCheckOutcome::Unchanged };
    }
    if fresh.len <= hash_limit && known.known.len() > 0 {
        return DiskCheckStep::ReadBytes { fresh };
    }
    if stamp_matches {
        DiskCheckStep::Done { outcome: DiskCheckOutcome::Same { fresh, matched: None } }
    } else {
        DiskCheckStep::Done { outcome: DiskCheckOutcome::Changed { fresh, hash: None } }
    }
}

/// The first known version from `i` on that bytes with this digest are.
pub open spec fn known_position(
    known: Seq<KnownView>,
    bytes: Seq<u8>,
    digest: u64,
    i: int,
) -> Option<usize>
    decreases known.len() - i,
{
    if !(0 <= i < known.len()) {
        None
    } else if known_matches(known[i], bytes, digest) {
        Some(i as usize)
    } else {
        known_position(known, bytes, digest, i + 1)
    }
}

pub open spec fn bytes_outcome(
    known: IdentityView,
    fresh: DiskStamp,
    bytes: Seq<u8>,
    digest: u64,
) -> DiskCheckOutcome {
    match known_position(known.known, bytes, digest, 0) {
        Some(ix) => DiskCheckOutcome::Same { fresh, matched: Some((ix, digest)) },
        None => DiskCheckOutcome::Changed { fresh, hash: Some(digest) },
    }
}

/// Compares bytes of a given digest with the versions that are known.
pub fn check_disk_bytes_hashed(
    known: &DiskIdentity,
    fresh: DiskStamp,
    bytes: &[u8],
    hash: u64,
) -> (outcome: DiskCheckOutcome)
    ensures
        outcome == bytes_outcome(known@, fresh, bytes@, hash),
{
    let mut ix: usize = 0;
    while ix < known.known.len()
        invariant
            0 <= ix <= known.known@.len(),
            known_position(known@.known, bytes@, hash, ix as int) == known_position(
                known@.known,
                bytes@,
                hash,
                0,
            ),
        decreases known.known@.len() - ix,
    {
        assert(known@.known[ix as int] == known.known@[ix as int]@);
        if known.known[ix].matches(bytes, hash) {
            return DiskCheckOutcome::Same { fresh, matched: Some((ix, hash)) };
        }
        ix += 1;
    }
    DiskCheckOutcome::Changed { fresh, hash: Some(hash) }
}

/// The second step of a look at the file: compares its bytes, where they could
/// be read, with the versions that are known.
pub fn check_disk_bytes(
    known: &DiskIdentity,
    fresh: DiskStamp,
    bytes: Option<&[u8]>,
) -> (outcome: DiskCheckOutcome)
    ensures
        bytes is None ==> outcome == DiskCheckOutcome::Unchanged,
        bytes matches Some(bytes) ==> exists|wide: bool|
            outcome == bytes_outcome(
                known@,
                fresh,
                bytes@,
                #[trigger] fx_bytes_digest(bytes@, wide),
            ),
{
    match bytes {
        Some(bytes) => {
            let hash = disk_content_hash(bytes);
            check_disk_bytes_hashed(known, fresh, bytes, hash)
        },
        None => DiskCheckOutcome::Unchanged,
    }
}

#[derive(Clone, Copy, Debug, PartialEq, Eq, Structural)]
pub enum DiskSurface {
    Preview,
    Editor,
}

/// Why the file is looked at, which decides what a change leads to.
#[derive(Clone, Copy, Debug, PartialEq, Eq, Structural)]
pub enum DiskCheckCause {
    WorktreeChanged,
    GitOperation,
    CameIntoView,
}

impl DiskCheckCause {
    pub fn by_git_operation(self) -> (answer: bool)
        ensures
            answer == (self == DiskCheckCause::GitOperation),
    {
        self == DiskCheckCause::GitOperation
    }

    /// A surface without edits catches up unasked: after a command of the
    /// program's own, or where the user never saw the old version.
    pub fn follows_when_clean(self) -> (answer: bool)
        ensures
            answer == (self == DiskCheckCause::GitOperation || self
                == DiskCheckCause::CameIntoView),
    {
        match self {
            DiskCheckCause::GitOperation | DiskCheckCause::CameIntoView => true,
            DiskCheckCause::WorktreeChanged => false,
        }
    }
}

/// The revisions of a repository that a surface was last read or checked at.
#[derive(Clone, Copy, Debug, PartialEq, Eq, Structural)]
pub struct FileDiskSeen {
    pub repo_id: u64,
    pub surface: DiskSurface,
    pub worktree_rev: u64,
    pub local_write_rev: u64,
}

/// The repository on screen with its two revisions.
#[derive(Clone, Copy, Debug, PartialEq, Eq, Structural)]
pub struct FileDiskRevs {
    pub repo_id: u64,
    pub worktree_rev: u64,
    pub local_write_rev: u64,
}

/// The surface that shows a file of the worktree, and the file.
#[derive(Debug)]
pub struct ScreenSurface {
    pub repo_id: u64,
    pub abs_path: String,
    pub surface: DiskSurface,
}

#[derive(Debug)]
pub struct FileDiskNotice {
    pub repo_id: u64,
    pub abs_path: String,
    pub surface: DiskSurface,
    /// The state of the disk that the notice speaks of.
    pub seen: DiskIdentity,
    pub by_git_operation: bool,
    pub deleted: bool,
}

/// The working-tree file that the pane has selected: repository, path within
/// it, absolute path.
#[derive(Debug)]
pub struct FileDiskTarget {
    pub repo_id: u64,
    pub path: String,
    pub abs_path: String,
}

/// What the editor and the preview hold.
#[derive(Debug)]
pub struct FileDiskScene {
    pub editor_active: bool,
    pub editor_loading: bool,
    pub editor_repo_id: Option<u64>,
    pub editor_path: Option<String>,
    pub editor_failed: bool,
    pub preview_ready: bool,
    pub preview_path: Option<String>,
    pub preview_source_path: Option<String>,
    pub preview_active: bool,
}

/// The editor holds the file, whether or not reading it worked.
pub open spec fn editor_holds(scene: FileDiskScene, target: FileDiskTarget) -> bool {
    &&& scene.editor_active
    &&& !scene.editor_loading
    &&& scene.editor_repo_id == Some(target.repo_id)
    &&& scene.editor_path matches Some(path) && path@ == target.path@
}

/// The preview shows the file itself, and no copy of it.
pub open spec fn preview_holds(scene: FileDiskScene, target: FileDiskTarget) -> bool {
    &&& scene.preview_ready
    &&& scene.preview_active
    &&& scene.preview_path matches Some(path) && path@ == target.abs_path@
    &&& scene.preview_source_path matches Some(path) && path@ == target.abs_path@
}

pub open spec fn surface_of(
    scene: FileDiskScene,
    target: Option<FileDiskTarget>,
) -> Option<DiskSurface> {
    match target {
        None => None,
        Some(target) => if scene.editor_active {
            if editor_holds(scene, target) && !scene.editor_failed {
                Some(DiskSurface::Editor)
            } else {
                None
            }
        } else if preview_holds(scene, target) {
            Some(DiskSurface::Preview)
        } else {
            None
        },
    }
}

pub fn file_editor_holds(scene: &FileDiskScene, target: &FileDiskTarget) -> (answer: bool)
    ensures
        answer == editor_holds(*scene, *target),
{
    scene.editor_active && !scene.editor_loading && crate::text::is_same_number(
        scene.editor_repo_id,
        Some(target.repo_id),
    ) && crate::text::is_text(&scene.editor_path, &target.path)
}

/// The surface that shows bytes straight off the worktree, if one does.
pub fn file_disk_surface(
    scene: &FileDiskScene,
    target: &Option<FileDiskTarget>,
) -> (surface: Option<ScreenSurface>)
    ensures
        match surface {
            Some(surface) => surface_of(*scene, *target) == Some(surface.surface)
                && surface.repo_id == target->0.repo_id && surface.abs_path == target->0.abs_path,
            None => surface_of(*scene, *target) is None,
        },
{
    let target = match target {
        Some(target) => target,
        None => {
            return None;
        },
    };
    if scene.editor_active {
        return if file_editor_holds(scene, target) && !scene.editor_failed {
            Some(
                ScreenSurface {
                    repo_id: target.repo_id,
                    abs_path: target.abs_path.clone(),
                    surface: DiskSurface::Editor,
                },
            )
        } else {
            None
        };
    }
    let preview_is_the_file = scene.preview_ready && crate::text::is_text(
        &scene.preview_path,
        &target.abs_path,
    ) && crate::text::is_text(&scene.preview_source_path, &target.abs_path)
        && scene.preview_active;
    if preview_is_the_file {
        Some(
            ScreenSurface {
                repo_id: target.repo_id,
                abs_path: target.abs_path.clone(),
                surface: DiskSurface::Preview,
            },
        )
    } else {
        None
    }
}

pub open spec fn names(notice: FileDiskNotice, screen: ScreenSurface) -> bool {
    notice.repo_id == screen.repo_id && notice.abs_path@ == screen.abs_path@ && notice.surface
        == screen.surface
}

pub open spec fn same_screen(a: ScreenSurface, b: ScreenSurface) -> bool {
    a.repo_id == b.repo_id && a.abs_path@ == b.abs_path@ && a.surface == b.surface
}

impl FileDiskNotice {
    fn names_screen(&self, screen: &ScreenSurface) -> (answer: bool)
        ensures
            answer == names(*self, *screen),
    {
        self.repo_id == screen.repo_id && self.abs_path == screen.abs_path && self.surface
            == screen.surface
    }
}

/// What the pane remembers of the file on screen.
#[derive(Debug)]
pub struct FileDiskState {
    pub notice: Option<FileDiskNotice>,
    pub check_seq: u64,
    pub check_in_flight: Option<DiskCheckCause>,
    pub seen: Option<FileDiskSeen>,
    pub editor_disk: DiskIdentity,
    pub preview_disk: DiskIdentity,
}

/// What a change of state leads to.
#[derive(Clone, Copy, Debug, PartialEq, Eq, Structural)]
pub struct FileDiskSync {
    pub repaint: bool,
    pub retry_failed_editor: bool,
    pub check: Option<DiskCheckCause>,
}

/// What a look at the file leads to.
#[derive(Clone, Copy, Debug, PartialEq, Eq, Structural)]
pub enum FileDiskApplied {
    /// The look is out of date, or found nothing new.
    Ignored,
    /// The file holds bytes of the surface's own.
    Confirmed { repaint: bool },
    /// The surface has nothing to lose: it is read again.
    Reload { surface: DiskSurface },
    /// A notice that says the same is up already.
    AlreadyTold,
    /// A notice is up now.
    Told,
}

/// What dismissing a notice leads to.
#[derive(Clone, Copy, Debug, PartialEq, Eq, Structural)]
pub struct FileDiskDismissed {
    pub dismissed: bool,
    pub schedule_autosave: bool,
    pub check: Option<DiskCheckCause>,
}

/// Why a look at the file is due, if it is: the surface came into view, or the
/// repository has moved on since it was last looked at.
pub open spec fn due_check(
    seen: Option<FileDiskSeen>,
    next: FileDiskSeen,
    git_operation_in_flight: bool,
) -> Option<DiskCheckCause> {
    match seen {
        None => Some(DiskCheckCause::CameIntoView),
        Some(seen) => if seen.repo_id != next.repo_id || seen.surface != next.surface {
            Some(DiskCheckCause::CameIntoView)
        } else if seen.worktree_rev == next.worktree_rev && seen.local_write_rev
            == next.local_write_rev {
            None
        } else if seen.local_write_rev != next.local_write_rev || git_operation_in_flight {
            Some(DiskCheckCause::GitOperation)
        } else {
            Some(DiskCheckCause::WorktreeChanged)
        },
    }
}

pub open spec fn seen_at(surface: DiskSurface, revs: FileDiskRevs) -> FileDiskSeen {
    FileDiskSeen {
        repo_id: revs.repo_id,
        surface,
        worktree_rev: revs.worktree_rev,
        local_write_rev: revs.local_write_rev,
    }
}

impl FileDiskState {
    pub open spec fn disk(&self, surface: DiskSurface) -> DiskIdentity {
        match surface {
            DiskSurface::Editor => self.editor_disk,
            DiskSurface::Preview => self.preview_disk,
        }
    }

    /// The notice is up, and names what is on screen.
    pub fn file_disk_notice_for_screen(&self, screen: &Option<ScreenSurface>) -> (answer: bool)
        ensures
            answer == (self.notice matches Some(notice) && (screen matches Some(screen) && names(
                notice,
                *screen,
            ))),
    {
        match (&self.notice, screen) {
            (Some(notice), Some(screen)) => notice.names_screen(screen),
            _ => false,
        }
    }

    /// A notice about the editor waits for an answer. Saving unasked must not
    /// answer it by writing over the other version.
    pub fn file_disk_notice_awaits_editor(&self) -> (answer: bool)
        ensures
            answer == (self.notice matches Some(notice) && notice.surface == DiskSurface::Editor),
    {
        match &self.notice {
            Some(notice) => notice.surface == DiskSurface::Editor,
            None => false,
        }
    }

    /// Drops a look that is under way: it compares with what is about to change.
    pub fn invalidate_file_disk_checks(&mut self)
        ensures
            *final(self) == (FileDiskState {
                check_seq: next_epoch(old(self).check_seq),
                check_in_flight: None,
                ..*old(self)
            }),
    {
        self.check_seq = next_counter(self.check_seq);
        self.check_in_flight = None;
    }

    /// Saving on purpose keeps the buffer: the state of the disk that the notice
    /// speaks of is taken as the one that is written over.
    pub fn answer_file_disk_notice_by_saving(&mut self)
        ensures
            ({
                let answered = old(self).notice matches Some(notice) && notice.surface
                    == DiskSurface::Editor;
                if answered {
                    &&& final(self).notice is None
                    &&& final(self).check_seq == next_epoch(old(self).check_seq)
                    &&& final(self).check_in_flight is None
                    &&& final(self).seen == old(self).seen
                    &&& final(self).editor_disk@ == adopted(
                        old(self).editor_disk@,
                        old(self).notice->0.seen@,
                    )
                    &&& final(self).preview_disk == old(self).preview_disk
                } else {
                    *final(self) == *old(self)
                }
            }),
    {
        if !self.file_disk_notice_awaits_editor() {
            return;
        }
        if let Some(notice) = self.notice.take() {
            self.invalidate_file_disk_checks();
            self.editor_disk.adopt(notice.seen);
        }
    }

    pub fn seat_file_disk_seen(&mut self, surface: DiskSurface, revs: Option<FileDiskRevs>)
        ensures
            *final(self) == (FileDiskState {
                seen: match revs {
                    Some(revs) => Some(seen_at(surface, revs)),
                    None => None,
                },
                ..*old(self)
            }),
    {
        self.seen = match revs {
            Some(revs) => Some(
                FileDiskSeen {
                    repo_id: revs.repo_id,
                    surface,
                    worktree_rev: revs.worktree_rev,
                    local_write_rev: revs.local_write_rev,
                },
            ),
            None => None,
        };
    }

    fn clear_file_disk_notice_for(&mut self, surface: DiskSurface) -> (cleared: bool)
        ensures
            cleared == (old(self).notice matches Some(notice) && notice.surface == surface),
            *final(self) == (FileDiskState {
                notice: if cleared {
                    None
                } else {
                    old(self).notice
                },
                ..*old(self)
            }),
    {
        let cleared = match &self.notice {
            Some(notice) => notice.surface == surface,
            None => false,
        };
        if cleared {
            self.notice = None;
        }
        cleared
    }

    /// A read of a surface has landed: remembers what it was read under. The
    /// pane then looks whether the worktree moved while it ran.
    pub fn file_disk_read_landed(&mut self, surface: DiskSurface, revs: Option<FileDiskRevs>)
        ensures
            *final(self) == (FileDiskState {
                notice: if old(self).notice matches Some(notice) && notice.surface == surface {
                    None
                } else {
                    old(self).notice
                },
                seen: match revs {
                    Some(revs) => Some(seen_at(surface, revs)),
                    None => None,
                },
                ..*old(self)
            }),
    {
        self.clear_file_disk_notice_for(surface);
        self.seat_file_disk_seen(surface, revs);
    }

    /// The state of the program has changed: is a look at the file due?
    pub fn sync_file_disk_check(
        &mut self,
        target_changed: bool,
        screen: &Option<ScreenSurface>,
        revs: Option<FileDiskRevs>,
        git_operation_in_flight: bool,
    ) -> (sync: FileDiskSync)
        ensures
            final(self).check_seq == old(self).check_seq,
            final(self).check_in_flight == old(self).check_in_flight,
            final(self).editor_disk == old(self).editor_disk,
            final(self).preview_disk == old(self).preview_disk,
            ({
                let notice = if target_changed {
                    None
                } else {
                    old(self).notice
                };
                let seen = if target_changed {
                    None
                } else {
                    old(self).seen
                };
                match screen {
                    None => {
                        &&& final(self).notice is None
                        &&& final(self).seen == seen
                        &&& sync == (FileDiskSync {
                            repaint: notice is Some,
                            retry_failed_editor: true,
                            check: None,
                        })
                    },
                    Some(screen) => {
                        let stale = notice matches Some(notice) && !names(notice, *screen);
                        &&& final(self).notice == (if stale {
                            None
                        } else {
                            notice
                        })
                        &&& sync.repaint == stale
                        &&& !sync.retry_failed_editor
                        &&& match revs {
                            None => final(self).seen == seen && sync.check is None,
                            Some(revs) => {
                                let next = FileDiskSeen {
                                    repo_id: screen.repo_id,
                                    surface: screen.surface,
                                    worktree_rev: revs.worktree_rev,
                                    local_write_rev: revs.local_write_rev,
                                };
                                &&& final(self).seen == Some(next)
                                &&& sync.check == due_check(seen, next, git_operation_in_flight)
                            },
                        }
                    },
                }
            }),
    {
        if target_changed {
            self.notice = None;
            self.seen = None;
        }
        let screen = match screen {
            Some(screen) => screen,
            None => {
                let repaint = self.notice.is_some();
                self.notice = None;
                return FileDiskSync { repaint, retry_failed_editor: true, check: None };
            },
        };
        let stale = match &self.notice {
            Some(notice) => !notice.names_screen(screen),
            None => false,
        };
        if stale {
            self.notice = None;
        }
        let revs = match revs {
            Some(revs) => revs,
            None => {
                return FileDiskSync { repaint: stale, retry_failed_editor: false, check: None };
            },
        };
        let next = FileDiskSeen {
            repo_id: screen.repo_id,
            surface: screen.surface,
            worktree_rev: revs.worktree_rev,
            local_write_rev: revs.local_write_rev,
        };
        let seen = self.seen;
        self.seen = Some(next);
        let check = match seen {
            None => Some(DiskCheckCause::CameIntoView),
            Some(seen) => {
                let local_write_moved = seen.local_write_rev != next.local_write_rev;
                if seen.repo_id != next.repo_id || seen.surface != next.surface {
                    Some(DiskCheckCause::CameIntoView)
                } else if seen.worktree_rev == next.worktree_rev && !local_write_moved {
                    None
                } else if local_write_moved || git_operation_in_flight {
                    Some(DiskCheckCause::GitOperation)
                } else {
                    Some(DiskCheckCause::WorktreeChanged)
                }
            },
        };
        FileDiskSync { repaint: stale, retry_failed_editor: false, check }
    }

    /// An editor whose read failed has nothing to protect: it is read again,
    /// once per move of the worktree.
    pub fn retry_failed_file_editor_read(
        &mut self,
        scene: &FileDiskScene,
        target: &Option<FileDiskTarget>,
        revs: Option<FileDiskRevs>,
    ) -> (reread: bool)
        ensures
            reread == (target matches Some(target) && scene.editor_failed && editor_holds(
                *scene,
                *target,
            ) && (revs matches Some(revs) && (old(self).seen matches Some(seen) && seen.repo_id
                == target.repo_id && (seen.worktree_rev != revs.worktree_rev
                || seen.local_write_rev != revs.local_write_rev)))),
            *final(self) == (if reread {
                FileDiskState {
                    seen: Some(seen_at(DiskSurface::Editor, revs->0)),
                    ..*old(self)
                }
            } else {
                *old(self)
            }),
    {
        let target = match target {
            Some(target) => target,
            None => {
                return false;
            },
        };
        if !scene.editor_failed || !file_editor_holds(scene, target) {
            return false;
        }
        let revs = match revs {
            Some(revs) => revs,
            None => {
                return false;
            },
        };
        let moved = match self.seen {
            Some(seen) => seen.repo_id == target.repo_id && (seen.worktree_rev
                != revs.worktree_rev || seen.local_write_rev != revs.local_write_rev),
            None => false,
        };
        if moved {
            self.seat_file_disk_seen(DiskSurface::Editor, Some(revs));
        }
        moved
    }

    /// A look at the file starts; hands out its number.
    pub fn begin_file_disk_check(&mut self, cause: DiskCheckCause) -> (seq: u64)
        ensures
            seq == next_epoch(old(self).check_seq),
            *final(self) == (FileDiskState {
                check_seq: seq,
                check_in_flight: Some(cause),
                ..*old(self)
            }),
    {
        self.check_seq = next_counter(self.check_seq);
        self.check_in_flight = Some(cause);
        self.check_seq
    }

    /// A look at the file is over. It is ignored where it was overtaken or the
    /// surface is no longer on screen.
    pub fn apply_file_disk_check(
        &mut self,
        seq: u64,
        checked: ScreenSurface,
        screen: &Option<ScreenSurface>,
        cause: DiskCheckCause,
        outcome: DiskCheckOutcome,
        editor_dirty: bool,
    ) -> (applied: FileDiskApplied)
        ensures
            final(self).check_seq == old(self).check_seq,
            final(self).seen == old(self).seen,
            ({
                let current = seq == old(self).check_seq;
                let on_screen = screen matches Some(screen) && same_screen(*screen, checked);
                let surface = checked.surface;
                let follows = (cause == DiskCheckCause::GitOperation || cause
                    == DiskCheckCause::CameIntoView) && (surface == DiskSurface::Preview
                    || !editor_dirty);
                &&& final(self).check_in_flight == (if current {
                    None
                } else {
                    old(self).check_in_flight
                })
                &&& if !current || !on_screen {
                    &&& applied == FileDiskApplied::Ignored
                    &&& final(self).notice == old(self).notice
                    &&& final(self).editor_disk == old(self).editor_disk
                    &&& final(self).preview_disk == old(self).preview_disk
                } else {
                    match outcome {
                        DiskCheckOutcome::Unchanged => {
                            &&& applied == FileDiskApplied::Ignored
                            &&& final(self).notice == old(self).notice
                            &&& final(self).editor_disk == old(self).editor_disk
                            &&& final(self).preview_disk == old(self).preview_disk
                        },
                        DiskCheckOutcome::Same { fresh, matched } => {
                            let settled = old(self).notice matches Some(notice) && notice.surface
                                == surface;
                            &&& applied == FileDiskApplied::Confirmed { repaint: settled }
                            &&& final(self).notice == (if settled {
                                None
                            } else {
                                old(self).notice
                            })
                            &&& final(self).editor_disk@ == (if surface == DiskSurface::Editor {
                                confirmed(old(self).editor_disk@, fresh, matched)
                            } else {
                                old(self).editor_disk@
                            })
                            &&& final(self).preview_disk@ == (if surface == DiskSurface::Preview {
                                confirmed(old(self).preview_disk@, fresh, matched)
                            } else {
                                old(self).preview_disk@
                            })
                        },
                        _ => {
                            let found = match outcome {
                                DiskCheckOutcome::Changed { fresh, hash } => loaded_identity(
                                    fresh,
                                    hash,
                                ),
                                _ => missing_identity(),
                            };
                            let told = old(self).notice matches Some(notice) && same_disk(
                                notice.seen@,
                                found,
                            );
                            &&& final(self).editor_disk == old(self).editor_disk
                            &&& final(self).preview_disk == old(self).preview_disk
                            &&& if follows {
                                &&& applied == FileDiskApplied::Reload { surface }
                                &&& final(self).notice is None
                            } else if told {
                                &&& applied == FileDiskApplied::AlreadyTold
                                &&& final(self).notice == old(self).notice
                            } else {
                                &&& applied == FileDiskApplied::Told
                                &&& final(self).notice matches Some(notice) && names(
                                    notice,
                                    checked,
                                ) && notice.seen@ == found && notice.by_git_operation == (cause
                                    == DiskCheckCause::GitOperation) && notice.deleted == (outcome
                                    == DiskCheckOutcome::Missing)
                            }
                        },
                    }
                }
            }),
    {
        if seq != self.check_seq {
            return FileDiskApplied::Ignored;
        }
        self.check_in_flight = None;
        let on_screen = match screen {
            Some(screen) => screen.repo_id == checked.repo_id && screen.abs_path == checked.abs_path
                && screen.surface == checked.surface,
            None => false,
        };
        if !on_screen {
            return FileDiskApplied::Ignored;
        }
        let surface = checked.surface;
        let (seen, deleted) = match outcome {
            DiskCheckOutcome::Unchanged => {
                return FileDiskApplied::Ignored;
            },
            DiskCheckOutcome::Same { fresh, matched } => {
                match surface {
                    DiskSurface::Editor => self.editor_disk.confirm(fresh, matched),
                    DiskSurface::Preview => self.preview_disk.confirm(fresh, matched),
                }
                let repaint = self.clear_file_disk_notice_for(surface);
                return FileDiskApplied::Confirmed { repaint };
            },
            DiskCheckOutcome::Changed { fresh, hash } => (DiskIdentity::loaded(fresh, hash), false),
            DiskCheckOutcome::Missing => (DiskIdentity::gone(), true),
        };
        let clean = match surface {
            DiskSurface::Editor => !editor_dirty,
            DiskSurface::Preview => true,
        };
        if cause.follows_when_clean() && clean {
            self.notice = None;
            return FileDiskApplied::Reload { surface };
        }
        let told = match &self.notice {
            Some(notice) => notice.seen.same_disk_state(&seen),
            None => false,
        };
        if told {
            return FileDiskApplied::AlreadyTold;
        }
        self.notice = Some(
            FileDiskNotice {
                repo_id: checked.repo_id,
                abs_path: checked.abs_path,
                surface,
                seen,
                by_git_operation: cause.by_git_operation(),
                deleted,
            },
        );
        FileDiskApplied::Told
    }

    /// The user wants the file read again: says which surface to read.
    pub fn reload_file_from_disk_notice(&mut self) -> (surface: Option<DiskSurface>)
        ensures
            match old(self).notice {
                Some(notice) => surface == Some(notice.surface) && *final(self) == (FileDiskState {
                    notice: None,
                    check_seq: next_epoch(old(self).check_seq),
                    check_in_flight: None,
                    ..*old(self)
                }),
                None => surface is None && *final(self) == *old(self),
            },
    {
        match self.notice.take() {
            Some(notice) => {
                self.invalidate_file_disk_checks();
                Some(notice.surface)
            },
            None => None,
        }
    }

    /// The user keeps what is on screen: the state of the disk that the notice
    /// speaks of becomes the known one. A look that was under way runs again.
    pub fn dismiss_file_disk_notice(&mut self, auto_save: bool, editor_dirty: bool) -> (dismissed:
        FileDiskDismissed)
        ensures
            match old(self).notice {
                None => *final(self) == *old(self) && dismissed == (FileDiskDismissed {
                    dismissed: false,
                    schedule_autosave: false,
                    check: None,
                }),
                Some(notice) => {
                    let editor = notice.surface == DiskSurface::Editor;
                    &&& final(self).notice is None
                    &&& final(self).check_seq == next_epoch(old(self).check_seq)
                    &&& final(self).check_in_flight is None
                    &&& final(self).seen == old(self).seen
                    &&& final(self).editor_disk@ == (if editor {
                        adopted(old(self).editor_disk@, notice.seen@)
                    } else {
                        old(self).editor_disk@
                    })
                    &&& final(self).preview_disk@ == (if editor {
                        old(self).preview_disk@
                    } else {
                        adopted(old(self).preview_disk@, notice.seen@)
                    })
                    &&& dismissed == (FileDiskDismissed {
                        dismissed: true,
                        schedule_autosave: editor && auto_save && editor_dirty,
                        check: old(self).check_in_flight,
                    })
                },
            },
    {
        let notice = match self.notice.take() {
            Some(notice) => notice,
            None => {
                return FileDiskDismissed {
                    dismissed: false,
                    schedule_autosave: false,
                    check: None,
                };
            },
        };
        let check = self.check_in_flight;
        self.invalidate_file_disk_checks();
        let mut schedule_autosave = false;
        match notice.surface {
            DiskSurface::Editor => {
                self.editor_disk.adopt(notice.seen);
                schedule_autosave = auto_save && editor_dirty;
            },
            DiskSurface::Preview => self.preview_disk.adopt(notice.seen),
        }
        FileDiskDismissed { dismissed: true, schedule_autosave, check }
    }
}

proof fn lemma_position_exists(
    known: Seq<KnownView>,
    bytes: Seq<u8>,
    digest: u64,
    i: int,
    hit: int,
)
    requires
        0 <= i <= hit < known.len() <= usize::MAX,
        known_matches(known[hit], bytes, digest),
    ensures
        known_position(known, bytes, digest, i) matches Some(ix) && i <= ix <= hit && known_matches(
            known[ix as int],
            bytes,
            digest,
        ),
    decreases hit - i,
{
    if !known_matches(known[i], bytes, digest) {
        lemma_position_exists(known, bytes, digest, i + 1, hit);
    }
}

/// A surface does not take its own write for somebody else's: once a write was
/// sent, finding its bytes on disk is no change.
pub proof fn law_own_write_is_no_change(
    identity: IdentityView,
    text: Seq<char>,
    fresh: DiskStamp,
    digest: u64,
)
    requires
        identity.known.len() <= MAX_KNOWN_BYTES,
    ensures
        bytes_outcome(with_pending(identity, text), fresh, encode_utf8(text), digest) is Same,
{
    let after = with_pending(identity, text).known;
    assert(after.last() == KnownView::Pending(text));
    lemma_position_exists(after, encode_utf8(text), digest, 0, after.len() - 1);
}

/// Bytes that a notice was dismissed for never raise it again.
pub proof fn law_dismissed_bytes_are_known(
    identity: IdentityView,
    stamp: DiskStamp,
    digest: u64,
    fresh: DiskStamp,
    bytes: Seq<u8>,
)
    ensures
        bytes_outcome(
            adopted(identity, loaded_identity(stamp, Some(digest))),
            fresh,
            bytes,
            digest,
        ) is Same,
{
    let after = adopted(identity, loaded_identity(stamp, Some(digest))).known;
    assert(after[0] == KnownView::Seen(digest));
    lemma_position_exists(after, bytes, digest, 0, 0);
}

/// The newest write that is still on its way stays known when something else was
/// seen on disk: finding its bytes later is no change.
pub proof fn law_newest_write_outlives_adoption(
    identity: IdentityView,
    seen: IdentityView,
    text: Seq<char>,
    fresh: DiskStamp,
    digest: u64,
)
    requires
        identity.known.len() > 0,
        identity.known.last() == KnownView::Pending(text),
        seen.known.len() < MAX_KNOWN_BYTES,
    ensures
        adopted(identity, seen).known.last() == KnownView::Pending(text),
        bytes_outcome(adopted(identity, seen), fresh, encode_utf8(text), digest) is Same,
{
    let pending = only_pending(identity.known);
    assert(pending.last() == KnownView::Pending(text));
    let after = adopted(identity, seen).known;
    assert(after.last() == KnownView::Pending(text));
    lemma_position_exists(after, encode_utf8(text), digest, 0, after.len() - 1);
}

/// A file that was seen to be gone is not reported again while it stays gone.
pub proof fn law_missing_file_is_told_once(identity: IdentityView, hash_limit: u64)
    ensures
        check_step(adopted(identity, missing_identity()), DiskStat::NotFound, hash_limit) == (
        DiskCheckStep::Done { outcome: DiskCheckOutcome::Unchanged }),
{
}

/// Once a write was seen to have landed, the version it replaced is somebody
/// else's if it comes back: only the version seen and later writes are known.
pub proof fn law_confirming_forgets_what_was_replaced(
    identity: IdentityView,
    stamp: DiskStamp,
    ix: usize,
    digest: u64,
)
    requires
        ix < identity.known.len(),
    ensures
        ({
            let after = confirmed(identity, stamp, Some((ix, digest))).known;
            &&& after.len() == identity.known.len() - ix
            &&& after[0] == KnownView::Seen(digest)
            &&& forall|i: int| 1 <= i < after.len() ==> #[trigger] after[i] == identity.known[ix + i]
        }),
{
}

/// A file whose trusted stamp has not changed is not read.
pub proof fn law_trusted_stamp_settles(
    identity: IdentityView,
    stamp: DiskStamp,
    fresh: DiskStamp,
    hash_limit: u64,
)
    requires
        identity.stamp == Some(stamp),
        stamp.trusted,
        same_state(stamp, fresh),
    ensures
        check_step(identity, DiskStat::File { stamp: fresh }, hash_limit) == (DiskCheckStep::Done {
            outcome: DiskCheckOutcome::Unchanged,
        }),
{
}

} // verus!
