//! Syntax documents that have been prepared for the text on screen, and the
//! work that prepares one side of a file diff on another thread.
use super::patch_rows::DiffLineKind;
use vstd::prelude::*;

verus! {

/// How many documents are kept at most.
pub const PREPARED_SYNTAX_DOCUMENT_CACHE_MAX_ENTRIES: usize = 256;

/// Text beyond this many bytes gets no document.
pub const PREPARED_DIFF_SYNTAX_DOCUMENT_MAX_TEXT_BYTES: usize = 8388608;

/// A click reads at most this many bytes of a file before it returns.
pub const DIFF_CLICK_FOREGROUND_COMPLETION_MAX_TEXT_BYTES: usize = 1048576;

#[derive(Clone, Copy, Debug, PartialEq, Eq, Hash, Structural)]
pub enum PreparedSyntaxViewMode {
    FileDiffSplitLeft,
    FileDiffSplitRight,
    WorktreePreview,
}

/// The columns of a diff that text can be selected in.
#[derive(Clone, Copy, Debug, PartialEq, Eq, Hash, Structural)]
pub enum DiffTextRegion {
    Inline,
    SplitLeft,
    SplitRight,
}

#[derive(Debug)]
pub struct PreparedSyntaxDocumentKey {
    pub repo_id: u64,
    pub target_rev: u64,
    pub file_path: String,
    pub view_mode: PreparedSyntaxViewMode,
}

/// What a key stands for.
#[verifier::ext_equal]
pub struct KeyView {
    pub repo_id: u64,
    pub target_rev: u64,
    pub file_path: Seq<char>,
    pub view_mode: PreparedSyntaxViewMode,
}

impl View for PreparedSyntaxDocumentKey {
    type V = KeyView;

    open spec fn view(&self) -> KeyView {
        KeyView {
            repo_id: self.repo_id,
            target_rev: self.target_rev,
            file_path: self.file_path@,
            view_mode: self.view_mode,
        }
    }
}

impl PreparedSyntaxDocumentKey {
    pub fn same(&self, other: &PreparedSyntaxDocumentKey) -> (answer: bool)
        ensures
            answer == (self@ == other@),
    {
        self.repo_id == other.repo_id && self.target_rev == other.target_rev && self.file_path
            == other.file_path && self.view_mode == other.view_mode
    }
}

pub fn prepared_syntax_document_key(
    repo_id: u64,
    target_rev: u64,
    file_path: &str,
    view_mode: PreparedSyntaxViewMode,
) -> (key: PreparedSyntaxDocumentKey)
    ensures
        key@ == (KeyView { repo_id, target_rev, file_path: file_path@, view_mode }),
{
    PreparedSyntaxDocumentKey { repo_id, target_rev, file_path: file_path.to_owned(), view_mode }
}

/// The side whose text a region shows; inline rows share the new side.
pub open spec fn side_of(region: DiffTextRegion) -> DiffTextRegion {
    match region {
        DiffTextRegion::SplitLeft => DiffTextRegion::SplitLeft,
        _ => DiffTextRegion::SplitRight,
    }
}

pub fn split_side_for_region(region: DiffTextRegion) -> (side: DiffTextRegion)
    ensures
        side == side_of(region),
{
    match region {
        DiffTextRegion::SplitLeft => DiffTextRegion::SplitLeft,
        DiffTextRegion::SplitRight | DiffTextRegion::Inline => DiffTextRegion::SplitRight,
    }
}

pub open spec fn mode_of(region: DiffTextRegion) -> PreparedSyntaxViewMode {
    match region {
        DiffTextRegion::SplitLeft => PreparedSyntaxViewMode::FileDiffSplitLeft,
        _ => PreparedSyntaxViewMode::FileDiffSplitRight,
    }
}

pub fn view_mode_for_region(region: DiffTextRegion) -> (mode: PreparedSyntaxViewMode)
    ensures
        mode == mode_of(region),
{
    match region {
        DiffTextRegion::SplitLeft => PreparedSyntaxViewMode::FileDiffSplitLeft,
        DiffTextRegion::SplitRight | DiffTextRegion::Inline => {
            PreparedSyntaxViewMode::FileDiffSplitRight
        },
    }
}

pub struct DocumentEntry {
    pub key: PreparedSyntaxDocumentKey,
    pub document: u64,
}

/// The documents that a list of entries holds by key.
pub open spec fn entries_map(entries: Seq<DocumentEntry>) -> Map<KeyView, u64>
    decreases entries.len(),
{
    if entries.len() == 0 {
        Map::empty()
    } else {
        entries_map(entries.drop_last()).insert(entries.last().key@, entries.last().document)
    }
}

pub open spec fn distinct_keys(entries: Seq<DocumentEntry>) -> bool {
    forall|i: int, j: int|
        0 <= i < j < entries.len() ==> #[trigger] entries[i].key@ != #[trigger] entries[j].key@
}

pub proof fn lemma_entries(entries: Seq<DocumentEntry>)
    requires
        distinct_keys(entries),
    ensures
        forall|i: int|
            0 <= i < entries.len() ==> entries_map(entries).dom().contains(
                #[trigger] entries[i].key@,
            ) && entries_map(entries)[entries[i].key@] == entries[i].document,
        forall|k: KeyView| #[trigger]
            entries_map(entries).dom().contains(k) ==> exists|i: int|
                0 <= i < entries.len() && #[trigger] entries[i].key@ == k,
        entries_map(entries).dom().finite(),
        entries_map(entries).dom().len() == entries.len(),
    decreases entries.len(),
{
    if entries.len() > 0 {
        let shorter = entries.drop_last();
        assert forall|i: int, j: int| 0 <= i < j < shorter.len() implies #[trigger] shorter[i].key@
            != #[trigger] shorter[j].key@ by {
            assert(entries[i].key@ != entries[j].key@);
        }
        lemma_entries(shorter);
        let last = entries.last();
        assert forall|i: int| 0 <= i < entries.len() implies entries_map(entries).dom().contains(
            #[trigger] entries[i].key@,
        ) && entries_map(entries)[entries[i].key@] == entries[i].document by {
            if i < shorter.len() {
                assert(shorter[i].key@ == entries[i].key@);
                assert(entries[i].key@ != entries[entries.len() - 1].key@);
            }
        }
        assert forall|k: KeyView| #[trigger]
            entries_map(entries).dom().contains(k) implies exists|i: int|
            0 <= i < entries.len() && #[trigger] entries[i].key@ == k by {
            if k == last.key@ {
                assert(entries[entries.len() - 1].key@ == k);
            } else {
                assert(entries_map(shorter).dom().contains(k));
                let i = choose|i: int| 0 <= i < shorter.len() && #[trigger] shorter[i].key@ == k;
                assert(entries[i].key@ == k);
            }
        }
        if entries_map(shorter).dom().contains(last.key@) {
            let i = choose|i: int|
                0 <= i < shorter.len() && #[trigger] shorter[i].key@ == last.key@;
            assert(entries[i].key@ != entries[entries.len() - 1].key@);
        }
    }
}

proof fn lemma_entries_remove(entries: Seq<DocumentEntry>, i: int)
    requires
        distinct_keys(entries),
        0 <= i < entries.len(),
    ensures
        distinct_keys(entries.remove(i)),
        entries_map(entries.remove(i)) == entries_map(entries).remove(entries[i].key@),
{
    let after = entries.remove(i);
    assert forall|a: int, b: int| 0 <= a < b < after.len() implies #[trigger] after[a].key@
        != #[trigger] after[b].key@ by {
        let x = if a < i {
            a
        } else {
            a + 1
        };
        let y = if b < i {
            b
        } else {
            b + 1
        };
        assert(after[a] == entries[x]);
        assert(after[b] == entries[y]);
        assert(entries[x].key@ != entries[y].key@);
    }
    lemma_entries(entries);
    lemma_entries(after);
    let left = entries_map(after);
    let right = entries_map(entries).remove(entries[i].key@);
    assert forall|k: KeyView| left.dom().contains(k) <==> right.dom().contains(k) by {
        if left.dom().contains(k) {
            let a = choose|a: int| 0 <= a < after.len() && #[trigger] after[a].key@ == k;
            let x = if a < i {
                a
            } else {
                a + 1
            };
            assert(after[a] == entries[x]);
            assert(entries[x].key@ == k);
            if x < i {
                assert(entries[x].key@ != entries[i].key@);
            } else {
                assert(entries[i].key@ != entries[x].key@);
            }
        }
        if right.dom().contains(k) {
            let x = choose|x: int| 0 <= x < entries.len() && #[trigger] entries[x].key@ == k;
            let a = if x < i {
                x
            } else {
                x - 1
            };
            assert(after[a] == entries[x]);
            assert(after[a].key@ == k);
        }
    }
    assert forall|k: KeyView| left.dom().contains(k) && right.dom().contains(k) implies left[k]
        == right[k] by {
        let a = choose|a: int| 0 <= a < after.len() && #[trigger] after[a].key@ == k;
        let x = if a < i {
            a
        } else {
            a + 1
        };
        assert(after[a] == entries[x]);
        assert(entries[x].key@ == k);
    }
    assert(left =~= right);
}

proof fn lemma_entries_push(entries: Seq<DocumentEntry>, entry: DocumentEntry)
    requires
        distinct_keys(entries),
        !entries_map(entries).dom().contains(entry.key@),
    ensures
        distinct_keys(entries.push(entry)),
        entries_map(entries.push(entry)) == entries_map(entries).insert(entry.key@, entry.document),
{
    let after = entries.push(entry);
    assert(after.drop_last() =~= entries);
    lemma_entries(entries);
    assert forall|a: int, b: int| 0 <= a < b < after.len() implies #[trigger] after[a].key@
        != #[trigger] after[b].key@ by {
        assert(after[a] == entries[a]);
        if b < entries.len() {
            assert(after[b] == entries[b]);
        } else {
            assert(entries_map(entries).dom().contains(entries[a].key@));
        }
    }
}

/// A document comes with a key, and is kept just when the key has none yet. Where
/// there are too many, one of the others goes.
pub open spec fn document_kept(
    before: Map<KeyView, u64>,
    key: Option<KeyView>,
    document: Option<u64>,
    after: Map<KeyView, u64>,
    kept: bool,
) -> bool {
    match (key, document) {
        (Some(key), Some(document)) => {
            &&& kept == !before.dom().contains(key)
            &&& !kept ==> after == before
            &&& kept && before.dom().len() < PREPARED_SYNTAX_DOCUMENT_CACHE_MAX_ENTRIES ==> after
                == before.insert(key, document)
            &&& kept && before.dom().len() >= PREPARED_SYNTAX_DOCUMENT_CACHE_MAX_ENTRIES
                ==> exists|evicted: KeyView| #[trigger]
                before.dom().contains(evicted) && after == before.remove(evicted).insert(
                    key,
                    document,
                )
        },
        _ => !kept && after == before,
    }
}

/// A document of the latest other revision of the same text.
pub open spec fn is_reparse_seed(
    documents: Map<KeyView, u64>,
    key: KeyView,
    seed: Option<u64>,
) -> bool {
    match seed {
        Some(seed) => exists|k: KeyView|
            {
                &&& #[trigger] documents.dom().contains(k)
                &&& is_other_revision(k, key)
                &&& documents[k] == seed
                &&& forall|other: KeyView| #[trigger]
                    documents.dom().contains(other) && is_other_revision(other, key)
                        ==> other.target_rev <= k.target_rev
            },
        None => forall|k: KeyView| #[trigger]
            documents.dom().contains(k) ==> !is_other_revision(k, key),
    }
}

/// Prepared documents by what they were prepared for.
pub struct PreparedSyntaxDocuments {
    pub entries: Vec<DocumentEntry>,
}

impl PreparedSyntaxDocuments {
    pub open spec fn documents(&self) -> Map<KeyView, u64> {
        entries_map(self.entries@)
    }

    /// No key is there twice, and there are not too many.
    pub open spec fn wf(&self) -> bool {
        distinct_keys(self.entries@) && self.entries@.len()
            <= PREPARED_SYNTAX_DOCUMENT_CACHE_MAX_ENTRIES
    }

    pub fn new() -> (documents: Self)
        ensures
            documents.wf(),
            documents.documents() == Map::<KeyView, u64>::empty(),
    {
        PreparedSyntaxDocuments { entries: Vec::new() }
    }

    fn position(&self, key: &PreparedSyntaxDocumentKey) -> (ix: Option<usize>)
        requires
            self.wf(),
        ensures
            match ix {
                Some(ix) => ix < self.entries@.len() && self.entries@[ix as int].key@ == key@
                    && self.documents().dom().contains(key@) && self.documents()[key@]
                    == self.entries@[ix as int].document,
                None => !self.documents().dom().contains(key@),
            },
    {
        let mut ix: usize = 0;
        proof {
            lemma_entries(self.entries@);
        }
        while ix < self.entries.len()
            invariant
                self.wf(),
                0 <= ix <= self.entries@.len(),
                forall|i: int| 0 <= i < ix ==> #[trigger] self.entries@[i].key@ != key@,
            decreases self.entries@.len() - ix,
        {
            if self.entries[ix].key.same(key) {
                proof {
                    lemma_entries(self.entries@);
                    assert(self.entries@[ix as int].key@ == key@);
                }
                return Some(ix);
            }
            ix += 1;
        }
        None
    }

    /// The document under a key, if it is still among those that are alive.
    pub fn prepared_syntax_document(
        &self,
        key: &PreparedSyntaxDocumentKey,
        alive: &[u64],
    ) -> (document: Option<u64>)
        requires
            self.wf(),
        ensures
            document == (if self.documents().dom().contains(key@) && alive@.contains(
                self.documents()[key@],
            ) {
                Some(self.documents()[key@])
            } else {
                None
            }),
    {
        match self.position(key) {
            Some(ix) => {
                let document = self.entries[ix].document;
                let mut i: usize = 0;
                while i < alive.len()
                    invariant
                        0 <= i <= alive@.len(),
                        self.documents().dom().contains(key@),
                        self.documents()[key@] == document,
                        forall|k: int| 0 <= k < i ==> #[trigger] alive@[k] != document,
                    decreases alive@.len() - i,
                {
                    if alive[i] == document {
                        assert(alive@[i as int] == document);
                        return Some(document);
                    }
                    i += 1;
                }
                None
            },
            None => None,
        }
    }

    /// A document that was prepared for another revision of the same text: the
    /// latest revision there is.
    pub fn prepared_syntax_reparse_seed_document(
        &self,
        key: &PreparedSyntaxDocumentKey,
    ) -> (document: Option<u64>)
        requires
            self.wf(),
        ensures
            is_reparse_seed(self.documents(), key@, document),
    {
        let mut best: Option<usize> = None;
        let mut ix: usize = 0;
        while ix < self.entries.len()
            invariant
                0 <= ix <= self.entries@.len(),
                match best {
                    Some(b) => b < ix && is_other_revision(self.entries@[b as int].key@, key@)
                        && forall|i: int|
                        0 <= i < ix && is_other_revision(#[trigger] self.entries@[i].key@, key@)
                            ==> self.entries@[i].key.target_rev
                            <= self.entries@[b as int].key.target_rev,
                    None => forall|i: int|
                        0 <= i < ix ==> !is_other_revision(#[trigger] self.entries@[i].key@, key@),
                },
            decreases self.entries@.len() - ix,
        {
            let candidate = &self.entries[ix].key;
            if candidate.repo_id == key.repo_id && candidate.file_path == key.file_path
                && candidate.view_mode == key.view_mode && candidate.target_rev != key.target_rev {
                assert(is_other_revision(self.entries@[ix as int].key@, key@));
                match best {
                    Some(b) => {
                        if candidate.target_rev >= self.entries[b].key.target_rev {
                            best = Some(ix);
                        }
                    },
                    None => {
                        best = Some(ix);
                    },
                }
            } else {
                assert(!is_other_revision(self.entries@[ix as int].key@, key@));
            }
            ix += 1;
        }
        proof {
            lemma_entries(self.entries@);
        }
        match best {
            Some(b) => {
                let ghost k = self.entries@[b as int].key@;
                assert(self.documents().dom().contains(k));
                assert forall|other: KeyView| #[trigger]
                    self.documents().dom().contains(other) && is_other_revision(
                        other,
                        key@,
                    ) implies other.target_rev <= k.target_rev by {
                    let i = choose|i: int|
                        0 <= i < self.entries@.len() && #[trigger] self.entries@[i].key@ == other;
                }
                Some(self.entries[b].document)
            },
            None => {
                assert forall|k: KeyView| #[trigger]
                    self.documents().dom().contains(k) implies !is_other_revision(k, key@) by {
                    let i = choose|i: int|
                        0 <= i < self.entries@.len() && #[trigger] self.entries@[i].key@ == k;
                }
                None
            },
        }
    }

    /// Keeps a document unless its key has one. Where there are too many, one
    /// of the others goes; which one is not promised.
    pub fn insert_prepared_syntax_document(
        &mut self,
        key: PreparedSyntaxDocumentKey,
        document: u64,
    ) -> (inserted: bool)
        requires
            old(self).wf(),
        ensures
            final(self).wf(),
            document_kept(
                old(self).documents(),
                Some(key@),
                Some(document),
                final(self).documents(),
                inserted,
            ),
    {
        if self.position(&key).is_some() {
            return false;
        }
        proof {
            lemma_entries(self.entries@);
        }
        if self.entries.len() >= PREPARED_SYNTAX_DOCUMENT_CACHE_MAX_ENTRIES {
            proof {
                lemma_entries_remove(self.entries@, 0);
                assert(self.documents().dom().contains(self.entries@[0].key@));
            }
            self.entries.remove(0);
        }
        let entry = DocumentEntry { key, document };
        proof {
            lemma_entries_push(self.entries@, entry);
        }
        self.entries.push(entry);
        true
    }

    /// Moves a document to another key, unless that one has a document.
    pub fn rekey_prepared_syntax_document(
        &mut self,
        old_key: &PreparedSyntaxDocumentKey,
        new_key: PreparedSyntaxDocumentKey,
    )
        requires
            old(self).wf(),
        ensures
            final(self).wf(),
            final(self).documents() == rekeyed(old(self).documents(), old_key@, new_key@),
    {
        if old_key.same(&new_key) {
            return;
        }
        let ix = match self.position(old_key) {
            Some(ix) => ix,
            None => {
                return;
            },
        };
        proof {
            lemma_entries_remove(self.entries@, ix as int);
        }
        let entry = self.entries.remove(ix);
        if self.position(&new_key).is_none() {
            let moved = DocumentEntry { key: new_key, document: entry.document };
            proof {
                lemma_entries_push(self.entries@, moved);
            }
            self.entries.push(moved);
        }
    }

    /// Drops the document under a key.
    pub fn remove_prepared_syntax_document(&mut self, key: &PreparedSyntaxDocumentKey)
        requires
            old(self).wf(),
        ensures
            final(self).wf(),
            final(self).documents() == old(self).documents().remove(key@),
    {
        match self.position(key) {
            Some(ix) => {
                proof {
                    lemma_entries_remove(self.entries@, ix as int);
                }
                self.entries.remove(ix);
            },
            None => {
                assert(self.documents() =~= self.documents().remove(key@));
            },
        }
    }

    /// Moves the documents of both sides of a file to a new revision.
    pub fn rekey_file_diff_prepared_syntax_documents_for_rev(
        &mut self,
        repo_id: Option<u64>,
        path: &Option<String>,
        old_rev: u64,
        new_rev: u64,
    )
        requires
            old(self).wf(),
        ensures
            final(self).wf(),
            final(self).documents() == (match (repo_id, path) {
                (Some(repo_id), Some(path)) => rekeyed_sides(
                    old(self).documents(),
                    repo_id,
                    path@,
                    old_rev,
                    new_rev,
                ),
                _ => old(self).documents(),
            }),
    {
        if let (Some(repo_id), Some(path)) = (repo_id, path) {
            if old_rev == new_rev {
                return;
            }
            let left = PreparedSyntaxViewMode::FileDiffSplitLeft;
            let right = PreparedSyntaxViewMode::FileDiffSplitRight;
            self.rekey_prepared_syntax_document(
                &prepared_syntax_document_key(repo_id, old_rev, path.as_str(), left),
                prepared_syntax_document_key(repo_id, new_rev, path.as_str(), left),
            );
            self.rekey_prepared_syntax_document(
                &prepared_syntax_document_key(repo_id, old_rev, path.as_str(), right),
                prepared_syntax_document_key(repo_id, new_rev, path.as_str(), right),
            );
        }
    }

    /// Drops the documents of both sides of a file at a revision.
    pub fn remove_file_diff_prepared_syntax_documents_for_rev(
        &mut self,
        repo_id: u64,
        rev: u64,
        path: &str,
    )
        requires
            old(self).wf(),
        ensures
            final(self).wf(),
            final(self).documents() == old(self).documents().remove(
                KeyView {
                    repo_id,
                    target_rev: rev,
                    file_path: path@,
                    view_mode: PreparedSyntaxViewMode::FileDiffSplitLeft,
                },
            ).remove(
                KeyView {
                    repo_id,
                    target_rev: rev,
                    file_path: path@,
                    view_mode: PreparedSyntaxViewMode::FileDiffSplitRight,
                },
            ),
    {
        let left = PreparedSyntaxViewMode::FileDiffSplitLeft;
        let right = PreparedSyntaxViewMode::FileDiffSplitRight;
        self.remove_prepared_syntax_document(
            &prepared_syntax_document_key(repo_id, rev, path, left),
        );
        self.remove_prepared_syntax_document(
            &prepared_syntax_document_key(repo_id, rev, path, right),
        );
    }
}

/// The same text at another revision.
pub open spec fn is_other_revision(candidate: KeyView, key: KeyView) -> bool {
    candidate.repo_id == key.repo_id && candidate.file_path == key.file_path && candidate.view_mode
        == key.view_mode && candidate.target_rev != key.target_rev
}

pub open spec fn rekeyed(
    documents: Map<KeyView, u64>,
    old_key: KeyView,
    new_key: KeyView,
) -> Map<KeyView, u64> {
    if old_key == new_key || !documents.dom().contains(old_key) {
        documents
    } else if documents.dom().contains(new_key) {
        documents.remove(old_key)
    } else {
        documents.remove(old_key).insert(new_key, documents[old_key])
    }
}

pub open spec fn rekeyed_sides(
    documents: Map<KeyView, u64>,
    repo_id: u64,
    path: Seq<char>,
    old_rev: u64,
    new_rev: u64,
) -> Map<KeyView, u64> {
    let key = |rev: u64, mode: PreparedSyntaxViewMode|
        KeyView { repo_id, target_rev: rev, file_path: path, view_mode: mode };
    let left = PreparedSyntaxViewMode::FileDiffSplitLeft;
    let right = PreparedSyntaxViewMode::FileDiffSplitRight;
    rekeyed(
        rekeyed(documents, key(old_rev, left), key(new_rev, left)),
        key(old_rev, right),
        key(new_rev, right),
    )
}

/// A document survives the move to a revision that has none yet.
pub proof fn law_rekeying_keeps_documents(
    documents: Map<KeyView, u64>,
    repo_id: u64,
    path: Seq<char>,
    old_rev: u64,
    new_rev: u64,
    mode: PreparedSyntaxViewMode,
)
    requires
        mode != PreparedSyntaxViewMode::WorktreePreview,
        documents.dom().contains(
            KeyView { repo_id, target_rev: old_rev, file_path: path, view_mode: mode },
        ),
        !documents.dom().contains(
            KeyView { repo_id, target_rev: new_rev, file_path: path, view_mode: mode },
        ),
    ensures
        rekeyed_sides(documents, repo_id, path, old_rev, new_rev).dom().contains(
            KeyView { repo_id, target_rev: new_rev, file_path: path, view_mode: mode },
        ),
        rekeyed_sides(documents, repo_id, path, old_rev, new_rev)[KeyView {
            repo_id,
            target_rev: new_rev,
            file_path: path,
            view_mode: mode,
        }] == documents[KeyView { repo_id, target_rev: old_rev, file_path: path, view_mode: mode }],
{
}

/// Counters that change whenever the styled text of a side has to be redone.
#[derive(Clone, Copy, Debug, PartialEq, Eq, Structural)]
pub struct FileDiffStyleCacheEpochs {
    pub split_left: u64,
    pub split_right: u64,
}

pub open spec fn next_epoch(epoch: u64) -> u64 {
    if epoch == u64::MAX {
        0
    } else {
        (epoch + 1) as u64
    }
}

/// The next value of a counter that starts over after its largest value.
pub fn next_counter(value: u64) -> (next: u64)
    ensures
        next == next_epoch(value),
{
    if value == u64::MAX {
        0
    } else {
        value + 1
    }
}

impl FileDiffStyleCacheEpochs {
    pub fn bump_left(&mut self)
        ensures
            *final(self) == (FileDiffStyleCacheEpochs {
                split_left: next_epoch(old(self).split_left),
                ..*old(self)
            }),
    {
        self.split_left = next_counter(self.split_left);
    }

    pub fn bump_right(&mut self)
        ensures
            *final(self) == (FileDiffStyleCacheEpochs {
                split_right: next_epoch(old(self).split_right),
                ..*old(self)
            }),
    {
        self.split_right = next_counter(self.split_right);
    }

    pub fn bump_both(&mut self)
        ensures
            final(self).split_left == next_epoch(old(self).split_left),
            final(self).split_right == next_epoch(old(self).split_right),
    {
        self.bump_left();
        self.bump_right();
    }

    /// The counter that a column goes by. Inline rows have none: they go by the
    /// side that their line comes from.
    pub fn split_epoch(&self, region: DiffTextRegion) -> (epoch: u64)
        ensures
            epoch == (match region {
                DiffTextRegion::SplitLeft => self.split_left,
                DiffTextRegion::SplitRight => self.split_right,
                DiffTextRegion::Inline => 0,
            }),
    {
        match region {
            DiffTextRegion::SplitLeft => self.split_left,
            DiffTextRegion::SplitRight => self.split_right,
            DiffTextRegion::Inline => 0,
        }
    }

    /// The counter that an inline row goes by: the old side for removed lines,
    /// the new side for the others, none for headers.
    pub fn inline_epoch(&self, kind: DiffLineKind) -> (epoch: u64)
        ensures
            epoch == (match kind {
                DiffLineKind::Remove => self.split_left,
                DiffLineKind::Add | DiffLineKind::Context => self.split_right,
                DiffLineKind::Header | DiffLineKind::Hunk => 0,
            }),
    {
        match kind {
            DiffLineKind::Remove => self.split_left,
            DiffLineKind::Add | DiffLineKind::Context => self.split_right,
            DiffLineKind::Header | DiffLineKind::Hunk => 0,
        }
    }
}

} // verus!
