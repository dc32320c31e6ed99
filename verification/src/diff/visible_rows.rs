//! Which rows of the current view are visible, kept until the view changes.
use super::collapsed::DiffViewMode;
use super::split_meta::as_ints;
use super::split_meta::PatchSplitVisibleMeta;
use super::split_rows::PatchSplitRow;
use super::visible_map::visible_sources;
use super::visible_map::PatchInlineVisibleMap;
use vstd::prelude::*;

verus! {

/// Changes whenever the visible rows are laid out afresh.
#[derive(Clone, Copy, Debug, PartialEq, Eq, Structural)]
pub struct DiffVisibleLayoutKey {
    pub len: usize,
    pub view: DiffViewMode,
    pub is_file_view: bool,
    pub projection_rev: u64,
}

/// What the pane shows just now.
#[derive(Clone, Copy, Debug, PartialEq, Eq, Structural)]
pub struct DiffVisibleScene {
    pub view: DiffViewMode,
    pub is_file_view: bool,
    pub collapsed_projection_active: bool,
    pub projection_rev: u64,
    pub collapsed_len: usize,
    pub file_inline_len: usize,
    pub file_split_len: usize,
    pub patch_len: usize,
    pub patch_split_len: usize,
}

impl DiffVisibleScene {
    /// Only a folded diff has revisions of its own.
    pub open spec fn rev(&self) -> u64 {
        if self.collapsed_projection_active {
            self.projection_rev
        } else {
            0
        }
    }

    pub open spec fn row_count(&self) -> usize {
        if self.collapsed_projection_active {
            self.collapsed_len
        } else {
            match (self.is_file_view, self.view) {
                (true, DiffViewMode::Inline) => self.file_inline_len,
                (true, DiffViewMode::Split) => self.file_split_len,
                (false, DiffViewMode::Inline) => self.patch_len,
                (false, DiffViewMode::Split) => self.patch_split_len,
            }
        }
    }

    pub open spec fn layout(&self) -> DiffVisibleLayoutKey {
        DiffVisibleLayoutKey {
            len: self.row_count(),
            view: self.view,
            is_file_view: self.is_file_view,
            projection_rev: self.rev(),
        }
    }

    pub fn layout_key(&self) -> (key: DiffVisibleLayoutKey)
        ensures
            key == self.layout(),
    {
        let len = if self.collapsed_projection_active {
            self.collapsed_len
        } else if self.is_file_view {
            match self.view {
                DiffViewMode::Inline => self.file_inline_len,
                DiffViewMode::Split => self.file_split_len,
            }
        } else {
            match self.view {
                DiffViewMode::Inline => self.patch_len,
                DiffViewMode::Split => self.patch_split_len,
            }
        };
        DiffVisibleLayoutKey {
            len,
            view: self.view,
            is_file_view: self.is_file_view,
            projection_rev: if self.collapsed_projection_active {
                self.projection_rev
            } else {
                0
            },
        }
    }
}

/// Where the rows of a patch come from.
pub enum PatchRowsSource {
    /// Inline: which lines are hidden, as kept from when the patch came in and
    /// as read off its rows. What was kept is good for as many lines only.
    Inline { kept: Vec<bool>, rows: Vec<bool> },
    /// Two columns, read off the kinds of the lines.
    SplitMeta(PatchSplitVisibleMeta),
    /// Two columns worked out in full, with the hidden lines of the patch.
    SplitRows(Vec<PatchSplitRow>, Vec<bool>),
}

/// What there is left to do after the rows were laid out.
#[derive(Clone, Copy, Debug, PartialEq, Eq, Structural)]
pub struct DiffVisibleOutcome {
    pub laid_out: bool,
    pub reset_horizontal_scroll: bool,
    pub recompute_search: bool,
}

/// The visible rows, and what they were laid out for.
pub struct DiffVisibleRows {
    pub key: DiffVisibleLayoutKey,
    pub indices: Vec<usize>,
    pub inline_map: Option<PatchInlineVisibleMap>,
    pub split_flags: Option<Vec<u8>>,
}

/// A row of a patch in two columns is shown: it is no header, or one that is
/// there and not hidden.
pub open spec fn split_row_shown(row: PatchSplitRow, hidden: Seq<bool>) -> bool {
    match row {
        PatchSplitRow::Raw { src_ix, .. } => src_ix < hidden.len() && !hidden[src_ix as int],
        PatchSplitRow::Aligned { .. } => true,
    }
}

pub open spec fn shown_split_rows(rows: Seq<PatchSplitRow>, hidden: Seq<bool>, n: int) -> Seq<int>
    decreases n,
{
    if n <= 0 {
        Seq::empty()
    } else if split_row_shown(rows[n - 1], hidden) {
        shown_split_rows(rows, hidden, n - 1).push(n - 1)
    } else {
        shown_split_rows(rows, hidden, n - 1)
    }
}

fn split_rows_shown(rows: &Vec<PatchSplitRow>, hidden: &Vec<bool>) -> (indices: Vec<usize>)
    ensures
        as_ints(indices@) == shown_split_rows(rows@, hidden@, rows@.len() as int),
{
    let mut indices: Vec<usize> = Vec::new();
    let mut ix: usize = 0;
    assert(as_ints(indices@) =~= Seq::empty());
    while ix < rows.len()
        invariant
            0 <= ix <= rows@.len(),
            as_ints(indices@) == shown_split_rows(rows@, hidden@, ix as int),
        decreases rows@.len() - ix,
    {
        let shown = match &rows[ix] {
            PatchSplitRow::Raw { src_ix, .. } => *src_ix < hidden.len() && !hidden[*src_ix],
            PatchSplitRow::Aligned { .. } => true,
        };
        let ghost before = as_ints(indices@);
        if shown {
            indices.push(ix);
            assert(as_ints(indices@) =~= before.push(ix as int));
        }
        ix += 1;
    }
    indices
}

/// The rows that are not hidden, one by one.
fn lines_shown(hidden: &Vec<bool>) -> (indices: Vec<usize>)
    ensures
        as_ints(indices@) == visible_sources(hidden@),
{
    let mut indices: Vec<usize> = Vec::new();
    let mut ix: usize = 0;
    assert(as_ints(indices@) =~= Seq::empty());
    assert(hidden@.take(0) =~= Seq::empty());
    while ix < hidden.len()
        invariant
            0 <= ix <= hidden@.len(),
            as_ints(indices@) == visible_sources(hidden@.take(ix as int)),
        decreases hidden@.len() - ix,
    {
        let ghost before = as_ints(indices@);
        proof {
            let next = hidden@.take(ix + 1);
            assert(next.drop_last() =~= hidden@.take(ix as int));
            assert(next.last() == hidden@[ix as int]);
        }
        if !hidden[ix] {
            indices.push(ix);
            assert(as_ints(indices@) =~= before.push(ix as int));
        }
        ix += 1;
    }
    assert(hidden@.take(hidden@.len() as int) =~= hidden@);
    indices
}

fn all_rows(len: usize) -> (indices: Vec<usize>)
    ensures
        indices@.len() == len,
        forall|i: int| 0 <= i < len ==> #[trigger] indices@[i] == i,
{
    let mut indices: Vec<usize> = Vec::new();
    let mut ix: usize = 0;
    while ix < len
        invariant
            0 <= ix <= len,
            indices@.len() == ix,
            forall|i: int| 0 <= i < ix ==> #[trigger] indices@[i] == i,
        decreases len - ix,
    {
        indices.push(ix);
        ix += 1;
    }
    indices
}

impl DiffVisibleRows {
    pub open spec fn same_view(&self, scene: DiffVisibleScene) -> bool {
        self.key.view == scene.view && self.key.is_file_view == scene.is_file_view
    }

    /// A folded diff has to be laid out again before its rows are counted.
    pub fn needs_collapsed_rebuild(&self, scene: &DiffVisibleScene) -> (answer: bool)
        ensures
            answer == (scene.collapsed_projection_active && (self.key.projection_rev
                != scene.projection_rev || !self.same_view(*scene))),
    {
        scene.collapsed_projection_active && (self.key.projection_rev != scene.projection_rev
            || self.key.view != scene.view || self.key.is_file_view != scene.is_file_view)
    }

    /// What the rows are once they are laid out for a scene. Rows of a folded
    /// diff have a list of their own, so none are listed here.
    pub open spec fn shows(&self, scene: DiffVisibleScene, patch: PatchRowsSource) -> bool {
        &&& self.key == scene.layout()
        &&& if scene.collapsed_projection_active {
            &&& self.indices@.len() == 0
            &&& self.inline_map is None
            &&& self.split_flags is None
        } else if scene.is_file_view {
            &&& self.indices@.len() == scene.row_count()
            &&& forall|i: int| 0 <= i < self.indices@.len() ==> #[trigger] self.indices@[i] == i
            &&& self.inline_map is None
            &&& self.split_flags is None
        } else {
            match patch {
                PatchRowsSource::Inline { kept, rows } => if kept@.len() == scene.row_count() {
                    &&& self.indices@.len() == 0
                    &&& self.inline_map matches Some(map) && map.wf() && map.sources()
                        == visible_sources(kept@)
                    &&& self.split_flags is None
                } else {
                    &&& as_ints(self.indices@) == visible_sources(rows@)
                    &&& self.inline_map is None
                    &&& self.split_flags is None
                },
                PatchRowsSource::SplitMeta(meta) => {
                    &&& self.indices@ == meta.visible_indices@
                    &&& self.inline_map is None
                    &&& self.split_flags == Some(meta.visible_flags)
                },
                PatchRowsSource::SplitRows(rows, hidden) => {
                    &&& as_ints(self.indices@) == shown_split_rows(
                        rows@,
                        hidden@,
                        rows@.len() as int,
                    )
                    &&& self.inline_map is None
                    &&& self.split_flags is None
                },
            }
        }
    }

    /// Lays the rows out for a scene, unless they are already. A folded diff
    /// that is laid out again in the same view keeps its horizontal scroll,
    /// except where nothing was laid out before.
    pub fn ensure_diff_visible_indices_inner(
        &mut self,
        scene: &DiffVisibleScene,
        patch: PatchRowsSource,
        recompute_search: bool,
        search_has_query: bool,
    ) -> (outcome: DiffVisibleOutcome)
        ensures
            outcome.laid_out == (old(self).key != scene.layout()),
            !outcome.laid_out ==> *final(self) == *old(self),
            outcome.laid_out ==> final(self).shows(*scene, patch),
            outcome.reset_horizontal_scroll == (outcome.laid_out && !(
            scene.collapsed_projection_active && old(self).key.projection_rev != u64::MAX && old(self).same_view(*scene))),
            outcome.recompute_search == (outcome.laid_out && recompute_search && search_has_query),
    {
        let key = scene.layout_key();
        if self.key == key {
            return DiffVisibleOutcome {
                laid_out: false,
                reset_horizontal_scroll: false,
                recompute_search: false,
            };
        }
        let preserve_horizontal_width = scene.collapsed_projection_active
            && self.key.projection_rev != u64::MAX && self.key.view == scene.view
            && self.key.is_file_view == scene.is_file_view;
        self.key = key;
        self.inline_map = None;
        self.split_flags = None;
        if scene.collapsed_projection_active {
            self.indices = Vec::new();
        } else if scene.is_file_view {
            self.indices = all_rows(key.len);
        } else {
            match patch {
                PatchRowsSource::Inline { kept, rows } => {
                    if kept.len() == key.len {
                        self.inline_map = Some(
                            PatchInlineVisibleMap::from_hidden_flags(kept.as_slice()),
                        );
                        self.indices = Vec::new();
                    } else {
                        self.indices = lines_shown(&rows);
                    }
                },
                PatchRowsSource::SplitMeta(meta) => {
                    self.indices = meta.visible_indices;
                    self.split_flags = Some(meta.visible_flags);
                },
                PatchRowsSource::SplitRows(rows, hidden) => {
                    self.indices = split_rows_shown(&rows, &hidden);
                },
            }
        }
        DiffVisibleOutcome {
            laid_out: true,
            reset_horizontal_scroll: !preserve_horizontal_width,
            recompute_search: recompute_search && search_has_query,
        }
    }
}

} // verus!
