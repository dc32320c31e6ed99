//! When the rows of a patch are built again, and the tables that are built for
//! every line of it.
use super::patch_rows::annotated_rows;
use super::patch_rows::Diff;
use super::patch_rows::DiffLine;
use super::patch_rows::DiffLineKind;
use super::split_meta::click_kind_of;
use super::split_meta::clicks_of;
use super::split_meta::diff_line_click_kind;
use super::split_meta::is_hidden_header;
use super::split_meta::kinds_of;
use super::split_meta::should_hide_unified_diff_header_raw;
use super::split_rows::progress;
use super::split_rows::split_rows;
use super::split_rows::DiffClickKind;
use crate::outside::fx_insert;
use crate::text::clone_text;
use crate::text::is_same_number;
use crate::text::is_same_text;
use crate::text::same_text;
use rustc_hash::FxHashMap;
use vstd::prelude::*;

verus! {

broadcast use vstd::std_specs::hash::group_hash_axioms;

/// The patch that the pane is to show. `content_signature` is a digest of it,
/// once it has arrived.
#[derive(Debug)]
pub struct RenderedPatch {
    pub repo_id: u64,
    pub rev: u64,
    pub target: Option<String>,
    pub has_workdir: bool,
    pub content_signature: Option<u64>,
}

/// What the patch rows on screen belong to.
#[derive(Debug)]
pub struct PatchDiffCache {
    pub repo_id: Option<u64>,
    pub rev: u64,
    pub content_signature: Option<u64>,
    pub target: Option<String>,
}

/// What the pane has to do.
#[derive(Clone, Copy, Debug, PartialEq, Eq, Structural)]
pub enum PatchDiffCacheAction {
    /// The rows stay as they are.
    Keep,
    /// The rows go. `clear_reveals` says that what was revealed of a folded diff
    /// goes with them, `build` that there are new rows to build.
    Replace { clear_reveals: bool, build: bool },
}

pub open spec fn holds_same_patch(cache: PatchDiffCache, next: RenderedPatch) -> bool {
    cache.repo_id == Some(next.repo_id) && same_text(cache.target, next.target)
}

/// The same patch that has not arrived again yet, or has with the same content.
pub open spec fn rows_stay(cache: PatchDiffCache, next: RenderedPatch) -> bool {
    holds_same_patch(cache, next) && (match next.content_signature {
        None => cache.content_signature is Some,
        Some(signature) => cache.content_signature == Some(signature),
    })
}

pub open spec fn rebuilt(
    cache: PatchDiffCache,
    next: Option<RenderedPatch>,
) -> (PatchDiffCache, PatchDiffCacheAction) {
    match next {
        None => (
            PatchDiffCache { repo_id: None, rev: 0, content_signature: None, target: None },
            PatchDiffCacheAction::Replace { clear_reveals: true, build: false },
        ),
        Some(next) => if rows_stay(cache, next) {
            (PatchDiffCache { rev: next.rev, ..cache }, PatchDiffCacheAction::Keep)
        } else {
            (
                PatchDiffCache {
                    repo_id: Some(next.repo_id),
                    rev: next.rev,
                    content_signature: next.content_signature,
                    target: next.target,
                },
                PatchDiffCacheAction::Replace {
                    clear_reveals: next.content_signature is None || next.target is None
                        || !holds_same_patch(cache, next) || cache.content_signature
                        != next.content_signature,
                    build: next.content_signature is Some && next.has_workdir,
                },
            )
        },
    }
}

/// The rows on screen are not those of the patch: it is another one, or it has
/// arrived with another length or content.
pub open spec fn is_outdated(
    cache: PatchDiffCache,
    next: Option<RenderedPatch>,
    cached_len: usize,
    ready_len: usize,
) -> bool {
    match next {
        None => !(cache.repo_id is None && cache.target is None && cache.rev == 0),
        Some(next) => !(holds_same_patch(cache, next) && cache.rev == next.rev) || (
        next.content_signature is Some && (cached_len != ready_len || cache.content_signature
            != next.content_signature)),
    }
}

impl PatchDiffCache {
    /// Whether the rows have to be looked at again.
    pub fn ensure_rendered_patch_diff_cache(
        &self,
        next: &Option<RenderedPatch>,
        cached_len: usize,
        ready_len: usize,
    ) -> (should_rebuild: bool)
        ensures
            should_rebuild == is_outdated(*self, *next, cached_len, ready_len),
    {
        match next {
            None => !(self.repo_id.is_none() && self.target.is_none() && self.rev == 0),
            Some(next) => {
                let metadata_current = is_same_number(self.repo_id, Some(next.repo_id))
                    && self.rev == next.rev && is_same_text(&self.target, &next.target);
                let ready_content_changed = next.content_signature.is_some() && (cached_len
                    != ready_len || !is_same_number(
                    self.content_signature,
                    next.content_signature,
                ));
                !metadata_current || ready_content_changed
            },
        }
    }

    /// Sets the cache to the patch that is to be shown.
    pub fn rebuild_diff_cache(&mut self, next: &Option<RenderedPatch>) -> (action:
        PatchDiffCacheAction)
        ensures
            *final(self) == rebuilt(*old(self), *next).0,
            action == rebuilt(*old(self), *next).1,
    {
        let next = match next {
            Some(next) => next,
            None => {
                self.repo_id = None;
                self.rev = 0;
                self.content_signature = None;
                self.target = None;
                return PatchDiffCacheAction::Replace { clear_reveals: true, build: false };
            },
        };
        let same = is_same_number(self.repo_id, Some(next.repo_id)) && is_same_text(
            &self.target,
            &next.target,
        );
        let same_content = is_same_number(self.content_signature, next.content_signature);
        if same {
            if next.content_signature.is_none() && self.content_signature.is_some() {
                self.rev = next.rev;
                return PatchDiffCacheAction::Keep;
            }
            if next.content_signature.is_some() && same_content {
                self.rev = next.rev;
                return PatchDiffCacheAction::Keep;
            }
        }
        let clear_reveals = next.content_signature.is_none() || next.target.is_none() || !same
            || !same_content;
        self.repo_id = Some(next.repo_id);
        self.rev = next.rev;
        self.content_signature = next.content_signature;
        self.target = clone_text(&next.target);
        PatchDiffCacheAction::Replace {
            clear_reveals,
            build: next.content_signature.is_some() && next.has_workdir,
        }
    }
}

/// What a hunk header shows: its two ranges, and the heading after them.
#[derive(Debug)]
pub struct HunkHeaderDisplay {
    pub old: String,
    pub new: String,
    pub heading: Option<String>,
}

/// What is known of a line of a patch from elsewhere: the path of the file it
/// belongs to, the language of that file, and what its hunk header shows.
#[derive(Debug)]
pub struct DiffLineFacts {
    pub file: Option<String>,
    pub language: Option<u32>,
    pub hunk_display: Option<HunkHeaderDisplay>,
}

/// The tables of a patch, by line.
#[derive(Debug)]
pub struct PatchLineTables {
    pub line_kinds: Vec<DiffLineKind>,
    pub split_row_count: usize,
    pub hidden: Vec<bool>,
    pub click_kinds: Vec<DiffClickKind>,
    pub languages: Vec<Option<u32>>,
    pub header_display: FxHashMap<usize, String>,
}

pub open spec fn hunk_header_text(display: HunkHeaderDisplay) -> Seq<char> {
    let heading = match display.heading {
        Some(heading) => heading@,
        None => Seq::empty(),
    };
    if heading.len() == 0 {
        display.old@ + " "@ + display.new@
    } else {
        display.old@ + " "@ + display.new@ + "  "@ + heading
    }
}

/// The text that stands in for a header line.
pub open spec fn header_text(line: DiffLine, facts: DiffLineFacts) -> Option<Seq<char>> {
    match click_kind_of(line) {
        DiffClickKind::FileHeader => Some(
            match facts.file {
                Some(file) => file@,
                None => line.text@,
            },
        ),
        DiffClickKind::HunkHeader => Some(
            match facts.hunk_display {
                Some(display) => hunk_header_text(display),
                None => line.text@,
            },
        ),
        DiffClickKind::Line => None,
    }
}

/// Lines of code have the language of their file; headers have none.
pub open spec fn line_language(line: DiffLine, facts: DiffLineFacts) -> Option<u32> {
    match line.kind {
        DiffLineKind::Header | DiffLineKind::Hunk => None,
        _ => facts.language,
    }
}

fn hunk_header_display(display: &HunkHeaderDisplay) -> (text: String)
    ensures
        text@ == hunk_header_text(*display),
{
    let mut text = display.old.clone();
    text.append(" ");
    text.append(display.new.as_str());
    if let Some(heading) = &display.heading {
        if !heading.as_str().is_empty() {
            text.append("  ");
            text.append(heading.as_str());
        }
    }
    text
}

/// Fills the tables of a patch.
pub fn build_patch_line_tables(diff: &Diff, facts: &[DiffLineFacts]) -> (tables: PatchLineTables)
    requires
        facts@.len() == diff.lines@.len(),
    ensures
        tables.line_kinds@ == kinds_of(diff.lines@),
        tables.click_kinds@ == clicks_of(diff.lines@),
        tables.split_row_count == split_rows(annotated_rows(diff.lines@)).len(),
        tables.hidden@.len() == diff.lines@.len(),
        tables.languages@.len() == diff.lines@.len(),
        forall|i: int|
            0 <= i < diff.lines@.len() ==> #[trigger] tables.hidden@[i] == is_hidden_header(
                diff.lines@[i].kind,
                diff.lines@[i].text@,
            ),
        forall|i: int|
            0 <= i < diff.lines@.len() ==> #[trigger] tables.languages@[i] == line_language(
                diff.lines@[i],
                facts@[i],
            ),
        forall|i: usize|
            #[trigger] tables.header_display@.dom().contains(i) <==> i < diff.lines@.len()
                && header_text(diff.lines@[i as int], facts@[i as int]) is Some,
        forall|i: usize| #[trigger]
            tables.header_display@.dom().contains(i) ==> header_text(
                diff.lines@[i as int],
                facts@[i as int],
            ) == Some(tables.header_display@[i]@),
{
    let mut tables = PatchLineTables {
        line_kinds: Vec::new(),
        split_row_count: 0,
        hidden: Vec::new(),
        click_kinds: Vec::new(),
        languages: Vec::new(),
        header_display: FxHashMap::default(),
    };
    let ghost rows = annotated_rows(diff.lines@);
    let mut pending_removes: usize = 0;
    let mut pending_adds: usize = 0;
    let mut i: usize = 0;
    while i < diff.lines.len()
        invariant
            0 <= i <= diff.lines@.len(),
            facts@.len() == diff.lines@.len(),
            rows == annotated_rows(diff.lines@),
            tables.line_kinds@.len() == i,
            tables.click_kinds@.len() == i,
            tables.hidden@.len() == i,
            tables.languages@.len() == i,
            forall|k: int| 0 <= k < i ==> #[trigger] tables.line_kinds@[k] == diff.lines@[k].kind,
            forall|k: int|
                0 <= k < i ==> #[trigger] tables.click_kinds@[k] == click_kind_of(diff.lines@[k]),
            forall|k: int|
                0 <= k < i ==> #[trigger] tables.hidden@[k] == is_hidden_header(
                    diff.lines@[k].kind,
                    diff.lines@[k].text@,
                ),
            forall|k: int|
                0 <= k < i ==> #[trigger] tables.languages@[k] == line_language(
                    diff.lines@[k],
                    facts@[k],
                ),
            forall|k: usize|
                #[trigger] tables.header_display@.dom().contains(k) <==> k < i && header_text(
                    diff.lines@[k as int],
                    facts@[k as int],
                ) is Some,
            forall|k: usize| #[trigger]
                tables.header_display@.dom().contains(k) ==> header_text(
                    diff.lines@[k as int],
                    facts@[k as int],
                ) == Some(tables.header_display@[k]@),
            tables.split_row_count == progress(rows, 0, i as int).rows.len(),
            pending_removes == progress(rows, 0, i as int).removes.len(),
            pending_adds == progress(rows, 0, i as int).adds.len(),
            tables.split_row_count + pending_removes + pending_adds <= i,
        decreases diff.lines@.len() - i,
    {
        let line = &diff.lines[i];
        let fact = &facts[i];
        match line.kind {
            DiffLineKind::Remove => {
                pending_removes += 1;
            },
            DiffLineKind::Add => {
                pending_adds += 1;
            },
            DiffLineKind::Context | DiffLineKind::Header | DiffLineKind::Hunk => {
                let pairs = if pending_removes >= pending_adds {
                    pending_removes
                } else {
                    pending_adds
                };
                tables.split_row_count += pairs + 1;
                pending_removes = 0;
                pending_adds = 0;
            },
        }
        tables.line_kinds.push(line.kind);
        tables.hidden.push(should_hide_unified_diff_header_raw(line.kind, line.text.as_str()));
        tables.languages.push(
            match line.kind {
                DiffLineKind::Header | DiffLineKind::Hunk => None,
                _ => fact.language,
            },
        );
        let click_kind = diff_line_click_kind(line);
        tables.click_kinds.push(click_kind);
        match click_kind {
            DiffClickKind::FileHeader => {
                let display = match &fact.file {
                    Some(file) => file.clone(),
                    None => line.text.clone(),
                };
                fx_insert(&mut tables.header_display, i, display);
            },
            DiffClickKind::HunkHeader => {
                let display = match &fact.hunk_display {
                    Some(display) => hunk_header_display(display),
                    None => line.text.clone(),
                };
                fx_insert(&mut tables.header_display, i, display);
            },
            DiffClickKind::Line => {},
        }
        i += 1;
    }
    tables.split_row_count += if pending_removes >= pending_adds {
        pending_removes
    } else {
        pending_adds
    };
    assert(tables.line_kinds@ =~= kinds_of(diff.lines@));
    assert(tables.click_kinds@ =~= clicks_of(diff.lines@));
    tables
}

/// A patch that comes in again with the same content keeps its rows, whatever
/// revision it comes in under.
pub proof fn law_unchanged_patch_keeps_rows(cache: PatchDiffCache, next: RenderedPatch, rev: u64)
    requires
        next.content_signature is Some,
    ensures
        ({
            let shown = rebuilt(cache, Some(next)).0;
            let again = RenderedPatch { rev, ..next };
            rebuilt(shown, Some(again)).1 == PatchDiffCacheAction::Keep
        }),
{
}

} // verus!
