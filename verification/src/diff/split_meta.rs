//! Which two-column rows of a patch are shown, and what each of them changes,
//! read off the kinds of the lines without working the rows out.
use super::patch_rows::annotated_line;
use super::patch_rows::annotated_rows;
use super::patch_rows::numbers_before;
use super::patch_rows::DiffLine;
use super::patch_rows::DiffLineKind;
use super::split_rows::finished_rows;
use super::split_rows::longer;
use super::split_rows::opens_file;
use super::split_rows::paired_row;
use super::split_rows::paired_rows;
use super::split_rows::plain_row;
use super::split_rows::progress;
use super::split_rows::split_rows;
use super::split_rows::text_starts_with;
use super::split_rows::DiffClickKind;
use super::split_rows::FileDiffRowKind;
use super::split_rows::PatchSplitRow;
use super::split_rows::SplitProgress;
use vstd::prelude::*;

verus! {

/// A header line that repeats what the file header already says.
pub open spec fn is_hidden_header(kind: DiffLineKind, text: Seq<char>) -> bool {
    kind == DiffLineKind::Header && ("index "@.is_prefix_of(text) || "--- "@.is_prefix_of(text)
        || "+++ "@.is_prefix_of(text))
}

pub fn should_hide_unified_diff_header_raw(kind: DiffLineKind, text: &str) -> (hide: bool)
    ensures
        hide == is_hidden_header(kind, text@),
{
    kind == DiffLineKind::Header && (text_starts_with(text, "index ") || text_starts_with(
        text,
        "--- ",
    ) || text_starts_with(text, "+++ "))
}

/// What a click on a line acts on.
pub open spec fn click_kind_of(line: DiffLine) -> DiffClickKind {
    if line.kind == DiffLineKind::Hunk {
        DiffClickKind::HunkHeader
    } else if line.kind == DiffLineKind::Header && opens_file(line.text@) {
        DiffClickKind::FileHeader
    } else {
        DiffClickKind::Line
    }
}

pub fn diff_line_click_kind(line: &DiffLine) -> (click_kind: DiffClickKind)
    ensures
        click_kind == click_kind_of(*line),
{
    if line.kind == DiffLineKind::Hunk {
        DiffClickKind::HunkHeader
    } else if line.kind == DiffLineKind::Header && text_starts_with(
        line.text.as_str(),
        "diff --git ",
    ) {
        DiffClickKind::FileHeader
    } else {
        DiffClickKind::Line
    }
}

/// The rows that are shown, a change flag for each of them, and how many rows
/// there are with those that are not shown. A flag is 1 for an addition, 2 for
/// a removal, 3 for both and 0 for neither.
#[derive(Debug)]
pub struct PatchSplitVisibleMeta {
    pub visible_indices: Vec<usize>,
    pub visible_flags: Vec<u8>,
    pub total_rows: usize,
}

/// What has been read so far. `removes` and `adds` say of each line of the open
/// block whether it still counts as a change.
pub struct MetaProgress {
    pub indices: Seq<int>,
    pub flags: Seq<u8>,
    pub rows: nat,
    pub removes: Seq<bool>,
    pub adds: Seq<bool>,
    pub in_hunk: bool,
}

pub open spec fn no_meta() -> MetaProgress {
    MetaProgress {
        indices: Seq::empty(),
        flags: Seq::empty(),
        rows: 0,
        removes: Seq::empty(),
        adds: Seq::empty(),
        in_hunk: false,
    }
}

pub open spec fn change_flag(removes: bool, adds: bool) -> u8 {
    if removes && adds {
        3
    } else if removes {
        2
    } else if adds {
        1
    } else {
        0
    }
}

pub open spec fn flag_at(flags: Seq<bool>, i: int) -> bool {
    i < flags.len() && flags[i]
}

/// The open block becomes rows, all of them shown.
pub open spec fn block_closed(m: MetaProgress) -> MetaProgress {
    let pairs = longer(m.removes.len(), m.adds.len());
    MetaProgress {
        indices: m.indices + Seq::new(pairs, |i: int| m.rows + i),
        flags: m.flags + Seq::new(
            pairs,
            |i: int| change_flag(flag_at(m.removes, i), flag_at(m.adds, i)),
        ),
        rows: m.rows + pairs,
        removes: Seq::empty(),
        adds: Seq::empty(),
        in_hunk: m.in_hunk,
    }
}

/// One more row without a change.
pub open spec fn plain_added(m: MetaProgress, hide: bool) -> MetaProgress {
    if hide {
        MetaProgress { rows: m.rows + 1, ..m }
    } else {
        MetaProgress {
            indices: m.indices.push(m.rows as int),
            flags: m.flags.push(0u8),
            rows: m.rows + 1,
            ..m
        }
    }
}

/// Reads one line. Changes pair up only inside a hunk; a line before the first
/// hunk of its file has a row of its own whatever its kind.
pub open spec fn meta_after(
    m: MetaProgress,
    kind: DiffLineKind,
    click_kind: DiffClickKind,
    visual: Option<DiffLineKind>,
    hide: bool,
) -> MetaProgress {
    let seen = match visual {
        Some(visual) => visual,
        None => kind,
    };
    if click_kind == DiffClickKind::FileHeader {
        plain_added(MetaProgress { in_hunk: false, ..block_closed(m) }, hide)
    } else if kind == DiffLineKind::Hunk {
        plain_added(MetaProgress { in_hunk: true, ..block_closed(m) }, hide)
    } else if !m.in_hunk {
        plain_added(m, hide)
    } else if kind == DiffLineKind::Remove {
        MetaProgress { removes: m.removes.push(seen == DiffLineKind::Remove), ..m }
    } else if kind == DiffLineKind::Add {
        MetaProgress { adds: m.adds.push(seen == DiffLineKind::Add), ..m }
    } else {
        plain_added(block_closed(m), hide)
    }
}

pub open spec fn meta_of(
    kinds: Seq<DiffLineKind>,
    visual: Seq<DiffLineKind>,
    clicks: Seq<DiffClickKind>,
    hidden: Seq<bool>,
    n: int,
) -> MetaProgress
    decreases n,
{
    if n <= 0 {
        no_meta()
    } else {
        meta_after(
            meta_of(kinds, visual, clicks, hidden, n - 1),
            kinds[n - 1],
            clicks[n - 1],
            if n - 1 < visual.len() {
                Some(visual[n - 1])
            } else {
                None
            },
            hidden[n - 1],
        )
    }
}

proof fn lemma_meta_size(
    kinds: Seq<DiffLineKind>,
    visual: Seq<DiffLineKind>,
    clicks: Seq<DiffClickKind>,
    hidden: Seq<bool>,
    n: int,
)
    requires
        0 <= n,
    ensures
        ({
            let m = meta_of(kinds, visual, clicks, hidden, n);
            &&& m.rows + m.removes.len() + m.adds.len() <= n
            &&& !m.in_hunk ==> m.removes.len() == 0 && m.adds.len() == 0
        }),
    decreases n,
{
    if n > 0 {
        lemma_meta_size(kinds, visual, clicks, hidden, n - 1);
    }
}

pub open spec fn as_ints(s: Seq<usize>) -> Seq<int> {
    Seq::new(s.len(), |i: int| s[i] as int)
}

fn flush_pending(
    visible_indices: &mut Vec<usize>,
    visible_flags: &mut Vec<u8>,
    row_ix: usize,
    pending_removes: &mut Vec<bool>,
    pending_adds: &mut Vec<bool>,
    Ghost(m): Ghost<MetaProgress>,
) -> (next_row_ix: usize)
    requires
        as_ints(old(visible_indices)@) == m.indices,
        old(visible_flags)@ == m.flags,
        row_ix == m.rows,
        old(pending_removes)@ == m.removes,
        old(pending_adds)@ == m.adds,
        row_ix + m.removes.len() + m.adds.len() <= usize::MAX,
    ensures
        as_ints(final(visible_indices)@) == block_closed(m).indices,
        final(visible_flags)@ == block_closed(m).flags,
        next_row_ix == block_closed(m).rows,
        final(pending_removes)@ == Seq::<bool>::empty(),
        final(pending_adds)@ == Seq::<bool>::empty(),
{
    let pairs = if pending_removes.len() >= pending_adds.len() {
        pending_removes.len()
    } else {
        pending_adds.len()
    };
    let mut pair_ix: usize = 0;
    let ghost new_indices = Seq::new(pairs as nat, |i: int| m.rows + i);
    let ghost new_flags = Seq::new(
        pairs as nat,
        |i: int| change_flag(flag_at(m.removes, i), flag_at(m.adds, i)),
    );
    assert(m.indices + new_indices.take(0) =~= m.indices);
    assert(m.flags + new_flags.take(0) =~= m.flags);
    while pair_ix < pairs
        invariant
            0 <= pair_ix <= pairs,
            pairs == longer(m.removes.len(), m.adds.len()),
            row_ix == m.rows,
            row_ix + pairs <= usize::MAX,
            pending_removes@ == m.removes,
            pending_adds@ == m.adds,
            new_indices == Seq::new(pairs as nat, |i: int| m.rows + i),
            new_flags == Seq::new(
                pairs as nat,
                |i: int| change_flag(flag_at(m.removes, i), flag_at(m.adds, i)),
            ),
            as_ints(visible_indices@) == m.indices + new_indices.take(pair_ix as int),
            visible_flags@ == m.flags + new_flags.take(pair_ix as int),
        decreases pairs - pair_ix,
    {
        let has_remove = pair_ix < pending_removes.len() && pending_removes[pair_ix];
        let has_add = pair_ix < pending_adds.len() && pending_adds[pair_ix];
        let flag: u8 = match (has_remove, has_add) {
            (true, true) => 3,
            (true, false) => 2,
            (false, true) => 1,
            (false, false) => 0,
        };
        let ghost before = as_ints(visible_indices@);
        visible_indices.push(row_ix + pair_ix);
        visible_flags.push(flag);
        pair_ix += 1;
        assert(as_ints(visible_indices@) =~= before.push(m.rows + pair_ix - 1));
        assert(new_indices.take(pair_ix as int) =~= new_indices.take(pair_ix - 1).push(
            m.rows + pair_ix - 1,
        ));
        assert(as_ints(visible_indices@) =~= m.indices + new_indices.take(pair_ix as int));
        assert(visible_flags@ =~= m.flags + new_flags.take(pair_ix as int));
    }
    assert(new_indices.take(pairs as int) =~= new_indices);
    assert(new_flags.take(pairs as int) =~= new_flags);
    pending_removes.clear();
    pending_adds.clear();
    row_ix + pairs
}

fn push_raw(
    visible_indices: &mut Vec<usize>,
    visible_flags: &mut Vec<u8>,
    row_ix: usize,
    hide: bool,
    Ghost(m): Ghost<MetaProgress>,
) -> (next_row_ix: usize)
    requires
        as_ints(old(visible_indices)@) == m.indices,
        old(visible_flags)@ == m.flags,
        row_ix == m.rows,
        row_ix < usize::MAX,
    ensures
        as_ints(final(visible_indices)@) == plain_added(m, hide).indices,
        final(visible_flags)@ == plain_added(m, hide).flags,
        next_row_ix == plain_added(m, hide).rows,
{
    if !hide {
        visible_indices.push(row_ix);
        visible_flags.push(0);
        assert(as_ints(visible_indices@) =~= m.indices.push(row_ix as int));
    }
    row_ix + 1
}

/// Reads the rows off the kinds of the lines; lines beyond the shortest of the
/// three lists are left out.
pub fn build_patch_split_visible_meta_from_src(
    line_kinds: &[DiffLineKind],
    visual_line_kinds: &[DiffLineKind],
    click_kinds: &[DiffClickKind],
    hide_unified_header_for_src_ix: &[bool],
) -> (meta: PatchSplitVisibleMeta)
    ensures
        ({
            let a = line_kinds@.len();
            let b = click_kinds@.len();
            let c = hide_unified_header_for_src_ix@.len();
            let n = if a <= b && a <= c {
                a
            } else if b <= c {
                b
            } else {
                c
            };
            let read = block_closed(
                meta_of(
                    line_kinds@,
                    visual_line_kinds@,
                    click_kinds@,
                    hide_unified_header_for_src_ix@,
                    n as int,
                ),
            );
            &&& as_ints(meta.visible_indices@) == read.indices
            &&& meta.visible_flags@ == read.flags
            &&& meta.total_rows == read.rows
        }),
{
    let hidden = hide_unified_header_for_src_ix;
    let mut src_len = line_kinds.len();
    if click_kinds.len() < src_len {
        src_len = click_kinds.len();
    }
    if hidden.len() < src_len {
        src_len = hidden.len();
    }
    let mut visible_indices: Vec<usize> = Vec::with_capacity(src_len);
    let mut visible_flags: Vec<u8> = Vec::with_capacity(src_len);
    let mut pending_removes: Vec<bool> = Vec::new();
    let mut pending_adds: Vec<bool> = Vec::new();
    let mut row_ix: usize = 0;
    let mut src_ix: usize = 0;
    let mut in_hunk = false;
    assert(as_ints(visible_indices@) =~= no_meta().indices);
    while src_ix < src_len
        invariant
            0 <= src_ix <= src_len,
            src_len <= line_kinds@.len(),
            src_len <= click_kinds@.len(),
            src_len <= hidden@.len(),
            ({
                let m = meta_of(
                    line_kinds@,
                    visual_line_kinds@,
                    click_kinds@,
                    hidden@,
                    src_ix as int,
                );
                &&& as_ints(visible_indices@) == m.indices
                &&& visible_flags@ == m.flags
                &&& row_ix == m.rows
                &&& pending_removes@ == m.removes
                &&& pending_adds@ == m.adds
                &&& in_hunk == m.in_hunk
            }),
        decreases src_len - src_ix,
    {
        let kind = line_kinds[src_ix];
        let is_file_header = click_kinds[src_ix] == DiffClickKind::FileHeader;
        let hide = hidden[src_ix];
        let ghost m = meta_of(line_kinds@, visual_line_kinds@, click_kinds@, hidden@, src_ix as int);
        proof {
            lemma_meta_size(line_kinds@, visual_line_kinds@, click_kinds@, hidden@, src_ix as int);
        }
        if is_file_header || kind == DiffLineKind::Hunk {
            row_ix = flush_pending(
                &mut visible_indices,
                &mut visible_flags,
                row_ix,
                &mut pending_removes,
                &mut pending_adds,
                Ghost(m),
            );
            row_ix = push_raw(
                &mut visible_indices,
                &mut visible_flags,
                row_ix,
                hide,
                Ghost(block_closed(m)),
            );
            in_hunk = !is_file_header;
        } else if !in_hunk {
            row_ix = push_raw(&mut visible_indices, &mut visible_flags, row_ix, hide, Ghost(m));
        } else {
            let visual = if src_ix < visual_line_kinds.len() {
                visual_line_kinds[src_ix]
            } else {
                kind
            };
            match kind {
                DiffLineKind::Remove => pending_removes.push(visual == DiffLineKind::Remove),
                DiffLineKind::Add => pending_adds.push(visual == DiffLineKind::Add),
                DiffLineKind::Context | DiffLineKind::Header | DiffLineKind::Hunk => {
                    row_ix = flush_pending(
                        &mut visible_indices,
                        &mut visible_flags,
                        row_ix,
                        &mut pending_removes,
                        &mut pending_adds,
                        Ghost(m),
                    );
                    row_ix = push_raw(
                        &mut visible_indices,
                        &mut visible_flags,
                        row_ix,
                        hide,
                        Ghost(block_closed(m)),
                    );
                },
            }
        }
        src_ix += 1;
    }
    proof {
        lemma_meta_size(line_kinds@, visual_line_kinds@, click_kinds@, hidden@, src_len as int);
    }
    let ghost m = meta_of(line_kinds@, visual_line_kinds@, click_kinds@, hidden@, src_len as int);
    row_ix = flush_pending(
        &mut visible_indices,
        &mut visible_flags,
        row_ix,
        &mut pending_removes,
        &mut pending_adds,
        Ghost(m),
    );
    PatchSplitVisibleMeta { visible_indices, visible_flags, total_rows: row_ix }
}

/// A row that stands for a hidden header line.
pub open spec fn is_hidden_row(hidden: Seq<bool>, row: PatchSplitRow) -> bool {
    match row {
        PatchSplitRow::Raw { src_ix, .. } => hidden[src_ix as int],
        PatchSplitRow::Aligned { .. } => false,
    }
}

/// The change flag of a two-column row.
pub open spec fn row_flag(row: PatchSplitRow) -> u8 {
    match row {
        PatchSplitRow::Raw { .. } => 0,
        PatchSplitRow::Aligned { row, .. } => match row.kind {
            FileDiffRowKind::Add => 1,
            FileDiffRowKind::Remove => 2,
            FileDiffRowKind::Modify => 3,
            FileDiffRowKind::Context => 0,
        },
    }
}

/// The rows that are not hidden.
pub open spec fn shown_rows(hidden: Seq<bool>, rows: Seq<PatchSplitRow>) -> Seq<int>
    decreases rows.len(),
{
    if rows.len() == 0 {
        Seq::empty()
    } else {
        let before = shown_rows(hidden, rows.drop_last());
        if is_hidden_row(hidden, rows.last()) {
            before
        } else {
            before.push(rows.len() - 1)
        }
    }
}

/// The flags of the rows that are not hidden.
pub open spec fn shown_flags(hidden: Seq<bool>, rows: Seq<PatchSplitRow>) -> Seq<u8>
    decreases rows.len(),
{
    if rows.len() == 0 {
        Seq::empty()
    } else {
        let before = shown_flags(hidden, rows.drop_last());
        if is_hidden_row(hidden, rows.last()) {
            before
        } else {
            before.push(row_flag(rows.last()))
        }
    }
}

proof fn lemma_shown_block(hidden: Seq<bool>, p: SplitProgress, n: int)
    requires
        0 <= n <= longer(p.removes.len(), p.adds.len()),
    ensures
        shown_rows(hidden, p.rows + paired_rows(p.removes, p.adds).take(n)) == shown_rows(
            hidden,
            p.rows,
        ) + Seq::new(n as nat, |i: int| p.rows.len() + i),
        shown_flags(hidden, p.rows + paired_rows(p.removes, p.adds).take(n)) == shown_flags(
            hidden,
            p.rows,
        ) + Seq::new(
            n as nat,
            |i: int| change_flag(i < p.removes.len(), i < p.adds.len()),
        ),
    decreases n,
{
    let block = paired_rows(p.removes, p.adds);
    if n == 0 {
        assert(p.rows + block.take(0) =~= p.rows);
        assert(shown_rows(hidden, p.rows) =~= shown_rows(hidden, p.rows) + Seq::new(
            0,
            |i: int| p.rows.len() + i,
        ));
        assert(shown_flags(hidden, p.rows) =~= shown_flags(hidden, p.rows) + Seq::new(
            0,
            |i: int| change_flag(i < p.removes.len(), i < p.adds.len()),
        ));
    } else {
        lemma_shown_block(hidden, p, n - 1);
        let rows = p.rows + block.take(n);
        assert(rows.drop_last() =~= p.rows + block.take(n - 1));
        assert(rows.last() == paired_row(p.removes, p.adds, n - 1));
        assert(shown_rows(hidden, rows) =~= shown_rows(hidden, p.rows) + Seq::new(
            n as nat,
            |i: int| p.rows.len() + i,
        ));
        assert(shown_flags(hidden, rows) =~= shown_flags(hidden, p.rows) + Seq::new(
            n as nat,
            |i: int| change_flag(i < p.removes.len(), i < p.adds.len()),
        ));
    }
}

pub open spec fn kinds_of(lines: Seq<DiffLine>) -> Seq<DiffLineKind> {
    Seq::new(lines.len(), |i: int| lines[i].kind)
}

pub open spec fn clicks_of(lines: Seq<DiffLine>) -> Seq<DiffClickKind> {
    Seq::new(lines.len(), |i: int| click_kind_of(lines[i]))
}

/// The last line above `n` that opens a file or a hunk opens a hunk.
pub open spec fn inside_hunk(lines: Seq<DiffLine>, n: int) -> bool
    decreases n,
{
    if n <= 0 {
        false
    } else if click_kind_of(lines[n - 1]) == DiffClickKind::FileHeader {
        false
    } else if lines[n - 1].kind == DiffLineKind::Hunk {
        true
    } else {
        inside_hunk(lines, n - 1)
    }
}

/// Added and removed lines stand inside hunks only.
pub open spec fn changes_in_hunks(lines: Seq<DiffLine>) -> bool {
    forall|n: int|
        0 <= n < lines.len() && (#[trigger] lines[n].kind == DiffLineKind::Add || lines[n].kind
            == DiffLineKind::Remove) ==> inside_hunk(lines, n)
}

proof fn lemma_meta_matches(lines: Seq<DiffLine>, hidden: Seq<bool>, n: int)
    requires
        changes_in_hunks(lines),
        hidden.len() == lines.len(),
        0 <= n <= lines.len(),
        lines.len() <= usize::MAX,
        forall|i: int|
            0 <= i < lines.len() && lines[i].kind == DiffLineKind::Context
                ==> !#[trigger] hidden[i],
    ensures
        ({
            let m = meta_of(kinds_of(lines), kinds_of(lines), clicks_of(lines), hidden, n);
            let p = progress(annotated_rows(lines), 0, n);
            &&& m.rows == p.rows.len()
            &&& m.indices == shown_rows(hidden, p.rows)
            &&& m.flags == shown_flags(hidden, p.rows)
            &&& m.removes == Seq::new(p.removes.len(), |i: int| true)
            &&& m.adds == Seq::new(p.adds.len(), |i: int| true)
            &&& m.in_hunk == inside_hunk(lines, n)
            &&& !m.in_hunk ==> p.removes.len() == 0 && p.adds.len() == 0
        }),
    decreases n,
{
    let rows = annotated_rows(lines);
    let m = meta_of(kinds_of(lines), kinds_of(lines), clicks_of(lines), hidden, n);
    let p = progress(rows, 0, n);
    if n == 0 {
        assert(m.removes =~= Seq::new(p.removes.len(), |i: int| true));
        assert(m.adds =~= Seq::new(p.adds.len(), |i: int| true));
    } else {
        lemma_meta_matches(lines, hidden, n - 1);
        let m0 = meta_of(kinds_of(lines), kinds_of(lines), clicks_of(lines), hidden, n - 1);
        let p0 = progress(rows, 0, n - 1);
        let line = lines[n - 1];
        assert(rows[n - 1] == annotated_line(line, numbers_before(lines, n - 1)));
        if line.kind == DiffLineKind::Remove || line.kind == DiffLineKind::Add {
            assert(lines[n - 1].kind == line.kind);
            assert(m.removes =~= Seq::new(p.removes.len(), |i: int| true));
            assert(m.adds =~= Seq::new(p.adds.len(), |i: int| true));
        } else {
            lemma_meta_closed(hidden, m0, p0);
            let closed = finished_rows(p0);
            let row = plain_row(n - 1, rows[n - 1]);
            assert(p.rows.drop_last() =~= closed);
            assert(p.rows.last() == row);
            if line.kind == DiffLineKind::Context {
                assert(!is_hidden_row(hidden, row));
            }
            assert(m.removes =~= Seq::new(p.removes.len(), |i: int| true));
            assert(m.adds =~= Seq::new(p.adds.len(), |i: int| true));
            if !m0.in_hunk && click_kind_of(line) != DiffClickKind::FileHeader && line.kind
                != DiffLineKind::Hunk {
                assert(block_closed(m0).indices =~= m0.indices);
                assert(block_closed(m0).flags =~= m0.flags);
            }
        }
    }
}

proof fn lemma_meta_closed(hidden: Seq<bool>, m: MetaProgress, p: SplitProgress)
    requires
        m.rows == p.rows.len(),
        m.indices == shown_rows(hidden, p.rows),
        m.flags == shown_flags(hidden, p.rows),
        m.removes == Seq::new(p.removes.len(), |i: int| true),
        m.adds == Seq::new(p.adds.len(), |i: int| true),
    ensures
        block_closed(m).rows == finished_rows(p).len(),
        block_closed(m).indices == shown_rows(hidden, finished_rows(p)),
        block_closed(m).flags == shown_flags(hidden, finished_rows(p)),
{
    let pairs = longer(p.removes.len(), p.adds.len());
    let block = paired_rows(p.removes, p.adds);
    lemma_shown_block(hidden, p, pairs as int);
    assert(block.take(pairs as int) =~= block);
    assert(Seq::new(pairs, |i: int| m.rows + i) =~= Seq::new(pairs, |i: int| p.rows.len() + i));
    assert(Seq::new(pairs, |i: int| change_flag(flag_at(m.removes, i), flag_at(m.adds, i)))
        =~= Seq::new(pairs, |i: int| change_flag(i < p.removes.len(), i < p.adds.len())));
}

/// What is read off the line kinds is what the rows themselves say: of a patch
/// whose changes all stand in hunks, and no context line of which is hidden,
/// the count is the number of its two-column rows, the indices are those of the
/// rows that are not hidden, and the flags are theirs.
pub proof fn law_split_meta_matches_split_rows(lines: Seq<DiffLine>, hidden: Seq<bool>)
    requires
        changes_in_hunks(lines),
        hidden.len() == lines.len(),
        lines.len() <= usize::MAX,
        forall|i: int|
            0 <= i < lines.len() && lines[i].kind == DiffLineKind::Context
                ==> !#[trigger] hidden[i],
    ensures
        ({
            let read = block_closed(
                meta_of(
                    kinds_of(lines),
                    kinds_of(lines),
                    clicks_of(lines),
                    hidden,
                    lines.len() as int,
                ),
            );
            let rows = split_rows(annotated_rows(lines));
            &&& read.rows == rows.len()
            &&& read.indices == shown_rows(hidden, rows)
            &&& read.flags == shown_flags(hidden, rows)
        }),
{
    let n = lines.len() as int;
    lemma_meta_matches(lines, hidden, n);
    lemma_meta_closed(
        hidden,
        meta_of(kinds_of(lines), kinds_of(lines), clicks_of(lines), hidden, n),
        progress(annotated_rows(lines), 0, n),
    );
}

} // verus!
