//! What holds of every folded diff.
use super::collapsed::expansion_kind;
use super::collapsed::file_rows;
use super::collapsed::gap_bottom;
use super::collapsed::gap_revealed;
use super::collapsed::gap_top;
use super::collapsed::hidden_down;
use super::collapsed::hidden_up;
use super::collapsed::joined;
use super::collapsed::joined_at;
use super::collapsed::normalized;
use super::collapsed::range_rows;
use super::collapsed::rows_above_hunk;
use super::collapsed::rows_before_hunk;
use super::collapsed::rows_of_hunk;
use super::collapsed::trailing_end;
use super::collapsed::visible_rows;
use super::collapsed::with_more_down;
use super::collapsed::CollapsedDiffExpansionKind;
use super::collapsed::CollapsedDiffHunk;
use super::collapsed::CollapsedDiffVisibleRow;
use crate::num::less;
use crate::num::min;
use vstd::prelude::*;

verus! {

/// Hunks that each cover some rows, top to bottom, without overlap, within the
/// rows of the file.
pub open spec fn ordered_hunks(hunks: Seq<CollapsedDiffHunk>, total_rows: int) -> bool {
    &&& total_rows <= usize::MAX
    &&& forall|i: int|
        0 <= i < hunks.len() ==> (#[trigger] hunks[i]).base_row_start
            < hunks[i].base_row_end_exclusive <= total_rows
    &&& forall|i: int, j: int|
        0 <= i < j < hunks.len() ==> (#[trigger] hunks[i]).base_row_end_exclusive <= (
        #[trigger] hunks[j]).base_row_start
}

/// How many of the rows are file rows.
pub open spec fn file_row_count(rows: Seq<CollapsedDiffVisibleRow>) -> nat
    decreases rows.len(),
{
    if rows.len() == 0 {
        0
    } else {
        file_row_count(rows.drop_last()) + (if rows.last() is FileRow {
            1nat
        } else {
            0nat
        })
    }
}

/// The rows hidden above the hunks above hunk `n`.
pub open spec fn hidden_above_hunk(hunks: Seq<CollapsedDiffHunk>, n: int) -> int
    decreases n,
{
    if n <= 0 {
        0
    } else {
        hidden_above_hunk(hunks, n - 1) + hidden_up(hunks, n - 1)
    }
}

proof fn lemma_count_add(a: Seq<CollapsedDiffVisibleRow>, b: Seq<CollapsedDiffVisibleRow>)
    ensures
        file_row_count(a + b) == file_row_count(a) + file_row_count(b),
    decreases b.len(),
{
    if b.len() == 0 {
        assert(a + b =~= a);
    } else {
        assert((a + b).drop_last() =~= a + b.drop_last());
        lemma_count_add(a, b.drop_last());
    }
}

proof fn lemma_count_file_rows(from: int, to: int)
    ensures
        file_row_count(file_rows(from, to)) == less(to, from),
    decreases less(to, from),
{
    if from < to {
        assert(file_rows(from, to).drop_last() =~= file_rows(from, to - 1));
        lemma_count_file_rows(from, to - 1);
    }
}

proof fn lemma_count_header(row: CollapsedDiffVisibleRow)
    requires
        row is HunkHeader,
    ensures
        file_row_count(seq![row]) == 0,
{
    reveal_with_fuel(file_row_count, 2);
}

proof fn lemma_count_above(hunks: Seq<CollapsedDiffHunk>, total_rows: int, n: int)
    requires
        ordered_hunks(hunks, total_rows),
        0 <= n <= hunks.len(),
    ensures
        file_row_count(rows_above_hunk(hunks, n)) + hidden_above_hunk(hunks, n) == (if n == 0 {
            0
        } else {
            hunks[n - 1].base_row_end_exclusive as int
        }),
    decreases n,
{
    if n > 0 {
        let i = n - 1;
        lemma_count_above(hunks, total_rows, i);
        let above = rows_above_hunk(hunks, i);
        let before = rows_before_hunk(hunks, i);
        let own = rows_of_hunk(hunks, i);
        lemma_count_add(above + before, own);
        lemma_count_add(above, before);
        let top = gap_top(hunks, i);
        let bottom = gap_bottom(hunks, i);
        let hunk = hunks[i];
        let body = file_rows(hunk.base_row_start as int, hunk.base_row_end_exclusive as int);
        lemma_count_file_rows(top.0, top.1);
        lemma_count_file_rows(bottom.0, bottom.1);
        lemma_count_file_rows(hunk.base_row_start as int, hunk.base_row_end_exclusive as int);
        if expansion_kind(hunks, i) == CollapsedDiffExpansionKind::Nothing {
            lemma_count_add(range_rows(top), range_rows(bottom));
        } else {
            let header = own[0];
            lemma_count_header(header);
            lemma_count_add(seq![header], range_rows(bottom));
            lemma_count_add(seq![header] + range_rows(bottom), body);
            assert(own =~= seq![header] + range_rows(bottom) + body);
        }
        if i > 0 {
            assert(hunks[i - 1].base_row_end_exclusive <= hunks[i].base_row_start);
        }
    }
}

/// Every row of the file is either shown or counted as hidden by one header:
/// the file rows that are shown, the rows hidden above each hunk and those
/// hidden below the last one add up to the rows of the file.
pub proof fn law_rows_are_shown_or_hidden(hunks: Seq<CollapsedDiffHunk>, total_rows: int)
    requires
        ordered_hunks(hunks, total_rows),
        hunks.len() > 0,
    ensures
        file_row_count(visible_rows(hunks, total_rows)) + hidden_above_hunk(
            hunks,
            hunks.len() as int,
        ) + hidden_down(hunks, hunks.len() - 1, total_rows) == total_rows,
{
    let n = hunks.len() as int;
    let last = hunks[n - 1];
    lemma_count_above(hunks, total_rows, n);
    let above = rows_above_hunk(hunks, n);
    let trailing = file_rows(
        last.base_row_end_exclusive as int,
        trailing_end(last, total_rows),
    );
    lemma_count_file_rows(last.base_row_end_exclusive as int, trailing_end(last, total_rows));
    lemma_count_add(above, trailing);
    let hidden = hidden_down(hunks, n - 1, total_rows);
    if hidden > 0 {
        let header = CollapsedDiffVisibleRow::HunkHeader {
            src_ix: last.src_ix,
            expansion_kind: CollapsedDiffExpansionKind::Down,
            display_src_ix: None,
            hidden_rows: hidden as usize,
        };
        lemma_count_header(header);
        lemma_count_add(above + trailing, seq![header]);
    } else {
        assert(visible_rows(hunks, total_rows) =~= above + trailing);
    }
}

/// File rows come in the order of the file, all of them below `bound` and none
/// above `floor`.
pub open spec fn in_file_order(
    rows: Seq<CollapsedDiffVisibleRow>,
    floor: int,
    bound: int,
) -> bool {
    &&& forall|a: int|
        0 <= a < rows.len() && (#[trigger] rows[a]) is FileRow ==> floor <= rows[a]->row_ix < bound
    &&& forall|a: int, b: int|
        0 <= a < b < rows.len() && (#[trigger] rows[a]) is FileRow && (#[trigger] rows[b]) is FileRow
            ==> rows[a]->row_ix < rows[b]->row_ix
}

proof fn lemma_order_add(
    a: Seq<CollapsedDiffVisibleRow>,
    b: Seq<CollapsedDiffVisibleRow>,
    floor: int,
    middle: int,
    bound: int,
)
    requires
        floor <= middle <= bound,
        in_file_order(a, floor, middle),
        in_file_order(b, middle, bound),
    ensures
        in_file_order(a + b, floor, bound),
{
    let rows = a + b;
    assert forall|x: int| 0 <= x < rows.len() && (#[trigger] rows[x]) is FileRow implies floor
        <= rows[x]->row_ix < bound by {
        if x >= a.len() {
            assert(rows[x] == b[x - a.len()]);
        } else {
            assert(rows[x] == a[x]);
        }
    }
    assert forall|x: int, y: int|
        0 <= x < y < rows.len() && (#[trigger] rows[x]) is FileRow && (
        #[trigger] rows[y]) is FileRow implies rows[x]->row_ix < rows[y]->row_ix by {
        if x >= a.len() {
            assert(rows[x] == b[x - a.len()]);
        } else {
            assert(rows[x] == a[x]);
        }
        if y >= a.len() {
            assert(rows[y] == b[y - a.len()]);
        } else {
            assert(rows[y] == a[y]);
        }
    }
}

proof fn lemma_order_file_rows(from: int, to: int, floor: int, bound: int)
    requires
        0 <= floor <= from,
        to <= bound,
        bound <= usize::MAX,
    ensures
        in_file_order(file_rows(from, to), floor, bound),
{
}

proof fn lemma_order_hunk(hunks: Seq<CollapsedDiffHunk>, total_rows: int, i: int)
    requires
        ordered_hunks(hunks, total_rows),
        0 <= i < hunks.len(),
    ensures
        ({
            let floor = if i == 0 {
                0
            } else {
                hunks[i - 1].base_row_end_exclusive as int
            };
            in_file_order(
                rows_before_hunk(hunks, i) + rows_of_hunk(hunks, i),
                floor,
                hunks[i].base_row_end_exclusive as int,
            )
        }),
{
    let floor = if i == 0 {
        0
    } else {
        hunks[i - 1].base_row_end_exclusive as int
    };
    let hunk = hunks[i];
    let start = hunk.base_row_start as int;
    let end = hunk.base_row_end_exclusive as int;
    if i > 0 {
        assert(hunks[i - 1].base_row_end_exclusive <= hunks[i].base_row_start);
    }
    let top = gap_top(hunks, i);
    let bottom = gap_bottom(hunks, i);
    let body = file_rows(start, end);
    let middle = if i == 0 {
        0
    } else {
        top.1
    };
    lemma_order_file_rows(top.0, top.1, floor, middle);
    lemma_order_file_rows(bottom.0, bottom.1, middle, start);
    lemma_order_file_rows(start, end, start, end);
    if expansion_kind(hunks, i) == CollapsedDiffExpansionKind::Nothing {
        lemma_order_add(range_rows(top), range_rows(bottom), floor, middle, start);
        lemma_order_add(range_rows(top) + range_rows(bottom), body, floor, start, end);
    } else {
        let header = rows_of_hunk(hunks, i)[0];
        assert(header is HunkHeader);
        assert(in_file_order(seq![header], middle, middle));
        lemma_order_add(seq![header], range_rows(bottom), middle, middle, start);
        lemma_order_add(seq![header] + range_rows(bottom), body, middle, start, end);
        assert(rows_of_hunk(hunks, i) =~= seq![header] + range_rows(bottom) + body);
        lemma_order_add(range_rows(top), rows_of_hunk(hunks, i), floor, middle, end);
    }
}

proof fn lemma_order_above(hunks: Seq<CollapsedDiffHunk>, total_rows: int, n: int)
    requires
        ordered_hunks(hunks, total_rows),
        0 <= n <= hunks.len(),
    ensures
        in_file_order(
            rows_above_hunk(hunks, n),
            0,
            if n == 0 {
                0
            } else {
                hunks[n - 1].base_row_end_exclusive as int
            },
        ),
    decreases n,
{
    if n > 0 {
        let i = n - 1;
        lemma_order_above(hunks, total_rows, i);
        lemma_order_hunk(hunks, total_rows, i);
        let middle = if i == 0 {
            0
        } else {
            hunks[i - 1].base_row_end_exclusive as int
        };
        if i > 0 {
            assert(hunks[i - 1].base_row_end_exclusive <= hunks[i].base_row_start);
        }
        let both = rows_before_hunk(hunks, i) + rows_of_hunk(hunks, i);
        lemma_order_add(
            rows_above_hunk(hunks, i),
            both,
            0,
            middle,
            hunks[i].base_row_end_exclusive as int,
        );
        assert(rows_above_hunk(hunks, n) =~= rows_above_hunk(hunks, i) + both);
    }
}

/// The file rows that are shown are rows of the file, in its order, each of
/// them once.
pub proof fn law_rows_keep_file_order(hunks: Seq<CollapsedDiffHunk>, total_rows: int)
    requires
        ordered_hunks(hunks, total_rows),
        hunks.len() > 0,
    ensures
        in_file_order(visible_rows(hunks, total_rows), 0, total_rows),
{
    let n = hunks.len() as int;
    let last = hunks[n - 1];
    let end = last.base_row_end_exclusive as int;
    lemma_order_above(hunks, total_rows, n);
    let above = rows_above_hunk(hunks, n);
    let trailing = file_rows(end, trailing_end(last, total_rows));
    lemma_order_file_rows(end, trailing_end(last, total_rows), end, total_rows);
    lemma_order_add(above, trailing, 0, end, total_rows);
    let rows = visible_rows(hunks, total_rows);
    let shown = above + trailing;
    assert forall|a: int| 0 <= a < rows.len() && (#[trigger] rows[a]) is FileRow implies 0
        <= rows[a]->row_ix < total_rows by {
        assert(rows[a] == shown[a]);
    }
    assert forall|a: int, b: int|
        0 <= a < b < rows.len() && (#[trigger] rows[a]) is FileRow && (
        #[trigger] rows[b]) is FileRow implies rows[a]->row_ix < rows[b]->row_ix by {
        assert(rows[a] == shown[a]);
        assert(rows[b] == shown[b]);
    }
}

/// After joining, no gap from hunk `i` on is both there and revealed in full.
pub proof fn law_normalized_has_no_revealed_gap(hunks: Seq<CollapsedDiffHunk>, i: int)
    requires
        0 <= i,
        forall|k: int|
            0 <= k < i && k + 1 < hunks.len() ==> !gap_revealed(#[trigger] hunks[k], hunks[k + 1]),
    ensures
        ({
            let after = normalized(hunks, i);
            forall|k: int|
                0 <= k && k + 1 < after.len() ==> !gap_revealed(#[trigger] after[k], after[k + 1])
        }),
    decreases hunks.len() - i,
{
    if i + 1 < hunks.len() {
        if gap_revealed(hunks[i], hunks[i + 1]) {
            let next = joined_at(hunks, i);
            assert forall|k: int| 0 <= k < i && k + 1 < next.len() implies !gap_revealed(
                #[trigger] next[k],
                next[k + 1],
            ) by {
                assert(next[k] == hunks[k]);
                assert(!gap_revealed(hunks[k], hunks[k + 1]));
            }
            law_normalized_has_no_revealed_gap(next, i);
            assert(normalized(hunks, i) == normalized(next, i));
        } else {
            law_normalized_has_no_revealed_gap(hunks, i + 1);
            assert(normalized(hunks, i) == normalized(hunks, i + 1));
        }
    } else {
        assert(normalized(hunks, i) == hunks);
    }
}

/// Joining keeps hunks ordered.
pub proof fn law_joining_keeps_order(hunks: Seq<CollapsedDiffHunk>, total_rows: int, i: int)
    requires
        ordered_hunks(hunks, total_rows),
        0 <= i,
        i + 1 < hunks.len(),
    ensures
        ordered_hunks(joined_at(hunks, i), total_rows),
{
    let after = joined_at(hunks, i);
    assert(hunks[i].base_row_end_exclusive <= hunks[i + 1].base_row_start);
    assert forall|k: int| 0 <= k < after.len() implies (#[trigger] after[k]).base_row_start
        < after[k].base_row_end_exclusive <= total_rows by {
        if k < i {
            assert(after[k] == hunks[k]);
        } else if k == i {
            assert(after[k] == joined(hunks[i], hunks[i + 1]));
            assert(hunks[i].base_row_start < hunks[i].base_row_end_exclusive);
            assert(hunks[i + 1].base_row_start < hunks[i + 1].base_row_end_exclusive);
        } else {
            assert(after[k] == hunks[k + 1]);
        }
    }
    assert forall|a: int, b: int| 0 <= a < b < after.len() implies (
    #[trigger] after[a]).base_row_end_exclusive <= (#[trigger] after[b]).base_row_start by {
        let x = if a < i {
            a
        } else {
            a + 1
        };
        let y = if b <= i {
            b
        } else {
            b + 1
        };
        assert(after[a].base_row_end_exclusive == hunks[x].base_row_end_exclusive);
        assert(after[b].base_row_start == hunks[y].base_row_start);
        if x < y {
            assert(hunks[x].base_row_end_exclusive <= hunks[y].base_row_start);
        }
    }
}

/// Revealing up to `limit` rows below a hunk leaves exactly that many fewer
/// hidden there.
pub proof fn law_revealing_down_uncovers(
    hunks: Seq<CollapsedDiffHunk>,
    i: int,
    total_rows: int,
    limit: int,
)
    requires
        0 <= i < hunks.len(),
        0 <= limit,
        0 <= total_rows <= usize::MAX,
    ensures
        hidden_down(
            with_more_down(hunks, i, min(hidden_down(hunks, i, total_rows), limit)),
            i,
            total_rows,
        ) == hidden_down(hunks, i, total_rows) - min(hidden_down(hunks, i, total_rows), limit),
{
}

} // verus!
