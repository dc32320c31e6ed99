//! Lists of rows, each once and in order.
use crate::outside::dedup_rows;
use crate::outside::sort_rows;
use crate::outside::without_repeats;
use vstd::prelude::*;

verus! {

/// Rows one behind the other.
pub open spec fn rows_grow(rows: Seq<usize>) -> bool {
    forall|i: int, j: int| 0 <= i < j < rows.len() ==> #[trigger] rows[i] < #[trigger] rows[j]
}

/// The first rows of which something holds.
pub open spec fn rows_where(n: int, test: spec_fn(int) -> bool) -> Seq<usize>
    decreases n,
{
    if n <= 0 {
        Seq::empty()
    } else {
        let before = rows_where(n - 1, test);
        if test(n - 1) {
            before.push((n - 1) as usize)
        } else {
            before
        }
    }
}

/// A list in order that holds the rows of which something holds, and no others,
/// is the list of these rows.
pub proof fn lemma_rows_where(rows: Seq<usize>, n: int, test: spec_fn(int) -> bool)
    requires
        0 <= n <= usize::MAX + 1,
        rows_grow(rows),
        forall|i: int| 0 <= i < rows.len() ==> (#[trigger] rows[i]) < n && test(rows[i] as int),
        forall|row: int| 0 <= row < n && #[trigger] test(row) ==> rows.contains(row as usize),
    ensures
        rows == rows_where(n, test),
    decreases n,
{
    if n <= 0 {
        if rows.len() > 0 {
            assert(rows[0] < n);
        }
        assert(rows =~= rows_where(n, test));
    } else {
        let row = n - 1;
        if test(row) {
            assert(rows.contains(row as usize));
            let k = choose|k: int| 0 <= k < rows.len() && rows[k] == row as usize;
            let last = rows.len() - 1;
            if k < last {
                assert(rows[k] < rows[last]);
                assert(rows[last] < n);
            }
            let shorter = rows.drop_last();
            assert forall|i: int| 0 <= i < shorter.len() implies (#[trigger] shorter[i]) < n - 1
                && test(shorter[i] as int) by {
                assert(rows[i] < rows[last]);
            }
            assert forall|other: int| 0 <= other < n - 1 && #[trigger] test(
                other,
            ) implies shorter.contains(other as usize) by {
                assert(rows.contains(other as usize));
                let i = choose|i: int| 0 <= i < rows.len() && rows[i] == other as usize;
                assert(shorter[i] == other as usize);
            }
            lemma_rows_where(shorter, n - 1, test);
            assert(rows =~= rows_where(n, test));
        } else {
            assert forall|i: int| 0 <= i < rows.len() implies (#[trigger] rows[i]) < n - 1 && test(
                rows[i] as int,
            ) by {
                if rows[i] == row {
                    assert(test(rows[i] as int));
                }
            }
            lemma_rows_where(rows, n - 1, test);
        }
    }
}

/// What the list of rows of which something holds is like.
pub proof fn lemma_rows_where_are(n: int, test: spec_fn(int) -> bool)
    requires
        0 <= n <= usize::MAX + 1,
    ensures
        rows_grow(rows_where(n, test)),
        forall|i: int|
            0 <= i < rows_where(n, test).len() ==> (#[trigger] rows_where(n, test)[i]) < n && test(
                rows_where(n, test)[i] as int,
            ),
        forall|row: int|
            0 <= row < n && #[trigger] test(row) ==> rows_where(n, test).contains(row as usize),
    decreases n,
{
    if n > 0 {
        lemma_rows_where_are(n - 1, test);
        let before = rows_where(n - 1, test);
        let all = rows_where(n, test);
        assert forall|row: int| 0 <= row < n && #[trigger] test(row) implies all.contains(
            row as usize,
        ) by {
            if row == n - 1 {
                assert(all[all.len() - 1] == row as usize);
            } else {
                assert(before.contains(row as usize));
                let i = choose|i: int| 0 <= i < before.len() && before[i] == row as usize;
                assert(all[i] == row as usize);
            }
        }
    }
}

/// Two tests that agree give the same rows.
pub proof fn lemma_rows_where_same(
    n: int,
    a: spec_fn(int) -> bool,
    b: spec_fn(int) -> bool,
)
    requires
        forall|row: int| 0 <= row < n ==> #[trigger] a(row) == b(row),
    ensures
        rows_where(n, a) == rows_where(n, b),
    decreases n,
{
    if n > 0 {
        lemma_rows_where_same(n - 1, a, b);
        assert(a(n - 1) == b(n - 1));
    }
}

proof fn lemma_without_repeats(rows: Seq<usize>)
    requires
        forall|i: int, j: int| 0 <= i <= j < rows.len() ==> rows[i] <= rows[j],
    ensures
        rows_grow(without_repeats(rows)),
        forall|row: usize| #[trigger] without_repeats(rows).contains(row) <==> rows.contains(row),
        rows.len() > 0 ==> without_repeats(rows).len() > 0 && without_repeats(rows).last()
            == rows.last(),
    decreases rows.len(),
{
    if rows.len() > 1 {
        let shorter = rows.drop_last();
        lemma_without_repeats(shorter);
        let before = without_repeats(shorter);
        let all = without_repeats(rows);
        assert(shorter.last() == rows[rows.len() - 2]);
        assert forall|row: usize| #[trigger] all.contains(row) <==> rows.contains(row) by {
            if rows.contains(row) {
                let i = choose|i: int| 0 <= i < rows.len() && rows[i] == row;
                if i < rows.len() - 1 {
                    assert(shorter[i] == row);
                    assert(shorter.contains(row));
                    assert(before.contains(row));
                    let k = choose|k: int| 0 <= k < before.len() && before[k] == row;
                    assert(all[k] == row);
                } else {
                    assert(all[all.len() - 1] == row);
                }
            }
            if all.contains(row) {
                let k = choose|k: int| 0 <= k < all.len() && all[k] == row;
                if k < before.len() {
                    assert(before[k] == row);
                    assert(before.contains(row));
                    let i = choose|i: int| 0 <= i < shorter.len() && shorter[i] == row;
                    assert(rows[i] == row);
                } else {
                    assert(rows[rows.len() - 1] == row);
                }
            }
        }
        assert forall|i: int, j: int| 0 <= i < j < all.len() implies #[trigger] all[i]
            < #[trigger] all[j] by {
            if j == before.len() && i < before.len() - 1 {
                assert(before[i] < before[before.len() - 1]);
            }
        }
    }
}

/// A list holds the rows of another one, each once and in order.
pub open spec fn settled_rows(settled: Seq<usize>, rows: Seq<usize>) -> bool {
    rows_grow(settled) && forall|row: usize| #[trigger]
        settled.contains(row) <==> rows.contains(row)
}

/// Puts rows in order and drops repeats.
pub fn sort_and_dedup(rows: &mut Vec<usize>)
    ensures
        settled_rows(final(rows)@, old(rows)@),
{
    let ghost before = rows@;
    sort_rows(rows);
    let ghost sorted = rows@;
    dedup_rows(rows);
    proof {
        lemma_without_repeats(sorted);
        assert forall|row: usize| #[trigger] rows@.contains(row) <==> before.contains(row) by {
            broadcast use vstd::seq_lib::group_to_multiset_ensures;

            assert(sorted.contains(row) <==> sorted.to_multiset().count(row) > 0);
            assert(before.contains(row) <==> before.to_multiset().count(row) > 0);
        }
    }
}

/// There is one list that holds given rows, each once and in order.
pub proof fn lemma_settled_once(a: Seq<usize>, b: Seq<usize>, rows: Seq<usize>)
    requires
        settled_rows(a, rows),
        settled_rows(b, rows),
    ensures
        a == b,
{
    let test = |row: int| 0 <= row <= usize::MAX && rows.contains(row as usize);
    let n = usize::MAX + 1;
    assert forall|i: int| 0 <= i < a.len() implies (#[trigger] a[i]) < n && test(a[i] as int) by {
        assert(a.contains(a[i]));
    }
    assert forall|i: int| 0 <= i < b.len() implies (#[trigger] b[i]) < n && test(b[i] as int) by {
        assert(b.contains(b[i]));
    }
    assert forall|row: int| 0 <= row < n && #[trigger] test(row) implies a.contains(row as usize)
        && b.contains(row as usize) by {
        assert(a.contains(row as usize) <==> rows.contains(row as usize));
        assert(b.contains(row as usize) <==> rows.contains(row as usize));
    }
    lemma_rows_where(a, n, test);
    lemma_rows_where(b, n, test);
}

} // verus!
