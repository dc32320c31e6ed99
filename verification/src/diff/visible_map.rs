//! Which lines of a patch the inline view shows, and at which row.
use vstd::prelude::*;

verus! {

/// Lines that are shown one after the other.
#[derive(Clone, Copy, Debug, PartialEq, Eq, Structural)]
pub struct PatchInlineVisibleRun {
    start_visible_ix: usize,
    start_src_ix: usize,
    len: usize,
}

/// The lines that are not hidden, in order.
pub open spec fn visible_sources(hidden: Seq<bool>) -> Seq<int>
    decreases hidden.len(),
{
    if hidden.len() == 0 {
        Seq::empty()
    } else {
        let before = visible_sources(hidden.drop_last());
        if hidden.last() {
            before
        } else {
            before.push(hidden.len() - 1)
        }
    }
}

/// A line is among the visible ones just when it is not hidden, and the visible
/// lines keep their order.
pub proof fn law_visible_sources(hidden: Seq<bool>)
    ensures
        forall|src: int|
            #[trigger] visible_sources(hidden).contains(src) <==> 0 <= src < hidden.len()
                && !hidden[src],
        forall|a: int, b: int|
            0 <= a < b < visible_sources(hidden).len() ==> #[trigger] visible_sources(hidden)[a]
                < #[trigger] visible_sources(hidden)[b],
        visible_sources(hidden).len() <= hidden.len(),
    decreases hidden.len(),
{
    if hidden.len() > 0 {
        let shorter = hidden.drop_last();
        law_visible_sources(shorter);
        let before = visible_sources(shorter);
        let all = visible_sources(hidden);
        assert forall|src: int| #[trigger] all.contains(src) <==> 0 <= src < hidden.len()
            && !hidden[src] by {
            if all.contains(src) {
                let i = choose|i: int| 0 <= i < all.len() && all[i] == src;
                if i < before.len() {
                    assert(before[i] == src);
                    assert(before.contains(src));
                }
            }
            if 0 <= src < hidden.len() && !hidden[src] {
                if src == hidden.len() - 1 {
                    assert(all[all.len() - 1] == src);
                } else {
                    assert(!shorter[src]);
                    assert(before.contains(src));
                    let i = choose|i: int| 0 <= i < before.len() && before[i] == src;
                    assert(all[i] == src);
                }
            }
        }
        assert forall|a: int, b: int| 0 <= a < b < all.len() implies #[trigger] all[a]
            < #[trigger] all[b] by {
            if b == before.len() {
                assert(before.contains(before[a]));
            }
        }
    }
}

/// The lines that the runs cover, one run after the other.
#[verifier::opaque]
pub closed spec fn run_sources(runs: Seq<PatchInlineVisibleRun>) -> Seq<int>
    decreases runs.len(),
{
    if runs.len() == 0 {
        Seq::empty()
    } else {
        run_sources(runs.drop_last()) + Seq::new(
            runs.last().len as nat,
            |i: int| runs.last().start_src_ix + i,
        )
    }
}

spec fn runs_wf(runs: Seq<PatchInlineVisibleRun>) -> bool {
    &&& forall|k: int|
        0 <= k < runs.len() ==> {
            let run = #[trigger] runs[k];
            &&& run.len > 0
            &&& run.start_src_ix + run.len <= usize::MAX
            &&& run.start_visible_ix == run_sources(runs.take(k)).len()
        }
    &&& forall|j: int, k: int|
        0 <= j < k < runs.len() ==> #[trigger] runs[j].start_src_ix + runs[j].len
            <= #[trigger] runs[k].start_src_ix
}

proof fn lemma_take_step(runs: Seq<PatchInlineVisibleRun>, k: int)
    requires
        0 <= k < runs.len(),
    ensures
        run_sources(runs.take(k + 1)) == run_sources(runs.take(k)) + Seq::new(
            runs[k].len as nat,
            |i: int| runs[k].start_src_ix + i,
        ),
        run_sources(runs.take(k + 1)).len() == run_sources(runs.take(k)).len() + runs[k].len,
{
    reveal(run_sources);
    assert(runs.take(k + 1).drop_last() =~= runs.take(k));
    assert(runs.take(k + 1).last() == runs[k]);
}

proof fn lemma_sources_prefix(runs: Seq<PatchInlineVisibleRun>, j: int, k: int)
    requires
        0 <= j <= k <= runs.len(),
    ensures
        run_sources(runs.take(j)).is_prefix_of(run_sources(runs.take(k))),
    decreases k - j,
{
    if j < k {
        lemma_sources_prefix(runs, j, k - 1);
        lemma_take_step(runs, k - 1);
    }
}

/// What stands at an offset of a run.
proof fn lemma_run_holds(runs: Seq<PatchInlineVisibleRun>, k: int, offset: int)
    requires
        runs_wf(runs),
        0 <= k < runs.len(),
        0 <= offset < runs[k].len,
    ensures
        runs[k].start_visible_ix + offset < run_sources(runs).len(),
        run_sources(runs)[runs[k].start_visible_ix + offset] == runs[k].start_src_ix + offset,
{
    lemma_take_step(runs, k);
    lemma_sources_prefix(runs, k + 1, runs.len() as int);
    assert(runs.take(runs.len() as int) =~= runs);
    let part = run_sources(runs.take(k + 1));
    assert(part == run_sources(runs).subrange(0, part.len() as int));
    assert(part[runs[k].start_visible_ix + offset] == runs[k].start_src_ix + offset);
}

/// Every visible row is in some run.
proof fn lemma_row_has_run(runs: Seq<PatchInlineVisibleRun>, n: int, row: int) -> (k: int)
    requires
        runs_wf(runs),
        0 <= n <= runs.len(),
        0 <= row < run_sources(runs.take(n)).len(),
    ensures
        0 <= k < n,
        runs[k].start_visible_ix <= row < runs[k].start_visible_ix + runs[k].len,
    decreases n,
{
    reveal(run_sources);
    lemma_take_step(runs, n - 1);
    if row < run_sources(runs.take(n - 1)).len() {
        lemma_row_has_run(runs, n - 1, row)
    } else {
        n - 1
    }
}

/// The rows of the inline view, held as runs of lines that are shown.
#[derive(Debug)]
pub struct PatchInlineVisibleMap {
    visible_len: usize,
    visible_runs: Vec<PatchInlineVisibleRun>,
}

impl PatchInlineVisibleMap {
    /// The line that each row shows.
    pub closed spec fn sources(&self) -> Seq<int> {
        run_sources(self.visible_runs@)
    }

    pub closed spec fn wf(&self) -> bool {
        &&& runs_wf(self.visible_runs@)
        &&& self.visible_len == run_sources(self.visible_runs@).len()
    }

    pub fn from_hidden_flags(hidden_flags: &[bool]) -> (map: Self)
        ensures
            map.wf(),
            map.sources() == visible_sources(hidden_flags@),
    {
        let mut visible_runs: Vec<PatchInlineVisibleRun> = Vec::new();
        let mut visible_len: usize = 0;
        let mut run_start_src_ix: Option<usize> = None;
        let mut src_ix: usize = 0;
        let len = hidden_flags.len();
        proof {
            reveal(run_sources);
            assert(hidden_flags@.take(0) =~= Seq::empty());
        }
        while src_ix < len
            invariant
                0 <= src_ix <= len,
                len == hidden_flags@.len(),
                runs_wf(visible_runs@),
                visible_len == run_sources(visible_runs@).len(),
                visible_len <= src_ix,
                match run_start_src_ix {
                    Some(start) => {
                        &&& start < src_ix
                        &&& visible_len <= start
                        &&& visible_sources(hidden_flags@.take(src_ix as int)) == run_sources(
                            visible_runs@,
                        ) + Seq::new((src_ix - start) as nat, |i: int| start + i)
                        &&& forall|k: int|
                            0 <= k < visible_runs@.len() ==> #[trigger] visible_runs@[k].start_src_ix
                                + visible_runs@[k].len <= start
                    },
                    None => {
                        &&& visible_sources(hidden_flags@.take(src_ix as int)) == run_sources(
                            visible_runs@,
                        )
                        &&& forall|k: int|
                            0 <= k < visible_runs@.len() ==> #[trigger] visible_runs@[k].start_src_ix
                                + visible_runs@[k].len <= src_ix
                    },
                },
            decreases len - src_ix,
        {
            let hide = hidden_flags[src_ix];
            proof {
                let next = hidden_flags@.take(src_ix + 1);
                assert(next.drop_last() =~= hidden_flags@.take(src_ix as int));
                assert(next.last() == hide);
            }
            if hide {
                if let Some(start_src_ix) = run_start_src_ix {
                    let run_len = src_ix - start_src_ix;
                    let ghost before = visible_runs@;
                    visible_runs.push(
                        PatchInlineVisibleRun {
                            start_visible_ix: visible_len,
                            start_src_ix,
                            len: run_len,
                        },
                    );
                    visible_len += run_len;
                    run_start_src_ix = None;
                    proof {
                        assert(visible_runs@.drop_last() =~= before);
                    lemma_pushed(before, visible_runs@);
                    }
                }
            } else if run_start_src_ix.is_none() {
                run_start_src_ix = Some(src_ix);
                assert(visible_sources(hidden_flags@.take(src_ix + 1)) =~= run_sources(
                    visible_runs@,
                ) + Seq::new(1, |i: int| src_ix + i));
            } else {
                let ghost start = run_start_src_ix.unwrap();
                assert(visible_sources(hidden_flags@.take(src_ix + 1)) =~= run_sources(
                    visible_runs@,
                ) + Seq::new((src_ix + 1 - start) as nat, |i: int| start + i));
            }
            src_ix += 1;
        }
        assert(hidden_flags@.take(len as int) =~= hidden_flags@);
        if let Some(start_src_ix) = run_start_src_ix {
            let run_len = len - start_src_ix;
            let ghost before = visible_runs@;
            visible_runs.push(
                PatchInlineVisibleRun { start_visible_ix: visible_len, start_src_ix, len: run_len },
            );
            visible_len += run_len;
            proof {
                assert(visible_runs@.drop_last() =~= before);
                    lemma_pushed(before, visible_runs@);
            }
        }
        PatchInlineVisibleMap { visible_len, visible_runs }
    }

    /// How many rows there are.
    pub fn visible_len(&self) -> (len: usize)
        requires
            self.wf(),
        ensures
            len == self.sources().len(),
    {
        self.visible_len
    }

    /// Every row with the line that it shows, top to bottom.
    pub fn for_each_visible_src_ix(&self) -> (visits: Vec<(usize, usize)>)
        requires
            self.wf(),
        ensures
            visits@.len() == self.sources().len(),
            forall|row: int|
                0 <= row < visits@.len() ==> (#[trigger] visits@[row]).0 == row && visits@[row].1
                    == self.sources()[row],
    {
        let mut visits: Vec<(usize, usize)> = Vec::new();
        let runs = &self.visible_runs;
        let ghost all = run_sources(runs@);
        let mut k: usize = 0;
        proof {
            reveal(run_sources);
        }
        while k < runs.len()
            invariant
                0 <= k <= runs@.len(),
                runs_wf(runs@),
                all == run_sources(runs@),
                visits@.len() == run_sources(runs@.take(k as int)).len(),
                visits@.len() <= all.len() <= usize::MAX,
                forall|row: int|
                    0 <= row < visits@.len() ==> (#[trigger] visits@[row]).0 == row
                        && visits@[row].1 == all[row],
            decreases runs@.len() - k,
        {
            let run = runs[k];
            let mut offset: usize = 0;
            proof {
                lemma_take_step(runs@, k as int);
                lemma_sources_prefix(runs@, k + 1, runs@.len() as int);
                assert(runs@.take(runs@.len() as int) =~= runs@);
            }
            while offset < run.len
                invariant
                    0 <= offset <= run.len,
                    0 <= k < runs@.len(),
                    run == runs@[k as int],
                    runs_wf(runs@),
                    all == run_sources(runs@),
                    all.len() <= usize::MAX,
                    run.start_visible_ix + run.len <= all.len(),
                    visits@.len() == run.start_visible_ix + offset,
                    forall|row: int|
                        0 <= row < visits@.len() ==> (#[trigger] visits@[row]).0 == row
                            && visits@[row].1 == all[row],
                decreases run.len - offset,
            {
                proof {
                    lemma_run_holds(runs@, k as int, offset as int);
                }
                visits.push((run.start_visible_ix + offset, run.start_src_ix + offset));
                offset += 1;
            }
            k += 1;
        }
        assert(runs@.take(runs@.len() as int) =~= runs@);
        visits
    }

    /// The line that a row shows; `None` past the last row.
    pub fn src_ix_for_visible_ix(&self, visible_ix: usize) -> (src_ix: Option<usize>)
        requires
            self.wf(),
        ensures
            match src_ix {
                Some(src_ix) => visible_ix < self.sources().len() && self.sources()[visible_ix as int]
                    == src_ix,
                None => visible_ix >= self.sources().len(),
            },
    {
        if visible_ix >= self.visible_len {
            return None;
        }
        let runs = &self.visible_runs;
        proof {
            assert(runs@.take(runs@.len() as int) =~= runs@);
        }
        let ghost home = lemma_row_has_run(runs@, runs@.len() as int, visible_ix as int);
        proof {
            lemma_starts_grow(runs@);
        }
        let mut low: usize = 0;
        let mut high: usize = runs.len();
        while low < high
            invariant
                low <= high <= runs@.len(),
                runs_wf(runs@),
                starts_grow(runs@),
                forall|k: int| 0 <= k < low ==> #[trigger] runs@[k].start_visible_ix <= visible_ix,
                forall|k: int|
                    high <= k < runs@.len() ==> #[trigger] runs@[k].start_visible_ix > visible_ix,
            decreases high - low,
        {
            let mid = low + (high - low) / 2;
            if runs[mid].start_visible_ix <= visible_ix {
                low = mid + 1;
            } else {
                high = mid;
            }
        }
        assert(home < low);
        if low == 0 {
            return None;
        }
        let run = runs[low - 1];
        let offset = visible_ix - run.start_visible_ix;
        assert(home == low - 1) by {
            if home < low - 1 {
                lemma_take_step(runs@, home);
                lemma_sources_prefix(runs@, home + 1, low - 1);
            }
        }
        proof {
            lemma_run_holds(runs@, home, offset as int);
        }
        Some(run.start_src_ix + offset)
    }

    /// The row that shows a line; `None` where the line is hidden.
    pub fn visible_ix_for_src_ix(&self, src_ix: usize) -> (visible_ix: Option<usize>)
        requires
            self.wf(),
        ensures
            match visible_ix {
                Some(visible_ix) => visible_ix < self.sources().len()
                    && self.sources()[visible_ix as int] == src_ix,
                None => !self.sources().contains(src_ix as int),
            },
    {
        let runs = &self.visible_runs;
        let mut low: usize = 0;
        let mut high: usize = runs.len();
        while low < high
            invariant
                low <= high <= runs@.len(),
                runs_wf(runs@),
                forall|k: int| 0 <= k < low ==> #[trigger] runs@[k].start_src_ix <= src_ix,
                forall|k: int|
                    high <= k < runs@.len() ==> #[trigger] runs@[k].start_src_ix > src_ix,
            decreases high - low,
        {
            let mid = low + (high - low) / 2;
            if runs[mid].start_src_ix <= src_ix {
                low = mid + 1;
            } else {
                high = mid;
            }
        }
        if low > 0 {
            let run = runs[low - 1];
            let offset = src_ix - run.start_src_ix;
            if offset < run.len {
                proof {
                    lemma_run_holds(runs@, low - 1, offset as int);
                }
                return Some(run.start_visible_ix + offset);
            }
        }
        proof {
            let all = self.sources();
            if all.contains(src_ix as int) {
                let row = choose|row: int| 0 <= row < all.len() && all[row] == src_ix;
                assert(runs@.take(runs@.len() as int) =~= runs@);
                let k = lemma_row_has_run(runs@, runs@.len() as int, row);
                lemma_run_holds(runs@, k, row - runs@[k].start_visible_ix);
                assert(runs@[k].start_src_ix <= src_ix < runs@[k].start_src_ix + runs@[k].len);
                assert(k < low);
                if k < low - 1 {
                    assert(runs@[k].start_src_ix + runs@[k].len <= runs@[low - 1].start_src_ix);
                }
            }
        }
        None
    }
}

spec fn starts_grow(runs: Seq<PatchInlineVisibleRun>) -> bool {
    forall|j: int, k: int|
        0 <= j < k < runs.len() ==> #[trigger] runs[j].start_visible_ix
            < #[trigger] runs[k].start_visible_ix
}

proof fn lemma_starts_grow(runs: Seq<PatchInlineVisibleRun>)
    requires
        runs_wf(runs),
    ensures
        starts_grow(runs),
{
    assert forall|j: int, k: int| 0 <= j < k < runs.len() implies #[trigger] runs[j].start_visible_ix
        < #[trigger] runs[k].start_visible_ix by {
        lemma_take_step(runs, j);
        lemma_sources_prefix(runs, j + 1, k);
    }
}

proof fn lemma_pushed(before: Seq<PatchInlineVisibleRun>, after: Seq<PatchInlineVisibleRun>)
    requires
        runs_wf(before),
        after.len() == before.len() + 1,
        after.drop_last() == before,
        after.last().len > 0,
        after.last().start_src_ix + after.last().len <= usize::MAX,
        after.last().start_visible_ix == run_sources(before).len(),
        forall|k: int|
            0 <= k < before.len() ==> #[trigger] before[k].start_src_ix + before[k].len
                <= after.last().start_src_ix,
    ensures
        runs_wf(after),
        run_sources(after) == run_sources(before) + Seq::new(
            after.last().len as nat,
            |i: int| after.last().start_src_ix + i,
        ),
{
    reveal(run_sources);
    assert forall|k: int| 0 <= k < after.len() implies {
        let run = #[trigger] after[k];
        &&& run.len > 0
        &&& run.start_src_ix + run.len <= usize::MAX
        &&& run.start_visible_ix == run_sources(after.take(k)).len()
    } by {
        if k < before.len() {
            assert(after[k] == before[k]);
            assert(after.take(k) =~= before.take(k));
        } else {
            assert(after.take(k) =~= before);
        }
    }
    assert forall|j: int, k: int| 0 <= j < k < after.len() implies #[trigger] after[j].start_src_ix
        + after[j].len <= #[trigger] after[k].start_src_ix by {
        assert(after[j] == before[j]);
        if k < before.len() {
            assert(after[k] == before[k]);
        }
    }
}

/// Looking a row's line up and then that line's row leads back to the row, and
/// no other row shows the line.
pub proof fn law_visible_map_round_trip(hidden: Seq<bool>, row: int, other: int)
    requires
        0 <= row < visible_sources(hidden).len(),
        0 <= other < visible_sources(hidden).len(),
        visible_sources(hidden)[row] == visible_sources(hidden)[other],
    ensures
        row == other,
{
    law_visible_sources(hidden);
}

} // verus!
