//! Searching the rows of a patch that is shown in one column.
use crate::diff::patch_rows::Diff;
use crate::diff::patch_rows::DiffLine;
use crate::diff::split_meta::as_ints;
use crate::diff::split_rows::DiffClickKind;
use crate::diff::visible_map::PatchInlineVisibleMap;
use crate::outside::fx_get;
use crate::outside::trigram_buffer;
use crate::search::bytes::holds;
use crate::search::collect::collect_stream_match_visible_rows;
use crate::search::collect::numbers;
use crate::search::collect::offsets_of;
use crate::search::collect::owned_chars;
use crate::search::collect::row_refs;
use crate::search::hits::lemma_rows_where;
use crate::search::hits::rows_grow;
use crate::search::hits::rows_where;
use crate::search::hits::settled_rows;
use crate::search::hits::sort_and_dedup;
use crate::search::matcher::DiffSearchMatcher;
use crate::search::needle::diff_search_inline_patch_query_uses_trigram_index;
use crate::search::needle::displayed;
use crate::search::needle::expand_tabs_to_string;
use crate::search::needle::AsciiCaseInsensitiveNeedle;
use crate::search::trigrams::has_trigram;
use crate::search::trigrams::increasing;
use crate::search::trigrams::kept;
use crate::search::trigrams::law_candidates_hold_every_match;
use crate::search::trigrams::law_candidates_lose_no_row;
use crate::search::trigrams::lemma_same_test;
use crate::search::trigrams::listed;
use crate::search::trigrams::posting;
use crate::search::trigrams::retain_refined_visible_matches;
use crate::search::trigrams::DiffSearchVisibleCandidates;
use crate::search::trigrams::DiffSearchVisibleTrigramIndex;
use crate::search::trigrams::VisibleRowTest;
use rustc_hash::FxHashMap;
use vstd::prelude::*;
use vstd::string::*;
use vstd::utf8::encode_utf8;

verus! {

broadcast use vstd::std_specs::hash::group_hash_axioms;

/// What is shown of a patch in one column: its lines, what a click on each acts
/// on, the texts that stand for its headers, and the lines that are shown.
#[derive(Clone, Copy)]
pub struct InlinePatchRows<'a> {
    pub diff: &'a Diff,
    pub click_kinds: &'a [DiffClickKind],
    pub headers: &'a FxHashMap<usize, String>,
    pub map: Option<&'a PatchInlineVisibleMap>,
    pub indices: &'a [usize],
}

/// The text of a line as it is shown: that of a header where one stands for the
/// line, else the line with its tabs expanded.
pub open spec fn shown_text(
    lines: Seq<DiffLine>,
    click_kinds: Seq<DiffClickKind>,
    headers: Map<usize, String>,
    src_ix: int,
) -> Option<Seq<char>> {
    let is_header = 0 <= src_ix < click_kinds.len() && click_kinds[src_ix] !is Line;
    if src_ix < 0 || src_ix >= lines.len() {
        None
    } else if is_header && headers.dom().contains(src_ix as usize) {
        Some(headers[src_ix as usize]@)
    } else {
        Some(displayed(lines[src_ix].text@))
    }
}

/// The lines that are shown.
pub open spec fn shown_sources(map: Option<&PatchInlineVisibleMap>, indices: Seq<usize>) -> Seq<
    int,
> {
    match map {
        Some(map) => map.sources(),
        None => as_ints(indices),
    }
}

pub fn inline_patch_diff_search_text(
    diff: &Diff,
    diff_click_kinds: &[DiffClickKind],
    diff_header_display_cache: &FxHashMap<usize, String>,
    src_ix: usize,
) -> (text: Option<String>)
    ensures
        match text {
            Some(text) => shown_text(
                diff.lines@,
                diff_click_kinds@,
                diff_header_display_cache@,
                src_ix as int,
            ) == Some(text@),
            None => shown_text(
                diff.lines@,
                diff_click_kinds@,
                diff_header_display_cache@,
                src_ix as int,
            ) is None,
        },
{
    if src_ix >= diff.lines.len() {
        return None;
    }
    let is_header = if src_ix < diff_click_kinds.len() {
        match diff_click_kinds[src_ix] {
            DiffClickKind::Line => false,
            DiffClickKind::HunkHeader => true,
            DiffClickKind::FileHeader => true,
        }
    } else {
        false
    };
    if is_header {
        if let Some(display) = fx_get(diff_header_display_cache, &src_ix) {
            return Some(display.clone());
        }
    }
    Some(expand_tabs_to_string(diff.lines[src_ix].text.as_str()))
}

pub fn inline_patch_diff_src_ix_for_visible_ix(
    diff_visible_inline_map: Option<&PatchInlineVisibleMap>,
    diff_visible_indices: &[usize],
    visible_ix: usize,
) -> (src_ix: Option<usize>)
    requires
        diff_visible_inline_map matches Some(map) ==> map.wf(),
    ensures
        ({
            let sources = shown_sources(diff_visible_inline_map, diff_visible_indices@);
            match src_ix {
                Some(src_ix) => visible_ix < sources.len() && sources[visible_ix as int] == src_ix,
                None => visible_ix >= sources.len(),
            }
        }),
{
    if let Some(map) = diff_visible_inline_map {
        return map.src_ix_for_visible_ix(visible_ix);
    }
    if visible_ix < diff_visible_indices.len() {
        Some(diff_visible_indices[visible_ix])
    } else {
        None
    }
}

impl<'a> InlinePatchRows<'a> {
    pub open spec fn wf(&self) -> bool {
        self.map matches Some(map) ==> map.wf()
    }

    pub open spec fn sources(&self) -> Seq<int> {
        shown_sources(self.map, self.indices@)
    }

    /// The text of a row.
    pub open spec fn text(&self, visible_ix: int) -> Option<Seq<char>> {
        if 0 <= visible_ix < self.sources().len() {
            shown_text(
                self.diff.lines@,
                self.click_kinds@,
                self.headers@,
                self.sources()[visible_ix],
            )
        } else {
            None
        }
    }

    /// A row holds a literal.
    pub open spec fn row_holds(&self, needle: Seq<u8>, visible_ix: int) -> bool {
        self.text(visible_ix) matches Some(text) && holds(encode_utf8(text), needle, false)
    }

    /// The rows that hold a literal.
    pub open spec fn hits(&self, needle: Seq<u8>) -> Seq<usize> {
        rows_where(self.sources().len() as int, |row: int| self.row_holds(needle, row))
    }

    /// The first rows that have a text, with it.
    pub open spec fn texts(&self, n: int) -> Seq<(usize, Seq<char>)>
        decreases n,
    {
        if n <= 0 {
            Seq::empty()
        } else {
            let before = self.texts(n - 1);
            match self.text(n - 1) {
                Some(text) => before.push(((n - 1) as usize, text)),
                None => before,
            }
        }
    }

    /// What an index of the rows is made of.
    pub open spec fn index_input(&self, n: int) -> Seq<(u32, Seq<u8>)> {
        Seq::new(
            self.texts(n).len(),
            |i: int| (self.texts(n)[i].0 as u32, encode_utf8(self.texts(n)[i].1)),
        )
    }

    pub fn len(&self) -> (len: usize)
        requires
            self.wf(),
        ensures
            len == self.sources().len(),
    {
        match self.map {
            Some(map) => map.visible_len(),
            None => self.indices.len(),
        }
    }

    pub fn row_text(&self, visible_ix: usize) -> (text: Option<String>)
        requires
            self.wf(),
        ensures
            match text {
                Some(text) => self.text(visible_ix as int) == Some(text@),
                None => self.text(visible_ix as int) is None,
            },
    {
        match inline_patch_diff_src_ix_for_visible_ix(self.map, self.indices, visible_ix) {
            Some(src_ix) => inline_patch_diff_search_text(
                self.diff,
                self.click_kinds,
                self.headers,
                src_ix,
            ),
            None => None,
        }
    }

    /// Whether a row holds a literal.
    pub fn inline_patch_diff_visible_ix_matches_query(
        &self,
        query: AsciiCaseInsensitiveNeedle<'_>,
        visible_ix: usize,
    ) -> (answer: bool)
        requires
            self.wf(),
            query.wf(),
        ensures
            answer == self.row_holds(query.bytes@, visible_ix as int),
    {
        match self.row_text(visible_ix) {
            Some(text) => query.is_match(text.as_str()),
            None => false,
        }
    }

    /// Collects the rows that hold a literal, looking at all of them.
    pub fn collect_inline_patch_diff_visible_matches_with_needle(
        &self,
        query: AsciiCaseInsensitiveNeedle<'_>,
        out: &mut Vec<usize>,
    )
        requires
            self.wf(),
            query.wf(),
        ensures
            final(out)@ == old(out)@ + self.hits(query.bytes@),
    {
        let ghost before = out@;
        let ghost test = |row: int| self.row_holds(query.bytes@, row);
        let total = self.len();
        let mut visible_ix: usize = 0;
        assert(before =~= before + rows_where(0, test));
        while visible_ix < total
            invariant
                self.wf(),
                query.wf(),
                test == |row: int| self.row_holds(query.bytes@, row),
                0 <= visible_ix <= total,
                out@ == before + rows_where(visible_ix as int, test),
            decreases total - visible_ix,
        {
            let ghost sofar = rows_where(visible_ix as int, test);
            if self.inline_patch_diff_visible_ix_matches_query(query, visible_ix) {
                out.push(visible_ix);
                assert(out@ =~= before + sofar.push(visible_ix));
            }
            visible_ix += 1;
        }
    }

    proof fn lemma_texts(&self, n: int)
        requires
            0 <= n <= self.sources().len(),
            n <= usize::MAX,
        ensures
            forall|i: int|
                0 <= i < self.texts(n).len() ==> (#[trigger] self.texts(n)[i]).0 < n && self.text(
                    self.texts(n)[i].0 as int,
                ) == Some(self.texts(n)[i].1),
            forall|i: int, j: int|
                0 <= i < j < self.texts(n).len() ==> (#[trigger] self.texts(n)[i]).0 < (
                #[trigger] self.texts(n)[j]).0,
            forall|row: int|
                0 <= row < n && (#[trigger] self.text(row)) is Some ==> exists|i: int|
                    0 <= i < self.texts(n).len() && (#[trigger] self.texts(n)[i]).0 == row,
        decreases n,
    {
        if n > 0 {
            self.lemma_texts(n - 1);
            let before = self.texts(n - 1);
            let all = self.texts(n);
            assert forall|row: int| 0 <= row < n && (#[trigger] self.text(
                row,
            )) is Some implies exists|i: int|
                0 <= i < all.len() && (#[trigger] all[i]).0 == row by {
                if row == n - 1 {
                    assert(all[all.len() - 1].0 == row);
                } else {
                    let i = choose|i: int| 0 <= i < before.len() && (#[trigger] before[i]).0 == row;
                    assert(all[i].0 == row);
                }
            }
        }
    }

    /// Makes an index of the rows.
    pub fn build_index(&self) -> (index: DiffSearchVisibleTrigramIndex)
        requires
            self.wf(),
            self.sources().len() <= u32::MAX,
        ensures
            index.indexes(self.index_input(self.sources().len() as int)),
    {
        let mut index = DiffSearchVisibleTrigramIndex::default();
        let mut trigrams = trigram_buffer();
        let total = self.len();
        let mut visible_ix: usize = 0;
        assert(self.index_input(0) =~= Seq::empty());
        while visible_ix < total
            invariant
                self.wf(),
                total == self.sources().len(),
                total <= u32::MAX,
                0 <= visible_ix <= total,
                index.indexes(self.index_input(visible_ix as int)),
            decreases total - visible_ix,
        {
            let ghost before = self.index_input(visible_ix as int);
            match self.row_text(visible_ix) {
                Some(text) => {
                    index.insert_text(visible_ix as u32, text.as_str(), &mut trigrams);
                    assert(self.index_input(visible_ix + 1) =~= before.push(
                        (visible_ix as u32, encode_utf8(text@)),
                    ));
                },
                None => {
                    assert(self.index_input(visible_ix + 1) =~= before);
                },
            }
            visible_ix += 1;
        }
        index.finish()
    }

    /// What the candidates of an index of the rows are good for.
    proof fn lemma_candidates(
        &self,
        index: DiffSearchVisibleTrigramIndex,
        needle: Seq<u8>,
        code: u32,
    )
        requires
            self.sources().len() <= u32::MAX,
            index.indexes(self.index_input(self.sources().len() as int)),
            has_trigram(needle, code),
        ensures
            increasing(posting(index.postings@, code)),
            forall|row: int|
                #[trigger] self.row_holds(needle, row) ==> index.postings@.dom().contains(code)
                    && posting(index.postings@, code).contains(row as u32),
            forall|i: int|
                0 <= i < posting(index.postings@, code).len() ==> (#[trigger] posting(
                    index.postings@,
                    code,
                )[i]) < self.sources().len(),
    {
        let n = self.sources().len() as int;
        let texts = self.texts(n);
        let input = self.index_input(n);
        self.lemma_texts(n);
        assert forall|i: int, j: int| 0 <= i < j < input.len() implies #[trigger] input[i].0
            < #[trigger] input[j].0 by {
            assert(texts[i].0 < texts[j].0);
            assert(texts[j].0 < n);
        }
        law_candidates_hold_every_match(index, input, needle, code);
        assert forall|row: int| #[trigger] self.row_holds(
            needle,
            row,
        ) implies index.postings@.dom().contains(code) && posting(
            index.postings@,
            code,
        ).contains(row as u32) by {
            assert(self.text(row) is Some);
            let i = choose|i: int| 0 <= i < texts.len() && (#[trigger] texts[i]).0 == row;
            assert(input[i].0 == row as u32);
            assert(holds(input[i].1, needle, false));
        }
        assert forall|i: int|
            0 <= i < posting(index.postings@, code).len() implies (#[trigger] posting(
            index.postings@,
            code,
        )[i]) < n by {
            assert(index.postings@.dom().contains(code) <==> listed(input, code).len() > 0);
            lemma_listed_from(input, code, i);
            let k = choose|k: int|
                0 <= k < input.len() && (#[trigger] input[k]).0 == listed(input, code)[i];
            assert(texts[k].0 < n);
        }
    }

    /// Collects the rows that hold a literal, by an index where that helps. The
    /// index is made when it is first needed.
    pub fn diff_search_scan_inline_patch_diff_with_needle(
        &self,
        query: AsciiCaseInsensitiveNeedle<'_>,
        trigram_index: &mut Option<DiffSearchVisibleTrigramIndex>,
        matches: &mut Vec<usize>,
    )
        requires
            self.wf(),
            query.wf(),
            self.sources().len() <= u32::MAX,
            *old(trigram_index) matches Some(index) ==> index.indexes(
                self.index_input(self.sources().len() as int),
            ),
        ensures
            final(matches)@ == old(matches)@ + self.hits(query.bytes@),
            *final(trigram_index) matches Some(index) ==> index.indexes(
                self.index_input(self.sources().len() as int),
            ),
            (*final(trigram_index)) is Some == ((*old(trigram_index)) is Some || query.bytes@.len() >= 3),
    {
        if !diff_search_inline_patch_query_uses_trigram_index(query) {
            self.collect_inline_patch_diff_visible_matches_with_needle(query, matches);
            return;
        }
        let index = match trigram_index.take() {
            Some(index) => index,
            None => self.build_index(),
        };
        self.collect_candidates(&index, query, matches);
        *trigram_index = Some(index);
    }

    fn collect_candidates(
        &self,
        index: &DiffSearchVisibleTrigramIndex,
        query: AsciiCaseInsensitiveNeedle<'_>,
        matches: &mut Vec<usize>,
    )
        requires
            self.wf(),
            query.wf(),
            self.sources().len() <= u32::MAX,
            index.indexes(self.index_input(self.sources().len() as int)),
        ensures
            final(matches)@ == old(matches)@ + self.hits(query.bytes@),
    {
        let ghost needle = query.bytes@;
        let ghost before = matches@;
        let ghost n = self.sources().len() as int;
        let ghost test = |row: int| self.row_holds(needle, row);
        match index.candidates(query.as_bytes()) {
            DiffSearchVisibleCandidates::Nothing => {
                proof {
                    let code = choose|code: u32|
                        has_trigram(needle, code) && !#[trigger] index.postings@.dom().contains(
                            code,
                        );
                    self.lemma_candidates(*index, needle, code);
                    assert forall|row: int| 0 <= row < n implies !#[trigger] test(row) by {
                        if test(row) {
                            assert(self.row_holds(needle, row));
                        }
                    }
                    lemma_rows_where(Seq::empty(), n, test);
                    assert(before + Seq::<usize>::empty() =~= before);
                }
            },
            DiffSearchVisibleCandidates::All => {
                self.collect_inline_patch_diff_visible_matches_with_needle(query, matches);
            },
            DiffSearchVisibleCandidates::Indexed(candidates) => {
                let ghost code = choose|code: u32| #[trigger]
                    index.is_shortest(needle, code) && candidates@ == posting(
                        index.postings@,
                        code,
                    );
                proof {
                    self.lemma_candidates(*index, needle, code);
                }
                let ghost mut found: Seq<usize> = Seq::empty();
                let mut i: usize = 0;
                assert(before + found =~= before);
                while i < candidates.len()
                    invariant
                        self.wf(),
                        query.wf(),
                        needle == query.bytes@,
                        test == |row: int| self.row_holds(needle, row),
                        n == self.sources().len(),
                        0 <= i <= candidates@.len(),
                        increasing(candidates@),
                        forall|k: int| 0 <= k < candidates@.len() ==> (#[trigger] candidates@[k]) < n,
                        matches@ == before + found,
                        rows_grow(found),
                        forall|k: int|
                            0 <= k < found.len() ==> (#[trigger] found[k]) < n && test(
                                found[k] as int,
                            ),
                        forall|k: int|
                            0 <= k < found.len() && i < candidates@.len() ==> (#[trigger] found[k])
                                < candidates@[i as int],
                        forall|k: int|
                            0 <= k < i && test((#[trigger] candidates@[k]) as int) ==> found.contains(
                                candidates@[k] as usize,
                            ),
                    decreases candidates@.len() - i,
                {
                    let visible_ix = candidates[i] as usize;
                    let ghost sofar = found;
                    if self.inline_patch_diff_visible_ix_matches_query(query, visible_ix) {
                        matches.push(visible_ix);
                        proof {
                            found = found.push(visible_ix);
                            assert(matches@ =~= before + found);
                            assert(found[sofar.len() as int] == visible_ix);
                        }
                    }
                    proof {
                        assert forall|k: int|
                            0 <= k < i + 1 && test(
                                (#[trigger] candidates@[k]) as int,
                            ) implies found.contains(candidates@[k] as usize) by {
                            if k < i {
                                assert(sofar.contains(candidates@[k] as usize));
                                let j = choose|j: int|
                                    0 <= j < sofar.len() && sofar[j] == candidates@[k] as usize;
                                assert(found[j] == candidates@[k] as usize);
                            } else {
                                assert(self.row_holds(needle, visible_ix as int));
                            }
                        }
                        if i + 1 < candidates@.len() {
                            assert(candidates@[i as int] < candidates@[i + 1]);
                        }
                    }
                    i += 1;
                }
                proof {
                    assert forall|row: int| 0 <= row < n && #[trigger] test(
                        row,
                    ) implies found.contains(row as usize) by {
                        assert(self.row_holds(needle, row));
                        assert(candidates@.contains(row as u32));
                        let k = choose|k: int|
                            0 <= k < candidates@.len() && candidates@[k] == row as u32;
                        assert(test(candidates@[k] as int));
                    }
                    lemma_rows_where(found, n, test);
                }
            },
        }
    }

    /// Collects the rows in which a match starts, each once and in order.
    pub fn diff_search_scan_inline_patch_diff_general(
        &self,
        matcher: &DiffSearchMatcher,
        matches: &mut Vec<usize>,
    )
        requires
            self.wf(),
            matcher.wf(),
        ensures
            settled_rows(
                final(matches)@,
                old(matches)@ + numbers(
                    offsets_of(matcher@, self.texts(self.sources().len() as int)),
                ),
            ),
    {
        let total = self.len();
        let mut rows: Vec<(usize, String)> = Vec::new();
        let mut visible_ix: usize = 0;
        assert(owned_chars(rows@) =~= self.texts(0));
        while visible_ix < total
            invariant
                self.wf(),
                total == self.sources().len(),
                0 <= visible_ix <= total,
                owned_chars(rows@) == self.texts(visible_ix as int),
            decreases total - visible_ix,
        {
            let ghost before = rows@;
            if let Some(text) = self.row_text(visible_ix) {
                let ghost chars = text@;
                rows.push((visible_ix, text));
                assert(owned_chars(rows@) =~= owned_chars(before).push((visible_ix, chars)));
            }
            visible_ix += 1;
        }
        let refs = row_refs(&rows);
        collect_stream_match_visible_rows(refs.as_slice(), matcher, matches);
        sort_and_dedup(matches);
    }

    /// Keeps of the rows of a query those that hold a longer one.
    pub fn diff_search_try_refine_inline_patch_matches(
        &self,
        query: AsciiCaseInsensitiveNeedle<'a>,
        index: &DiffSearchVisibleTrigramIndex,
        previous_matches: &mut Vec<usize>,
    )
        requires
            self.wf(),
            query.wf(),
            self.sources().len() <= u32::MAX,
            index.indexes(self.index_input(self.sources().len() as int)),
            rows_grow(old(previous_matches)@),
        ensures
            final(previous_matches)@ == kept(
                old(previous_matches)@,
                |row: usize| self.row_holds(query.bytes@, row as int),
            ),
    {
        let ghost needle = query.bytes@;
        let ghost rows = previous_matches@;
        let candidates = index.candidates(query.as_bytes());
        let rows_test = InlinePatchTest { patch: *self, query };
        let ghost keep = |row: usize| rows_test.keeps(row);
        proof {
            match candidates {
                DiffSearchVisibleCandidates::Indexed(list) => {
                    let code = choose|code: u32| #[trigger]
                        index.is_shortest(needle, code) && list@ == posting(index.postings@, code);
                    self.lemma_candidates(*index, needle, code);
                    assert forall|k: int| 0 <= k < rows.len() && keep(
                        #[trigger] rows[k],
                    ) implies exists|c: int|
                        0 <= c < list@.len() && #[trigger] list@[c] == rows[k] by {
                        assert(self.row_holds(needle, rows[k] as int));
                        assert(list@.contains(rows[k] as u32));
                    }
                },
                DiffSearchVisibleCandidates::Nothing => {
                    let absent = choose|absent: u32|
                        has_trigram(needle, absent) && !#[trigger] index.postings@.dom().contains(
                            absent,
                        );
                    self.lemma_candidates(*index, needle, absent);
                    assert forall|k: int| 0 <= k < rows.len() implies !keep(#[trigger] rows[k]) by {
                        if keep(rows[k]) {
                            assert(self.row_holds(needle, rows[k] as int));
                        }
                    }
                },
                DiffSearchVisibleCandidates::All => {},
            }
        }
        retain_refined_visible_matches(previous_matches, candidates, &rows_test);
        proof {
            law_candidates_lose_no_row(rows, candidates, keep);
            lemma_same_test(rows, keep, |row: usize| self.row_holds(needle, row as int));
        }
    }
}

/// Whether a row of a patch holds a literal.
struct InlinePatchTest<'a> {
    patch: InlinePatchRows<'a>,
    query: AsciiCaseInsensitiveNeedle<'a>,
}

impl<'a> VisibleRowTest for InlinePatchTest<'a> {
    closed spec fn keeps(&self, row: usize) -> bool {
        self.patch.row_holds(self.query.bytes@, row as int)
    }

    closed spec fn ready(&self) -> bool {
        self.patch.wf() && self.query.wf()
    }

    fn visible_ix_matches_query(&self, row: usize) -> (answer: bool) {
        self.patch.inline_patch_diff_visible_ix_matches_query(self.query, row)
    }
}

proof fn lemma_listed_from(texts: Seq<(u32, Seq<u8>)>, code: u32, i: int)
    requires
        0 <= i < listed(texts, code).len(),
    ensures
        exists|k: int| 0 <= k < texts.len() && (#[trigger] texts[k]).0 == listed(texts, code)[i],
    decreases texts.len(),
{
    let shorter = texts.drop_last();
    let before = listed(shorter, code);
    if i < before.len() {
        lemma_listed_from(shorter, code, i);
        let k = choose|k: int| 0 <= k < shorter.len() && (#[trigger] shorter[k]).0 == before[i];
        assert(texts[k].0 == before[i]);
    } else {
        assert(texts[texts.len() - 1].0 == listed(texts, code)[i]);
    }
}

} // verus!
