//! An index of rows by the triples of bytes that they hold.
use crate::outside::fx_get;
use crate::outside::fx_insert;
use crate::outside::fx_remove;
use crate::outside::trigram_buffer;
use crate::outside::trigram_buffer_clear;
use crate::outside::trigram_buffer_dedup;
use crate::outside::trigram_buffer_push;
use crate::outside::trigram_buffer_slice;
use crate::outside::trigram_buffer_sort;
use crate::outside::trigrams_held;
use crate::outside::without_repeats;
use crate::outside::TrigramBuffer;
use crate::search::bytes::folded;
use crate::search::bytes::holds;
use crate::search::bytes::lower_byte;
use crate::search::bytes::matches_at;
use crate::search::bytes::to_lower;
use rustc_hash::FxHashMap;
use vstd::prelude::*;
use vstd::string::*;

verus! {

broadcast use vstd::std_specs::hash::group_hash_axioms;

/// The number of three bytes, letters of ASCII in either case.
pub open spec fn trigram_code(a: u8, b: u8, c: u8) -> int {
    lower_byte(a) * 65536 + lower_byte(b) * 256 + lower_byte(c)
}

pub fn encode_ascii_folded_byte_trigram(window: &[u8]) -> (code: u32)
    requires
        window@.len() == 3,
    ensures
        code == trigram_code(window@[0], window@[1], window@[2]),
{
    let a = to_lower(window[0]) as u32;
    let b = to_lower(window[1]) as u32;
    let c = to_lower(window[2]) as u32;
    assert((a << 16) | (b << 8) | c == a * 65536 + b * 256 + c) by (bit_vector)
        requires
            a < 256,
            b < 256,
            c < 256,
    ;
    (a << 16) | (b << 8) | c
}

pub open spec fn trigram_at(bytes: Seq<u8>, i: int) -> int {
    trigram_code(bytes[i], bytes[i + 1], bytes[i + 2])
}

/// Three bytes stand somewhere in a text.
pub open spec fn has_trigram(bytes: Seq<u8>, code: u32) -> bool {
    exists|i: int| 0 <= i && i + 2 < bytes.len() && #[trigger] trigram_at(bytes, i) == code
}

pub open spec fn increasing(codes: Seq<u32>) -> bool {
    forall|i: int, j: int| 0 <= i < j < codes.len() ==> #[trigger] codes[i] < #[trigger] codes[j]
}

proof fn lemma_without_repeats(codes: Seq<u32>)
    requires
        forall|i: int, j: int| 0 <= i <= j < codes.len() ==> codes[i] <= codes[j],
    ensures
        increasing(without_repeats(codes)),
        forall|code: u32| #[trigger] without_repeats(codes).contains(code) <==> codes.contains(code),
        codes.len() > 0 ==> without_repeats(codes).len() > 0 && without_repeats(codes).last()
            == codes.last(),
    decreases codes.len(),
{
    if codes.len() > 1 {
        let shorter = codes.drop_last();
        lemma_without_repeats(shorter);
        let before = without_repeats(shorter);
        let all = without_repeats(codes);
        assert(shorter.last() == codes[codes.len() - 2]);
        assert forall|code: u32| #[trigger] all.contains(code) <==> codes.contains(code) by {
            if codes.contains(code) {
                let i = choose|i: int| 0 <= i < codes.len() && codes[i] == code;
                if i < codes.len() - 1 {
                    assert(shorter[i] == code);
                    assert(shorter.contains(code));
                    assert(before.contains(code));
                    let k = choose|k: int| 0 <= k < before.len() && before[k] == code;
                    assert(all[k] == code);
                } else {
                    assert(all[all.len() - 1] == code);
                }
            }
            if all.contains(code) {
                let k = choose|k: int| 0 <= k < all.len() && all[k] == code;
                if k < before.len() {
                    assert(before[k] == code);
                    assert(before.contains(code));
                    let i = choose|i: int| 0 <= i < shorter.len() && shorter[i] == code;
                    assert(codes[i] == code);
                } else {
                    assert(codes[codes.len() - 1] == code);
                }
            }
        }
        assert forall|i: int, j: int| 0 <= i < j < all.len() implies #[trigger] all[i]
            < #[trigger] all[j] by {
            if j == before.len() && i < before.len() - 1 {
                assert(before[i] < before[before.len() - 1]);
            }
        }
    }
}

proof fn lemma_same_items(a: Seq<u32>, b: Seq<u32>, code: u32)
    requires
        a.to_multiset() == b.to_multiset(),
    ensures
        a.contains(code) == b.contains(code),
{
    broadcast use vstd::seq_lib::group_to_multiset_ensures;

    assert(a.contains(code) <==> a.to_multiset().count(code) > 0);
    assert(b.contains(code) <==> b.to_multiset().count(code) > 0);
}

/// Collects the triples of a text, each once and in order.
pub fn collect_unique_ascii_folded_byte_trigrams(bytes: &[u8], trigrams: &mut TrigramBuffer)
    ensures
        increasing(trigrams_held(*final(trigrams))),
        forall|code: u32|
            #[trigger] trigrams_held(*final(trigrams)).contains(code) <==> has_trigram(bytes@, code),
{
    trigram_buffer_clear(trigrams);
    let len = bytes.len();
    if len < 3 {
        return;
    }
    let mut i: usize = 0;
    while i < len - 2
        invariant
            len == bytes@.len(),
            len >= 3,
            0 <= i <= len - 2,
            trigrams_held(*trigrams).len() == i,
            forall|k: int|
                0 <= k < i ==> #[trigger] trigrams_held(*trigrams)[k] == trigram_at(bytes@, k),
        decreases len - i,
    {
        let window = vstd::slice::slice_subrange(bytes, i, i + 3);
        let code = encode_ascii_folded_byte_trigram(window);
        assert(code == trigram_at(bytes@, i as int));
        trigram_buffer_push(trigrams, code);
        i += 1;
    }
    let ghost found = trigrams_held(*trigrams);
    assert forall|code: u32| #[trigger] found.contains(code) <==> has_trigram(bytes@, code) by {
        if found.contains(code) {
            let k = choose|k: int| 0 <= k < found.len() && found[k] == code;
            assert(trigram_at(bytes@, k) == code);
        }
        if has_trigram(bytes@, code) {
            let k = choose|k: int|
                0 <= k && k + 2 < bytes@.len() && #[trigger] trigram_at(bytes@, k) == code;
            assert(found[k] == code);
        }
    }
    trigram_buffer_sort(trigrams);
    let ghost sorted = trigrams_held(*trigrams);
    trigram_buffer_dedup(trigrams);
    proof {
        lemma_without_repeats(sorted);
        assert forall|code: u32|
            #[trigger] trigrams_held(*trigrams).contains(code) <==> has_trigram(bytes@, code) by {
            lemma_same_items(found, sorted, code);
        }
    }
}

/// The rows that hold three bytes, in the order in which they were entered.
pub open spec fn listed(texts: Seq<(u32, Seq<u8>)>, code: u32) -> Seq<u32>
    decreases texts.len(),
{
    if texts.len() == 0 {
        Seq::empty()
    } else {
        let before = listed(texts.drop_last(), code);
        if has_trigram(texts.last().1, code) {
            before.push(texts.last().0)
        } else {
            before
        }
    }
}

pub open spec fn posting(postings: Map<u32, Vec<u32>>, code: u32) -> Seq<u32> {
    if postings.dom().contains(code) {
        postings[code]@
    } else {
        Seq::empty()
    }
}

spec fn as_before(now: Map<u32, Vec<u32>>, before: Map<u32, Vec<u32>>, code: u32) -> bool {
    &&& now.dom().contains(code) == before.dom().contains(code)
    &&& before.dom().contains(code) ==> now[code] == before[code]
}

/// For every triple of bytes, the rows that hold it.
pub struct DiffSearchVisibleTrigramIndex {
    pub postings: FxHashMap<u32, Vec<u32>>,
}

/// The rows in which a literal can be.
pub enum DiffSearchVisibleCandidates<'a> {
    All,
    Indexed(&'a [u32]),
    Nothing,
}

impl Default for DiffSearchVisibleTrigramIndex {
    fn default() -> (index: Self)
        ensures
            index.indexes(Seq::empty()),
    {
        DiffSearchVisibleTrigramIndex { postings: FxHashMap::default() }
    }
}

impl DiffSearchVisibleTrigramIndex {
    /// What was entered, rows with their texts.
    pub open spec fn indexes(&self, texts: Seq<(u32, Seq<u8>)>) -> bool {
        forall|code: u32|
            #![trigger self.postings@.dom().contains(code)]
            #![trigger listed(texts, code)]
            {
                &&& posting(self.postings@, code) == listed(texts, code)
                &&& self.postings@.dom().contains(code) <==> listed(texts, code).len() > 0
            }
    }

    /// Enters a row.
    pub fn insert_text(&mut self, visible_ix: u32, text: &str, trigrams: &mut TrigramBuffer)
        ensures
            forall|code: u32|
                #![trigger posting(final(self).postings@, code)]
                posting(final(self).postings@, code) == (if has_trigram(text.spec_bytes(), code) {
                    posting(old(self).postings@, code).push(visible_ix)
                } else {
                    posting(old(self).postings@, code)
                }),
            forall|code: u32|
                #[trigger] final(self).postings@.dom().contains(code) <==> old(
                    self,
                ).postings@.dom().contains(code) || has_trigram(text.spec_bytes(), code),
            forall|texts: Seq<(u32, Seq<u8>)>|
                #[trigger] old(self).indexes(texts) ==> final(self).indexes(
                    texts.push((visible_ix, text.spec_bytes())),
                ),
    {
        collect_unique_ascii_folded_byte_trigrams(text.as_bytes(), trigrams);
        let codes = trigram_buffer_slice(trigrams);
        let ghost before = self.postings@;
        let ghost bytes = text.spec_bytes();
        let mut i: usize = 0;
        while i < codes.len()
            invariant
                0 <= i <= codes@.len(),
                increasing(codes@),
                forall|code: u32| #[trigger] codes@.contains(code) <==> has_trigram(bytes, code),
                forall|k: int|
                    0 <= k < i ==> self.postings@.dom().contains(#[trigger] codes@[k])
                        && self.postings@[codes@[k]]@ == posting(before, codes@[k]).push(visible_ix),
                forall|code: u32|
                    !codes@.take(i as int).contains(code) ==> #[trigger] as_before(
                        self.postings@,
                        before,
                        code,
                    ),
            decreases codes@.len() - i,
        {
            let code = codes[i];
            let ghost current = self.postings@;
            proof {
                assert forall|k: int| 0 <= k < i implies codes@[k] != code by {}
                assert(!codes@.take(i as int).contains(code));
                assert(as_before(current, before, code));
            }
            let mut rows = match fx_remove(&mut self.postings, &code) {
                Some(rows) => rows,
                None => Vec::new(),
            };
            rows.push(visible_ix);
            fx_insert(&mut self.postings, code, rows);
            proof {
                let next = codes@.take(i + 1);
                assert(next =~= codes@.take(i as int).push(code));
                assert forall|other: u32| !next.contains(other) implies #[trigger] as_before(
                    self.postings@,
                    before,
                    other,
                ) by {
                    assert(next[i as int] == code);
                    assert(other != code);
                    if codes@.take(i as int).contains(other) {
                        let k = choose|k: int|
                            0 <= k < i && codes@.take(i as int)[k] == other;
                        assert(next[k] == other);
                    }
                    assert(as_before(current, before, other));
                }
            }
            i += 1;
        }
        proof {
            assert(codes@.take(codes@.len() as int) =~= codes@);
            assert forall|code: u32| true implies #[trigger] self.postings@.dom().contains(code) == (
            before.dom().contains(code) || has_trigram(bytes, code)) && posting(
                self.postings@,
                code,
            ) == (if has_trigram(bytes, code) {
                posting(before, code).push(visible_ix)
            } else {
                posting(before, code)
            }) by {
                if codes@.contains(code) {
                    let k = choose|k: int| 0 <= k < codes@.len() && codes@[k] == code;
                    assert(self.postings@.dom().contains(codes@[k]));
                } else {
                    assert(as_before(self.postings@, before, code));
                }
            }
            assert forall|texts: Seq<(u32, Seq<u8>)>| #[trigger] old(self).indexes(
                texts,
            ) implies self.indexes(texts.push((visible_ix, bytes))) by {
                let more = texts.push((visible_ix, bytes));
                assert(more.drop_last() =~= texts);
                assert forall|code: u32|
                    #![trigger self.postings@.dom().contains(code)]
                    #![trigger listed(more, code)]
                    {
                        &&& posting(self.postings@, code) == listed(more, code)
                        &&& self.postings@.dom().contains(code) <==> listed(more, code).len() > 0
                    } by {
                    assert(before.dom().contains(code) <==> listed(texts, code).len() > 0);
                    assert(self.postings@.dom().contains(code) == (before.dom().contains(code)
                        || has_trigram(bytes, code)));
                }
            }
        }
    }

    /// Nothing more is entered.
    pub fn finish(self) -> (index: Self)
        ensures
            index == self,
    {
        self
    }

    /// The shortest list among those of the triples of a literal, the first of
    /// them where several are shortest.
    pub open spec fn is_shortest(&self, needle: Seq<u8>, code: u32) -> bool {
        has_trigram(needle, code) && forall|other: u32|
            #[trigger] has_trigram(needle, other) && other != code ==> {
                let a = posting(self.postings@, code).len();
                let b = posting(self.postings@, other).len();
                a < b || (a == b && code < other)
            }
    }

    /// The rows that an index gives for a literal: all for one that is too short,
    /// none where three of its bytes stand in no row, else those of the three
    /// bytes that stand in the fewest rows.
    pub open spec fn gives(
        &self,
        needle: Seq<u8>,
        candidates: DiffSearchVisibleCandidates<'_>,
    ) -> bool {
        match candidates {
            DiffSearchVisibleCandidates::All => needle.len() < 3,
            DiffSearchVisibleCandidates::Nothing => needle.len() >= 3 && exists|code: u32|
                has_trigram(needle, code) && !#[trigger] self.postings@.dom().contains(code),
            DiffSearchVisibleCandidates::Indexed(rows) => needle.len() >= 3 && (forall|code: u32|
                #[trigger] has_trigram(needle, code) ==> self.postings@.dom().contains(code))
                && exists|code: u32| #[trigger]
                self.is_shortest(needle, code) && rows@ == posting(self.postings@, code),
        }
    }

    /// The rows in which a literal can be.
    pub fn candidates<'a>(&'a self, needle: &[u8]) -> (candidates: DiffSearchVisibleCandidates<'a>)
        ensures
            self.gives(needle@, candidates),
    {
        if needle.len() < 3 {
            return DiffSearchVisibleCandidates::All;
        }
        let mut trigrams = trigram_buffer();
        collect_unique_ascii_folded_byte_trigrams(needle, &mut trigrams);
        let codes = trigram_buffer_slice(&trigrams);
        proof {
            let a = needle@[0];
            let b = needle@[1];
            let c = needle@[2];
            let code = trigram_code(a, b, c) as u32;
            assert(trigram_at(needle@, 0) == code);
            assert(has_trigram(needle@, code));
            assert(codes@.contains(code));
        }
        let mut best: Option<&'a Vec<u32>> = None;
        let ghost mut best_code: u32 = 0;
        let mut i: usize = 0;
        while i < codes.len()
            invariant
                0 <= i <= codes@.len(),
                needle@.len() >= 3,
                increasing(codes@),
                forall|code: u32| #[trigger] codes@.contains(code) <==> has_trigram(needle@, code),
                i > 0 ==> best is Some,
                best matches Some(rows) ==> rows@ == posting(self.postings@, best_code),
                best is Some ==> codes@.take(i as int).contains(best_code),
                best is Some ==> forall|k: int|
                    0 <= k < i && codes@[k] != best_code ==> {
                        let a = posting(self.postings@, best_code).len();
                        let b = posting(self.postings@, #[trigger] codes@[k]).len();
                        a < b || (a == b && best_code < codes@[k])
                    },
                forall|k: int| 0 <= k < i ==> self.postings@.dom().contains(#[trigger] codes@[k]),
            decreases codes@.len() - i,
        {
            let code = codes[i];
            assert(codes@.contains(code));
            match fx_get(&self.postings, &code) {
                None => {
                    assert(!self.postings@.dom().contains(code));
                    return DiffSearchVisibleCandidates::Nothing;
                },
                Some(rows) => {
                    let shorter = match best {
                        Some(current) => rows.len() < current.len(),
                        None => true,
                    };
                    proof {
                        let next = codes@.take(i + 1);
                        assert(next[i as int] == code);
                        if best is Some {
                            let k = choose|k: int|
                                0 <= k < i && codes@.take(i as int)[k] == best_code;
                            assert(codes@[k] < codes@[i as int]);
                            assert(next[k] == best_code);
                        }
                    }
                    if shorter {
                        best = Some(rows);
                        proof {
                            best_code = code;
                        }
                    }
                    i += 1;
                },
            }
        }
        assert(codes@.take(codes@.len() as int) =~= codes@);
        match best {
            Some(rows) => {
                proof {
                    assert forall|other: u32| #[trigger] has_trigram(needle@, other) implies
                        self.postings@.dom().contains(other) && (other != best_code ==> {
                        let a = posting(self.postings@, best_code).len();
                        let b = posting(self.postings@, other).len();
                        a < b || (a == b && best_code < other)
                    }) by {
                        assert(codes@.contains(other));
                        let k = choose|k: int| 0 <= k < codes@.len() && codes@[k] == other;
                        assert(codes@[k] == other);
                    }
                    assert(self.is_shortest(needle@, best_code));
                }
                DiffSearchVisibleCandidates::Indexed(rows.as_slice())
            },
            None => DiffSearchVisibleCandidates::All,
        }
    }
}

/// A text that holds a literal holds every triple of it.
pub proof fn lemma_match_holds_trigrams(text: Seq<u8>, needle: Seq<u8>, code: u32)
    requires
        holds(text, needle, false),
        has_trigram(needle, code),
    ensures
        has_trigram(text, code),
{
    let at = choose|at: int| #[trigger] matches_at(text, needle, false, at);
    let i = choose|i: int|
        0 <= i && i + 2 < needle.len() && #[trigger] trigram_at(needle, i) == code;
    assert(folded(text[at + i], false) == folded(needle[i], false));
    assert(folded(text[at + (i + 1)], false) == folded(needle[i + 1], false));
    assert(folded(text[at + (i + 2)], false) == folded(needle[i + 2], false));
    assert(trigram_at(text, at + i) == code);
}

proof fn lemma_listed_holds(texts: Seq<(u32, Seq<u8>)>, code: u32, k: int)
    requires
        0 <= k < texts.len(),
        has_trigram(texts[k].1, code),
    ensures
        listed(texts, code).contains(texts[k].0),
    decreases texts.len(),
{
    let shorter = texts.drop_last();
    let before = listed(shorter, code);
    let all = listed(texts, code);
    if k == texts.len() - 1 {
        assert(all[all.len() - 1] == texts[k].0);
    } else {
        lemma_listed_holds(shorter, code, k);
        let i = choose|i: int| 0 <= i < before.len() && before[i] == texts[k].0;
        assert(all[i] == texts[k].0);
    }
}

proof fn lemma_listed_increasing(texts: Seq<(u32, Seq<u8>)>, code: u32)
    requires
        forall|i: int, j: int|
            0 <= i < j < texts.len() ==> #[trigger] texts[i].0 < #[trigger] texts[j].0,
    ensures
        increasing(listed(texts, code)),
        forall|i: int|
            0 <= i < listed(texts, code).len() ==> texts.len() > 0 && #[trigger] listed(
                texts,
                code,
            )[i] <= texts.last().0,
    decreases texts.len(),
{
    if texts.len() > 0 {
        let shorter = texts.drop_last();
        lemma_listed_increasing(shorter, code);
        let before = listed(shorter, code);
        if before.len() > 0 {
            assert(shorter.len() > 0) by {
                assert(before[0] <= shorter.last().0);
            }
            assert(texts[texts.len() - 2].0 < texts[texts.len() - 1].0);
        }
    }
}

/// The candidates hold every row that holds the literal, and they are in order
/// where the rows were entered in order.
pub proof fn law_candidates_hold_every_match(
    index: DiffSearchVisibleTrigramIndex,
    texts: Seq<(u32, Seq<u8>)>,
    needle: Seq<u8>,
    code: u32,
)
    requires
        index.indexes(texts),
        has_trigram(needle, code),
    ensures
        forall|k: int|
            0 <= k < texts.len() && holds((#[trigger] texts[k]).1, needle, false)
                ==> index.postings@.dom().contains(code) && posting(
                index.postings@,
                code,
            ).contains(texts[k].0),
        (forall|i: int, j: int|
            0 <= i < j < texts.len() ==> #[trigger] texts[i].0 < #[trigger] texts[j].0)
            ==> increasing(posting(index.postings@, code)),
{
    assert forall|k: int| 0 <= k < texts.len() && holds(
        (#[trigger] texts[k]).1,
        needle,
        false,
    ) implies index.postings@.dom().contains(code) && posting(index.postings@, code).contains(
        texts[k].0,
    ) by {
        lemma_match_holds_trigrams(texts[k].1, needle, code);
        lemma_listed_holds(texts, code, k);
        assert(posting(index.postings@, code) == listed(texts, code));
    }
    assert(posting(index.postings@, code) == listed(texts, code));
    if forall|i: int, j: int|
        0 <= i < j < texts.len() ==> #[trigger] texts[i].0 < #[trigger] texts[j].0 {
        lemma_listed_increasing(texts, code);
    }
}

/// The rows of a list that a test keeps, in order.
pub open spec fn kept(rows: Seq<usize>, keep: spec_fn(usize) -> bool) -> Seq<usize>
    decreases rows.len(),
{
    if rows.len() == 0 {
        Seq::empty()
    } else {
        let before = kept(rows.drop_last(), keep);
        if keep(rows.last()) {
            before.push(rows.last())
        } else {
            before
        }
    }
}

proof fn lemma_kept_tail(rows: Seq<usize>, keep: spec_fn(usize) -> bool, n: int)
    requires
        0 <= n <= rows.len(),
        forall|k: int| n <= k < rows.len() ==> !keep(#[trigger] rows[k]),
    ensures
        kept(rows, keep) == kept(rows.take(n), keep),
    decreases rows.len(),
{
    if n == rows.len() {
        assert(rows.take(n) =~= rows);
    } else {
        let shorter = rows.drop_last();
        assert forall|k: int| n <= k < shorter.len() implies !keep(#[trigger] shorter[k]) by {
            assert(shorter[k] == rows[k]);
        }
        assert(rows[rows.len() - 1] == rows.last());
        lemma_kept_tail(shorter, keep, n);
        assert(shorter.take(n) =~= rows.take(n));
    }
}

/// What is said of the rows that stay: those that the test keeps, and of them,
/// where fewer candidates than rows are given, those among the candidates.
pub open spec fn stays(
    rows: Seq<usize>,
    candidates: DiffSearchVisibleCandidates<'_>,
    keep: spec_fn(usize) -> bool,
    row: usize,
) -> bool {
    match candidates {
        DiffSearchVisibleCandidates::All => keep(row),
        DiffSearchVisibleCandidates::Nothing => false,
        DiffSearchVisibleCandidates::Indexed(list) => keep(row) && (list@.len() < rows.len()
            ==> exists|k: int| 0 <= k < list@.len() && #[trigger] list@[k] == row),
    }
}

/// Whether a row matches a query.
pub trait VisibleRowTest {
    spec fn keeps(&self, row: usize) -> bool;

    spec fn ready(&self) -> bool;

    fn visible_ix_matches_query(&self, row: usize) -> (answer: bool)
        requires
            self.ready(),
        ensures
            answer == self.keeps(row),
    ;
}

fn retain_rows<T: VisibleRowTest>(matches: &mut Vec<usize>, rows_test: &T)
    requires
        rows_test.ready(),
    ensures
        final(matches)@ == kept(old(matches)@, |row: usize| rows_test.keeps(row)),
{
    let ghost keep = |row: usize| rows_test.keeps(row);
    let ghost rows = matches@;
    let mut left: Vec<usize> = Vec::new();
    let mut i: usize = 0;
    while i < matches.len()
        invariant
            0 <= i <= matches@.len(),
            matches@ == rows,
            rows_test.ready(),
            keep == |row: usize| rows_test.keeps(row),
            left@ == kept(rows.take(i as int), keep),
        decreases matches@.len() - i,
    {
        proof {
            let next = rows.take(i + 1);
            assert(next.drop_last() =~= rows.take(i as int));
            assert(next.last() == rows[i as int]);
        }
        let row = matches[i];
        if rows_test.visible_ix_matches_query(row) {
            left.push(row);
        }
        i += 1;
    }
    assert(rows.take(rows.len() as int) =~= rows);
    *matches = left;
}

/// Keeps of the rows of a query those that match a longer one.
pub fn retain_refined_visible_matches<T: VisibleRowTest>(
    matches: &mut Vec<usize>,
    candidates: DiffSearchVisibleCandidates<'_>,
    rows_test: &T,
)
    requires
        rows_test.ready(),
        candidates matches DiffSearchVisibleCandidates::Indexed(list) ==> increasing(list@)
            && forall|i: int, j: int|
            0 <= i < j < old(matches)@.len() ==> #[trigger] old(matches)@[i] < #[trigger] old(
                matches,
            )@[j],
    ensures
        final(matches)@ == kept(
            old(matches)@,
            |row: usize|
                stays(old(matches)@, candidates, |r: usize| rows_test.keeps(r), row),
        ),
{
    let ghost rows = matches@;
    let ghost keep = |r: usize| rows_test.keeps(r);
    let ghost test = |row: usize| stays(rows, candidates, keep, row);
    match candidates {
        DiffSearchVisibleCandidates::Nothing => {
            proof {
                lemma_kept_tail(rows, test, 0);
                assert(rows.take(0) =~= Seq::<usize>::empty());
            }
            matches.clear();
        },
        DiffSearchVisibleCandidates::All => {
            retain_rows(matches, rows_test);
            proof {
                lemma_same_test(rows, keep, test);
            }
        },
        DiffSearchVisibleCandidates::Indexed(list) => {
            if list.len() >= matches.len() {
                retain_rows(matches, rows_test);
                proof {
                    lemma_same_test(rows, keep, test);
                }
                return;
            }
            let mut left: Vec<usize> = Vec::new();
            let mut read: usize = 0;
            let mut candidate: usize = 0;
            while read < matches.len() && candidate < list.len()
                invariant
                    0 <= read <= matches@.len(),
                    0 <= candidate <= list@.len(),
                    matches@ == rows,
                    list@.len() < rows.len(),
                    candidates == DiffSearchVisibleCandidates::Indexed(list),
                    keep == |r: usize| rows_test.keeps(r),
                    test == |row: usize| stays(rows, candidates, keep, row),
                    rows_test.ready(),
                    increasing(list@),
                    forall|i: int, j: int|
                        0 <= i < j < rows.len() ==> #[trigger] rows[i] < #[trigger] rows[j],
                    left@ == kept(rows.take(read as int), test),
                    forall|c: int, r: int|
                        0 <= c < candidate && read <= r < rows.len() ==> #[trigger] list@[c]
                            < #[trigger] rows[r],
                decreases matches@.len() - read + (list@.len() - candidate),
            {
                let visible_ix = matches[read];
                let candidate_visible_ix = list[candidate] as usize;
                proof {
                    let next = rows.take(read + 1);
                    assert(next.drop_last() =~= rows.take(read as int));
                    assert(next.last() == visible_ix);
                }
                if visible_ix < candidate_visible_ix {
                    proof {
                        if test(visible_ix) {
                            let k = choose|k: int|
                                0 <= k < list@.len() && #[trigger] list@[k] == visible_ix;
                            if k < candidate {
                                assert(list@[k] < rows[read as int]);
                            } else if k > candidate {
                                assert(list@[candidate as int] < list@[k]);
                            }
                        }
                    }
                    read += 1;
                } else if visible_ix > candidate_visible_ix {
                    proof {
                        assert forall|c: int, r: int|
                            0 <= c < candidate + 1 && read <= r < rows.len() implies #[trigger] list@[c]
                            < #[trigger] rows[r] by {
                            if r > read {
                                assert(rows[read as int] < rows[r]);
                            }
                        }
                    }
                    candidate += 1;
                } else {
                    assert(list@[candidate as int] == visible_ix);
                    if rows_test.visible_ix_matches_query(visible_ix) {
                        left.push(visible_ix);
                    }
                    proof {
                        assert forall|c: int, r: int|
                            0 <= c < candidate + 1 && read + 1 <= r < rows.len() implies #[trigger] list@[c]
                            < #[trigger] rows[r] by {
                            assert(rows[read as int] < rows[r]);
                        }
                    }
                    read += 1;
                    candidate += 1;
                }
            }
            proof {
                assert forall|k: int| read <= k < rows.len() implies !test(#[trigger] rows[k]) by {
                    if test(rows[k]) {
                        let c = choose|c: int|
                            0 <= c < list@.len() && #[trigger] list@[c] == rows[k];
                        assert(list@[c] < rows[k]);
                    }
                }
                lemma_kept_tail(rows, test, read as int);
            }
            *matches = left;
        },
    }
}

pub proof fn lemma_same_test(rows: Seq<usize>, a: spec_fn(usize) -> bool, b: spec_fn(usize) -> bool)
    requires
        forall|k: int| 0 <= k < rows.len() ==> a(#[trigger] rows[k]) == b(rows[k]),
    ensures
        kept(rows, a) == kept(rows, b),
    decreases rows.len(),
{
    if rows.len() > 0 {
        let shorter = rows.drop_last();
        assert forall|k: int| 0 <= k < shorter.len() implies a(#[trigger] shorter[k]) == b(
            shorter[k],
        ) by {
            assert(shorter[k] == rows[k]);
        }
        assert(rows[rows.len() - 1] == rows.last());
        lemma_same_test(shorter, a, b);
    }
}

/// Narrowing a query down by the candidates of an index gives what a look at
/// every row gives.
pub proof fn law_candidates_lose_no_row(
    rows: Seq<usize>,
    candidates: DiffSearchVisibleCandidates<'_>,
    keep: spec_fn(usize) -> bool,
)
    requires
        candidates matches DiffSearchVisibleCandidates::Indexed(list) ==> forall|k: int|
            0 <= k < rows.len() && keep(#[trigger] rows[k]) ==> exists|c: int|
                0 <= c < list@.len() && #[trigger] list@[c] == rows[k],
        candidates is Nothing ==> forall|k: int| 0 <= k < rows.len() ==> !keep(#[trigger] rows[k]),
    ensures
        kept(rows, |row: usize| stays(rows, candidates, keep, row)) == kept(rows, keep),
{
    let test = |row: usize| stays(rows, candidates, keep, row);
    assert forall|k: int| 0 <= k < rows.len() implies test(#[trigger] rows[k]) == keep(
        rows[k],
    ) by {}
    lemma_same_test(rows, test, keep);
}

} // verus!
