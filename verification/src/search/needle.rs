//! A literal that is looked for in rows, letters of ASCII in either case.
use crate::diff::hunk_header::chars_of;
use crate::outside::string_push;
use crate::search::bytes::folded;
use crate::search::bytes::holds;
use crate::search::bytes::matches_at;
use crate::search::bytes::next_candidate;
use crate::search::bytes::same_folded;
use crate::search::bytes::stands_folded;
use crate::search::bytes::to_lower;
use crate::search::collect::side_chars;
use crate::search::matcher::lemma_empty_text;
use crate::search::matcher::normalize_diff_search_query;
use crate::search::matcher::normalized;
use crate::utf::lemma_text_is_valid;
use vstd::prelude::*;
use vstd::string::*;
use vstd::utf8::encode_utf8;
use vstd::utf8::valid_utf8;

verus! {

/// Queries of at least this many bytes use an index.
pub const DIFF_SEARCH_TRIGRAM_MIN_QUERY_BYTES: usize = 3;

/// A literal of at least one character.
#[derive(Clone, Copy)]
pub struct AsciiCaseInsensitiveNeedle<'a> {
    pub bytes: &'a [u8],
}

impl<'a> AsciiCaseInsensitiveNeedle<'a> {
    pub open spec fn wf(&self) -> bool {
        self.bytes@.len() > 0 && valid_utf8(self.bytes@)
    }

    pub fn new(needle: &'a str) -> (made: Option<Self>)
        ensures
            match made {
                Some(made) => made.wf() && made.bytes@ == needle.spec_bytes() && needle@.len() > 0,
                None => needle@.len() == 0,
            },
    {
        proof {
            lemma_empty_text(needle@);
            lemma_text_is_valid(needle);
        }
        let bytes = needle.as_bytes();
        if bytes.len() == 0 {
            None
        } else {
            Some(AsciiCaseInsensitiveNeedle { bytes })
        }
    }

    pub fn as_bytes(self) -> (bytes: &'a [u8])
        ensures
            bytes@ == self.bytes@,
    {
        self.bytes
    }

    /// Whether a text holds the literal.
    pub fn is_match(self, haystack: &str) -> (answer: bool)
        requires
            self.wf(),
        ensures
            answer == holds(haystack.spec_bytes(), self.bytes@, false),
    {
        let text = haystack.as_bytes();
        let text_len = text.len();
        let needle_len = self.bytes.len();
        if needle_len > text_len {
            return false;
        }
        let behind = text_len - needle_len + 1;
        let mut from: usize = 0;
        while from < behind
            invariant
                self.wf(),
                text@ == haystack.spec_bytes(),
                text_len == text@.len(),
                needle_len == self.bytes@.len(),
                behind == text_len - needle_len + 1,
                0 <= from <= behind,
                forall|i: int| i < from ==> !#[trigger] matches_at(text@, self.bytes@, false, i),
            decreases behind - from,
        {
            match next_candidate(text, self.bytes[0], false, from, behind) {
                Some(at) => {
                    assert forall|i: int| i < at implies !#[trigger] matches_at(
                        text@,
                        self.bytes@,
                        false,
                        i,
                    ) by {
                        if from <= i && matches_at(text@, self.bytes@, false, i) {
                            assert(folded(text@[i + 0], false) == folded(self.bytes@[0], false));
                        }
                    }
                    if stands_folded(text, self.bytes, false, at) {
                        return true;
                    }
                    from = at + 1;
                },
                None => {
                    assert forall|i: int| !#[trigger] matches_at(text@, self.bytes@, false, i) by {
                        if from <= i && matches_at(text@, self.bytes@, false, i) {
                            assert(folded(text@[i + 0], false) == folded(self.bytes@[0], false));
                        }
                    }
                    return false;
                },
            }
        }
        false
    }
}

pub fn contains_ascii_case_insensitive(haystack: &str, needle: &str) -> (answer: bool)
    ensures
        answer == holds(haystack.spec_bytes(), needle.spec_bytes(), false),
{
    match AsciiCaseInsensitiveNeedle::new(needle) {
        Some(needle) => needle.is_match(haystack),
        None => {
            proof {
                lemma_empty_text(needle@);
                assert(matches_at(haystack.spec_bytes(), needle.spec_bytes(), false, 0));
            }
            true
        },
    }
}

pub fn diff_search_inline_patch_query_uses_trigram_index(
    query: AsciiCaseInsensitiveNeedle<'_>,
) -> (uses: bool)
    ensures
        uses == (query.bytes@.len() >= DIFF_SEARCH_TRIGRAM_MIN_QUERY_BYTES),
{
    query.as_bytes().len() >= DIFF_SEARCH_TRIGRAM_MIN_QUERY_BYTES
}

/// A text as it is shown: four spaces for each tab.
pub open spec fn displayed(text: Seq<char>) -> Seq<char>
    decreases text.len(),
{
    if text.len() == 0 {
        Seq::empty()
    } else {
        displayed(text.drop_last()) + (if text.last() == '\t' {
            "    "@
        } else {
            seq![text.last()]
        })
    }
}

pub proof fn lemma_displayed_without_tabs(text: Seq<char>)
    requires
        !text.contains('\t'),
    ensures
        displayed(text) == text,
    decreases text.len(),
{
    if text.len() > 0 {
        let shorter = text.drop_last();
        assert forall|i: int| 0 <= i < shorter.len() implies shorter[i] != '\t' by {
            assert(shorter[i] == text[i]);
        }
        assert(text[text.len() - 1] != '\t');
        lemma_displayed_without_tabs(shorter);
        assert(text =~= shorter + seq![text.last()]);
    } else {
        assert(text =~= Seq::empty());
    }
}

/// Whether a text has a tab.
pub fn has_tab(text: &str) -> (answer: bool)
    ensures
        answer == text@.contains('\t'),
{
    let chars = chars_of(text);
    let mut i: usize = 0;
    while i < chars.len()
        invariant
            0 <= i <= chars@.len(),
            chars@ == text@,
            forall|k: int| 0 <= k < i ==> #[trigger] chars@[k] != '\t',
        decreases chars@.len() - i,
    {
        if chars[i] == '\t' {
            assert(text@[i as int] == '\t');
            return true;
        }
        i += 1;
    }
    false
}

fn push_displayed(out: &mut String, text: &str)
    ensures
        final(out)@ == old(out)@ + displayed(text@),
{
    let chars = chars_of(text);
    let ghost before = out@;
    let mut i: usize = 0;
    assert(chars@.take(0) =~= Seq::<char>::empty());
    assert(before + Seq::<char>::empty() =~= before);
    while i < chars.len()
        invariant
            0 <= i <= chars@.len(),
            chars@ == text@,
            out@ == before + displayed(chars@.take(i as int)),
        decreases chars@.len() - i,
    {
        proof {
            let next = chars@.take(i + 1);
            assert(next.drop_last() =~= chars@.take(i as int));
            assert(next.last() == chars@[i as int]);
        }
        let ghost sofar = displayed(chars@.take(i as int));
        if chars[i] == '\t' {
            out.append("    ");
            assert(out@ =~= before + (sofar + "    "@));
        } else {
            string_push(out, chars[i]);
            assert(out@ =~= before + (sofar + seq![chars@[i as int]]));
        }
        i += 1;
    }
    assert(chars@.take(chars@.len() as int) =~= chars@);
}

/// A text with four spaces for each tab.
pub fn expand_tabs_to_string(text: &str) -> (expanded: String)
    ensures
        expanded@ == displayed(text@),
{
    if !has_tab(text) {
        proof {
            lemma_displayed_without_tabs(text@);
        }
        return text.to_owned();
    }
    let mut expanded = String::new();
    push_displayed(&mut expanded, text);
    assert(Seq::<char>::empty() + displayed(text@) =~= displayed(text@));
    expanded
}

/// Whether a text as it is shown holds a literal. The buffer holds what was
/// shown last of a text with tabs.
pub fn diff_search_displayed_text_matches_query(
    query: AsciiCaseInsensitiveNeedle<'_>,
    text: &str,
    expanded_tabs: &mut String,
) -> (answer: bool)
    requires
        query.wf(),
    ensures
        answer == holds(encode_utf8(displayed(text@)), query.bytes@, false),
        final(expanded_tabs)@ == (if text@.contains('\t') {
            displayed(text@)
        } else {
            old(expanded_tabs)@
        }),
{
    if !has_tab(text) {
        proof {
            lemma_displayed_without_tabs(text@);
        }
        return query.is_match(text);
    }
    *expanded_tabs = expand_tabs_to_string(text);
    query.is_match(expanded_tabs.as_str())
}

/// What a buffer holds after a text was looked at: the text as it is shown, where it
/// has tabs.
pub open spec fn buffered(text: Option<Seq<char>>, before: Seq<char>) -> Seq<char> {
    match text {
        Some(text) => if text.contains('\t') {
            displayed(text)
        } else {
            before
        },
        None => before,
    }
}

/// The same of two texts, the second of which is looked at only where the first
/// does not hold the literal.
pub open spec fn both_buffered(
    left: Option<Seq<char>>,
    right: Option<Seq<char>>,
    needle: Seq<u8>,
    before: Seq<char>,
) -> Seq<char> {
    if left matches Some(text) && holds(encode_utf8(displayed(text)), needle, false) {
        buffered(left, before)
    } else {
        buffered(right, buffered(left, before))
    }
}

pub open spec fn shows(text: Option<&str>, needle: Seq<u8>) -> bool {
    text matches Some(text) && holds(encode_utf8(displayed(text@)), needle, false)
}

/// Whether one of the two texts of a row holds a literal.
pub fn diff_search_split_row_texts_match_query(
    query: AsciiCaseInsensitiveNeedle<'_>,
    left: Option<&str>,
    right: Option<&str>,
    expanded_tabs: &mut String,
) -> (answer: bool)
    requires
        query.wf(),
    ensures
        answer == (shows(left, query.bytes@) || shows(right, query.bytes@)),
        final(expanded_tabs)@ == both_buffered(
            side_chars(left),
            side_chars(right),
            query.bytes@,
            old(expanded_tabs)@,
        ),
{
    if let Some(text) = left {
        if diff_search_displayed_text_matches_query(query, text, expanded_tabs) {
            return true;
        }
    }
    match right {
        Some(text) => diff_search_displayed_text_matches_query(query, text, expanded_tabs),
        None => false,
    }
}

/// How the matches of one query serve another one.
#[derive(Clone, Copy, Debug, PartialEq, Eq, Structural)]
pub enum DiffSearchQueryReuse {
    /// Not at all.
    Nothing,
    /// They are its matches.
    SameSemantics,
    /// Its matches are among them.
    Refinement,
}

/// A query starts with another one.
pub open spec fn extends(longer: Seq<u8>, shorter: Seq<u8>) -> bool {
    shorter.len() <= longer.len() && same_folded(
        longer.take(shorter.len() as int),
        shorter,
        false,
    )
}

pub open spec fn query_reuse(previous: Seq<char>, next: Seq<char>) -> DiffSearchQueryReuse {
    let a = encode_utf8(normalized(previous));
    let b = encode_utf8(normalized(next));
    if same_folded(b, a, false) {
        DiffSearchQueryReuse::SameSemantics
    } else if a.len() > 0 && b.len() > a.len() && extends(b, a) {
        DiffSearchQueryReuse::Refinement
    } else {
        DiffSearchQueryReuse::Nothing
    }
}

fn starts_folded(longer: &[u8], shorter: &[u8]) -> (answer: bool)
    ensures
        answer == extends(longer@, shorter@),
{
    if shorter.len() > longer.len() {
        return false;
    }
    let ghost head = longer@.take(shorter@.len() as int);
    let mut k: usize = 0;
    while k < shorter.len()
        invariant
            0 <= k <= shorter@.len(),
            shorter@.len() <= longer@.len(),
            head == longer@.take(shorter@.len() as int),
            forall|j: int|
                0 <= j < k ==> folded(#[trigger] head[j], false) == folded(shorter@[j], false),
        decreases shorter@.len() - k,
    {
        assert(head[k as int] == longer@[k as int]);
        if to_lower(longer[k]) != to_lower(shorter[k]) {
            assert(folded(head[k as int], false) != folded(shorter@[k as int], false));
            return false;
        }
        k += 1;
    }
    true
}

/// How the matches of the previous query serve the next one.
pub fn diff_search_query_reuse(previous_query: &str, next_query: &str) -> (reuse:
    DiffSearchQueryReuse)
    ensures
        reuse == query_reuse(previous_query@, next_query@),
{
    let previous = normalize_diff_search_query(previous_query);
    let next = normalize_diff_search_query(next_query);
    let a = previous.as_str().as_bytes();
    let b = next.as_str().as_bytes();
    if a.len() <= b.len() && starts_folded(b, a) {
        if a.len() == b.len() {
            assert(b@.take(a@.len() as int) =~= b@);
            return DiffSearchQueryReuse::SameSemantics;
        }
        if a.len() > 0 {
            return DiffSearchQueryReuse::Refinement;
        }
        return DiffSearchQueryReuse::Nothing;
    }
    proof {
        if same_folded(b@, a@, false) {
            assert(b@.take(a@.len() as int) =~= b@);
        }
    }
    DiffSearchQueryReuse::Nothing
}

/// A text that holds a query holds every query that it extends: typing on
/// never brings back a row that has dropped out.
pub proof fn law_refined_query_matches_fewer(text: Seq<u8>, longer: Seq<u8>, shorter: Seq<u8>)
    requires
        extends(longer, shorter),
        holds(text, longer, false),
    ensures
        holds(text, shorter, false),
{
    let at = choose|at: int| #[trigger] matches_at(text, longer, false, at);
    let head = longer.take(shorter.len() as int);
    assert forall|k: int| 0 <= k < shorter.len() implies folded(
        #[trigger] text[at + k],
        false,
    ) == folded(shorter[k], false) by {
        assert(head[k] == longer[k]);
        assert(folded(head[k], false) == folded(shorter[k], false));
        assert(folded(text[at + k], false) == folded(longer[k], false));
    }
    assert(matches_at(text, shorter, false, at));
}

/// Queries that differ in the case of letters alone match the same texts.
pub proof fn law_same_query_matches_the_same(text: Seq<u8>, a: Seq<u8>, b: Seq<u8>)
    requires
        same_folded(b, a, false),
    ensures
        holds(text, a, false) == holds(text, b, false),
{
    assert(a.take(b.len() as int) =~= a);
    assert(b.take(a.len() as int) =~= b);
    assert(same_folded(a, b, false)) by {
        assert forall|k: int| 0 <= k < a.len() implies folded(#[trigger] a[k], false) == folded(
            b[k],
            false,
        ) by {
            assert(folded(b[k], false) == folded(a[k], false));
        }
    }
    if holds(text, a, false) {
        law_refined_query_matches_fewer(text, a, b);
    }
    if holds(text, b, false) {
        law_refined_query_matches_fewer(text, b, a);
    }
}

} // verus!
