//! What is searched for.
use crate::diff::hunk_header::chars_of;
use crate::num::min;
use crate::num::min_usize;
use crate::outside::compile_regex;
use crate::outside::regex_find_at;
use crate::outside::regex_found;
use crate::outside::string_push;
use crate::outside::CompiledRegex;
use crate::search::bytes::find_literal;
use crate::search::bytes::first_occurrence;
use crate::search::bytes::is_alone;
use crate::search::bytes::lemma_first_occurrence;
use crate::search::bytes::lemma_match_cuts_no_char;
use crate::search::bytes::next_boundary;
use crate::search::bytes::next_char_boundary_after;
use crate::search::bytes::stands_alone;
use std::ops::Range;
use vstd::prelude::*;
use vstd::string::*;
use vstd::utf8::encode_utf8;
use vstd::utf8::is_char_boundary;

verus! {

#[derive(Clone, Copy, Debug, PartialEq, Eq, Hash, Structural)]
pub struct DiffSearchOptions {
    pub match_case: bool,
    pub whole_word: bool,
    pub regex: bool,
}

impl Default for DiffSearchOptions {
    fn default() -> (options: Self)
        ensures
            !options.match_case,
            !options.whole_word,
            !options.regex,
    {
        DiffSearchOptions { match_case: false, whole_word: false, regex: false }
    }
}

/// A query with every kind of line ending as a newline.
pub open spec fn normalized(query: Seq<char>) -> Seq<char>
    decreases query.len(),
{
    if query.len() == 0 {
        Seq::empty()
    } else if query[0] == '\r' {
        if query.len() > 1 && query[1] == '\n' {
            seq!['\n'] + normalized(query.skip(2))
        } else {
            seq!['\n'] + normalized(query.skip(1))
        }
    } else {
        seq![query[0]] + normalized(query.skip(1))
    }
}

/// A query holds no carriage return once its line endings are newlines, and is
/// then left as it is.
pub proof fn law_normalized_query_is_stable(query: Seq<char>)
    ensures
        !normalized(query).contains('\r'),
        normalized(normalized(query)) == normalized(query),
    decreases query.len(),
{
    lemma_normalized_has_no_return(query);
    lemma_clean_is_normal(normalized(query));
}

proof fn lemma_normalized_has_no_return(query: Seq<char>)
    ensures
        !normalized(query).contains('\r'),
    decreases query.len(),
{
    if query.len() > 0 {
        let (head, rest) = if query[0] == '\r' {
            if query.len() > 1 && query[1] == '\n' {
                ('\n', query.skip(2))
            } else {
                ('\n', query.skip(1))
            }
        } else {
            (query[0], query.skip(1))
        };
        lemma_normalized_has_no_return(rest);
        let all = seq![head] + normalized(rest);
        assert(normalized(query) == all);
        assert forall|i: int| 0 <= i < all.len() implies all[i] != '\r' by {
            if i > 0 {
                assert(all[i] == normalized(rest)[i - 1]);
            }
        }
    }
}

pub proof fn lemma_clean_is_normal(query: Seq<char>)
    requires
        !query.contains('\r'),
    ensures
        normalized(query) == query,
    decreases query.len(),
{
    if query.len() > 0 {
        assert(query[0] != '\r');
        let rest = query.skip(1);
        assert forall|i: int| 0 <= i < rest.len() implies rest[i] != '\r' by {
            assert(rest[i] == query[i + 1]);
        }
        lemma_clean_is_normal(rest);
        assert(query =~= seq![query[0]] + rest);
    } else {
        assert(query =~= Seq::empty());
    }
}

/// A query with every kind of line ending as a newline.
pub fn normalize_diff_search_query(query: &str) -> (clean: String)
    ensures
        clean@ == normalized(query@),
{
    let chars = chars_of(query);
    let mut clean = String::new();
    let mut i: usize = 0;
    assert(chars@.skip(0) =~= chars@);
    while i < chars.len()
        invariant
            0 <= i <= chars@.len(),
            chars@ == query@,
            clean@ + normalized(chars@.skip(i as int)) == normalized(query@),
        decreases chars@.len() - i,
    {
        let ghost rest = chars@.skip(i as int);
        let ghost before = clean@;
        proof {
            assert(rest.skip(1) =~= chars@.skip(i + 1));
            if rest.len() > 1 {
                assert(rest.skip(2) =~= chars@.skip(i + 2));
            }
        }
        if chars[i] == '\r' {
            string_push(&mut clean, '\n');
            if chars.len() - i > 1 && chars[i + 1] == '\n' {
                assert(clean@ + normalized(rest.skip(2)) =~= before + (seq!['\n'] + normalized(
                    rest.skip(2),
                )));
                i += 2;
            } else {
                assert(clean@ + normalized(rest.skip(1)) =~= before + (seq!['\n'] + normalized(
                    rest.skip(1),
                )));
                i += 1;
            }
        } else {
            string_push(&mut clean, chars[i]);
            assert(clean@ + normalized(rest.skip(1)) =~= before + (seq![rest[0]] + normalized(
                rest.skip(1),
            )));
            i += 1;
        }
    }
    assert(chars@.skip(chars@.len() as int) =~= Seq::<char>::empty());
    assert(clean@ + Seq::<char>::empty() =~= clean@);
    clean
}

/// What is searched for: a clean query, how it is compared, and whether it is a
/// pattern that could not be compiled.
pub struct Sought {
    pub query: Seq<char>,
    pub options: DiffSearchOptions,
    pub refused: bool,
}

impl Sought {
    pub open spec fn bytes(self) -> Seq<u8> {
        encode_utf8(self.query)
    }

    /// Nothing can be found.
    pub open spec fn is_idle(self) -> bool {
        self.query.len() == 0 || self.refused
    }

    /// A literal on one line, letters in either case, words or not.
    pub open spec fn is_plain(self) -> bool {
        &&& !self.options.match_case
        &&& !self.options.whole_word
        &&& !self.options.regex
        &&& !self.query.contains('\n')
    }

    pub open spec fn is_one_line_literal(self) -> bool {
        !self.options.regex && !self.query.contains('\n')
    }
}

/// The first match of a pattern from a byte on that is not empty, and a whole
/// word where that is asked.
pub open spec fn first_pattern_match(
    sought: Sought,
    text: Seq<char>,
    from: int,
    bound: nat,
) -> Option<(int, int)>
    decreases bound,
{
    match regex_found(sought.query, !sought.options.match_case, true, text, from) {
        None => None,
        Some((start, end)) => {
            let bytes = encode_utf8(text);
            if start < end && (sought.options.whole_word ==> stands_alone(bytes, start, end)) {
                Some((start, end))
            } else if start >= bytes.len() || bound == 0 {
                None
            } else {
                let next = choose|next: int| next_boundary(bytes, start, next);
                first_pattern_match(sought, text, next, (bound - 1) as nat)
            }
        },
    }
}

/// The first match from a byte on.
pub open spec fn found(sought: Sought, text: Seq<char>, from: int) -> Option<(int, int)> {
    let bytes = encode_utf8(text);
    if sought.is_idle() {
        None
    } else if sought.options.regex {
        first_pattern_match(sought, text, min(from, bytes.len() as int), bytes.len())
    } else {
        match first_occurrence(
            bytes,
            sought.bytes(),
            sought.options.match_case,
            sought.options.whole_word,
            from,
        ) {
            Some(at) => Some((at, at + sought.bytes().len())),
            None => None,
        }
    }
}

/// The first `limit` matches from a byte on, none of which overlap.
pub open spec fn all_found(sought: Sought, text: Seq<char>, from: int, limit: nat) -> Seq<
    (int, int),
>
    decreases limit,
{
    if limit == 0 {
        Seq::empty()
    } else {
        match found(sought, text, from) {
            None => Seq::empty(),
            Some(range) => seq![range] + all_found(sought, text, range.1, (limit - 1) as nat),
        }
    }
}

proof fn lemma_next_boundary_is(text: Seq<u8>, at: int, a: int, b: int)
    requires
        next_boundary(text, at, a),
        next_boundary(text, at, b),
    ensures
        a == b,
{
    if a < b {
        assert(!is_char_boundary(text, a));
    } else if b < a {
        assert(!is_char_boundary(text, b));
    }
}

/// A query ready to be looked for.
pub struct DiffSearchMatcher {
    pub query: String,
    pub options: DiffSearchOptions,
    pub regex: Option<CompiledRegex>,
    pub regex_error: Option<String>,
}

impl View for DiffSearchMatcher {
    type V = Sought;

    open spec fn view(&self) -> Sought {
        Sought {
            query: self.query@,
            options: self.options,
            refused: self.regex_error is Some,
        }
    }
}

impl DiffSearchMatcher {
    /// The query is clean. A pattern is compiled, or it was refused; anything
    /// else is neither.
    pub open spec fn wf(&self) -> bool {
        &&& normalized(self.query@) == self.query@
        &&& (self.options.regex && self.query@.len() > 0) == (self.regex is Some
            || self.regex_error is Some)
        &&& !(self.regex is Some && self.regex_error is Some)
        &&& self.regex matches Some(regex) ==> regex.pattern() == self.query@
            && regex.ignores_case() == !self.options.match_case && regex.anchors_lines()
    }

    /// A matcher for a query. Whether a pattern is refused is up to the library
    /// that compiles it; a literal never is.
    pub fn new(query: &str, options: DiffSearchOptions) -> (matcher: Self)
        ensures
            matcher.wf(),
            matcher@.query == normalized(query@),
            matcher@.options == options,
            matcher@.refused ==> options.regex && normalized(query@).len() > 0,
    {
        let query = normalize_diff_search_query(query);
        proof {
            lemma_empty_text(query@);
            lemma_normalized_again(query@);
        }
        let compiled = if options.regex && !query.as_str().is_empty() {
            Some(compile_regex(query.as_str(), !options.match_case, true))
        } else {
            None
        };
        Self::with_pattern(query, options, compiled)
    }

    /// A matcher for a clean query, given what became of its pattern where it is
    /// one. A pattern that was refused leaves its error.
    pub fn with_pattern(
        query: String,
        options: DiffSearchOptions,
        compiled: Option<Result<CompiledRegex, String>>,
    ) -> (matcher: Self)
        requires
            normalized(query@) == query@,
            compiled is Some == (options.regex && query@.len() > 0),
            compiled matches Some(Ok(regex)) ==> regex.pattern() == query@ && regex.ignores_case()
                == !options.match_case && regex.anchors_lines(),
        ensures
            matcher.wf(),
            matcher@ == (Sought {
                query: query@,
                options,
                refused: compiled matches Some(Err(_)),
            }),
            matcher.regex_error == (match compiled {
                Some(Err(error)) => Some(error),
                _ => None,
            }),
    {
        let (regex, regex_error) = match compiled {
            Some(Ok(regex)) => (Some(regex), None),
            Some(Err(error)) => (None, Some(error)),
            None => (None, None),
        };
        DiffSearchMatcher { query, options, regex, regex_error }
    }

    pub fn query(&self) -> (query: &str)
        ensures
            query@ == self@.query,
    {
        self.query.as_str()
    }

    pub fn regex_error(&self) -> (error: Option<&str>)
        ensures
            error is Some == self@.refused,
            error matches Some(error) ==> error@ == self.regex_error->Some_0@,
    {
        match &self.regex_error {
            Some(error) => Some(error.as_str()),
            None => None,
        }
    }

    pub fn is_empty(&self) -> (answer: bool)
        ensures
            answer == (self@.query.len() == 0),
    {
        proof {
            lemma_empty_text(self.query@);
        }
        self.query.as_str().is_empty()
    }

    fn has_newline(&self) -> (answer: bool)
        ensures
            answer == self@.query.contains('\n'),
    {
        let chars = chars_of(self.query.as_str());
        let mut i: usize = 0;
        while i < chars.len()
            invariant
                0 <= i <= chars@.len(),
                chars@ == self.query@,
                forall|k: int| 0 <= k < i ==> #[trigger] chars@[k] != '\n',
            decreases chars@.len() - i,
        {
            if chars[i] == '\n' {
                assert(self.query@[i as int] == '\n');
                return true;
            }
            i += 1;
        }
        false
    }

    pub fn can_use_ascii_case_insensitive_fast_path(&self) -> (answer: bool)
        ensures
            answer == self@.is_plain(),
    {
        !self.options.match_case && !self.options.whole_word && !self.options.regex
            && !self.has_newline()
    }

    pub fn can_use_single_row_literal_path(&self) -> (answer: bool)
        ensures
            answer == self@.is_one_line_literal(),
    {
        !self.options.regex && !self.has_newline()
    }

    /// Whether the query is on more than one line.
    pub fn spans_lines(&self) -> (answer: bool)
        ensures
            answer == self@.query.contains('\n'),
    {
        self.has_newline()
    }

    /// Whether a text holds a match.
    pub fn is_match(&self, haystack: &str) -> (answer: bool)
        requires
            self.wf(),
        ensures
            answer == (found(self@, haystack@, 0) is Some),
    {
        self.find_range_at_or_after(haystack, 0).is_some()
    }

    /// The first match from a byte on.
    pub fn find_range_at_or_after(&self, haystack: &str, start_at: usize) -> (range: Option<
        Range<usize>,
    >)
        requires
            self.wf(),
        ensures
            found(self@, haystack@, start_at as int) == (match range {
                Some(range) => Some((range.start as int, range.end as int)),
                None => None,
            }),
            range matches Some(range) ==> {
                &&& range.start < range.end <= haystack.spec_bytes().len()
                &&& start_at <= range.start
                &&& is_char_boundary(haystack.spec_bytes(), range.start as int)
                &&& is_char_boundary(haystack.spec_bytes(), range.end as int)
            },
    {
        if self.is_empty() || self.regex_error.is_some() {
            return None;
        }
        match &self.regex {
            Some(regex) => self.find_pattern(regex, haystack, start_at),
            None => {
                proof {
                    lemma_empty_text(self.query@);
                }
                let range = find_literal(
                    haystack,
                    self.query.as_str(),
                    self.options.match_case,
                    self.options.whole_word,
                    start_at,
                );
                proof {
                    crate::utf::lemma_text_is_valid(haystack);
                    vstd::utf8::encode_utf8_valid_utf8(self.query@);
                    lemma_first_occurrence(
                        haystack.spec_bytes(),
                        encode_utf8(self.query@),
                        self.options.match_case,
                        self.options.whole_word,
                        start_at as int,
                    );
                    if range is Some {
                        lemma_match_cuts_no_char(
                            haystack.spec_bytes(),
                            encode_utf8(self.query@),
                            self.options.match_case,
                            range->Some_0.start as int,
                        );
                    }
                }
                range
            },
        }
    }

    fn find_pattern(&self, regex: &CompiledRegex, haystack: &str, start_at: usize) -> (range:
        Option<Range<usize>>)
        requires
            self.wf(),
            self.query@.len() > 0,
            self.regex == Some(*regex),
        ensures
            found(self@, haystack@, start_at as int) == (match range {
                Some(range) => Some((range.start as int, range.end as int)),
                None => None,
            }),
            range matches Some(range) ==> {
                &&& range.start < range.end <= haystack.spec_bytes().len()
                &&& start_at <= range.start
                &&& is_char_boundary(haystack.spec_bytes(), range.start as int)
                &&& is_char_boundary(haystack.spec_bytes(), range.end as int)
            },
    {
        let len = haystack.as_bytes().len();
        let ghost bytes = haystack.spec_bytes();
        let ghost sought = self@;
        let mut search_start = min_usize(start_at, len);
        let ghost mut bound: nat = bytes.len();
        loop
            invariant
                self.wf(),
                sought == self@,
                self.regex == Some(*regex),
                !sought.is_idle(),
                sought.options.regex,
                bytes == haystack.spec_bytes(),
                len == bytes.len(),
                min(start_at as int, len as int) <= search_start <= len,
                start_at <= len || search_start == len,
                bound >= len - search_start,
                found(sought, haystack@, start_at as int) == first_pattern_match(
                    sought,
                    haystack@,
                    search_start as int,
                    bound,
                ),
            decreases len - search_start,
        {
            match regex_find_at(regex, haystack, search_start) {
                None => {
                    return None;
                },
                Some((start, end)) => {
                    if start < end && (!self.options.whole_word || is_alone(haystack, start, end)) {
                        return Some(start..end);
                    }
                    match next_char_boundary_after(haystack, start) {
                        Some(next) => {
                            proof {
                                let chosen = choose|next: int| next_boundary(
                                    bytes,
                                    start as int,
                                    next,
                                );
                                assert(next_boundary(bytes, start as int, next as int));
                                lemma_next_boundary_is(bytes, start as int, next as int, chosen);
                                bound = (bound - 1) as nat;
                            }
                            search_start = next;
                        },
                        None => {
                            return None;
                        },
                    }
                },
            }
        }
    }

    /// Writes the matches of a text, at most so many, in place of what was
    /// there.
    pub fn find_ranges_into(&self, haystack: &str, out: &mut Vec<Range<usize>>, max_matches: usize)
        requires
            self.wf(),
        ensures
            ranges_of(final(out)@) == all_found(self@, haystack@, 0, max_matches as nat),
            forall|i: int|
                0 <= i < final(out)@.len() ==> (#[trigger] final(out)@[i]).start < final(out)@[i].end
                    && final(out)@[i].end <= haystack.spec_bytes().len(),
    {
        out.clear();
        let mut search_start: usize = 0;
        let mut left = max_matches;
        let ghost text = haystack@;
        let ghost all = all_found(self@, text, 0, max_matches as nat);
        assert(ranges_of(out@) =~= Seq::<(int, int)>::empty());
        assert(Seq::<(int, int)>::empty() + all =~= all);
        while left > 0
            invariant
                self.wf(),
                text == haystack@,
                all == all_found(self@, text, 0, max_matches as nat),
                ranges_of(out@) + all_found(self@, text, search_start as int, left as nat) == all,
                forall|i: int|
                    0 <= i < out@.len() ==> (#[trigger] out@[i]).start < out@[i].end && out@[i].end
                        <= haystack.spec_bytes().len(),
            decreases left,
        {
            let ghost before = ranges_of(out@);
            match self.find_range_at_or_after(haystack, search_start) {
                Some(range) => {
                    let ghost pair = (range.start as int, range.end as int);
                    search_start = range.end;
                    out.push(range);
                    left -= 1;
                    proof {
                        let rest = all_found(self@, text, search_start as int, left as nat);
                        assert(ranges_of(out@) =~= before.push(pair));
                        assert(before.push(pair) + rest =~= before + (seq![pair] + rest));
                    }
                },
                None => {
                    assert(before + Seq::<(int, int)>::empty() =~= before);
                    return;
                },
            }
        }
        assert(ranges_of(out@) + Seq::<(int, int)>::empty() =~= ranges_of(out@));
    }

    /// The matches that are marked on a row.
    pub fn find_row_overlay_ranges_into(
        &self,
        haystack: &str,
        out: &mut Vec<Range<usize>>,
        max_matches: usize,
    )
        requires
            self.wf(),
        ensures
            ranges_of(final(out)@) == all_found(self@, haystack@, 0, max_matches as nat),
    {
        self.find_ranges_into(haystack, out, max_matches);
    }
}

pub open spec fn ranges_of(ranges: Seq<Range<usize>>) -> Seq<(int, int)> {
    ranges.map_values(|range: Range<usize>| (range.start as int, range.end as int))
}

pub proof fn lemma_empty_text(text: Seq<char>)
    ensures
        (encode_utf8(text).len() == 0) == (text.len() == 0),
{
    vstd::utf8::encode_utf8_decode_utf8(text);
    if encode_utf8(text).len() == 0 {
        reveal_with_fuel(vstd::utf8::decode_utf8, 1);
    }
}

proof fn lemma_normalized_again(clean: Seq<char>)
    requires
        exists|query: Seq<char>| clean == #[trigger] normalized(query),
    ensures
        normalized(clean) == clean,
{
    let query = choose|query: Seq<char>| clean == #[trigger] normalized(query);
    law_normalized_query_is_stable(query);
}

/// The matches of a literal come in order, each as long as the literal, and do
/// not overlap.
pub proof fn law_matches_are_in_order(sought: Sought, text: Seq<char>, from: int, limit: nat)
    requires
        !sought.options.regex,
        sought.bytes().len() > 0,
        0 <= from,
    ensures
        ({
            let all = all_found(sought, text, from, limit);
            &&& all.len() <= limit
            &&& forall|i: int|
                0 <= i < all.len() ==> from <= (#[trigger] all[i]).0 && all[i].1 == all[i].0
                    + sought.bytes().len()
            &&& forall|i: int, j: int|
                0 <= i < j < all.len() ==> (#[trigger] all[i]).1 <= (#[trigger] all[j]).0
        }),
    decreases limit,
{
    if limit > 0 && !sought.is_idle() {
        lemma_first_occurrence(
            encode_utf8(text),
            sought.bytes(),
            sought.options.match_case,
            sought.options.whole_word,
            from,
        );
        if let Some(range) = found(sought, text, from) {
            law_matches_are_in_order(sought, text, range.1, (limit - 1) as nat);
            let rest = all_found(sought, text, range.1, (limit - 1) as nat);
            let all = all_found(sought, text, from, limit);
            assert(all == seq![range] + rest);
            assert forall|i: int| 0 <= i < all.len() implies from <= (#[trigger] all[i]).0
                && all[i].1 == all[i].0 + sought.bytes().len() by {
                if i > 0 {
                    assert(all[i] == rest[i - 1]);
                }
            }
            assert forall|i: int, j: int| 0 <= i < j < all.len() implies (#[trigger] all[i]).1 <= (
            #[trigger] all[j]).0 by {
                assert(all[j] == rest[j - 1]);
                if i > 0 {
                    assert(all[i] == rest[i - 1]);
                }
            }
        }
    }
}

} // verus!
