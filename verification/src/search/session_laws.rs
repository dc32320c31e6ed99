//! Where a search stands among its matches.
use crate::search::literal_laws::bytes_agree;
use crate::search::literal_laws::law_matches_serve_what_was_typed_on;
use crate::search::matcher::normalized;
use crate::search::matcher::Sought;
use crate::search::session::after_steps;
use crate::search::session::changed_query;
use crate::search::session::counted_up;
use crate::search::session::in_order;
use crate::search::session::resumes_at;
use crate::search::session::rows_above;
use crate::search::session::takes_place;
use crate::search::session::takes_place_and_steps;
use crate::search::session::DiffSearch;
use crate::search::session::DiffSearchFinalizeMode;
use crate::search::session::QueryChange;
use vstd::arithmetic::div_mod::lemma_fundamental_div_mod;
use vstd::arithmetic::div_mod::lemma_fundamental_div_mod_converse;
use vstd::prelude::*;
use vstd::utf8::encode_utf8;

verus! {

proof fn lemma_above_is_a_prefix(matches: Seq<usize>, row: int)
    requires
        in_order(matches),
    ensures
        0 <= rows_above(matches, row) <= matches.len(),
        forall|i: int| 0 <= i < rows_above(matches, row) ==> (#[trigger] matches[i]) < row,
        forall|i: int|
            rows_above(matches, row) <= i < matches.len() ==> (#[trigger] matches[i]) >= row,
    decreases matches.len(),
{
    if matches.len() > 0 {
        let shorter = matches.drop_last();
        let last = matches.len() - 1;
        assert forall|i: int, j: int| 0 <= i <= j < shorter.len() implies shorter[i] <= shorter[j] by {
            assert(matches[i] <= matches[j]);
        }
        lemma_above_is_a_prefix(shorter, row);
        let n = rows_above(shorter, row);
        assert forall|i: int| 0 <= i < shorter.len() implies shorter[i] == matches[i] by {}
        if matches[last] < row {
            if n < shorter.len() {
                assert(shorter[n] >= row);
                assert(matches[n] <= matches[last]);
            }
        }
        assert forall|i: int| 0 <= i < rows_above(matches, row) implies (#[trigger] matches[i])
            < row by {
            if i < n {
                assert(shorter[i] < row);
            }
        }
        assert forall|i: int| rows_above(matches, row) <= i < matches.len() implies (
        #[trigger] matches[i]) >= row by {
            if i < last {
                assert(shorter[i] >= row);
            }
        }
    }
}

/// A search that stood at a row goes on at a match in that row. Where there is
/// none it goes on at the nearest match above: no match is between it and the
/// row. Where none is above either, at the last of all.
pub proof fn law_search_goes_on_where_it_stood(matches: Seq<usize>, row: usize, ix: int)
    requires
        in_order(matches),
        matches.len() > 0,
        resumes_at(matches, row, ix),
    ensures
        0 <= ix < matches.len(),
        (exists|k: int| 0 <= k < matches.len() && #[trigger] matches[k] == row) ==> matches[ix]
            == row,
        (forall|k: int| 0 <= k < matches.len() ==> #[trigger] matches[k] != row) && (exists|k: int|
            0 <= k < matches.len() && #[trigger] matches[k] < row) ==> matches[ix] < row && (
        forall|k: int| ix < k < matches.len() ==> #[trigger] matches[k] > row),
        (forall|k: int| 0 <= k < matches.len() ==> #[trigger] matches[k] > row) ==> ix
            == matches.len() - 1,
{
    lemma_above_is_a_prefix(matches, row as int);
    if matches.contains(row) {
        let k = choose|k: int| 0 <= k < matches.len() && matches[k] == row;
        assert(matches[k] == row);
    } else {
        assert forall|k: int| 0 <= k < matches.len() implies #[trigger] matches[k] != row by {}
        let n = rows_above(matches, row as int);
        if n > 0 {
            assert(matches[n - 1] < row);
            assert forall|k: int| ix < k < matches.len() implies #[trigger] matches[k] > row by {
                assert(matches[k] >= row);
            }
        } else {
            assert forall|k: int| 0 <= k < matches.len() implies #[trigger] matches[k] > row by {
                assert(matches[k] >= row);
            }
        }
    }
}

/// New matches are shown from the first. Where a place is to be kept that had
/// no row, the match of the same number is taken, or the last where there are
/// not so many; and the first where there was no place either. Without matches
/// there is no place, and with any there is one.
pub proof fn law_search_takes_its_place(
    matches: Seq<usize>,
    mode: DiffSearchFinalizeMode,
    ix: Option<usize>,
)
    requires
        in_order(matches),
        takes_place(matches, mode, ix),
    ensures
        ix is None <==> matches.len() == 0,
        ix matches Some(place) ==> {
            &&& place < matches.len()
            &&& mode is ScrollToFirst ==> place == 0
            &&& mode matches DiffSearchFinalizeMode::PreserveCurrent {
                previous_match_ix,
                previous_visible_ix,
            } ==> {
                &&& previous_visible_ix matches Some(row) ==> resumes_at(
                    matches,
                    row,
                    place as int,
                )
                &&& previous_visible_ix is None && previous_match_ix is None ==> place == 0
                &&& previous_visible_ix is None ==> (previous_match_ix matches Some(before) ==> {
                    &&& before < matches.len() ==> place == before
                    &&& before >= matches.len() ==> place == matches.len() - 1
                })
            }
        },
{
}

/// A step more leads to the next match, and from the last one to the first; no
/// step stays. So steps lead round among the matches in their order, and back
/// the same way.
pub proof fn law_each_step_is_to_the_next_match(place: int, steps: int, len: int)
    requires
        0 <= place < len,
    ensures
        ({
            let here = after_steps(place, steps, len);
            let next = after_steps(place, steps + 1, len);
            &&& 0 <= here < len
            &&& next == (if here == len - 1 {
                0
            } else {
                here + 1
            })
            &&& steps == 0 ==> here == place
        }),
{
    lemma_fundamental_div_mod(place + steps, len);
    let q = (place + steps) / len;
    let r = (place + steps) % len;
    vstd::arithmetic::div_mod::lemma_mod_bound(place + steps, len);
    if r == len - 1 {
        assert(place + steps + 1 == (q + 1) * len + 0) by (nonlinear_arith)
            requires
                place + steps == len * q + r,
                r == len - 1,
        ;
        lemma_fundamental_div_mod_converse(place + steps + 1, len, q + 1, 0);
    } else {
        assert(place + steps + 1 == q * len + (r + 1)) by (nonlinear_arith)
            requires
                place + steps == len * q + r,
        ;
        lemma_fundamental_div_mod_converse(place + steps + 1, len, q, r + 1);
    }
    if steps == 0 {
        lemma_fundamental_div_mod_converse(place, len, 0, place);
    }
}

/// Steps that waited for matches are taken from the place that the matches
/// would have had without them.
pub proof fn law_waiting_steps_are_taken(
    matches: Seq<usize>,
    mode: DiffSearchFinalizeMode,
    steps: int,
    ix: Option<usize>,
)
    requires
        matches.len() <= usize::MAX,
        takes_place_and_steps(matches, mode, steps, ix),
    ensures
        matches.len() == 0 ==> ix is None,
        steps == 0 ==> takes_place(matches, mode, ix),
        matches.len() > 0 ==> ix is Some && ix->Some_0 < matches.len() && exists|first: usize|
            first < matches.len() && #[trigger] takes_place(matches, mode, Some(first))
                && ix->Some_0 == after_steps(first as int, steps, matches.len() as int),
{
    if matches.len() > 0 {
        if steps == 0 {
            let first = ix->Some_0;
            law_each_step_is_to_the_next_match(first as int, 0, matches.len() as int);
            assert(takes_place(matches, mode, Some(first)));
        } else {
            let first = choose|first: usize| #[trigger]
                takes_place(matches, mode, Some(first)) && ix == Some(
                    after_steps(first as int, steps, matches.len() as int) as usize,
                );
            law_each_step_is_to_the_next_match(first as int, steps, matches.len() as int);
        }
    }
}

/// Every request has another number than the one before it, the next one up
/// until there is none.
pub proof fn law_requests_are_told_apart(n: u64)
    ensures
        counted_up(n) != n,
        n < u64::MAX ==> counted_up(n) == n + 1,
        n == u64::MAX ==> counted_up(n) == 0,
{
}

/// The current match of a search is the one of its number, and the last one
/// where there are not so many.
pub proof fn law_current_match_is_among_the_matches(search: DiffSearch)
    ensures
        search.match_ix is None || search.matches@.len() == 0 <==> search.current_row() is None,
        search.match_ix matches Some(ix) ==> {
            &&& ix < search.matches@.len() ==> search.current_row() == Some(
                search.matches@[ix as int],
            )
            &&& 0 < search.matches@.len() <= ix ==> search.current_row() == Some(
                search.matches@[search.matches@.len() - 1],
            )
        },
        search.matches@.len() > 0 ==> 0 <= search.place() < search.matches@.len(),
        search.matches@.len() > 0 && search.match_ix is Some ==> search.current_row() == Some(
            search.matches@[search.place()],
        ),
        search.match_ix is None ==> search.place() == 0,
{
}

/// The screen moves to a match unless the search was at one before.
pub proof fn law_screen_stays_where_a_match_was(
    previous_match_ix: Option<usize>,
    previous_visible_ix: Option<usize>,
)
    ensures
        DiffSearch::moves_screen(DiffSearchFinalizeMode::ScrollToFirst),
        DiffSearch::moves_screen(
            DiffSearchFinalizeMode::PreserveCurrent { previous_match_ix, previous_visible_ix },
        ) <==> previous_match_ix is None && previous_visible_ix is None,
{
}

/// Matches are still to come while some were asked for, or while the search
/// that runs is the latest one.
pub proof fn law_matches_are_awaited(search: DiffSearch)
    ensures
        search.pending_previous_query is Some ==> search.is_pending(),
        search.worker_running && search.worker_sequence == search.sequence ==> search.is_pending(),
        search.pending_previous_query is None && !search.worker_running ==> !search.is_pending(),
        search.pending_previous_query is None && search.worker_sequence != search.sequence
            ==> !search.is_pending(),
        !search.active ==> !search.has_query(),
        search.active ==> (search.has_query() <==> search.query@.len() > 0),
        search.active ==> search.options_now() == search.options,
        !search.active ==> !search.options_now().match_case && !search.options_now().whole_word
            && !search.options_now().regex,
{
}

/// Matches are kept only for a query of the same bytes, and narrowed only for
/// one that starts with those of the query before, letters in either case both
/// times; and both only where letters are sought in either case, as a literal
/// on one line and not as whole words. A query that nothing can match has none.
pub proof fn law_matches_are_kept_for_what_they_match(
    previous: Seq<char>,
    can_refine: bool,
    sought: Sought,
)
    ensures
        ({
            let a = encode_utf8(normalized(previous));
            let b = encode_utf8(normalized(sought.query));
            let starts = a.len() <= b.len() && forall|k: int|
                0 <= k < a.len() ==> bytes_agree(#[trigger] b[k], a[k], false);
            let idle = sought.query.len() == 0 || sought.refused;
            let plain = !sought.options.match_case && !sought.options.whole_word
                && !sought.options.regex && forall|k: int|
                0 <= k < sought.query.len() ==> #[trigger] sought.query[k] != '\n';
            match changed_query(previous, can_refine, sought) {
                QueryChange::Inactive => false,
                QueryChange::Cleared => idle,
                QueryChange::Keep => !idle && plain && starts && a.len() == b.len(),
                QueryChange::Refine => !idle && plain && can_refine && starts && 0 < a.len()
                    < b.len(),
                QueryChange::Scan => !idle && (!plain || !starts || a.len() == 0 || (a.len()
                    < b.len() && !can_refine)),
            }
        }),
{
    law_matches_serve_what_was_typed_on(previous, sought.query);
    if sought.query.contains('\n') {
        let k = choose|k: int| 0 <= k < sought.query.len() && sought.query[k] == '\n';
        assert(sought.query[k] == '\n');
    } else {
        assert forall|k: int| 0 <= k < sought.query.len() implies #[trigger] sought.query[k]
            != '\n' by {}
    }
}

} // verus!
