//! Searching the rows on screen for a query that may run over several of them.
use crate::search::collect::collect_split_stream_match_visible_rows;
use crate::search::collect::collect_stream_match_row_offsets;
use crate::search::collect::collect_stream_match_visible_rows;
use crate::search::collect::row_refs;
use crate::search::hits::sort_and_dedup;
use crate::search::long_rows::collect_file_diff_line_text_stream_match_visible_rows;
use crate::search::matcher::DiffSearchMatcher;
use crate::search::needle::expand_tabs_to_string;
use crate::search::wrap::diff_search_visual_ix_for_source_match;
use crate::search::wrap::DiffWrapVisualRow;
use vstd::prelude::*;

verus! {

/// The rows on screen, as they are searched.
#[allow(inconsistent_fields)]
#[derive(Debug)]
pub enum GeneralRows {
    /// One column. Long rows come in pieces.
    Listed { rows: Vec<(usize, String)>, streamed: bool },
    /// Two columns that are searched one behind the other.
    Columns { left: Vec<(usize, String)>, right: Vec<(usize, String)> },
    /// Two columns of a file diff, with tabs.
    Sides { rows: Vec<(usize, Option<String>, Option<String>)> },
    /// Columns whose rows are broken over the lines of the screen, once these are
    /// known.
    Wrapped {
        columns: Vec<Vec<(usize, String)>>,
        lines_known: bool,
        lines: Vec<DiffWrapVisualRow>,
    },
}

/// What is searched, text for text.
#[allow(inconsistent_fields)]
#[verifier::ext_equal]
pub enum GeneralView {
    Listed { rows: Seq<(usize, Seq<char>)>, streamed: bool },
    Columns { left: Seq<(usize, Seq<char>)>, right: Seq<(usize, Seq<char>)> },
    Sides { rows: Seq<(usize, Option<Seq<char>>, Option<Seq<char>>)> },
    Wrapped {
        columns: Seq<Seq<(usize, Seq<char>)>>,
        lines_known: bool,
        lines: Seq<DiffWrapVisualRow>,
    },
}

/// What rows give, behind what was found before.
pub open spec fn listed_hits(
    sought: crate::search::matcher::Sought,
    rows: Seq<(usize, Seq<char>)>,
    streamed: bool,
) -> Seq<usize> {
    let bytes = crate::search::joined::row_bytes(rows);
    if !streamed {
        crate::search::collect::numbers(crate::search::collect::offsets_of(sought, rows))
    } else if sought.options.regex {
        crate::search::pattern_rows::pattern_hits(sought, bytes, Seq::empty())
    } else if sought.query.len() == 0 {
        Seq::empty()
    } else {
        crate::search::joined::hit_rows(
            bytes,
            crate::search::literal_rows::literal_of(sought),
            rows.len() as int,
        )
    }
}

/// The lines of the screen on which matches start; the rows themselves while the
/// lines are not known.
pub open spec fn shown_lines(
    lines_known: bool,
    lines: Seq<DiffWrapVisualRow>,
    column: int,
    offsets: Seq<(usize, usize)>,
) -> Seq<usize> {
    if lines_known {
        crate::search::rows::visual_rows(lines, column, offsets)
    } else {
        crate::search::collect::numbers(offsets)
    }
}

/// What the first columns of broken rows give.
pub open spec fn wrapped_hits(
    sought: crate::search::matcher::Sought,
    columns: Seq<Seq<(usize, Seq<char>)>>,
    lines_known: bool,
    lines: Seq<DiffWrapVisualRow>,
    n: int,
) -> Seq<usize>
    decreases n,
{
    if n <= 0 {
        Seq::empty()
    } else {
        wrapped_hits(sought, columns, lines_known, lines, n - 1) + shown_lines(
            lines_known,
            lines,
            n - 1,
            crate::search::collect::offsets_of(sought, columns[n - 1]),
        )
    }
}

/// A side as it is shown.
pub open spec fn shown_side(text: Option<Seq<char>>) -> Option<Seq<char>> {
    match text {
        Some(text) => Some(crate::search::needle::displayed(text)),
        None => None,
    }
}

pub open spec fn shown_sides(rows: Seq<(usize, Option<Seq<char>>, Option<Seq<char>>)>) -> Seq<
    (usize, Option<Seq<char>>, Option<Seq<char>>),
> {
    Seq::new(rows.len(), |i: int| (rows[i].0, shown_side(rows[i].1), shown_side(rows[i].2)))
}

pub open spec fn owned_sides(rows: Seq<(usize, Option<String>, Option<String>)>) -> Seq<
    (usize, Option<Seq<char>>, Option<Seq<char>>),
> {
    Seq::new(
        rows.len(),
        |i: int|
            (
                rows[i].0,
                crate::search::source::some_chars(rows[i].1),
                crate::search::source::some_chars(rows[i].2),
            ),
    )
}

pub open spec fn owned_columns(columns: Seq<Vec<(usize, String)>>) -> Seq<
    Seq<(usize, Seq<char>)>,
> {
    Seq::new(columns.len(), |k: int| crate::search::collect::owned_chars(columns[k]@))
}

impl GeneralView {
    /// Rows that come in pieces have numbers of their own and fit together in
    /// memory; lines of the screen follow the rows.
    pub open spec fn wf(self) -> bool {
        match self {
            GeneralView::Listed { rows, streamed } => {
                let bytes = crate::search::joined::row_bytes(rows);
                streamed ==> crate::search::literal_rows::numbers_differ(bytes)
                    && crate::search::joined::whole(bytes).len() <= usize::MAX
            },
            GeneralView::Wrapped { lines, .. } => crate::search::wrap::lines_follow_rows(lines),
            _ => true,
        }
    }

    /// The rows in which a match starts, as they are come upon.
    pub open spec fn hits(self, sought: crate::search::matcher::Sought) -> Seq<usize> {
        match self {
            GeneralView::Listed { rows, streamed } => listed_hits(sought, rows, streamed),
            GeneralView::Columns { left, right } => listed_hits(sought, left, false)
                + listed_hits(sought, right, false),
            GeneralView::Sides { rows } => crate::search::collect::split_found(
                sought,
                shown_sides(rows),
            ),
            GeneralView::Wrapped { columns, lines_known, lines } => wrapped_hits(
                sought,
                columns,
                lines_known,
                lines,
                columns.len() as int,
            ),
        }
    }
}

impl View for GeneralRows {
    type V = GeneralView;

    open spec fn view(&self) -> GeneralView {
        match *self {
            GeneralRows::Listed { rows, streamed } => GeneralView::Listed {
                rows: crate::search::collect::owned_chars(rows@),
                streamed,
            },
            GeneralRows::Columns { left, right } => GeneralView::Columns {
                left: crate::search::collect::owned_chars(left@),
                right: crate::search::collect::owned_chars(right@),
            },
            GeneralRows::Sides { rows } => GeneralView::Sides { rows: owned_sides(rows@) },
            GeneralRows::Wrapped { columns, lines_known, lines } => GeneralView::Wrapped {
                columns: owned_columns(columns@),
                lines_known,
                lines: lines@,
            },
        }
    }
}

impl GeneralRows {
    /// The rows on screen in which a match starts, each once and in order.
    pub fn diff_search_scan_current_view_general(&self, matcher: &DiffSearchMatcher) -> (matches:
        Vec<usize>)
        requires
            self@.wf(),
            matcher.wf(),
        ensures
            crate::search::hits::settled_rows(matches@, self@.hits(matcher@)),
    {
        let mut matches: Vec<usize> = Vec::new();
        match self {
            GeneralRows::Listed { rows, streamed } => {
                let refs = row_refs(rows);
                if *streamed {
                    collect_file_diff_line_text_stream_match_visible_rows(
                        refs.as_slice(),
                        matcher,
                        &mut matches,
                    );
                } else {
                    collect_stream_match_visible_rows(refs.as_slice(), matcher, &mut matches);
                }
                assert(matches@ =~= self@.hits(matcher@));
            },
            GeneralRows::Columns { left, right } => {
                let left_refs = row_refs(left);
                let right_refs = row_refs(right);
                collect_stream_match_visible_rows(left_refs.as_slice(), matcher, &mut matches);
                collect_stream_match_visible_rows(right_refs.as_slice(), matcher, &mut matches);
                assert(matches@ =~= self@.hits(matcher@));
            },
            GeneralRows::Sides { rows } => {
                collect_sides(rows, matcher, &mut matches);
                assert(matches@ =~= self@.hits(matcher@));
            },
            GeneralRows::Wrapped { columns, lines_known, lines } => {
                let mut column: usize = 0;
                while column < columns.len()
                    invariant
                        matcher.wf(),
                        crate::search::wrap::lines_follow_rows(lines@),
                        0 <= column <= columns@.len(),
                        matches@ == wrapped_hits(
                            matcher@,
                            owned_columns(columns@),
                            *lines_known,
                            lines@,
                            column as int,
                        ),
                    decreases columns@.len() - column,
                {
                    diff_search_collect_wrapped_source_matches(
                        &columns[column],
                        column,
                        *lines_known,
                        lines.as_slice(),
                        matcher,
                        &mut matches,
                    );
                    column += 1;
                }
            },
        }
        sort_and_dedup(&mut matches);
        matches
    }
}

fn expanded(text: &Option<String>) -> (shown: Option<String>)
    ensures
        crate::search::source::some_chars(shown) == shown_side(
            crate::search::source::some_chars(*text),
        ),
{
    match text {
        Some(text) => Some(expand_tabs_to_string(text.as_str())),
        None => None,
    }
}

fn part(text: &Option<String>) -> (part: Option<&str>)
    ensures
        crate::search::collect::side_chars(part) == crate::search::source::some_chars(*text),
{
    match text {
        Some(text) => Some(text.as_str()),
        None => None,
    }
}

fn collect_sides(
    rows: &Vec<(usize, Option<String>, Option<String>)>,
    matcher: &DiffSearchMatcher,
    out: &mut Vec<usize>,
)
    requires
        matcher.wf(),
    ensures
        final(out)@ == old(out)@ + crate::search::collect::split_found(
            matcher@,
            shown_sides(owned_sides(rows@)),
        ),
{
    let mut shown: Vec<(Option<String>, Option<String>)> = Vec::new();
    let mut i: usize = 0;
    while i < rows.len()
        invariant
            0 <= i <= rows@.len(),
            shown@.len() == i,
            forall|k: int|
                0 <= k < i ==> crate::search::source::some_chars((#[trigger] shown@[k]).0)
                    == shown_side(owned_sides(rows@)[k].1) && crate::search::source::some_chars(shown@[k].1)
                    == shown_side(owned_sides(rows@)[k].2),
        decreases rows@.len() - i,
    {
        shown.push((expanded(&rows[i].1), expanded(&rows[i].2)));
        i += 1;
    }
    let mut refs: Vec<(usize, Option<&str>, Option<&str>)> = Vec::new();
    let mut k: usize = 0;
    while k < rows.len()
        invariant
            0 <= k <= rows@.len(),
            shown@.len() == rows@.len(),
            forall|j: int|
                0 <= j < shown@.len() ==> crate::search::source::some_chars(
                    (#[trigger] shown@[j]).0,
                ) == shown_side(owned_sides(rows@)[j].1) && crate::search::source::some_chars(shown@[j].1)
                    == shown_side(owned_sides(rows@)[j].2),
            refs@.len() == k,
            forall|j: int|
                0 <= j < k ==> (#[trigger] refs@[j]).0 == rows@[j].0
                    && crate::search::collect::side_chars(refs@[j].1) == shown_side(owned_sides(rows@)[j].1)
                    && crate::search::collect::side_chars(refs@[j].2) == shown_side(owned_sides(rows@)[j].2),
        decreases rows@.len() - k,
    {
        let pair = &shown[k];
        refs.push((rows[k].0, part(&pair.0), part(&pair.1)));
        k += 1;
    }
    assert(crate::search::collect::split_chars(refs@) =~= shown_sides(owned_sides(rows@)));
    collect_split_stream_match_visible_rows(refs.as_slice(), matcher, out);
}

/// Collects the lines of the screen on which the matches of a column start.
pub fn diff_search_collect_wrapped_source_matches(
    rows: &Vec<(usize, String)>,
    column: usize,
    lines_known: bool,
    lines: &[DiffWrapVisualRow],
    matcher: &DiffSearchMatcher,
    out: &mut Vec<usize>,
)
    requires
        matcher.wf(),
        crate::search::wrap::lines_follow_rows(lines@),
    ensures
        final(out)@ == old(out)@ + shown_lines(
            lines_known,
            lines@,
            column as int,
            crate::search::collect::offsets_of(
                matcher@,
                crate::search::collect::owned_chars(rows@),
            ),
        ),
{
    let ghost before = out@;
    let refs = row_refs(rows);
    let mut offsets: Vec<(usize, usize)> = Vec::new();
    collect_stream_match_row_offsets(refs.as_slice(), matcher, &mut offsets);
    let ghost all = crate::search::collect::offsets_of(
        matcher@,
        crate::search::collect::owned_chars(rows@),
    );
    assert(offsets@ =~= all);
    let ghost shown = shown_lines(lines_known, lines@, column as int, all);
    let mut k: usize = 0;
    assert(before + shown.take(0) =~= before);
    while k < offsets.len()
        invariant
            0 <= k <= offsets@.len(),
            crate::search::wrap::lines_follow_rows(lines@),
            offsets@ == all,
            shown == shown_lines(lines_known, lines@, column as int, all),
            shown.len() == all.len(),
            out@ == before + shown.take(k as int),
        decreases offsets@.len() - k,
    {
        let (source, offset) = offsets[k];
        let ix = diff_search_visual_ix_for_source_match(lines_known, lines, source, column, offset);
        proof {
            if lines_known {
                let other = crate::search::rows::visual_row_of(
                    lines@,
                    column as int,
                    all[k as int],
                );
                crate::search::wrap::law_one_visual_row(
                    lines@,
                    source as int,
                    column as int,
                    offset as int,
                    ix as int,
                    other as int,
                );
            }
            assert(shown[k as int] == ix);
        }
        out.push(ix);
        assert(shown.take(k + 1) =~= shown.take(k as int).push(ix));
        assert(out@ =~= before + shown.take(k + 1));
        k += 1;
    }
    assert(shown.take(offsets@.len() as int) =~= shown);
}

} // verus!
