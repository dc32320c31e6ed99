//! Which texts a search reads for a row, and how rows that were come upon are
//! listed.
use crate::diff::collapsed::CollapsedDiffVisibleRow;
use crate::diff::patch_rows::DiffLine;
use crate::diff::split_rows::DiffClickKind;
use crate::diff::split_rows::PatchSplitRow;
use crate::diff::syntax_cache::DiffTextRegion;
use crate::search::bytes::holds;
use crate::search::capture::DiffContents;
use crate::search::collect::lemma_row_of;
use crate::search::collect::numbers;
use crate::search::collect::offsets_of;
use crate::search::collect::row_of;
use crate::search::collect::side_matches;
use crate::search::collect::side_rows;
use crate::search::collect::single_offsets;
use crate::search::collect::split_found;
use crate::search::collect::split_hits;
use crate::search::conflict_rows::summary;
use crate::search::conflict_rows::ConflictResolverSearchContext;
use crate::search::conflict_rows::SearchColumn;
use crate::search::conflict_rows::ThreeWayVisibleSpan;
use crate::search::document::SearchDocumentKind;
use crate::search::general::listed_hits;
use crate::search::general::shown_lines;
use crate::search::general::shown_sides;
use crate::search::general::wrapped_hits;
use crate::search::general::GeneralView;
use crate::search::hits::lemma_rows_where_are;
use crate::search::hits::lemma_rows_where_same;
use crate::search::hits::rows_where;
use crate::search::hits::settled_rows;
use crate::search::inline_patch::shown_sources;
use crate::search::inline_patch::shown_text;
use crate::search::joined::row_start;
use crate::search::joined::unended;
use crate::search::matcher::found;
use crate::search::matcher::Sought;
use crate::search::needle::displayed;
use crate::search::rows::column_rows;
use crate::search::rows::visual_rows;
use crate::search::rows::RowDocument;
use crate::search::scan::page_hits;
use crate::search::scan::pages_hits;
use crate::search::scan::MarkdownPage;
use crate::search::scan::RowStyle;
use crate::search::scan::SearchView;
use crate::search::source::DiffRowsSource;
use crate::search::source::SearchRowPlace;
use crate::search::view_rows::by_needle;
use crate::search::view_rows::parts_hold;
use crate::search::view_rows::present_rows;
use crate::search::view_rows::present_sides;
use crate::search::view_rows::region_rows;
use crate::search::view_rows::Screen;
use crate::search::view_rows::ScreenRow;
use crate::search::view_rows::ScreenTexts;
use crate::search::wrap::is_visual_row;
use crate::search::wrap::line_ends;
use crate::search::wrap::line_holds;
use crate::search::wrap::line_of;
use crate::search::wrap::DiffWrapVisualRow;
use vstd::prelude::*;
use vstd::utf8::decode_utf8;
use vstd::utf8::encode_utf8;

verus! {

/// Rows that were come upon are listed from the top, each once: the list grows,
/// has every one of them and no other.
pub proof fn law_found_rows_are_listed_once(settled: Seq<usize>, rows: Seq<usize>, i: int, j: int)
    requires
        settled_rows(settled, rows),
    ensures
        0 <= i < j < settled.len() ==> settled[i] < settled[j],
        0 <= i < settled.len() ==> exists|k: int|
            0 <= k < rows.len() && #[trigger] rows[k] == settled[i],
        0 <= j < rows.len() ==> exists|k: int|
            0 <= k < settled.len() && #[trigger] settled[k] == rows[j],
{
    if 0 <= i < settled.len() {
        assert(settled.contains(settled[i]));
        assert(rows.contains(settled[i]));
    }
    if 0 <= j < rows.len() {
        assert(rows.contains(rows[j]));
        assert(settled.contains(rows[j]));
    }
}

/// The line of the screen for a byte of a row is a line of that row. It is the
/// first that shows the byte, from where the line starts up to where it ends;
/// where none does, the last that ends at the byte; where none does that either,
/// the row's first. A row that was not broken is a line of the same number.
pub proof fn law_line_of_the_screen_shows_the_byte(
    lines: Seq<DiffWrapVisualRow>,
    source: int,
    offset: int,
    ix: int,
    other: int,
)
    requires
        is_visual_row(lines, source, 0, offset, ix),
        0 <= other < lines.len(),
    ensures
        ({
            let of_row = |k: int| lines[k].source_visible_ix == source;
            let shows = |k: int|
                of_row(k) && lines[k].primary_start <= offset < lines[k].primary_end;
            &&& of_row(other) ==> 0 <= ix < lines.len() && of_row(ix)
            &&& shows(other) ==> ix <= other && (shows(ix) || (lines[ix].primary_start
                == lines[ix].primary_end && lines[ix].primary_start == offset))
            &&& (forall|k: int| 0 <= k < lines.len() ==> (#[trigger] lines[k]).source_visible_ix
                != source) ==> ix == source
        }),
{
    let of_row = lines[other].source_visible_ix == source;
    if of_row {
        assert(line_of(lines, source, other));
    }
    if of_row && lines[other].primary_start <= offset < lines[other].primary_end {
        assert(line_holds(lines, source, 0, offset, other));
    }
    if forall|k: int| 0 <= k < lines.len() ==> (#[trigger] lines[k]).source_visible_ix != source {
        assert forall|k: int| !#[trigger] line_of(lines, source, k) by {}
        assert forall|k: int| !#[trigger] line_holds(lines, source, 0, offset, k) by {}
        assert forall|k: int| !#[trigger] line_ends(lines, source, 0, offset, k) by {}
    }
}

/// The same in the right column, by where the lines start and end there.
pub proof fn law_line_of_the_screen_shows_the_right_side(
    lines: Seq<DiffWrapVisualRow>,
    source: int,
    offset: int,
    ix: int,
    other: int,
)
    requires
        is_visual_row(lines, source, 1, offset, ix),
        0 <= other < lines.len(),
        lines[other].source_visible_ix == source,
        lines[other].secondary_start <= offset < lines[other].secondary_end,
    ensures
        0 <= ix <= other,
        lines[ix].source_visible_ix == source,
        lines[ix].secondary_start <= offset <= lines[ix].secondary_end,
{
    assert(line_holds(lines, source, 1, offset, other));
}

/// A row that holds a match of a literal on one line is listed with where the
/// first one starts in it, and a row that holds none is not.
pub proof fn law_rows_are_listed_with_their_first_match(
    sought: Sought,
    rows: Seq<(usize, Seq<char>)>,
    n: int,
    i: int,
)
    requires
        0 <= i < n <= rows.len(),
    ensures
        found(sought, unended(rows[i].1), 0) is Some ==> single_offsets(sought, rows, n).contains(
            (rows[i].0, found(sought, unended(rows[i].1), 0)->Some_0.0 as usize),
        ),
        (forall|k: int| 0 <= k < n ==> found(sought, unended((#[trigger] rows[k]).1), 0) is None)
            ==> single_offsets(sought, rows, n).len() == 0,
        !sought.options.regex && (forall|k: int|
            0 <= k < sought.query.len() ==> #[trigger] sought.query[k] != '\n') ==> offsets_of(
            sought,
            rows,
        ) == single_offsets(sought, rows, rows.len() as int),
    decreases n,
{
    if n > 1 {
        law_rows_are_listed_with_their_first_match(sought, rows, n - 1, if i < n - 1 {
            i
        } else {
            0
        });
    }
    let before = single_offsets(sought, rows, n - 1);
    let all = single_offsets(sought, rows, n);
    if found(sought, unended(rows[i].1), 0) is Some {
        let item = (rows[i].0, found(sought, unended(rows[i].1), 0)->Some_0.0 as usize);
        if i < n - 1 {
            let k = choose|k: int| 0 <= k < before.len() && before[k] == item;
            assert(all[k] == item);
        } else {
            assert(all[all.len() - 1] == item);
        }
    }
    assert(rows[n - 1] == rows[n - 1]);
    if sought.query.contains('\n') {
        let k = choose|k: int| 0 <= k < sought.query.len() && sought.query[k] == '\n';
        assert(sought.query[k] == '\n');
    }
}

/// A place in rows as one text is in the row that starts at it or before, and
/// whose next row starts behind it.
pub proof fn law_place_is_in_the_row_around_it(rows: Seq<(usize, Seq<u8>)>, at: int)
    requires
        rows.len() > 0,
        0 <= at,
    ensures
        ({
            let row = row_of(rows, rows.len() as int, at);
            &&& 0 <= row < rows.len()
            &&& row_start(rows, row) <= at
            &&& row + 1 < rows.len() ==> at < row_start(rows, row + 1)
        }),
{
    lemma_row_of(rows, rows.len() as int, at);
}

/// A row in two columns is listed where a match of a literal on one line is found
/// on one of its sides, without the carriage return at its end.
pub proof fn law_row_is_listed_for_either_side(
    sought: Sought,
    rows: Seq<(usize, Option<Seq<char>>, Option<Seq<char>>)>,
    n: int,
    i: int,
)
    requires
        0 <= i < n <= rows.len(),
    ensures
        ({
            let left = rows[i].1 is Some && found(sought, unended(rows[i].1->Some_0), 0) is Some;
            let right = rows[i].2 is Some && found(sought, unended(rows[i].2->Some_0), 0) is Some;
            left || right ==> split_hits(sought, rows, n).contains(rows[i].0)
        }),
        (forall|k: int|
            0 <= k < n ==> ((#[trigger] rows[k]).1 is None || found(
                sought,
                unended(rows[k].1->Some_0),
                0,
            ) is None) && (rows[k].2 is None || found(
                sought,
                unended(rows[k].2->Some_0),
                0,
            ) is None)) ==> split_hits(sought, rows, n).len() == 0,
    decreases n,
{
    if n > 1 {
        law_row_is_listed_for_either_side(sought, rows, n - 1, if i < n - 1 {
            i
        } else {
            0
        });
    }
    let before = split_hits(sought, rows, n - 1);
    let all = split_hits(sought, rows, n);
    if side_matches(sought, rows[i].1) || side_matches(sought, rows[i].2) {
        if i < n - 1 {
            let k = choose|k: int| 0 <= k < before.len() && before[k] == rows[i].0;
            assert(all[k] == rows[i].0);
        } else {
            assert(all[all.len() - 1] == rows[i].0);
        }
    }
    assert(rows[n - 1] == rows[n - 1]);
}

/// A query that may run over rows is looked for in both columns, each by itself
/// and with an empty row where a side has none.
pub proof fn law_both_columns_are_gone_through(
    sought: Sought,
    rows: Seq<(usize, Option<Seq<char>>, Option<Seq<char>>)>,
    i: int,
)
    requires
        0 <= i < rows.len(),
        sought.options.regex || sought.query.contains('\n'),
    ensures
        split_found(sought, rows) == numbers(offsets_of(sought, side_rows(rows, false))) + numbers(
            offsets_of(sought, side_rows(rows, true)),
        ),
        side_rows(rows, false).len() == rows.len(),
        side_rows(rows, true).len() == rows.len(),
        side_rows(rows, false)[i].0 == rows[i].0,
        side_rows(rows, true)[i].0 == rows[i].0,
        rows[i].1 matches Some(text) ==> side_rows(rows, false)[i].1 == text,
        rows[i].2 matches Some(text) ==> side_rows(rows, true)[i].1 == text,
        rows[i].1 is None ==> side_rows(rows, false)[i].1.len() == 0,
        rows[i].2 is None ==> side_rows(rows, true)[i].1.len() == 0,
{
}

/// A line of a patch is searched as it is shown: a header by the text that stands
/// for it, if there is one, and any other line by its own, with its tabs as
/// spaces.
pub proof fn law_patch_line_is_searched_as_it_is_shown(
    lines: Seq<DiffLine>,
    click_kinds: Seq<DiffClickKind>,
    headers: Map<usize, String>,
    src_ix: int,
)
    requires
        0 <= src_ix < lines.len(),
        click_kinds.len() == lines.len(),
        src_ix <= usize::MAX,
    ensures
        ({
            let shown = shown_text(lines, click_kinds, headers, src_ix);
            let is_header = click_kinds[src_ix] is HunkHeader || click_kinds[src_ix] is FileHeader;
            let has_text = headers.dom().contains(src_ix as usize);
            &&& is_header && has_text ==> shown == Some(headers[src_ix as usize]@)
            &&& !is_header || !has_text ==> shown == Some(displayed(lines[src_ix].text@))
        }),
{
}

/// The row of a folded diff that is a header is searched by the header's text, and
/// any other by the row of the file that it shows. Rows that are not folded are
/// those that are shown, in their order.
pub proof fn law_folded_row_is_searched_by_what_it_shows(
    source: DiffRowsSource<'_>,
    rows: &[CollapsedDiffVisibleRow],
    visible: int,
)
    requires
        source.collapsed == Some(rows),
        0 <= visible < rows@.len(),
    ensures
        match rows@[visible] {
            CollapsedDiffVisibleRow::HunkHeader { display_src_ix, .. } => match display_src_ix {
                Some(header) => source.text(visible, 0) == (if source.headers@.dom().contains(
                    header,
                ) {
                    Some(source.headers@[header]@)
                } else {
                    None
                }),
                None => source.text(visible, 0) is None,
            },
            CollapsedDiffVisibleRow::FileRow { row_ix } => source.place(visible) == Some(
                SearchRowPlace::Row(row_ix),
            ),
        },
{
}

/// The left column of a split diff is searched by the old side of its rows, and
/// the right one by the new side, with tabs as spaces.
pub proof fn law_columns_are_searched_by_their_sides(
    source: DiffRowsSource<'_>,
    visible: int,
    row: usize,
)
    requires
        source.view is Split,
        source.place(visible) == Some(SearchRowPlace::Row(row)),
    ensures
        source.file_view && row < source.file_rows@.len() ==> {
            let sides = source.file_rows@[row as int];
            &&& sides.old matches Some(text) ==> source.text(visible, 0) == Some(displayed(text@))
            &&& sides.new matches Some(text) ==> source.text(visible, 1) == Some(displayed(text@))
            &&& sides.old is None ==> source.text(visible, 0) is None
            &&& sides.new is None ==> source.text(visible, 1) is None
        },
        !source.file_view && row < source.split_rows@.len() ==> (
        source.split_rows@[row as int] matches PatchSplitRow::Aligned { row: sides, .. } ==> {
            &&& sides.old matches Some(text) ==> source.text(visible, 0) == Some(displayed(text@))
            &&& sides.new matches Some(text) ==> source.text(visible, 1) == Some(displayed(text@))
            &&& sides.old is None ==> source.text(visible, 0) is None
            &&& sides.new is None ==> source.text(visible, 1) is None
        }),
        !source.file_view && row < source.split_rows@.len() ==> (
        source.split_rows@[row as int] matches PatchSplitRow::Raw { src_ix, .. } ==> {
            let has_text = source.headers@.dom().contains(src_ix);
            &&& has_text ==> source.text(visible, 0) == Some(source.headers@[src_ix]@)
                && source.text(visible, 1) == Some(source.headers@[src_ix]@)
            &&& !has_text && src_ix < source.patch.lines@.len() ==> source.text(visible, 0) == Some(
                displayed(source.patch.lines@[src_ix as int].text@),
            )
        }),
{
}

/// The one column of a file diff is searched by its own texts, tabs as they are
/// unless rows are broken; that of a patch by its lines as they are shown.
pub proof fn law_one_column_is_searched_by_its_lines(
    source: DiffRowsSource<'_>,
    visible: int,
    row: usize,
)
    requires
        source.view is Inline,
        source.place(visible) == Some(SearchRowPlace::Row(row)),
    ensures
        source.file_view && row < source.inline_texts@.len() && !source.word_wrap ==> source.text(
            visible,
            0,
        ) == Some(source.inline_texts@[row as int]@),
        source.file_view && row < source.inline_texts@.len() && source.word_wrap ==> source.text(
            visible,
            0,
        ) == Some(displayed(source.inline_texts@[row as int]@)),
        !source.file_view && source.headers@.dom().contains(row) ==> source.text(visible, 0)
            == Some(source.headers@[row]@),
        !source.file_view && !source.headers@.dom().contains(row) && row
            < source.patch.lines@.len() ==> source.text(visible, 0) == Some(
            displayed(source.patch.lines@[row as int].text@),
        ),
{
}

/// Rows on screen are searched in the column that is asked for, all of them, each
/// by its place.
pub proof fn law_screen_rows_are_searched_by_their_column(
    rows: Seq<ScreenRow>,
    n: int,
    i: int,
)
    requires
        0 <= i < n <= rows.len(),
        n <= usize::MAX,
    ensures
        region_rows(rows, DiffTextRegion::Inline, n).len() == n,
        region_rows(rows, DiffTextRegion::Inline, n)[i] == (i as usize, rows[i].inline@),
        region_rows(rows, DiffTextRegion::SplitLeft, n).len() == n,
        region_rows(rows, DiffTextRegion::SplitLeft, n)[i] == (i as usize, rows[i].left@),
        region_rows(rows, DiffTextRegion::SplitRight, n).len() == n,
        region_rows(rows, DiffTextRegion::SplitRight, n)[i] == (i as usize, rows[i].right@),
{
}

/// Texts that are there are searched, each by its place, and those that are not
/// are left out.
pub proof fn law_texts_that_are_there_are_searched(texts: Seq<Option<String>>, n: int, i: int)
    requires
        0 <= i < n <= texts.len(),
        n <= usize::MAX,
    ensures
        texts[i] matches Some(text) ==> present_rows(texts, n).contains((i as usize, text@)),
        forall|k: int|
            0 <= k < present_rows(texts, n).len() ==> (#[trigger] present_rows(texts, n)[k]).0 < n
                && texts[present_rows(texts, n)[k].0 as int] is Some
                && texts[present_rows(texts, n)[k].0 as int]->Some_0@ == present_rows(texts, n)[k].1,
        forall|j: int, k: int|
            0 <= j < k < present_rows(texts, n).len() ==> (#[trigger] present_rows(texts, n)[j]).0
                < (#[trigger] present_rows(texts, n)[k]).0,
    decreases n,
{
    let before = present_rows(texts, n - 1);
    let all = present_rows(texts, n);
    if n > 1 {
        law_texts_that_are_there_are_searched(texts, n - 1, if i < n - 1 {
            i
        } else {
            0
        });
    } else {
        assert(before.len() == 0);
    }
    if let Some(text) = texts[i] {
        let item = (i as usize, text@);
        if i < n - 1 {
            let k = choose|k: int| 0 <= k < before.len() && before[k] == item;
            assert(all[k] == item);
        } else {
            assert(all[all.len() - 1] == item);
        }
    }
    assert forall|k: int| 0 <= k < all.len() implies (#[trigger] all[k]).0 < n
        && texts[all[k].0 as int] is Some && texts[all[k].0 as int]->Some_0@ == all[k].1 by {
        if k < before.len() {
            assert(all[k] == before[k]);
        }
    }
    assert forall|j: int, k: int| 0 <= j < k < all.len() implies (#[trigger] all[j]).0 < (
    #[trigger] all[k]).0 by {
        assert(all[j] == before[j]);
        if k < before.len() {
            assert(all[k] == before[k]);
        }
    }
}

/// The same of rows in two columns.
pub proof fn law_sides_that_are_there_are_searched(
    rows: Seq<Option<(Option<String>, Option<String>)>>,
    n: int,
    i: int,
)
    requires
        0 <= i < n <= rows.len(),
        rows[i] is Some,
    ensures
        ({
            let (left, right) = rows[i]->Some_0;
            let left_text = match left {
                Some(text) => Some(text@),
                None => None,
            };
            let right_text = match right {
                Some(text) => Some(text@),
                None => None,
            };
            present_sides(rows, n).contains((i as usize, left_text, right_text))
        }),
    decreases n,
{
    let before = present_sides(rows, n - 1);
    let all = present_sides(rows, n);
    let (left, right) = rows[i]->Some_0;
    let item = (
        i as usize,
        crate::search::source::some_chars(left),
        crate::search::source::some_chars(right),
    );
    if i < n - 1 {
        law_sides_that_are_there_are_searched(rows, n - 1, i);
        let k = choose|k: int| 0 <= k < before.len() && before[k] == item;
        assert(all[k] == item);
    } else {
        assert(all[all.len() - 1] == item);
    }
}

/// Broken rows are searched whole, in one column or in both; a file diff by its
/// own texts; any other rows as they are drawn, in the columns that are drawn.
pub proof fn law_rows_are_searched_as_the_view_has_them(texts: ScreenTexts, view: SearchView)
    ensures
        ({
            let full = texts.full_count();
            let shown = texts.shown_rows@.len() as int;
            let by_view = texts.diff_view(view);
            &&& 0 <= full <= texts.full_rows@.len()
            &&& view.word_wrap ==> (by_view matches GeneralView::Wrapped {
                columns,
                lines_known,
                lines,
            } && lines == texts.broken_lines@ && lines_known == (texts.broken_rows is Some)
                && columns.len() == (if view.split_view {
                2int
            } else {
                1
            }) && (view.split_view ==> columns[0] == region_rows(
                texts.full_rows@,
                DiffTextRegion::SplitLeft,
                full,
            ) && columns[1] == region_rows(texts.full_rows@, DiffTextRegion::SplitRight, full)) && (
            !view.split_view ==> columns[0] == region_rows(
                texts.full_rows@,
                DiffTextRegion::Inline,
                full,
            )))
            &&& !view.word_wrap && view.file_view && !view.split_view ==> (
            by_view matches GeneralView::Listed { rows, streamed } && streamed && rows
                == present_rows(texts.file_inline@, texts.file_inline@.len() as int))
            &&& !view.word_wrap && view.file_view && view.split_view ==> (
            by_view matches GeneralView::Sides { rows } && rows == present_sides(
                texts.file_sides@,
                texts.file_sides@.len() as int,
            ))
            &&& !view.word_wrap && !view.file_view && view.split_view ==> (
            by_view matches GeneralView::Columns { left, right } && left == region_rows(
                texts.shown_rows@,
                DiffTextRegion::SplitLeft,
                shown,
            ) && right == region_rows(texts.shown_rows@, DiffTextRegion::SplitRight, shown))
            &&& !view.word_wrap && !view.file_view && !view.split_view ==> (
            by_view matches GeneralView::Listed { rows, streamed } && !streamed && rows
                == region_rows(texts.shown_rows@, DiffTextRegion::Inline, shown))
        }),
{
}

/// As many rows are searched before they are broken as were broken, or as are on
/// screen while none were, and never more than there are.
pub proof fn law_broken_rows_are_all_searched(texts: ScreenTexts)
    ensures
        texts.broken_rows matches Some(count) ==> {
            &&& count <= texts.full_rows@.len() ==> texts.full_count() == count
            &&& count >= texts.full_rows@.len() ==> texts.full_count() == texts.full_rows@.len()
        },
        texts.broken_rows is None && texts.shown_rows@.len() <= texts.full_rows@.len()
            ==> texts.full_count() == texts.shown_rows@.len(),
{
}

/// Rows that are looked at one by one are those of one column by its text, and
/// those of two by both; a file diff by its own texts and others as drawn.
pub proof fn law_rows_looked_at_are_those_on_screen(
    texts: ScreenTexts,
    view: SearchView,
    i: int,
)
    requires
        !view.file_view || view.word_wrap,
        0 <= i < texts.shown_rows@.len(),
    ensures
        ({
            let rows = texts.needle_view(view);
            let row = texts.shown_rows@[i];
            &&& rows.len() == texts.shown_rows@.len()
            &&& view.split_view ==> rows[i] == (Some(row.left@), Some(row.right@))
            &&& !view.split_view ==> rows[i].0 == Some(row.inline@) && rows[i].1 is None
            &&& view.split_view ==> texts.needle_style(view) == RowStyle::Split
            &&& !view.split_view ==> texts.needle_style(view) == RowStyle::Inline
        }),
{
}

/// The same of a file diff whose rows are not broken.
pub proof fn law_file_rows_looked_at_are_their_own_texts(
    texts: ScreenTexts,
    view: SearchView,
    i: int,
)
    requires
        view.file_view,
        !view.word_wrap,
    ensures
        ({
            let rows = texts.needle_view(view);
            &&& view.split_view ==> rows.len() == texts.file_sides@.len()
            &&& !view.split_view ==> rows.len() == texts.file_inline@.len()
            &&& view.split_view && 0 <= i < rows.len() && texts.file_sides@[i] is Some ==> {
                let (left, right) = texts.file_sides@[i]->Some_0;
                &&& rows[i].0 is Some == left is Some
                &&& rows[i].1 is Some == right is Some
                &&& left matches Some(text) ==> rows[i].0 == Some(text@)
                &&& right matches Some(text) ==> rows[i].1 == Some(text@)
            }
            &&& !view.split_view && 0 <= i < rows.len() ==> rows[i].1 is None && (
            texts.file_inline@[i] matches Some(text) ==> rows[i].0 == Some(text@))
            &&& view.split_view ==> texts.needle_style(view) == RowStyle::SplitFile
        }),
{
}

/// Rows are looked at one by one just where they are not broken and a literal on
/// one line is sought, in letters of either case and not as whole words.
pub proof fn law_literals_are_sought_row_by_row(view: SearchView, sought: Sought)
    ensures
        by_needle(view, sought) <==> !view.word_wrap && sought.query.len() > 0
            && !sought.options.match_case && !sought.options.whole_word && !sought.options.regex
            && (forall|k: int| 0 <= k < sought.query.len() ==> #[trigger] sought.query[k] != '\n'),
{
    if sought.query.contains('\n') {
        let k = choose|k: int| 0 <= k < sought.query.len() && sought.query[k] == '\n';
        assert(sought.query[k] == '\n');
    }
}

/// Two columns are gone through one behind the other, sides as they are shown, and
/// broken columns by the lines of the screen once those are known.
pub proof fn law_every_column_is_gone_through(
    sought: Sought,
    left: Seq<(usize, Seq<char>)>,
    right: Seq<(usize, Seq<char>)>,
    columns: Seq<Seq<(usize, Seq<char>)>>,
    lines: Seq<DiffWrapVisualRow>,
    n: int,
)
    requires
        0 < n <= columns.len(),
    ensures
        (GeneralView::Columns { left, right }).hits(sought) == numbers(offsets_of(sought, left))
            + numbers(offsets_of(sought, right)),
        listed_hits(sought, left, false) == numbers(offsets_of(sought, left)),
        wrapped_hits(sought, columns, false, lines, n) == wrapped_hits(
            sought,
            columns,
            false,
            lines,
            n - 1,
        ) + numbers(offsets_of(sought, columns[n - 1])),
        wrapped_hits(sought, columns, true, lines, n).len() == wrapped_hits(
            sought,
            columns,
            true,
            lines,
            n - 1,
        ).len() + offsets_of(sought, columns[n - 1]).len(),
        shown_lines(true, lines, n, Seq::empty()).len() == 0,
{
}

/// The columns of the merge view are searched by their own versions: a span of
/// lines in each of the three by that version's lines, a folded conflict in none
/// of them but by its summary.
pub proof fn law_merge_columns_are_searched_by_their_versions(
    context: ConflictResolverSearchContext<'_>,
    span: ThreeWayVisibleSpan,
    i: int,
)
    requires
        span.wf(),
    ensures
        span matches ThreeWayVisibleSpan::Lines { visible_start, source_line_start, len } ==> {
            let base = context.span_column(SearchColumn::Base, span);
            let ours = context.span_column(SearchColumn::Ours, span);
            let theirs = context.span_column(SearchColumn::Theirs, span);
            &&& base.len() == len && ours.len() == len && theirs.len() == len
            &&& context.span_column(SearchColumn::Summary, span).len() == 0
            &&& 0 <= i < len ==> base[i] == (
                (visible_start + i) as usize,
                decode_utf8(context.base_bytes(source_line_start + i)),
            ) && ours[i] == (
                (visible_start + i) as usize,
                decode_utf8(context.ours_bytes(source_line_start + i)),
            ) && theirs[i] == (
                (visible_start + i) as usize,
                decode_utf8(context.theirs_bytes(source_line_start + i)),
            )
        },
        span matches ThreeWayVisibleSpan::CollapsedResolvedBlock { visible_index, conflict_ix }
            ==> {
            let summaries = context.span_column(SearchColumn::Summary, span);
            &&& summaries.len() == 1
            &&& summaries[0] == (
                visible_index,
                summary(context.marker_segments@, conflict_ix as int),
            )
            &&& context.span_column(SearchColumn::Base, span).len() == 0
            &&& context.span_column(SearchColumn::Ours, span).len() == 0
            &&& context.span_column(SearchColumn::Theirs, span).len() == 0
        },
        span is CollapsedContext ==> context.span_column(SearchColumn::Base, span).len() == 0
            && context.span_column(SearchColumn::Ours, span).len() == 0 && context.span_column(
            SearchColumn::Theirs,
            span,
        ).len() == 0 && context.span_column(SearchColumn::Summary, span).len() == 0,
{
}

/// What is copied of the screen for a search is what covers everything else.
pub proof fn law_copy_is_of_what_is_on_top(view: SearchView)
    ensures
        view.editor_active ==> view.document_kind() == SearchDocumentKind::Editor,
        !view.editor_active && view.markdown_active ==> view.document_kind()
            == SearchDocumentKind::Pages,
        !view.editor_active && !view.markdown_active && view.preview_active
            ==> view.document_kind() == SearchDocumentKind::PreviewRows,
        !view.editor_active && !view.markdown_active && !view.preview_active && view.conflict
            ==> view.document_kind() == SearchDocumentKind::Conflict,
        !view.editor_active && !view.markdown_active && !view.preview_active && !view.conflict
            ==> view.document_kind() == SearchDocumentKind::DiffRows,
{
}

/// The merge view is gone through in all its columns: the base, ours, theirs and
/// the summaries of folded conflicts, and in the two-way view both sides.
pub proof fn law_merge_view_is_gone_through_in_all_columns(
    context: ConflictResolverSearchContext<'_>,
    sought: Sought,
    column: SearchColumn,
    i: int,
)
    requires
        0 <= i < offsets_of(
            sought,
            context.column(column, context.three_way_visible@.len() as int),
        ).len(),
    ensures
        ({
            let found_rows = context.three_way_found(sought);
            let offsets = offsets_of(
                sought,
                context.column(column, context.three_way_visible@.len() as int),
            );
            &&& found_rows.contains(offsets[i].0)
            &&& context.view_mode is ThreeWay ==> context.matcher_hits(sought) == found_rows
            &&& context.view_mode is TwoWayDiff ==> context.matcher_hits(sought) == split_found(
                sought,
                context.two_way_sides(),
            )
        }),
{
    let n = context.three_way_visible@.len() as int;
    let a = numbers(offsets_of(sought, context.column(SearchColumn::Base, n)));
    let b = numbers(offsets_of(sought, context.column(SearchColumn::Ours, n)));
    let c = numbers(offsets_of(sought, context.column(SearchColumn::Theirs, n)));
    let d = numbers(offsets_of(sought, context.column(SearchColumn::Summary, n)));
    let all = context.three_way_found(sought);
    let row = offsets_of(sought, context.column(column, n))[i].0;
    match column {
        SearchColumn::Base => {
            assert(all[i] == row);
        },
        SearchColumn::Ours => {
            assert(all[a.len() + i] == row);
        },
        SearchColumn::Theirs => {
            assert(all[a.len() + b.len() + i] == row);
        },
        SearchColumn::Summary => {
            assert(all[a.len() + b.len() + c.len() + i] == row);
        },
    }
}

/// The rows of the two-way view are searched by their sides, each by its place.
pub proof fn law_two_way_rows_have_two_sides(context: ConflictResolverSearchContext<'_>, i: int)
    requires
        0 <= i < context.two_way_rows@.len(),
    ensures
        ({
            let sides = context.two_way_sides();
            let row = context.two_way_rows@[i];
            &&& sides.len() == context.two_way_rows@.len()
            &&& sides[i].0 == i as usize
            &&& row.old is None ==> sides[i].1 is None
            &&& row.new is None ==> sides[i].2 is None
            &&& row.old matches Some(text) ==> sides[i].1 == Some(text@)
            &&& row.new matches Some(text) ==> sides[i].2 == Some(text@)
        }),
{
}

/// The sides of a file diff are searched as they are shown.
pub proof fn law_sides_are_searched_as_they_are_shown(
    sought: Sought,
    rows: Seq<(usize, Option<Seq<char>>, Option<Seq<char>>)>,
    i: int,
)
    requires
        0 <= i < rows.len(),
    ensures
        ({
            let shown = shown_sides(rows);
            &&& (GeneralView::Sides { rows }).hits(sought) == split_found(sought, shown)
            &&& shown.len() == rows.len()
            &&& shown[i].0 == rows[i].0
            &&& rows[i].1 is None ==> shown[i].1 is None
            &&& rows[i].2 is None ==> shown[i].2 is None
            &&& rows[i].1 matches Some(text) ==> shown[i].1 == Some(displayed(text))
            &&& rows[i].2 matches Some(text) ==> shown[i].2 == Some(displayed(text))
        }),
{
}

/// All pages are gone through.
pub proof fn law_every_page_is_gone_through(
    sought: Sought,
    pages: Seq<MarkdownPage>,
    n: int,
    page: int,
    i: int,
)
    requires
        0 <= page < n <= pages.len(),
        0 <= i < page_hits(sought, pages[page], pages[page].rows@.len() as int).len(),
    ensures
        pages_hits(sought, pages, n).contains(
            page_hits(sought, pages[page], pages[page].rows@.len() as int)[i],
        ),
    decreases n,
{
    let own = page_hits(sought, pages[page], pages[page].rows@.len() as int);
    let before = pages_hits(sought, pages, n - 1);
    let all = pages_hits(sought, pages, n);
    if page < n - 1 {
        law_every_page_is_gone_through(sought, pages, n - 1, page, i);
        let k = choose|k: int| 0 <= k < before.len() && before[k] == own[i];
        assert(all[k] == own[i]);
    } else {
        assert(all[before.len() + i] == own[i]);
    }
}

/// A literal is found in the rows of what is gone through: the lines of a file, the
/// rows of the merge view or of a patch, or those of a diff, each where one of its
/// texts holds it, as it is shown where the view shows it so.
pub proof fn law_screen_is_searched_row_by_row(
    screen: Screen<'_>,
    view: SearchView,
    needle: Seq<u8>,
    row: int,
)
    requires
        screen.texts.preview_lines@.len() <= usize::MAX,
        screen.patch.sources().len() <= usize::MAX,
        0 <= row,
    ensures
        view.plan() is Preview && row < screen.texts.preview_lines@.len() ==> (
        screen.needle_hits(view, needle).contains(row as usize)
            <==> screen.texts.preview_lines@[row] is Some && holds(
            encode_utf8(screen.texts.preview_lines@[row]->Some_0@),
            needle,
            false,
        )),
        view.plan() is InlinePatch && row < screen.patch.sources().len() ==> (screen.needle_hits(
            view,
            needle,
        ).contains(row as usize) <==> screen.patch.text(row) is Some && holds(
            encode_utf8(screen.patch.text(row)->Some_0),
            needle,
            false,
        )),
        view.plan() is Conflict && screen.conflict.view_mode is ThreeWay ==> screen.needle_hits(
            view,
            needle,
        ) == screen.conflict.spans_hits(needle, screen.conflict.three_way_visible@.len() as int),
        view.plan() is Editor || view.plan() is Nothing ==> screen.needle_hits(view, needle).len()
            == 0,
{
    if view.plan() is Preview && row < screen.texts.preview_lines@.len() {
        let lines = screen.texts.preview_lines@;
        let test = |line: int|
            crate::search::view_rows::part_holds(
                crate::search::source::some_chars(lines[line]),
                false,
                needle,
            );
        let n = lines.len() as int;
        lemma_rows_where_are(n, test);
        lemma_rows_where_same(
            n,
            test,
            |line: int|
                crate::search::view_rows::part_holds(
                    crate::search::source::some_chars(screen.texts.preview_lines@[line]),
                    false,
                    needle,
                ),
        );
        let all = rows_where(n, test);
        assert(screen.needle_hits(view, needle) == all);
        if all.contains(row as usize) {
            let i = choose|i: int| 0 <= i < all.len() && all[i] == row as usize;
            assert(test(all[i] as int));
        }
        assert(test(row) ==> all.contains(row as usize));
    }
    if view.plan() is InlinePatch && row < screen.patch.sources().len() {
        let patch = screen.patch;
        let test = |r: int| patch.row_holds(needle, r);
        let n = patch.sources().len() as int;
        lemma_rows_where_are(n, test);
        let all = rows_where(n, test);
        assert(patch.hits(needle) == all) by {
            lemma_rows_where_same(n, test, |row: int| patch.row_holds(needle, row));
        }
        if all.contains(row as usize) {
            let i = choose|i: int| 0 <= i < all.len() && all[i] == row as usize;
            assert(test(all[i] as int));
        }
        assert(test(row) ==> all.contains(row as usize));
    }
}

/// A row of a diff that is looked at by itself holds a literal where its text does,
/// and in two columns where one of its texts does; the texts of a file diff in two
/// columns count as they are shown.
pub proof fn law_row_by_itself_holds_what_its_texts_hold(
    left: Option<Seq<char>>,
    right: Option<Seq<char>>,
    needle: Seq<u8>,
)
    ensures
        ({
            let plain = |text: Option<Seq<char>>|
                text is Some && holds(encode_utf8(text->Some_0), needle, false);
            let shown = |text: Option<Seq<char>>|
                text is Some && holds(encode_utf8(displayed(text->Some_0)), needle, false);
            &&& parts_hold(RowStyle::Inline, (left, right), needle) == plain(left)
            &&& parts_hold(RowStyle::Split, (left, right), needle) == (plain(left) || plain(right))
            &&& parts_hold(RowStyle::SplitFile, (left, right), needle) == (shown(left) || shown(
                right,
            ))
        }),
{
}

/// A query that may run over rows is looked for in what is gone through.
pub proof fn law_general_query_goes_through_the_plan(
    screen: Screen<'_>,
    view: SearchView,
    sought: Sought,
)
    ensures
        ({
            let hits = screen.general_hits(view, sought);
            let streamed = screen.texts.preview_source_len > 0 && screen.texts.preview_text_len
                == 0;
            &&& view.plan() is Preview ==> hits == listed_hits(
                sought,
                present_rows(
                    screen.texts.preview_lines@,
                    screen.texts.preview_lines@.len() as int,
                ),
                streamed,
            )
            &&& view.plan() is Conflict ==> hits == screen.conflict.matcher_hits(sought)
            &&& view.plan() is InlinePatch ==> hits == numbers(
                offsets_of(sought, screen.patch.texts(screen.patch.sources().len() as int)),
            )
            &&& view.plan() is Rows ==> hits == screen.texts.diff_view(view).hits(sought)
        }),
{
}

/// Without a map the lines of a patch that are shown are those that are listed.
pub proof fn law_listed_lines_are_shown(indices: Seq<usize>, i: int)
    requires
        0 <= i < indices.len(),
    ensures
        shown_sources(None, indices).len() == indices.len(),
        shown_sources(None, indices)[i] == indices[i],
{
}

/// A column of a copy gives, behind what came before it, the lines of the screen of
/// its matches where rows are broken, and else its rows with a match.
pub proof fn law_column_adds_what_it_holds(
    document: RowDocument,
    sought: Sought,
    texts: Seq<Vec<Option<String>>>,
    column: int,
    before: Seq<usize>,
)
    ensures
        ({
            let rows = column_rows(texts, column);
            let after = document.column_hits(sought, texts, column, before);
            &&& document.wrapped@.len() > 0 ==> after == before + visual_rows(
                document.wrapped@,
                column,
                offsets_of(sought, rows),
            )
            &&& document.wrapped@.len() == 0 && !document.streamed ==> after == before + numbers(
                offsets_of(sought, rows),
            )
            &&& rows.len() == texts.len()
        }),
        document.columns_hits(sought, texts, 0).len() == 0,
        column >= 0 ==> document.columns_hits(sought, texts, column + 1) == document.column_hits(
            sought,
            texts,
            column,
            document.columns_hits(sought, texts, column),
        ),
{
}

/// The rows of a pane are laid out as the view has them, a folded diff by its own
/// rows and headers.
pub proof fn law_pane_is_laid_out_as_the_view_has_it(
    contents: DiffContents<'_>,
    view: SearchView,
)
    ensures
        ({
            let rows = contents.laid_out(view);
            &&& view.split_view <==> rows.view is Split
            &&& rows.file_view == view.file_view
            &&& rows.word_wrap == view.word_wrap
            &&& view.collapsed ==> rows.collapsed == Some(contents.collapsed_rows) && rows.headers
                == contents.collapsed_headers
            &&& !view.collapsed ==> rows.collapsed is None && rows.headers == contents.headers
            &&& rows.patch == contents.patch && rows.split_rows == contents.split_rows
                && rows.inline_texts == contents.inline_texts && rows.file_rows
                == contents.file_rows && rows.indices == contents.indices && rows.map
                == contents.map
        }),
{
}

} // verus!
