//! Which rows of a view a search comes upon.
use crate::conflict::model::ConflictChoice;
use crate::conflict::model::ConflictSegment;
use crate::conflict::model::PickSlot;
use crate::diff::split_meta::as_ints;
use crate::lines::law_line_range;
use crate::lines::law_line_starts;
use crate::lines::line_range;
use crate::lines::starts_of;
use crate::lines::text_within;
use crate::search::bytes::holds;
use crate::search::conflict_rows::aligned_line;
use crate::search::conflict_rows::choice_at;
use crate::search::conflict_rows::choice_label;
use crate::search::conflict_rows::stored_line;
use crate::search::conflict_rows::summary;
use crate::search::conflict_rows::ConflictResolverSearchContext;
use crate::search::conflict_rows::ThreeWayVisibleItem;
use crate::search::conflict_rows::ThreeWayVisibleSpan;
use crate::search::matcher::found;
use crate::search::matcher::Sought;
use crate::search::needle::displayed;
use crate::search::rows::best_entry;
use crate::search::rows::is_reusable;
use crate::search::rows::remembered;
use crate::search::rows::row_found;
use crate::search::rows::SearchCandidates;
use crate::search::scan::page_hits;
use crate::search::scan::page_row;
use crate::search::scan::view_row_holds;
use crate::search::scan::MarkdownPage;
use crate::search::scan::PreviewLines;
use crate::search::scan::RowStyle;
use crate::search::scan::ScanPlan;
use crate::search::scan::SearchView;
use crate::search::scan::ViewRow;
use crate::utf::lemma_boundary_after_ascii;
use vstd::prelude::*;
use vstd::utf8::encode_utf8;
use vstd::utf8::valid_utf8;

verus! {

/// A row of the three-way view holds a literal where the line of one of the three
/// versions that stands in it does. The row of a folded conflict holds it where
/// its summary does, and that of folded text never.
pub proof fn law_merge_row_holds_what_its_versions_hold(
    context: ConflictResolverSearchContext<'_>,
    item: ThreeWayVisibleItem,
    needle: Seq<u8>,
)
    ensures
        item matches ThreeWayVisibleItem::Line(row) ==> (context.item_holds(item, needle)
            <==> holds(
            context.base.row_bytes(aligned_line(context.three_way_aligned.base, row as int)),
            needle,
            false,
        ) || holds(
            context.ours.row_bytes(aligned_line(context.three_way_aligned.ours, row as int)),
            needle,
            false,
        ) || holds(
            context.theirs.row_bytes(aligned_line(context.three_way_aligned.theirs, row as int)),
            needle,
            false,
        )),
        item matches ThreeWayVisibleItem::CollapsedBlock(conflict_ix) ==> (context.item_holds(
            item,
            needle,
        ) <==> holds(
            encode_utf8(summary(context.marker_segments@, conflict_ix as int)),
            needle,
            false,
        )),
        item is CollapsedContext ==> !context.item_holds(item, needle),
{
}

/// A version without a list of its own has its lines in the rows of the same
/// number; one with a list has in a row the line that the list says.
pub proof fn law_version_stands_where_it_is_aligned(lines: Option<Vec<Option<usize>>>, row: int)
    requires
        0 <= row,
    ensures
        lines is None ==> aligned_line(lines, row) == Some(row),
        lines matches Some(list) ==> {
            &&& row >= list@.len() ==> aligned_line(lines, row) is None
            &&& row < list@.len() && list@[row] is None ==> aligned_line(lines, row) is None
            &&& row < list@.len() && list@[row] is Some ==> aligned_line(lines, row) == Some(
                list@[row]->Some_0 as int,
            )
        },
{
}

/// The text of a row is the line that stands there, as it is in the version and
/// without its newline; a line that there is none of has no text.
pub proof fn law_stored_line_is_that_line(bytes: Seq<u8>, starts: Seq<usize>, line_ix: int)
    requires
        valid_utf8(bytes),
        as_ints(starts) == starts_of(bytes),
        0 <= line_ix,
    ensures
        line_ix >= starts.len() ==> stored_line(bytes, starts, line_ix).len() == 0,
        line_ix < starts.len() ==> {
            let line = stored_line(bytes, starts, line_ix);
            let from = starts[line_ix] as int;
            let to = from + line.len();
            &&& 0 <= from <= to <= bytes.len()
            &&& line == bytes.subrange(from, to)
            &&& from == 0 || bytes[from - 1] == 10
            &&& to == bytes.len() || bytes[to] == 10
            &&& forall|k: int| from <= k < to ==> #[trigger] bytes[k] != 10
        },
{
    law_line_starts(bytes);
    assert(starts.len() == starts_of(bytes).len());
    assert forall|i: int| 0 <= i < starts.len() implies #[trigger] starts[i] == starts_of(
        bytes,
    )[i] by {
        assert(as_ints(starts)[i] == starts[i]);
    }
    if line_ix < starts.len() {
        law_line_range(bytes, line_ix);
        let (start, end) = line_range(bytes, line_ix);
        vstd::utf8::is_char_boundary_start_end_of_seq(bytes);
        if start > 0 {
            lemma_boundary_after_ascii(bytes, start - 1);
        }
        if end < bytes.len() {
            lemma_boundary_after_ascii(bytes, end);
        }
        if line_ix + 1 < starts.len() {
            assert(starts_of(bytes)[line_ix] < starts_of(bytes)[line_ix + 1]);
            assert(bytes[starts_of(bytes)[line_ix + 1] - 1] == 10);
        }
        assert(text_within(bytes, start, end) == bytes.subrange(start, end));
        if start >= bytes.len() {
            assert(bytes.subrange(start, start) =~= Seq::<u8>::empty());
        } else if line_ix + 1 == starts.len() && end > start {
            assert(bytes[end - 1] != 10);
        }
        assert(stored_line(bytes, starts, line_ix) =~= bytes.subrange(start, end));
    }
}

/// The pick of a conflict is that of the conflict that has as many before it as
/// its number says.
pub proof fn law_pick_is_that_of_the_numbered_conflict(
    segments: Seq<ConflictSegment>,
    at: int,
    conflict_ix: int,
)
    requires
        0 <= at < segments.len(),
        segments[at] is Block,
        conflict_ix == segments.take(at).filter(|s: ConflictSegment| s is Block).len(),
    ensures
        choice_at(segments, conflict_ix) == Some(segments[at]->Block_0.choice),
    decreases segments.len(),
{
    let is_block = |s: ConflictSegment| s is Block;
    let rest = segments.skip(1);
    if at == 0 {
        assert(segments.take(0) =~= Seq::<ConflictSegment>::empty());
        reveal(Seq::filter);
    } else {
        let head = seq![segments[0]];
        assert(segments.take(at) =~= head + rest.take(at - 1));
        assert(head.filter(is_block).len() == (if segments[0] is Block {
            1nat
        } else {
            0nat
        })) by {
            reveal_with_fuel(Seq::filter, 2);
            assert(head.drop_last() =~= Seq::<ConflictSegment>::empty());
            assert(head.last() == segments[0]);
        }
        Seq::filter_distributes_over_add(head, rest.take(at - 1), is_block);
        assert(rest[at - 1] == segments[at]);
        law_pick_is_that_of_the_numbered_conflict(
            rest,
            at - 1,
            conflict_ix - (if segments[0] is Block {
                1int
            } else {
                0int
            }),
        );
    }
}

/// A folded conflict is summed up by what was picked for it.
pub proof fn law_folded_conflict_names_its_pick(
    segments: Seq<ConflictSegment>,
    conflict_ix: int,
    choice: ConflictChoice,
)
    ensures
        choice_at(segments, conflict_ix) == Some(choice) ==> summary(segments, conflict_ix)
            == "Resolved: picked "@ + choice_label(choice),
        choice_at(segments, conflict_ix) is None ==> summary(segments, conflict_ix)
            == "Resolved: picked "@ + "?"@,
        choice.second == PickSlot::Nothing && choice.third == PickSlot::Nothing ==> {
            &&& choice.first == PickSlot::Base ==> choice_label(choice) == "Base (A)"@
            &&& choice.first == PickSlot::Ours ==> choice_label(choice) == "Local (B)"@
            &&& choice.first == PickSlot::Theirs ==> choice_label(choice) == "Remote (C)"@
        },
        choice.first == PickSlot::Ours && choice.second == PickSlot::Theirs && choice.third
            == PickSlot::Nothing ==> choice_label(choice) == "Local+Remote (B+C)"@,
        choice.first == PickSlot::Theirs && choice.second == PickSlot::Ours ==> choice_label(choice)
            == "Ordered source selection"@,
        choice.third != PickSlot::Nothing ==> choice_label(choice) == "Ordered source selection"@,
{
}

/// A row of a span of lines shows as many lines below the span's first one as the
/// row is below the span's first row. A folded conflict or folded text is one
/// row.
pub proof fn law_span_shows_its_lines_in_order(span: ThreeWayVisibleSpan, below: int)
    requires
        span.wf(),
        0 <= below < span.rows(),
    ensures
        match span {
            ThreeWayVisibleSpan::Lines { visible_start, source_line_start, len } => {
                &&& span.start() == visible_start
                &&& span.rows() == len
                &&& span.item(visible_start + below) == ThreeWayVisibleItem::Line(
                    (source_line_start + below) as usize,
                )
            },
            ThreeWayVisibleSpan::CollapsedResolvedBlock { visible_index, conflict_ix } => {
                &&& span.start() == visible_index
                &&& span.rows() == 1
                &&& span.item(visible_index as int) == ThreeWayVisibleItem::CollapsedBlock(
                    conflict_ix,
                )
            },
            ThreeWayVisibleSpan::CollapsedContext { visible_index } => {
                &&& span.start() == visible_index
                &&& span.rows() == 1
                &&& span.item(visible_index as int) == ThreeWayVisibleItem::CollapsedContext
            },
        },
{
}

/// A row of the two-way view holds a literal where one of its sides does.
pub proof fn law_two_way_row_holds_what_a_side_holds(
    context: ConflictResolverSearchContext<'_>,
    needle: Seq<u8>,
    row: int,
)
    requires
        0 <= row < context.two_way_rows@.len(),
    ensures
        ({
            let sides = context.two_way_rows@[row];
            let old_holds = sides.old is Some && holds(
                encode_utf8(sides.old->Some_0@),
                needle,
                false,
            );
            let new_holds = sides.new is Some && holds(
                encode_utf8(sides.new->Some_0@),
                needle,
                false,
            );
            context.two_way_holds(needle, row) <==> old_holds || new_holds
        }),
{
}

/// A row of a view in one column holds what its text holds, one in two columns
/// what one of its texts holds, and one of a file diff what one of them holds as
/// it is shown.
pub proof fn law_view_row_holds_what_its_texts_hold(row: ViewRow, needle: Seq<u8>)
    ensures
        ({
            let left = row.left is Some && holds(encode_utf8(row.left->Some_0@), needle, false);
            let right = row.right is Some && holds(encode_utf8(row.right->Some_0@), needle, false);
            let left_shown = row.left is Some && holds(
                encode_utf8(displayed(row.left->Some_0@)),
                needle,
                false,
            );
            let right_shown = row.right is Some && holds(
                encode_utf8(displayed(row.right->Some_0@)),
                needle,
                false,
            );
            &&& view_row_holds(RowStyle::Inline, row, needle) == left
            &&& view_row_holds(RowStyle::Split, row, needle) == (left || right)
            &&& view_row_holds(RowStyle::SplitFile, row, needle) == (left_shown || right_shown)
        }),
{
}

/// A line of a file holds a literal where it is there and its text does.
pub proof fn law_preview_line_holds_what_its_text_holds(
    preview: PreviewLines<'_>,
    needle: Seq<u8>,
    line: int,
)
    ensures
        preview.line_holds(needle, line) <==> 0 <= line < preview.lines@.len()
            && preview.lines@[line] is Some && holds(
            encode_utf8(preview.lines@[line]->Some_0@),
            needle,
            false,
        ),
{
}

/// One of the texts of a row has to be found in for the row to be found, and any
/// of them is enough.
pub proof fn law_row_is_found_by_any_column(
    sought: Sought,
    texts: Seq<Option<Seq<char>>>,
    column: int,
)
    ensures
        0 <= column < texts.len() && texts[column] is Some && found(
            sought,
            texts[column]->Some_0,
            0,
        ) is Some ==> row_found(sought, texts),
        (forall|c: int|
            0 <= c < texts.len() ==> (#[trigger] texts[c]) is None || found(
                sought,
                texts[c]->Some_0,
                0,
            ) is None) ==> !row_found(sought, texts),
{
}

/// A search goes through what covers everything else: an editor, or else a
/// rendered page, or else the file as it stands, or else a conflict, or else the
/// diff. A patch in one column with whole lines is gone through by its index.
/// What is not there yet is not gone through, and nothing under it either.
pub proof fn law_search_goes_through_what_is_on_top(view: SearchView)
    ensures
        ({
            let plan = view.plan();
            let page = !view.editor_active && view.markdown_active;
            let file = !view.editor_active && !view.markdown_active && view.preview_active;
            let conflict = !view.editor_active && !view.markdown_active && !view.preview_active
                && view.conflict;
            let diff = !view.editor_active && !view.markdown_active && !view.preview_active
                && !view.conflict;
            let one_column = !view.split_view && !view.file_view && !view.collapsed
                && !view.word_wrap && view.patch_ready;
            &&& plan is Editor <==> view.editor_active
            &&& plan is Markdown <==> page && view.markdown_surface is Some
            &&& plan is Markdown ==> plan == ScanPlan::Markdown(view.markdown_surface->Some_0)
            &&& plan is Preview <==> file && view.preview_loaded
            &&& plan is Conflict <==> conflict && view.conflict_known
            &&& plan is InlinePatch <==> diff && one_column
            &&& plan is Rows <==> diff && !one_column
            &&& view.can_refine() <==> file || diff
        }),
{
}

/// The rows of a page on which a match is found are listed by the rows of the
/// screen that they start at, and no others are.
pub proof fn law_page_rows_are_listed_by_the_screen(
    sought: Sought,
    page: MarkdownPage,
    n: int,
    row: int,
)
    requires
        0 <= row < n <= page.rows@.len(),
    ensures
        found(sought, page.rows@[row]@, 0) is Some ==> page_hits(sought, page, n).contains(
            page_row(page, row),
        ),
        page.visual_rows is None && row <= usize::MAX ==> page_row(page, row) == row,
        page.visual_rows matches Some(rows) ==> (row < rows@.len() ==> page_row(page, row)
            == rows@[row]),
        (forall|k: int| 0 <= k < n ==> found(sought, (#[trigger] page.rows@[k])@, 0) is None)
            ==> page_hits(sought, page, n).len() == 0,
    decreases n,
{
    if n > 1 {
        law_page_rows_are_listed_by_the_screen(sought, page, n - 1, if row < n - 1 {
            row
        } else {
            0
        });
    }
    let before = page_hits(sought, page, n - 1);
    let all = page_hits(sought, page, n);
    if found(sought, page.rows@[row]@, 0) is Some {
        let item = page_row(page, row);
        if row < n - 1 {
            let i = choose|i: int| 0 <= i < before.len() && before[i] == item;
            assert(all[i] == item);
        } else {
            assert(all[all.len() - 1] == item);
        }
    }
    assert(page.rows@[n - 1] == page.rows@[n - 1]);
}

/// Of the lists that can serve a query the one that is used is as short as any.
pub proof fn law_shortest_list_serves(
    entries: Seq<SearchCandidates>,
    sought: Sought,
    n: int,
    other: int,
)
    requires
        0 <= other < n <= entries.len(),
    ensures
        best_entry(entries, sought, n) matches Some(best) ==> 0 <= best < n && is_reusable(
            entries[best],
            sought,
        ) && (is_reusable(entries[other], sought) ==> entries[best].rows@.len()
            <= entries[other].rows@.len()),
        best_entry(entries, sought, n) is None ==> !is_reusable(entries[other], sought),
    decreases n,
{
    if n > 1 {
        law_shortest_list_serves(entries, sought, n - 1, if other < n - 1 {
            other
        } else {
            0
        });
    } else {
        assert(best_entry(entries, sought, 0) is None);
    }
}

/// Of the lists that were kept those of other queries stay, in their order, as
/// far as there is room for seven beside the new one; that of the same query goes.
pub proof fn law_other_queries_stay_known(
    entries: Seq<SearchCandidates>,
    sought: Sought,
    n: int,
    i: int,
)
    requires
        0 <= i < n <= entries.len(),
        n <= 7,
    ensures
        ({
            let after = remembered(entries, sought.query, sought.options, n);
            &&& after.len() <= n
            &&& entries[i].query@ != sought.query || entries[i].options != sought.options
                ==> after.contains(entries[i])
            &&& forall|k: int|
                0 <= k < after.len() ==> (#[trigger] after[k]).query@ != sought.query
                    || after[k].options != sought.options
        }),
    decreases n,
{
    let before = remembered(entries, sought.query, sought.options, n - 1);
    let after = remembered(entries, sought.query, sought.options, n);
    if n > 1 {
        law_other_queries_stay_known(entries, sought, n - 1, if i < n - 1 {
            i
        } else {
            0
        });
    }
    if entries[i].query@ != sought.query || entries[i].options != sought.options {
        if i < n - 1 {
            let k = choose|k: int| 0 <= k < before.len() && before[k] == entries[i];
            assert(after[k] == entries[i]);
        } else {
            assert(after[after.len() - 1] == entries[i]);
        }
    }
    assert forall|k: int| 0 <= k < after.len() implies (#[trigger] after[k]).query@ != sought.query
        || after[k].options != sought.options by {
        if k < before.len() {
            assert(after[k] == before[k]);
        }
    }
}

} // verus!
