//! What a pane shows of a file as it stands, and when it is drawn again.
use crate::diff::file_cache::RenderedFileDiff;
use crate::diff::split_meta::as_ints;
use crate::diff::syntax_cache::PreparedSyntaxViewMode;
use crate::lines::indexed_range;
use crate::lines::indexed_rows;
use crate::lines::joined_lines;
use crate::lines::law_line_range;
use crate::lines::law_line_starts;
use crate::lines::line_flags;
use crate::lines::newlines;
use crate::lines::source_text;
use crate::lines::starts_of;
use crate::lines::terminated_lines;
use crate::lines::text_within;
use crate::preview::file_completed;
use crate::preview::file_ensured;
use crate::preview::is_read_text;
use crate::preview::preview_syntax_key;
use crate::preview::single_completed;
use crate::preview::single_ensured;
use crate::preview::source_effects;
use crate::preview::with_source;
use crate::preview::DrawnDocument;
use crate::preview::FileMarkdownPreview;
use crate::preview::FileMarkdownSource;
use crate::preview::MarkdownAction;
use crate::preview::MarkdownOutcome;
use crate::preview::MarkdownPreviewRefusal;
use crate::preview::PreviewRows;
use crate::preview::PreviewSource;
use crate::preview::WorktreePreview;
use vstd::prelude::*;
use vstd::utf8::encode_utf8;
use vstd::utf8::is_char_boundary;

verus! {

/// The bytes of a line, by an index of where lines start: from behind a newline,
/// or the top, up to the next newline, or the end, and no newline within. A text
/// has a line more than it has newlines, and nothing has none.
pub proof fn law_indexed_lines_end_at_newlines(bytes: Seq<u8>, starts: Seq<usize>, line_ix: int)
    requires
        as_ints(starts) == starts_of(bytes),
        0 <= line_ix < starts.len(),
    ensures
        ({
            let (from, to) = indexed_range(starts, bytes.len() as int, line_ix);
            &&& 0 <= from <= to <= bytes.len()
            &&& from == starts[line_ix]
            &&& from == 0 || bytes[from - 1] == 10
            &&& to == bytes.len() || bytes[to] == 10
            &&& forall|k: int| from <= k < to ==> #[trigger] bytes[k] != 10
            &&& bytes.len() > 0 ==> indexed_rows(bytes.len() as int, starts) == newlines(bytes) + 1
            &&& bytes.len() == 0 ==> indexed_rows(bytes.len() as int, starts) == 0
        }),
{
    law_line_starts(bytes);
    law_line_range(bytes, line_ix);
    assert(starts.len() == starts_of(bytes).len());
    assert forall|i: int| 0 <= i < starts.len() implies #[trigger] starts[i] == starts_of(
        bytes,
    )[i] by {
        assert(as_ints(starts)[i] == starts[i]);
    }
    if line_ix + 1 < starts.len() {
        assert(starts_of(bytes)[line_ix] < starts_of(bytes)[line_ix + 1]);
        assert(1 <= starts_of(bytes)[line_ix + 1] <= bytes.len());
    }
    if line_ix > 0 {
        assert(1 <= starts_of(bytes)[line_ix] <= bytes.len());
    }
}

/// Behind the last line there is nothing, and an index without lines has the
/// whole text as one.
pub proof fn law_no_line_is_past_the_index(starts: Seq<usize>, source_len: int, line_ix: int)
    requires
        0 <= source_len,
        starts.len() <= line_ix,
    ensures
        indexed_range(starts, source_len, line_ix) == (source_len, source_len),
        source_len > 0 && starts.len() == 0 ==> indexed_rows(source_len, starts) == 1,
        source_len > 0 && starts.len() > 0 ==> indexed_rows(source_len, starts) == starts.len(),
{
}

/// The flags of a line are one where every byte of it is below one hundred and
/// twenty-eight, and two more where it has a tab.
pub proof fn law_flags_tell_of_ascii_and_tabs(bytes: Seq<u8>)
    ensures
        ({
            let ascii = forall|i: int| 0 <= i < bytes.len() ==> #[trigger] bytes[i] < 128;
            let tab = exists|i: int| 0 <= i < bytes.len() && #[trigger] bytes[i] == 9;
            &&& ascii && tab ==> line_flags(bytes) == 3
            &&& !ascii && tab ==> line_flags(bytes) == 2
            &&& ascii && !tab ==> line_flags(bytes) == 1
            &&& !ascii && !tab ==> line_flags(bytes) == 0
        }),
{
    if exists|i: int| 0 <= i < bytes.len() && #[trigger] bytes[i] == 9 {
        let i = choose|i: int| 0 <= i < bytes.len() && #[trigger] bytes[i] == 9;
        assert(bytes.contains(9u8));
    }
}

/// A stretch of a text is what stands there, and nothing where it does not start
/// and end between characters of the text.
pub proof fn law_stretch_of_a_text_is_what_stands_there(bytes: Seq<u8>, start: int, end: int)
    ensures
        0 <= start <= end <= bytes.len() && is_char_boundary(bytes, start) && is_char_boundary(
            bytes,
            end,
        ) ==> text_within(bytes, start, end) == bytes.subrange(start, end),
        !(0 <= start <= end <= bytes.len()) || !is_char_boundary(bytes, start)
            || !is_char_boundary(bytes, end) ==> text_within(bytes, start, end).len() == 0,
{
}

/// Where a line starts in lines that are joined.
pub open spec fn line_offset(lines: Seq<String>, i: int) -> int
    decreases i,
{
    if i <= 0 {
        0
    } else {
        line_offset(lines, i - 1) + lines[i - 1]@.len() + 1
    }
}

proof fn lemma_offsets_grow(lines: Seq<String>, i: int, j: int)
    requires
        0 <= i < j <= lines.len(),
    ensures
        0 <= line_offset(lines, i),
        line_offset(lines, i) + lines[i]@.len() + 1 <= line_offset(lines, j),
    decreases j,
{
    if i < j - 1 {
        lemma_offsets_grow(lines, i, j - 1);
    }
    if i > 0 {
        lemma_offsets_grow(lines, i - 1, i);
    }
}

/// Lines that are joined stand in the text one behind the other with a newline
/// between each two, and nothing else is there.
pub proof fn law_joined_lines_stand_in_order(lines: Seq<String>, n: int, i: int)
    requires
        0 <= i < n <= lines.len(),
    ensures
        ({
            let text = joined_lines(lines, n);
            let from = line_offset(lines, i);
            let to = from + lines[i]@.len();
            &&& text.len() == line_offset(lines, n) - 1
            &&& 0 <= from <= to <= text.len()
            &&& text.subrange(from, to) == lines[i]@
            &&& i + 1 < n ==> to < text.len() && text[to] == '\n'
            &&& i + 1 == n ==> to == text.len()
        }),
    decreases n,
{
    let text = joined_lines(lines, n);
    let from = line_offset(lines, i);
    let to = from + lines[i]@.len();
    lemma_offsets_grow(lines, i, n);
    if n == 1 {
        assert(line_offset(lines, 0) == 0);
        assert(line_offset(lines, 1) == lines[0]@.len() + 1);
        assert(text.subrange(from, to) =~= lines[0]@);
    } else {
        let near = if i < n - 1 {
            i
        } else {
            0
        };
        law_joined_lines_stand_in_order(lines, n - 1, near);
        let before = joined_lines(lines, n - 1);
        lemma_newline_text();
        assert(text == before + "\n"@ + lines[n - 1]@);
        lemma_joined_step(before, "\n"@, lines[n - 1]@);
        assert(line_offset(lines, n) == line_offset(lines, n - 1) + lines[n - 1]@.len() + 1);
        if i < n - 1 {
            assert(text.subrange(from, to) =~= before.subrange(from, to));
            if i + 1 == n - 1 {
                assert(to == before.len());
            } else {
                assert(to < before.len());
                assert(text[to] == before[to]);
            }
        } else {
            assert(from == before.len() + 1);
        }
    }
}

proof fn lemma_newline_text()
    ensures
        "\n"@ == seq!['\n'],
{
    reveal_strlit("\n");
    assert("\n"@ =~= seq!['\n']);
}

proof fn lemma_joined_step(before: Seq<char>, newline: Seq<char>, line: Seq<char>)
    requires
        newline == seq!['\n'],
    ensures
        ({
            let text = before + newline + line;
            &&& text.len() == before.len() + 1 + line.len()
            &&& forall|k: int| 0 <= k < before.len() ==> #[trigger] text[k] == before[k]
            &&& text[before.len() as int] == '\n'
            &&& text.subrange(before.len() + 1int, text.len() as int) == line
        }),
{
    let text = before + newline + line;
    assert(text.subrange(before.len() + 1int, text.len() as int) =~= line);
}

/// The text of lines is the lines joined, and a newline more where the source had
/// more bytes than that.
pub proof fn law_last_newline_is_put_back(lines: Seq<String>, source_len: int)
    ensures
        ({
            let joined = joined_lines(lines, lines.len() as int);
            let text = source_text(lines, source_len);
            &&& encode_utf8(joined).len() < source_len ==> text == joined.push('\n')
            &&& encode_utf8(joined).len() >= source_len ==> text == joined
        }),
{
    reveal_strlit("\n");
    let joined = joined_lines(lines, lines.len() as int);
    assert(joined + "\n"@ =~= joined.push('\n'));
}

/// A text has a line for each newline, and one for what stands behind the last.
pub proof fn law_lines_are_those_that_newlines_end(bytes: Seq<u8>)
    ensures
        bytes.len() == 0 ==> terminated_lines(bytes) == 0,
        bytes.len() > 0 && bytes[bytes.len() - 1] == 10 ==> terminated_lines(bytes) == newlines(
            bytes,
        ),
        bytes.len() > 0 && bytes[bytes.len() - 1] != 10 ==> terminated_lines(bytes) == newlines(
            bytes,
        ) + 1,
        newlines(bytes.push(10)) == newlines(bytes) + 1,
        forall|byte: u8| byte != 10 ==> #[trigger] newlines(bytes.push(byte)) == newlines(bytes),
        newlines(Seq::empty()) == 0,
{
    assert(bytes.push(10).drop_last() =~= bytes);
    assert forall|byte: u8| byte != 10 implies #[trigger] newlines(bytes.push(byte)) == newlines(
        bytes,
    ) by {
        assert(bytes.push(byte).drop_last() =~= bytes);
    }
}

/// The pane shows just this file, as it was read.
pub open spec fn is_on_screen(preview: WorktreePreview, source: PreviewSource) -> bool {
    &&& preview.path is Some && preview.path->Some_0@ == source.display_path@
    &&& preview.source_path is Some && preview.source_path->Some_0@ == source.source_path@
    &&& preview.rows == PreviewRows::Ready(
        (if source.source_len == 0 {
            0
        } else if source.line_starts@.len() == 0 {
            1
        } else {
            source.line_starts@.len()
        }) as usize,
    )
    &&& preview.source_len == source.source_len
    &&& preview.text@ == source.text@
    &&& preview.line_starts@ == source.line_starts@
    &&& preview.line_flags@ == source.line_flags@
}

/// A file that was read is what the pane shows. It is a new revision, with rows
/// styled afresh and no document, where anything of it is other than what was on
/// screen, and the same one where nothing is.
pub proof fn law_file_that_was_read_is_shown(
    preview: WorktreePreview,
    source: PreviewSource,
    uses_background: bool,
)
    ensures
        ({
            let after = with_source(preview, source, uses_background);
            let effects = source_effects(preview, source, uses_background);
            let changed = !is_on_screen(preview, source);
            let same_segments = preview.segments_cache_path is Some
                && preview.segments_cache_path->Some_0@ == source.display_path@;
            &&& is_on_screen(after, source)
            &&& after.syntax_language == source.syntax_language
            &&& after.segments_cache_path is Some && after.segments_cache_path->Some_0@
                == source.display_path@
            &&& !after.has_trigram_index
            &&& (after.content_rev != preview.content_rev) == changed
            &&& (after.style_cache_epoch != preview.style_cache_epoch) == changed
            &&& changed ==> after.markdown.document == DrawnDocument::NotLoaded
                && after.markdown.path is None && after.markdown.inflight is None
                && after.markdown.seq == preview.markdown.seq
            &&& !changed ==> after.markdown == preview.markdown
            &&& effects.drop_highlights == changed
            &&& effects.drop_segments == (changed || !same_segments)
            &&& changed && same_segments && uses_background ==> after.cache_write_blocked_until_rev
                == Some(after.content_rev) && effects.unblock_later == Some(after.content_rev)
            &&& !(changed && same_segments && uses_background)
                ==> after.cache_write_blocked_until_rev is None && effects.unblock_later is None
        }),
{
    vstd::std_specs::vec::axiom_spec_len(&source.line_starts);
}

/// A document is drawn for the file on screen once its rows are known, unless one
/// of its very revision is there or being drawn, or it is too large. Nothing else
/// of the pane changes.
pub proof fn law_document_is_drawn_once_for_each_revision(
    preview: WorktreePreview,
    max_source_bytes: usize,
    too_large: String,
)
    ensures
        ({
            let (after, action) = single_ensured(preview, max_source_bytes, too_large);
            let drawn = preview.path is Some && preview.markdown.path is Some
                && preview.markdown.path->Some_0@ == preview.path->Some_0@
                && preview.markdown.source_rev == preview.content_rev && (
            preview.markdown.document is Ready || preview.markdown.document is Error || (
            preview.markdown.document is Loading && preview.markdown.inflight is Some));
            let size: int = if preview.text@.len() > 0 {
                encode_utf8(preview.text@).len() as int
            } else {
                preview.source_len as int
            };
            let wanted = preview.path is Some && preview.rows is Ready && !drawn;
            &&& action is Draw <==> wanted && size <= max_source_bytes
            &&& action is Refused <==> wanted && size > max_source_bytes
            &&& action is Keep <==> !wanted
            &&& !wanted ==> after == preview
            &&& wanted ==> after.markdown.path == preview.path && after.markdown.source_rev
                == preview.content_rev
            &&& action matches MarkdownAction::Draw { seq, from_text } ==> after.markdown.inflight
                == Some(seq) && seq != preview.markdown.seq && after.markdown.seq == seq
                && after.markdown.document is Loading && from_text == (preview.text@.len() > 0)
            &&& action is Refused ==> after.markdown.document == DrawnDocument::Error(too_large)
                && after.markdown.inflight is None
            &&& after.rows == preview.rows && after.text == preview.text && after.path
                == preview.path && after.content_rev == preview.content_rev
        }),
{
}

/// A drawing is taken up only where it is the one that is waited for, of the file
/// and revision on screen; any other changes nothing.
pub proof fn law_drawing_is_taken_up_for_what_is_on_screen(
    preview: WorktreePreview,
    seq: u64,
    path: String,
    source_rev: u64,
    result: Result<(), MarkdownPreviewRefusal>,
)
    ensures
        ({
            let (after, outcome) = single_completed(preview, seq, path, source_rev, result);
            let current = preview.markdown.inflight == Some(seq) && preview.path is Some
                && preview.path->Some_0@ == path@ && preview.content_rev == source_rev;
            &&& outcome == MarkdownOutcome::Stale <==> !current
            &&& !current ==> after == preview
            &&& current ==> after.markdown.inflight is None && after.content_rev
                == preview.content_rev && after.rows == preview.rows
            &&& current && result is Ok ==> outcome == MarkdownOutcome::Shown
                && after.markdown.document is Ready
            &&& current ==> (result matches Err(refusal) ==> after.markdown.document
                == DrawnDocument::Error(refusal.message) && outcome == MarkdownOutcome::Refused {
                to_source: refusal.prefers_source,
            })
        }),
{
}

/// A document of a file diff stays where it is of that diff and revision, or of
/// the same texts under another revision. Otherwise what was drawn goes, and a
/// new one is drawn if the texts are there and not too large.
pub proof fn law_document_of_a_diff_is_drawn_once_for_its_texts(
    preview: FileMarkdownPreview,
    rendered: RenderedFileDiff,
    shows_path: bool,
    source: Option<FileMarkdownSource>,
    max_source_bytes: usize,
    too_large: String,
)
    ensures
        ({
            let (after, action) = file_ensured(
                preview,
                Some(rendered),
                shows_path,
                source,
                max_source_bytes,
                too_large,
            );
            let same = preview.repo_id == Some(rendered.repo_id) && preview.target is Some
                && preview.target->Some_0@ == rendered.target@ && shows_path;
            let same_texts = source is Some && preview.content_signature == Some(
                source->Some_0.content_signature,
            );
            let stays = same && (preview.rev == rendered.rev || same_texts);
            &&& action is Keep <==> stays
            &&& stays ==> after.document == preview.document && after.inflight == preview.inflight
                && after.seq == preview.seq && after.content_signature == preview.content_signature
            &&& stays && preview.inflight is None ==> after.rev == rendered.rev
            &&& !stays ==> after.repo_id == Some(rendered.repo_id) && after.target is Some
                && after.target->Some_0@ == rendered.target@ && after.rev == rendered.rev
            &&& action is Cleared <==> !stays && source is None
            &&& action is Cleared ==> after.document is NotLoaded && after.inflight is None
            &&& action is Refused <==> !stays && source is Some && source->Some_0.combined_len
                > max_source_bytes
            &&& action is Refused ==> after.document == DrawnDocument::Error(too_large)
                && after.inflight is None
            &&& action is Draw <==> !stays && source is Some && source->Some_0.combined_len
                <= max_source_bytes
            &&& action matches MarkdownAction::Draw { seq, .. } ==> after.inflight == Some(seq)
                && after.seq == seq && seq != preview.seq && after.document is Loading
        }),
        ({
            let (after, action) = file_ensured(
                preview,
                None,
                shows_path,
                source,
                max_source_bytes,
                too_large,
            );
            action is Cleared && after.repo_id is None && after.target is None && after.document
                is NotLoaded && after.inflight is None && after.content_signature is None
        }),
{
}

/// A drawing of a file diff is taken up only where it is the one that is waited
/// for, of the diff and revision on screen, and the texts it was drawn from are
/// then noted.
pub proof fn law_drawing_of_a_diff_is_taken_up_for_it(
    preview: FileMarkdownPreview,
    seq: u64,
    rendered: RenderedFileDiff,
    content_signature: u64,
    result: Result<(), String>,
)
    ensures
        ({
            let (after, outcome) = file_completed(
                preview,
                seq,
                rendered,
                content_signature,
                result,
            );
            let current = preview.inflight == Some(seq) && preview.repo_id == Some(rendered.repo_id)
                && preview.rev == rendered.rev && preview.target is Some
                && preview.target->Some_0@ == rendered.target@;
            &&& outcome == MarkdownOutcome::Stale <==> !current
            &&& !current ==> after == preview
            &&& current ==> after.inflight is None && after.content_signature == Some(
                content_signature,
            ) && after.rev == preview.rev && after.repo_id == preview.repo_id
            &&& current && result is Ok ==> outcome == MarkdownOutcome::Shown && after.document
                is Ready
            &&& current ==> (result matches Err(message) ==> after.document
                == DrawnDocument::Error(message) && outcome is Refused)
        }),
{
}

/// The syntax document of the file on screen is that of its repository, path and
/// revision.
pub proof fn law_preview_has_a_document_of_its_own(preview: WorktreePreview, repo_id: Option<u64>)
    ensures
        preview_syntax_key(preview, repo_id) is Some <==> repo_id is Some && preview.path is Some,
        preview_syntax_key(preview, repo_id) matches Some(key) ==> Some(key.repo_id) == repo_id
            && key.target_rev == preview.content_rev && key.file_path == preview.path->Some_0@
            && key.view_mode == PreparedSyntaxViewMode::WorktreePreview,
{
}

/// A file that was read from where it is shown as being has its text and language
/// as they were read, as many bytes as the text, and the flags of each line.
pub proof fn law_read_text_is_what_was_read(
    source: PreviewSource,
    path: String,
    text: String,
    starts: Seq<usize>,
    language: Option<u32>,
    i: int,
)
    requires
        is_read_text(source, path, text, starts, language),
    ensures
        source.display_path@ == path@,
        source.source_path@ == path@,
        source.text@ == text@,
        source.source_len == encode_utf8(text@).len(),
        source.line_starts@ == starts,
        source.syntax_language == language,
        encode_utf8(text@).len() == 0 ==> source.line_flags@.len() == 0,
        encode_utf8(text@).len() > 0 && starts.len() > 0 ==> source.line_flags@.len()
            == starts.len(),
        0 <= i < source.line_flags@.len() ==> {
            let bytes = encode_utf8(text@);
            let (from, to) = indexed_range(starts, bytes.len() as int, i);
            source.line_flags@[i] == line_flags(text_within(bytes, from, to))
        },
{
}

} // verus!
