//! Bringing rows and matches into view.
//!
//! Lengths are whole numbers of subpixels.
use crate::num::max;
use crate::num::min;
use vstd::prelude::*;

verus! {

/// How many subpixels a pixel has.
pub const SUBPIXELS: i64 = 1024;

/// The space left between a match and the edge it was scrolled past.
pub const SEARCH_REVEAL_MARGIN: i64 = 24576;

/// Frames that a reveal to the side waits for its row to be painted.
pub const DIFF_SEARCH_HORIZONTAL_REVEAL_ATTEMPTS: u8 = 4;

/// Lengths stay below this one.
pub const LONGEST: i64 = 1152921504606846976;

pub open spec fn is_length(value: i64) -> bool {
    -LONGEST <= value <= LONGEST
}

pub open spec fn clamped(value: int, low: int, high: int) -> int {
    min(max(value, low), high)
}

fn min_i64(a: i64, b: i64) -> (r: i64)
    ensures
        r == min(a as int, b as int),
{
    if a <= b {
        a
    } else {
        b
    }
}

fn max_i64(a: i64, b: i64) -> (r: i64)
    ensures
        r == max(a as int, b as int),
{
    if a >= b {
        a
    } else {
        b
    }
}

/// Where to scroll for a row: its middle in the middle of the view, within what
/// can be scrolled.
pub open spec fn centered_top(
    row_top: int,
    row_height: int,
    viewport_height: int,
    max_offset_y: int,
) -> int {
    clamped(row_top + row_height / 2 - viewport_height / 2, 0, max(max_offset_y, 0))
}

/// The offset that brings a row to the middle of the view; nothing where it is
/// in view, or there is none. Offsets are negative once scrolled.
pub fn centered_reveal_scroll_y(
    row_ix: usize,
    row_height: i64,
    viewport_height: i64,
    max_offset_y: i64,
    current_y: i64,
) -> (offset: Option<i64>)
    requires
        is_length(row_height),
        is_length(viewport_height),
        is_length(max_offset_y),
        is_length(current_y),
        row_height > 0 ==> row_height * row_ix <= LONGEST,
    ensures
        ({
            let row_top = row_height * row_ix;
            let row_bottom = row_top + row_height;
            let scroll_top = -current_y;
            let in_view = row_top >= scroll_top && row_bottom <= scroll_top + viewport_height;
            match offset {
                Some(offset) => row_height > 0 && viewport_height > 0 && !in_view && offset
                    == -centered_top(
                    row_top,
                    row_height as int,
                    viewport_height as int,
                    max_offset_y as int,
                ),
                None => row_height <= 0 || viewport_height <= 0 || in_view,
            }
        }),
{
    if row_height <= 0 || viewport_height <= 0 {
        return None;
    }
    proof {
        assert(row_ix <= row_height * row_ix) by (nonlinear_arith)
            requires
                row_height >= 1,
                row_ix >= 0,
        ;
    }
    let row_top = row_height * (row_ix as i64);
    let row_bottom = row_top + row_height;
    let scroll_top = -current_y;
    let above = row_top < scroll_top;
    let below = row_bottom > scroll_top + viewport_height;
    if !above && !below {
        return None;
    }
    let target_top = row_top + row_height / 2 - viewport_height / 2;
    let clamped_top = min_i64(max_i64(target_top, 0), max_i64(max_offset_y, 0));
    Some(-clamped_top)
}

/// The space to leave beside a match: no more than a quarter of the view.
pub open spec fn reveal_margin(viewport_width: int) -> int {
    min(SEARCH_REVEAL_MARGIN as int, viewport_width / 4)
}

/// Where to scroll for a match that is out of view, before that is held within
/// what can be scrolled: no further than needed, and where the match is wider
/// than the view to its start.
pub open spec fn reveal_left(
    match_left: int,
    match_right: int,
    viewport_width: int,
    current_x: int,
) -> Option<int> {
    let margin = reveal_margin(viewport_width);
    let view_left = -current_x;
    let view_right = view_left + viewport_width;
    if match_left < view_left + margin {
        Some(match_left - margin)
    } else if match_right > view_right - margin {
        Some(min(match_right + margin - viewport_width, match_left - margin))
    } else {
        None
    }
}

/// The offset that brings a match into view; nothing where it is, or where the
/// offset would not change.
pub fn reveal_scroll_x(
    match_left: i64,
    match_right: i64,
    viewport_width: i64,
    max_offset_x: i64,
    current_x: i64,
) -> (offset: Option<i64>)
    requires
        is_length(match_left),
        is_length(match_right),
        is_length(viewport_width),
        is_length(max_offset_x),
        is_length(current_x),
    ensures
        ({
            let left = reveal_left(
                match_left as int,
                match_right as int,
                viewport_width as int,
                current_x as int,
            );
            let target = match left {
                Some(left) => Some(-clamped(left, 0, max(max_offset_x as int, 0))),
                None => None,
            };
            match offset {
                Some(offset) => viewport_width > 0 && target == Some(offset as int) && offset
                    != current_x,
                None => viewport_width <= 0 || target is None || target == Some(current_x as int),
            }
        }),
{
    if viewport_width <= 0 {
        return None;
    }
    let margin = min_i64(SEARCH_REVEAL_MARGIN, viewport_width / 4);
    let view_left = -current_x;
    let view_right = view_left + viewport_width;
    let target_left = if match_left < view_left + margin {
        match_left - margin
    } else if match_right > view_right - margin {
        min_i64(match_right + margin - viewport_width, match_left - margin)
    } else {
        return None;
    };
    let clamped_left = min_i64(max_i64(target_left, 0), max_i64(max_offset_x, 0));
    let target = -clamped_left;
    if target != current_x {
        Some(target)
    } else {
        None
    }
}

/// A match that fits into the view with its margins, and can be scrolled to, is
/// in view after its reveal.
pub proof fn law_revealed_match_is_in_view(
    match_left: int,
    match_right: int,
    viewport_width: int,
    max_offset_x: int,
    current_x: int,
)
    requires
        viewport_width > 0,
        0 <= match_left <= match_right,
        match_right <= max_offset_x + viewport_width,
        match_right - match_left <= viewport_width - 2 * reveal_margin(viewport_width),
        reveal_left(match_left, match_right, viewport_width, current_x) is Some,
    ensures
        ({
            let left = clamped(
                reveal_left(match_left, match_right, viewport_width, current_x)->Some_0,
                0,
                max(max_offset_x, 0),
            );
            left <= match_left && match_right <= left + viewport_width
        }),
{
}

#[derive(Clone, Copy, Debug, PartialEq, Eq, Structural)]
pub enum DiffHorizontalScrollColumn {
    Primary,
    SplitRight,
}

impl DiffHorizontalScrollColumn {
    pub open spec fn spec_index(self) -> int {
        match self {
            DiffHorizontalScrollColumn::Primary => 0,
            DiffHorizontalScrollColumn::SplitRight => 1,
        }
    }

    pub fn index(self) -> (ix: usize)
        ensures
            ix == self.spec_index(),
    {
        match self {
            DiffHorizontalScrollColumn::Primary => 0,
            DiffHorizontalScrollColumn::SplitRight => 1,
        }
    }
}

/// How wide the text of each column has been found to be.
#[derive(Debug)]
pub struct DiffHorizontalScrollState {
    pub content_widths: [i64; 2],
}

impl DiffHorizontalScrollState {
    pub fn new() -> (state: Self)
        ensures
            state.content_widths@ == seq![0i64, 0i64],
    {
        let state = DiffHorizontalScrollState { content_widths: [0, 0] };
        assert(state.content_widths@ =~= seq![0i64, 0i64]);
        state
    }

    pub fn reset(&mut self)
        ensures
            final(self).content_widths@ == seq![0i64, 0i64],
    {
        self.content_widths = [0, 0];
        assert(self.content_widths@ =~= seq![0i64, 0i64]);
    }

    /// Takes note of a width, and says whether the column is wider for it.
    pub fn record_content_width(&mut self, column: DiffHorizontalScrollColumn, width: i64) -> (wider:
        bool)
        ensures
            wider == (width > old(self).content_widths@[column.spec_index()]),
            final(self).content_widths@ == (if wider {
                old(self).content_widths@.update(column.spec_index(), width)
            } else {
                old(self).content_widths@
            }),
    {
        let ix = column.index();
        if width > self.content_widths[ix] {
            self.content_widths[ix] = width;
            true
        } else {
            false
        }
    }
}

} // verus!
