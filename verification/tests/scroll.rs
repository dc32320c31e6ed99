//! Bringing matches and rows into view.
use gitcomet_view::scroll::reveal_scroll_x;
use gitcomet_view::scroll::SEARCH_REVEAL_MARGIN;
use gitcomet_view::scroll::SUBPIXELS;

fn px(pixels: i64) -> i64 {
    pixels * SUBPIXELS
}

fn viewport() -> i64 {
    px(800)
}

fn max_offset() -> i64 {
    px(4000)
}

#[test]
fn a_match_already_on_screen_does_not_move_the_view() {
    assert_eq!(reveal_scroll_x(px(200), px(260), viewport(), max_offset(), px(0)), None);
}

#[test]
fn a_match_off_the_right_edge_scrolls_just_far_enough_to_show_it() {
    let target = reveal_scroll_x(px(840), px(900), viewport(), max_offset(), px(0))
        .expect("expected the view to scroll right");
    assert_eq!(target, -(px(900) + SEARCH_REVEAL_MARGIN - px(800)));
}

#[test]
fn a_match_off_the_left_edge_scrolls_back_to_it() {
    let target = reveal_scroll_x(px(300), px(360), viewport(), max_offset(), px(-1000))
        .expect("expected the view to scroll left");
    assert_eq!(target, -(px(300) - SEARCH_REVEAL_MARGIN));
}

#[test]
fn a_match_wider_than_the_viewport_is_anchored_by_its_start() {
    let target = reveal_scroll_x(px(1000), px(3000), viewport(), max_offset(), px(0))
        .expect("expected the view to scroll right");
    assert_eq!(target, -(px(1000) - SEARCH_REVEAL_MARGIN));
}

#[test]
fn the_target_is_clamped_into_the_scrollable_range() {
    assert_eq!(
        reveal_scroll_x(px(9000), px(9060), viewport(), px(500), px(0)),
        Some(px(-500))
    );
    assert_eq!(
        reveal_scroll_x(px(0), px(10), viewport(), max_offset(), px(-40)),
        Some(px(0))
    );
}

#[test]
fn an_unmeasured_viewport_has_no_reveal_to_compute() {
    assert_eq!(reveal_scroll_x(px(1000), px(1060), px(0), max_offset(), px(0)), None);
}
