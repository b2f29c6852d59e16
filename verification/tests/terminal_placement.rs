use matchmaker::config::{ScrollStrategy, TerminalLayoutSettings};
use matchmaker::tui::{initial_scroll, initial_viewport};
use matchmaker::ui::Rect;
use matchmaker::utils::Percentage;

fn layout() -> TerminalLayoutSettings {
    TerminalLayoutSettings { percentage: Percentage::new(50), min: 10, max: 120 }
}

#[test]
fn viewport_goes_below_the_scrolled_cursor() {
    let l = layout();
    assert_eq!(initial_scroll(40, Some(35), &l, ScrollStrategy::Aggressive), 15);
    assert_eq!(
        initial_viewport(80, 40, Some(35), &l, ScrollStrategy::Aggressive, true),
        Rect { x: 0, y: 20, width: 80, height: 20 }
    );
}

#[test]
fn too_little_room_falls_back_to_the_whole_terminal() {
    let l = layout();
    assert_eq!(
        initial_viewport(80, 40, Some(35), &l, ScrollStrategy::Aggressive, false),
        Rect { x: 0, y: 0, width: 80, height: 40 }
    );
}

#[test]
fn unknown_cursor_counts_as_the_last_row() {
    let l = layout();
    assert_eq!(initial_scroll(40, None, &l, ScrollStrategy::Compact), 9);
    assert_eq!(
        initial_viewport(80, 40, None, &l, ScrollStrategy::Compact, true),
        Rect { x: 0, y: 30, width: 80, height: 10 }
    );
}
