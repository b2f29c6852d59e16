use matchmaker::config::{PreviewLayout, Side};
use matchmaker::ui::{grow_results, preview_side_size, preview_too_big, split, Rect};
use matchmaker::utils::Percentage;

fn rect(width: u16, height: u16) -> Rect {
    Rect { x: 0, y: 0, width, height }
}

#[test]
fn split_cut_top() {
    let mut rect = rect(80, 24);
    let offshoot = split(&mut rect, 5, true);
    assert_eq!(offshoot, Rect { x: 0, y: 0, width: 80, height: 5 });
    assert_eq!(rect, Rect { x: 0, y: 5, width: 80, height: 19 });
}

#[test]
fn split_bottom() {
    let mut rect = rect(80, 24);
    let offshoot = split(&mut rect, 5, false);
    assert_eq!(offshoot, Rect { x: 0, y: 19, width: 80, height: 5 });
    assert_eq!(rect, Rect { x: 0, y: 0, width: 80, height: 19 });
}

#[test]
fn split_height_capped_at_rect_height() {
    let mut rect = rect(80, 24);
    let offshoot = split(&mut rect, 100, false);
    assert_eq!(offshoot, Rect { x: 0, y: 0, width: 80, height: 24 });
    assert_eq!(rect.height, 0);
}

#[test]
fn split_zero_height() {
    let mut rect = Rect { x: 5, y: 5, width: 80, height: 24 };
    let offshoot = split(&mut rect, 0, false);
    assert_eq!(offshoot, Rect { x: 5, y: 29, width: 80, height: 0 });
    assert_eq!(rect, Rect { x: 5, y: 5, width: 80, height: 24 });
}

#[test]
fn preview_size_from_layout() {
    let layout = PreviewLayout { side: Side::Right, percentage: Percentage::new(60), min: 15, max: 50 };
    // 60% of 80 = 48, within [15 + 2, 50 + 2]
    assert_eq!(preview_side_size(80, &layout, 2, None), 48);
    // 60% of 200 = 120, capped at 52
    assert_eq!(preview_side_size(200, &layout, 2, None), 52);
    // 60% of 20 = 12, raised to 17
    assert_eq!(preview_side_size(20, &layout, 2, None), 17);
    // a dragged size wins, at most the total
    assert_eq!(preview_side_size(80, &layout, 2, Some(30)), 30);
    assert_eq!(preview_side_size(80, &layout, 2, Some(300)), 80);
    // negative bounds leave room for the results
    let layout = PreviewLayout { side: Side::Top, percentage: Percentage::new(90), min: 0, max: -10 };
    assert_eq!(preview_side_size(40, &layout, 1, None), 30);
    // a lower bound above the upper one drops the upper one
    let layout = PreviewLayout { side: Side::Top, percentage: Percentage::new(10), min: 30, max: 5 };
    assert_eq!(preview_side_size(40, &layout, 0, None), 30);
}

#[test]
fn preview_hidden_when_results_too_small() {
    assert!(preview_too_big(Side::Left, Rect { x: 0, y: 0, width: 5, height: 30 }));
    assert!(!preview_too_big(Side::Right, Rect { x: 0, y: 0, width: 6, height: 1 }));
    assert!(preview_too_big(Side::Bottom, Rect { x: 0, y: 0, width: 80, height: 1 }));
}

#[test]
fn results_borrow_rows_from_footer_then_header() {
    let mut header = Rect { x: 0, y: 2, width: 80, height: 1 };
    let mut results = Rect { x: 0, y: 3, width: 80, height: 0 };
    let mut footer = Rect { x: 0, y: 3, width: 80, height: 2 };
    grow_results(&mut header, &mut results, &mut footer, false);
    assert_eq!(results.height, 1);
    assert_eq!(footer, Rect { x: 0, y: 4, width: 80, height: 1 });
    assert_eq!(header.height, 1);

    let mut header = Rect { x: 0, y: 2, width: 80, height: 1 };
    let mut results = Rect { x: 0, y: 3, width: 80, height: 0 };
    let mut footer = Rect { x: 0, y: 3, width: 80, height: 0 };
    grow_results(&mut header, &mut results, &mut footer, false);
    assert_eq!(results, Rect { x: 0, y: 2, width: 80, height: 1 });
    assert_eq!(header.height, 0);
}
