use matchmaker::config::OverlayLayoutSettings;
use matchmaker::ui::{compute_adaptive_percentage, default_area, update_area, Rect, SizeHint};
use matchmaker::utils::Percentage;

#[test]
fn adaptive_percentage_interpolates_and_clamps() {
    let points: &[(u16, Percentage)] = &[(80, Percentage::new(100)), (120, Percentage::new(80))];

    assert_eq!(compute_adaptive_percentage(points, 100).inner(), 90);
    assert_eq!(compute_adaptive_percentage(&points, 80).inner(), 100);
    assert_eq!(compute_adaptive_percentage(&points, 60).inner(), 100);
    assert_eq!(compute_adaptive_percentage(&points, 120).inner(), 80);
    assert_eq!(compute_adaptive_percentage(&points, 125).inner(), 80);
    assert_eq!(compute_adaptive_percentage(&[], 100).inner(), 0);
}

#[test]
fn single_point_is_constant() {
    let points: &[(u16, Percentage)] = &[(40, Percentage::new(50))];
    assert_eq!(compute_adaptive_percentage(points, 20).inner(), 50);
    assert_eq!(compute_adaptive_percentage(points, 100).inner(), 50);
}

#[test]
fn size_hint_froms_keep_old_behavior() {
    let exact: SizeHint = 12.into();
    assert_eq!(exact.min, 12);
    assert_eq!(exact.max, 12);

    let min_max: SizeHint = [8, 30].into();
    assert_eq!(min_max.min, 8);
    assert_eq!(min_max.max, 30);
}

#[test]
fn adaptive_percentage_hits_its_points() {
    let points: &[(u16, Percentage)] = &[
        (10, Percentage::new(20)),
        (50, Percentage::new(70)),
        (90, Percentage::new(40)),
    ];
    assert_eq!(compute_adaptive_percentage(points, 50).inner(), 70);
    assert_eq!(compute_adaptive_percentage(points, 90).inner(), 40);
    // between the points it stays within their range
    let mid = compute_adaptive_percentage(points, 70).inner();
    assert!((40..=70).contains(&mid));
    assert_eq!(mid, 55);
}

#[test]
fn default_area_centers_and_clamps() {
    let layout = OverlayLayoutSettings::default();
    let ui = Rect { x: 10, y: 5, width: 100, height: 40 };
    let area = default_area([30.into(), [0, 10].into()], &layout, &ui);
    assert_eq!(area.width, 30);
    assert_eq!(area.x, 10 + (100 - 30) / 2);
    assert!(area.height <= 10);
    assert!(area.y >= ui.y && area.y + area.height <= ui.y + ui.height);
}

#[test]
fn update_area_keeps_the_center() {
    let mut area = Rect { x: 10, y: 10, width: 20, height: 10 };
    update_area(&mut area, Some(10), None);
    assert_eq!(area, Rect { x: 15, y: 10, width: 10, height: 10 });
    update_area(&mut area, None, Some(30));
    assert_eq!(area, Rect { x: 15, y: 0, width: 10, height: 30 });
}
