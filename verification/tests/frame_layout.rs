use matchmaker::config::{
    BorderSetting, BorderSides, PreviewConfig, PreviewLayout, PreviewSetting, ShowCondition, Side,
    UiConfig,
};
use matchmaker::preview::PreviewUI;
use matchmaker::ui::{
    picker_layout, update_layout_and_state, FooterSizes, Layout, PickerSizes, Rect, UI,
};
use matchmaker::utils::Percentage;

fn rect(width: u16, height: u16) -> Rect {
    Rect { x: 0, y: 0, width, height }
}

fn empty_layout() -> Layout {
    Layout {
        preview: Rect::default(),
        input: Rect::default(),
        status: Rect::default(),
        header: Rect::default(),
        results: Rect::default(),
        footer: Rect::default(),
    }
}

/// The default picker: one input row, a status line, no header.
fn default_sizes() -> PickerSizes {
    PickerSizes { input: 1, status_shown: true, header: 0, reverse: false }
}

/// The default footer: no content.
fn no_footer() -> FooterSizes {
    FooterSizes { height: 0, full_width: false }
}

fn all_sides() -> BorderSetting {
    BorderSetting { sides: Some(BorderSides::all()), ..Default::default() }
}

fn test_preview() -> PreviewUI {
    let config = PreviewConfig {
        show: ShowCondition::Bool(true),
        layout: vec![PreviewSetting {
            layout: PreviewLayout {
                side: Side::Right,
                percentage: Percentage::new(60),
                min: 15,
                max: 50,
            },
            ..Default::default()
        }],
        ..Default::default()
    };
    PreviewUI::new(config, [80, 24])
}

fn layout_of(
    ui: &mut UI,
    footer: FooterSizes,
    preview: &mut Option<PreviewUI>,
    area: Rect,
) -> Layout {
    let mut last = empty_layout();
    update_layout_and_state(area, &mut last, &default_sizes(), &footer, preview, ui)
}

#[test]
fn layout_no_preview_default() {
    let mut ui = UI::new_offline(UiConfig::default());
    let area = rect(80, 24);

    let layout = layout_of(&mut ui, no_footer(), &mut None, area);

    assert_eq!(ui.picker_area(), area);
    assert_eq!(layout.footer, Rect { x: 0, y: 24, width: 80, height: 0 });
    assert_eq!(layout.input, Rect { x: 0, y: 0, width: 80, height: 1 });
    assert_eq!(layout.status, Rect { x: 0, y: 1, width: 80, height: 1 });
    assert_eq!(layout.header, Rect { x: 0, y: 2, width: 80, height: 0 });
    assert_eq!(layout.results, Rect { x: 0, y: 2, width: 80, height: 22 });
    assert_eq!(ui.area(), area);
}

#[test]
fn layout_insets_by_outer_and_picker_borders() {
    let mut config = UiConfig::default();
    config.border = all_sides();
    config.outer_border = all_sides();
    let mut ui = UI::new_offline(config);
    let area = rect(80, 24);

    let layout = layout_of(&mut ui, no_footer(), &mut None, area);

    assert_eq!(ui.picker_area(), Rect { x: 1, y: 1, width: 78, height: 22 });
    assert_eq!(layout.input, Rect { x: 2, y: 2, width: 76, height: 1 });
    assert_eq!(layout.status, Rect { x: 2, y: 3, width: 76, height: 1 });
    assert_eq!(layout.results, Rect { x: 2, y: 4, width: 76, height: 18 });
    assert_eq!(ui.area(), Rect { x: 1, y: 1, width: 78, height: 22 });
}

#[test]
fn layout_with_preview() {
    let mut ui = UI::new_offline(UiConfig::default());
    let mut preview = Some(test_preview());
    let area = rect(80, 24);

    let layout = layout_of(&mut ui, no_footer(), &mut preview, area);

    assert!(preview.as_ref().unwrap().visible());
    // side Right, 60% of 80 = 48, clamped to [15, 50] (+2 border padding)
    assert_eq!(layout.preview, Rect { x: 32, y: 0, width: 48, height: 24 });
    assert_eq!(ui.picker_area(), Rect { x: 0, y: 0, width: 32, height: 24 });
    assert_eq!(layout.results, Rect { x: 0, y: 2, width: 32, height: 22 });
}

#[test]
fn layout_hides_preview_when_too_small() {
    let mut ui = UI::new_offline(UiConfig::default());
    let mut preview = Some(test_preview());
    let area = rect(10, 24);

    let layout = layout_of(&mut ui, no_footer(), &mut preview, area);

    assert!(!preview.as_ref().unwrap().visible());
    assert_eq!(layout.preview, Rect::default());
    assert_eq!(ui.picker_area(), area);
}

#[test]
fn layout_full_width_footer_spans_outer_area() {
    let mut config = UiConfig::default();
    config.border = all_sides();
    let mut ui = UI::new_offline(config);
    let footer = FooterSizes { height: 1, full_width: true };
    let area = rect(80, 24);

    let layout = layout_of(&mut ui, footer, &mut None, area);

    assert_eq!(layout.footer, Rect { x: 0, y: 23, width: 80, height: 1 });
    assert_eq!(ui.picker_area(), Rect { x: 0, y: 0, width: 80, height: 23 });
    assert_eq!(layout.input, Rect { x: 1, y: 1, width: 78, height: 1 });
}

#[test]
fn full_area_roundtrips_outer_area() {
    let mut config = UiConfig::default();
    config.outer_border = all_sides();
    config.border = all_sides();
    let mut ui = UI::new_offline(config);

    let area = rect(80, 24);
    ui.update_dimensions(area);
    assert_eq!(ui.full_area(), area);
}

#[test]
fn picker_layout_stacks_sections() {
    let area = rect(80, 24);
    let [input, status, header, results] = picker_layout(area, 1, true, 0, false);

    assert_eq!(input, Rect { x: 0, y: 0, width: 80, height: 1 });
    assert_eq!(status, Rect { x: 0, y: 1, width: 80, height: 1 });
    assert_eq!(header, Rect { x: 0, y: 2, width: 80, height: 0 });
    assert_eq!(results, Rect { x: 0, y: 2, width: 80, height: 22 });
}

#[test]
fn picker_layout_reversed() {
    let area = rect(80, 24);
    let [input, status, header, results] = picker_layout(area, 1, true, 0, true);

    assert_eq!(results, Rect { x: 0, y: 0, width: 80, height: 22 });
    assert_eq!(header, Rect { x: 0, y: 22, width: 80, height: 0 });
    assert_eq!(status, Rect { x: 0, y: 22, width: 80, height: 1 });
    assert_eq!(input, Rect { x: 0, y: 23, width: 80, height: 1 });
}

#[test]
fn layout_without_status_gives_results_the_row() {
    let area = rect(80, 10);
    let [input, status, _header, results] = picker_layout(area, 1, false, 2, false);
    assert_eq!(input, Rect { x: 0, y: 0, width: 80, height: 1 });
    assert_eq!(status, Rect { x: 0, y: 1, width: 80, height: 0 });
    assert_eq!(results, Rect { x: 0, y: 3, width: 80, height: 7 });
}

#[test]
fn layout_preview_on_the_left_comes_first() {
    let mut ui = UI::new_offline(UiConfig::default());
    let config = PreviewConfig {
        show: ShowCondition::Bool(true),
        layout: vec![PreviewSetting {
            layout: PreviewLayout { side: Side::Left, percentage: Percentage::new(50), min: 0, max: 0 },
            ..Default::default()
        }],
        ..Default::default()
    };
    // a zero upper bound disables the layout: no preview
    let mut preview = Some(PreviewUI::new(config, [80, 24]));
    let layout = layout_of(&mut ui, no_footer(), &mut preview, rect(80, 24));
    assert_eq!(layout.preview, Rect::default());
    assert_eq!(ui.picker_area(), rect(80, 24));

    let config = PreviewConfig {
        show: ShowCondition::Bool(true),
        layout: vec![PreviewSetting {
            layout: PreviewLayout { side: Side::Left, percentage: Percentage::new(50), min: 0, max: 100 },
            ..Default::default()
        }],
        ..Default::default()
    };
    let mut preview = Some(PreviewUI::new(config, [80, 24]));
    let layout = layout_of(&mut ui, no_footer(), &mut preview, rect(80, 24));
    assert_eq!(layout.preview, Rect { x: 0, y: 0, width: 40, height: 24 });
    assert_eq!(ui.picker_area(), Rect { x: 40, y: 0, width: 40, height: 24 });
}

#[test]
fn same_sizes_do_not_resize() {
    let mut ui = UI::new_offline(UiConfig::default());
    let mut last = empty_layout();
    let area = rect(80, 24);
    let first =
        update_layout_and_state(area, &mut last, &default_sizes(), &no_footer(), &mut None, &mut ui);
    assert_eq!(last, first);
    // a second frame of another area but with the results unchanged keeps the frame's area
    let mut other = UI::new_offline(UiConfig::default());
    let again =
        update_layout_and_state(area, &mut last, &default_sizes(), &no_footer(), &mut None, &mut other);
    assert_eq!(again, first);
    assert_eq!(other.area(), Rect::default());
    assert_eq!(other.picker_area(), area);
}
