use matchmaker::config::{
    BorderSetting, BorderSides, PreviewConfig, PreviewInitialSetting, PreviewLayout,
    PreviewSetting, ShowCondition, Side,
};
use matchmaker::preview::PreviewUI;
use matchmaker::render::{CellStyle, StyledSpan, StyledText};
use matchmaker::ui::Rect;
use matchmaker::utils::Percentage;

fn setting(side: Side, max: i16, command: &str) -> PreviewSetting {
    PreviewSetting {
        layout: PreviewLayout { side, percentage: Percentage::new(60), min: 10, max },
        command: command.to_string(),
        border: None,
    }
}

fn pane(layouts: Vec<PreviewSetting>, show: ShowCondition) -> PreviewUI {
    let config = PreviewConfig { show, layout: layouts, ..Default::default() };
    PreviewUI::new(config, [80, 24])
}

fn text(lines: &[&str]) -> StyledText {
    StyledText {
        lines: lines
            .iter()
            .map(|l| {
                if l.is_empty() {
                    vec![]
                } else {
                    vec![StyledSpan { content: l.to_string(), style: CellStyle::default() }]
                }
            })
            .collect(),
    }
}

fn contents(t: &StyledText) -> Vec<String> {
    t.lines.iter().map(|l| l.iter().map(|s| s.content.clone()).collect::<String>()).collect()
}

#[test]
fn new_without_layouts_gets_a_disabled_one() {
    let p = pane(vec![], ShowCondition::Bool(true));
    assert_eq!(p.config.layout.len(), 1);
    assert_eq!(p.config.layout[0].layout.max, 0);
    assert!(p.setting().is_none());
    assert!(!p.visible());
    assert_eq!(p.command(), "");
}

#[test]
fn new_decides_show_by_room() {
    // 80 columns > 5 + 10
    assert!(pane(vec![setting(Side::Right, 50, "")], ShowCondition::Bool(true)).visible());
    assert!(!pane(vec![setting(Side::Right, 50, "")], ShowCondition::Bool(false)).visible());
    // the free condition compares the rows for a bottom pane
    assert!(pane(vec![setting(Side::Bottom, 50, "")], ShowCondition::Free(24)).visible());
    assert!(!pane(vec![setting(Side::Bottom, 50, "")], ShowCondition::Free(25)).visible());
}

#[test]
fn new_turns_styled_borders_to_face_the_results() {
    let mut s = setting(Side::Left, 50, "");
    s.border = Some(BorderSetting { typed: true, ..Default::default() });
    let mut plain = setting(Side::Left, 50, "");
    plain.border = Some(BorderSetting::default());
    let p = pane(vec![s, plain], ShowCondition::Bool(true));
    let facing = BorderSides { top: false, right: true, bottom: false, left: false };
    assert_eq!(p.config.layout[0].border.as_ref().unwrap().sides, Some(facing));
    assert_eq!(p.config.layout[1].border.as_ref().unwrap().sides, None);
    assert_eq!(p.border().width(), 2);
}

#[test]
fn initial_layout_out_of_range_is_ignored() {
    let config = PreviewConfig {
        layout: vec![setting(Side::Right, 50, "a"), setting(Side::Top, 50, "b")],
        initial_layout: 1,
        ..Default::default()
    };
    assert_eq!(PreviewUI::new(config, [80, 24]).command(), "b");
    let config = PreviewConfig {
        layout: vec![setting(Side::Right, 50, "a")],
        initial_layout: 5,
        ..Default::default()
    };
    assert_eq!(PreviewUI::new(config, [80, 24]).command(), "a");
}

#[test]
fn cycle_layout_skips_disabled_layouts() {
    let mut p = pane(
        vec![setting(Side::Right, 50, "a"), setting(Side::Top, 0, "b"), setting(Side::Left, 40, "c")],
        ShowCondition::Bool(true),
    );
    p.current_dimension = Some(7);
    p.cycle_layout(false);
    assert_eq!(p.command(), "c");
    assert_eq!(p.current_dimension, None);
    p.cycle_layout(false);
    assert_eq!(p.command(), "a");
    p.cycle_layout(true);
    assert_eq!(p.command(), "c");
}

#[test]
fn cycle_layout_without_enabled_layouts_stays() {
    let mut p = pane(vec![setting(Side::Right, 0, "a"), setting(Side::Top, 0, "b")], ShowCondition::Bool(true));
    p.current_dimension = Some(7);
    p.cycle_layout(false);
    assert_eq!(p.current_dimension, Some(7));
    assert!(p.setting().is_none());
    assert_eq!(p.get_initial_command(), "a");
}

#[test]
fn set_layout_reports_change() {
    let mut p = pane(vec![setting(Side::Right, 50, "a"), setting(Side::Top, 50, "b")], ShowCondition::Bool(true));
    assert!(!p.set_layout(0));
    assert!(p.set_layout(1));
    assert_eq!(p.command(), "b");
    assert!(!p.set_layout(2));
    assert_eq!(p.command(), "b");
}

#[test]
fn initial_command_falls_back_to_first_nonempty() {
    let p = pane(vec![setting(Side::Right, 0, ""), setting(Side::Top, 50, "b")], ShowCondition::Bool(true));
    assert_eq!(p.command(), "");
    assert_eq!(p.get_initial_command(), "b");
}

#[test]
fn reevaluate_show_condition_no_hide_keeps_shown() {
    let mut p = pane(vec![setting(Side::Right, 50, "")], ShowCondition::Free(40));
    assert!(p.visible());
    p.reevaluate_show_condition([30, 24], true);
    assert!(p.visible());
    p.reevaluate_show_condition([30, 24], false);
    assert!(!p.visible());
    p.reevaluate_show_condition([40, 24], true);
    assert!(p.visible());
}

#[test]
fn show_and_toggle() {
    let mut p = pane(vec![setting(Side::Right, 50, "")], ShowCondition::Bool(true));
    assert!(!p.show(true));
    assert!(p.show(false));
    p.toggle_show();
    assert!(p.visible());
}

#[test]
fn up_and_down_wrap_or_stop() {
    let mut p = pane(vec![setting(Side::Right, 50, "")], ShowCondition::Bool(true));
    // scroll_wrap is on by default
    p.down(5, 8);
    assert_eq!(p.offset(), 5);
    p.down(5, 8);
    assert_eq!(p.offset(), 0);
    p.up(3, 8);
    assert_eq!(p.offset(), 5);
    p.config.scroll_wrap = false;
    p.up(9, 8);
    assert_eq!(p.offset(), 0);
    p.down(20, 8);
    assert_eq!(p.offset(), 8);
}

#[test]
fn offset_counts_header_lines() {
    let mut p = pane(vec![setting(Side::Right, 50, "")], ShowCondition::Bool(true));
    p.config.initial.header_lines = 2;
    p.down(3, 10);
    assert_eq!(p.offset(), 5);
}

#[test]
fn jump_goes_to_end_and_back() {
    let mut p = pane(vec![setting(Side::Right, 50, "")], ShowCondition::Bool(true));
    p.area = Rect { x: 0, y: 0, width: 20, height: 5 };
    p.down(3, 30);
    p.jump(30);
    assert_eq!(p.offset(), 25);
    p.jump(30);
    assert_eq!(p.offset(), 0);
    p.jump(30);
    assert_eq!(p.offset(), 3);
    assert_eq!(p.jump, (false, 0));
}

#[test]
fn jump_when_following_the_end() {
    let mut p = pane(vec![setting(Side::Right, 50, "")], ShowCondition::Bool(true));
    p.config.initial.tail = true;
    p.down(4, 30);
    p.jump(30);
    assert_eq!(p.offset(), 0);
    p.jump(30);
    assert_eq!(p.offset(), 0);
    p.jump(30);
    assert_eq!(p.offset(), 4);
}

#[test]
fn scroll_resets_one_axis() {
    let mut p = pane(vec![setting(Side::Right, 50, "")], ShowCondition::Bool(true));
    p.scroll = [3, 4];
    p.scroll(true, 0);
    assert_eq!(p.scroll, [3, 0]);
    p.scroll(false, 0);
    assert_eq!(p.scroll, [0, 0]);
}

#[test]
fn set_target_walks_up_by_percentage() {
    let mut p = pane(vec![setting(Side::Right, 50, "")], ShowCondition::Bool(true));
    p.area = Rect { x: 0, y: 0, width: 10, height: 10 };
    p.config.initial = PreviewInitialSetting {
        tail: false,
        offset: Some(0),
        header_lines: 0,
        percentage: Percentage::new(50),
    };
    let lines: Vec<String> = (0..20).map(|i| format!("l{i}")).collect();
    let refs: Vec<&str> = lines.iter().map(|s| s.as_str()).collect();
    let t = text(&refs);
    p.set_target(Some(12), &t);
    assert_eq!(p.target_line(), Some(12));
    // five rows above the target: lines 12..=8 each take one row
    assert_eq!(p.offset(), 7);
    // counted from the end
    p.set_target(Some(-3), &t);
    assert_eq!(p.target_line(), Some(17));
    // past the end: half a pane above the last line
    p.set_target(Some(40), &t);
    assert_eq!(p.target_line(), Some(40));
    assert_eq!(p.offset(), 15);
    p.set_target(None, &t);
    assert_eq!(p.target_line(), None);
    assert_eq!(p.offset(), 0);
}

#[test]
fn set_target_default_shift_is_minus_one() {
    let mut p = pane(vec![setting(Side::Right, 50, "")], ShowCondition::Bool(true));
    let t = text(&["a", "b", "c"]);
    p.set_target(Some(2), &t);
    assert_eq!(p.target_line(), Some(1));
    // the whole pane below: no rows above
    assert_eq!(p.offset(), 1);
}

#[test]
fn make_preview_shows_header_then_offset() {
    let mut p = pane(vec![setting(Side::Right, 50, "")], ShowCondition::Bool(true));
    p.area = Rect { x: 0, y: 0, width: 10, height: 4 };
    p.config.initial.header_lines = 1;
    p.down(2, 10);
    let t = text(&["h", "a", "b", "c", "d", "e", "f"]);
    let shown = p.make_preview(t);
    assert_eq!(contents(&shown), vec!["h", "c", "d", "e"]);
    assert_eq!(p.last_count, 7);
}

#[test]
fn make_preview_trims_and_resets_on_shorter_content() {
    let mut p = pane(vec![setting(Side::Right, 50, "")], ShowCondition::Bool(true));
    p.area = Rect { x: 0, y: 0, width: 10, height: 3 };
    p.config.trim_ends = true;
    p.down(2, 10);
    let shown = p.make_preview(text(&["", "a", "b", "c", "d", ""]));
    assert_eq!(contents(&shown), vec!["c", "d"]);
    let shown = p.make_preview(text(&["a", "b"]));
    // the offset was reset, but this draw still used the old one
    assert_eq!(contents(&shown), Vec::<String>::new());
    let shown = p.make_preview(text(&["a", "b"]));
    assert_eq!(contents(&shown), vec!["a", "b"]);
}

#[test]
fn make_preview_follows_the_end() {
    let mut p = pane(vec![setting(Side::Right, 50, "")], ShowCondition::Bool(true));
    p.area = Rect { x: 0, y: 0, width: 10, height: 3 };
    p.config.initial.tail = true;
    let shown = p.make_preview(text(&["a", "b", "c", "d", "e"]));
    assert_eq!(contents(&shown), vec!["c", "d", "e"]);
    let mut zero = pane(vec![setting(Side::Right, 50, "")], ShowCondition::Bool(true));
    assert!(zero.make_preview(text(&["a"])).lines.is_empty());
}

#[test]
fn expand_and_shrink_from_the_area() {
    let mut p = pane(vec![setting(Side::Right, 50, "")], ShowCondition::Bool(true));
    p.update_dimensions(&Rect { x: 40, y: 0, width: 40, height: 24 });
    // the default border pads 2 columns on the left, and being padded it
    // draws all its sides
    assert_eq!(p.area, Rect { x: 43, y: 1, width: 36, height: 22 });
    p.expand(3);
    assert_eq!(p.current_dimension, Some(43));
    p.shrink(50);
    assert_eq!(p.current_dimension, Some(0));
    p.expand(0);
    assert_eq!(p.current_dimension, None);
}

#[test]
fn split_gives_the_preview_its_side() {
    let p = pane(vec![setting(Side::Bottom, 50, "")], ShowCondition::Bool(true));
    let [preview, rest] = p.split(Rect { x: 0, y: 0, width: 80, height: 20 });
    // 60% of 20 rows = 12, within [10, 50] rows of the default border
    assert_eq!(preview, Rect { x: 0, y: 8, width: 80, height: 12 });
    assert_eq!(rest, Rect { x: 0, y: 0, width: 80, height: 8 });
    let off = pane(vec![setting(Side::Bottom, 0, "")], ShowCondition::Bool(true));
    let area = Rect { x: 1, y: 2, width: 3, height: 4 };
    assert_eq!(off.split(area), [Rect::default(), area]);
}
