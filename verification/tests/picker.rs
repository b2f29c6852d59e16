use matchmaker::collections::Selector;
use matchmaker::config::ResultsConfig;
use matchmaker::picker::{picker_step, PickerCommand, PickerModel, StepOutcome};
use matchmaker::results::ResultsUI;

fn model(matched: u32, allow_empty: bool) -> PickerModel {
    let mut results = ResultsUI::new(ResultsConfig::default());
    results.height = 5;
    results.status.matched_count = matched;
    PickerModel { results, selector: Selector::new(), allow_empty }
}

#[test]
fn accept_without_anything_is_refused_unless_allowed() {
    let mut m = model(0, false);
    assert_eq!(picker_step(&mut m, &PickerCommand::Accept, None, &vec![]), StepOutcome::Ignored);
    let mut m = model(0, true);
    assert_eq!(picker_step(&mut m, &PickerCommand::Accept, None, &vec![]), StepOutcome::Accept(vec![]));
}

#[test]
fn accept_gives_the_selections_or_the_current_item() {
    let mut m = model(10, false);
    assert_eq!(picker_step(&mut m, &PickerCommand::Accept, Some(7), &vec![]), StepOutcome::Accept(vec![7]));
    picker_step(&mut m, &PickerCommand::Select, Some(3), &vec![]);
    picker_step(&mut m, &PickerCommand::Select, Some(5), &vec![]);
    picker_step(&mut m, &PickerCommand::ToggleSelection, Some(8), &vec![]);
    picker_step(&mut m, &PickerCommand::Deselect, Some(3), &vec![]);
    assert_eq!(picker_step(&mut m, &PickerCommand::Accept, Some(7), &vec![]), StepOutcome::Accept(vec![5, 8]));
    picker_step(&mut m, &PickerCommand::ClearSelections, None, &vec![]);
    picker_step(&mut m, &PickerCommand::CycleSelections, None, &vec![1, 2]);
    assert_eq!(picker_step(&mut m, &PickerCommand::Accept, None, &vec![]), StepOutcome::Accept(vec![1, 2]));
}

#[test]
fn quit_aborts_with_its_code() {
    let mut m = model(3, false);
    assert_eq!(picker_step(&mut m, &PickerCommand::Quit(2), None, &vec![]), StepOutcome::Abort(2));
}

#[test]
fn moves_follow_the_list_direction() {
    let mut m = model(10, false);
    assert_eq!(picker_step(&mut m, &PickerCommand::Down(2), None, &vec![]), StepOutcome::Continue);
    assert_eq!(m.results.index(), 2);
    picker_step(&mut m, &PickerCommand::Up(1), None, &vec![]);
    assert_eq!(m.results.index(), 1);
    m.results.config.reverse = Some(true);
    picker_step(&mut m, &PickerCommand::Up(3), None, &vec![]);
    assert_eq!(m.results.index(), 4);
    picker_step(&mut m, &PickerCommand::HalfPageDown, None, &vec![]);
    assert_eq!(m.results.index(), 1);
}

#[test]
fn negative_positions_count_from_the_end() {
    let mut m = model(10, false);
    picker_step(&mut m, &PickerCommand::Pos(-1), None, &vec![]);
    assert_eq!(m.results.index(), 9);
    picker_step(&mut m, &PickerCommand::Pos(3), None, &vec![]);
    assert_eq!(m.results.index(), 3);
    picker_step(&mut m, &PickerCommand::Pos(-20), None, &vec![]);
    assert_eq!(m.results.index(), 0);
}
