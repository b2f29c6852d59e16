use matchmaker::render::{AutoscrollSettings, CellStyle, StyledText};
use matchmaker::rows::render_row;
use matchmaker::worker::Column;
use nucleo::{Matcher, Nucleo};
use std::sync::Arc;

fn one_item(text: &str) -> Nucleo<String> {
    let mut nucleo = Nucleo::<String>::new(nucleo::Config::DEFAULT, Arc::new(|| {}), None, 1);
    let injector = nucleo.injector();
    injector.push(text.to_string(), |item, columns| {
        columns[0] = item.clone().into();
    });
    nucleo.tick(10);
    nucleo
}

fn plain_column(name: &str) -> Column<String, ()> {
    Column::new(name.to_string(), |s: &String, _: &()| StyledText::raw(s.as_str()))
}

fn no_autoscroll() -> AutoscrollSettings {
    AutoscrollSettings { enabled: false, ..Default::default() }
}

#[test]
fn render_row_scrolls_and_cuts_cells() {
    let nucleo = one_item("hello\nworld\nagain");
    let snapshot = nucleo.snapshot();
    let item = snapshot.get_item(0).unwrap();
    let columns = vec![plain_column("a").without_filtering()];
    let mut matcher = Matcher::default();
    let mut buffer = Vec::new();

    let (cells, widths) = render_row(
        item.matcher_columns,
        item.data,
        &(),
        snapshot,
        &columns,
        &vec![10],
        &vec![],
        false,
        1,
        false,
        CellStyle::default(),
        no_autoscroll(),
        0,
        1,
        &mut matcher,
        &mut buffer,
    );
    // The widest line of the formatted cell is 5 columns.
    assert_eq!(widths, vec![(0, 5)]);
    let cells = cells.unwrap();
    assert_eq!(cells.len(), 1);
    // One line skipped, then cut to one line with the truncation mark.
    assert_eq!(cells[0].lines.len(), 1);
    assert_eq!(cells[0].lines[0][0].content, "world");
    assert_eq!(cells[0].lines[0][1].content, " ⋮");
}

#[test]
fn render_row_has_no_cells_when_scrolled_past_every_line() {
    let nucleo = one_item("only");
    let snapshot = nucleo.snapshot();
    let item = snapshot.get_item(0).unwrap();
    let columns = vec![plain_column("a"), plain_column("b").without_filtering()];
    let mut matcher = Matcher::default();
    let mut buffer = Vec::new();

    let (cells, widths) = render_row(
        item.matcher_columns,
        item.data,
        &(),
        snapshot,
        &columns,
        &vec![10, 10],
        &vec![false, true],
        false,
        0,
        false,
        CellStyle::default(),
        no_autoscroll(),
        0,
        3,
        &mut matcher,
        &mut buffer,
    );
    // The hidden column is not formatted.
    assert_eq!(widths, vec![(0, 4)]);
    assert!(cells.unwrap().is_empty());
}

#[test]
fn render_row_draws_only_columns_with_a_limit() {
    let nucleo = one_item("abc");
    let snapshot = nucleo.snapshot();
    let item = snapshot.get_item(0).unwrap();
    let columns = vec![
        plain_column("a"),
        plain_column("b").without_filtering(),
        plain_column("c").without_filtering(),
    ];
    let mut matcher = Matcher::default();
    let mut buffer = Vec::new();

    let (cells, widths) = render_row(
        item.matcher_columns,
        item.data,
        &(),
        snapshot,
        &columns,
        &vec![0, 2],
        &vec![],
        true,
        0,
        true,
        CellStyle::default(),
        no_autoscroll(),
        0,
        0,
        &mut matcher,
        &mut buffer,
    );
    assert_eq!(widths, vec![(0, 3), (1, 3), (2, 3)]);
    let cells = cells.unwrap();
    // Column 0 has limit 0 and is not drawn; column 1 wraps at 2, and
    // column 2 lies past the limits (unlimited); stacked cells pair up with
    // the drawn columns in order.
    assert_eq!(cells.len(), 2);
    assert!(cells[0].lines.len() >= 2);
    assert_eq!(cells[1].to_string(), "abc");
    assert!(buffer.is_empty());
}
