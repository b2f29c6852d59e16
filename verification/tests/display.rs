use matchmaker::config::{
    BorderSetting, BorderSides, DisplayConfig, Padding, RowConnectionStyle, StringOrVec,
};
use matchmaker::display::DisplayUI;
use matchmaker::render::{CellStyle, StyledSpan, StyledText};

fn line(s: &str) -> Vec<StyledSpan> {
    vec![StyledSpan { content: s.to_string(), style: CellStyle::default() }]
}

fn raw(s: &str) -> StyledText {
    StyledText::raw(s)
}

#[test]
fn test_single_column_make_display_and_full_width() {
    let mut display = DisplayUI::default();
    display.set(raw("hello world"));
    display.update_width(80);

    let (_table, full_width) = display.make_display((0, 0, vec![10, 20]));
    assert!(full_width.is_some());
    assert_eq!(display.table().len(), 1);
    assert_eq!(display.table()[0].len(), 1);
    assert_eq!(display.height(), 1);
}

#[test]
fn test_multi_column_make_display_no_full_width() {
    let mut display = DisplayUI::default();
    display.push(raw("col1"));
    display.push(raw("col2"));

    let (_table, full_width) = display.make_display((0, 0, vec![10, 20]));
    assert!(full_width.is_none());
    assert_eq!(display.table().len(), 1);
    assert_eq!(display.table()[0].len(), 2);
}

#[test]
fn test_interaction_single_column_wrapping() {
    let config = DisplayConfig {
        wrap: true,
        interactions: vec![vec![(0, "first_line".to_string()), (4, "second_line".to_string())]],
        ..Default::default()
    };
    let mut display = DisplayUI::new(config);
    display.set(raw("123456"));
    display.update_width(5);
    display.make_display((0, 0, vec![5]));

    // Heights should be 2 lines ("1234↵", "56")
    assert_eq!(*display.heights(), vec![2]);
    assert_eq!(display.height(), 2);

    assert_eq!(display.get_interaction(2, 0), Some("first_line".to_string()));
    assert_eq!(display.get_interaction(1, 1), Some("second_line".to_string()));
}

#[test]
fn test_interaction_hidden_columns() {
    let config = DisplayConfig {
        wrap: false,
        interactions: vec![vec![
            (0, "col0".to_string()),
            (6, "col1_hidden".to_string()),
            (8, "col2".to_string()),
        ]],
        ..Default::default()
    };
    let mut display = DisplayUI::new(config);
    display.push(raw("123456"));
    display.push(raw("ab"));
    display.push(raw("xyz"));

    display.make_display((0, 0, vec![3, 0, 3]));

    assert_eq!(display.get_interaction(4, 0), Some("col2".to_string()));
    assert_eq!(display.get_interaction(1, 0), Some("col0".to_string()));
}

#[test]
fn test_interaction_multi_row_header() {
    let config = DisplayConfig {
        interactions: vec![vec![(0, "header_r0".to_string())], vec![(0, "header_r1".to_string())]],
        ..Default::default()
    };
    let mut display = DisplayUI::new(config);
    display.header_table(vec![
        vec![line("row0_col0"), line("row0_col1")],
        vec![line("row1_col0"), line("row1_col1")],
    ]);

    display.make_display((0, 0, vec![10, 10]));
    assert_eq!(*display.heights(), vec![1, 1]);

    assert_eq!(display.get_interaction(2, 0), Some("header_r0".to_string()));
    assert_eq!(display.get_interaction(2, 1), Some("header_r1".to_string()));
    assert_eq!(display.get_interaction(2, 2), None);
}

#[test]
fn test_interaction_multi_column_wrapping() {
    let config = DisplayConfig {
        wrap: true,
        interactions: vec![vec![
            (0, "col0_line0".to_string()),
            (4, "col0_line1".to_string()),
            (6, "col1".to_string()),
        ]],
        ..Default::default()
    };
    let mut display = DisplayUI::new(config);
    display.push(raw("123456"));
    display.push(raw("abc"));

    display.make_display((0, 0, vec![5, 5]));
    assert_eq!(*display.heights(), vec![2]);
    assert_eq!(display.height(), 2);

    assert_eq!(display.get_interaction(1, 0), Some("col0_line0".to_string()));
    assert_eq!(display.get_interaction(0, 1), Some("col0_line1".to_string()));
    assert_eq!(display.get_interaction(6, 0), Some("col1".to_string()));
}

#[test]
fn test_interaction_column_spacing() {
    let config = DisplayConfig {
        interactions: vec![vec![(0, "col0".to_string()), (5, "col1".to_string())]],
        ..Default::default()
    };
    let mut display = DisplayUI::new(config);
    display.push(raw("hello"));
    display.push(raw("world"));

    display.make_display((0, 2, vec![5, 5]));

    assert_eq!(display.get_interaction(2, 0), Some("col0".to_string()));
    assert_eq!(display.get_interaction(7, 0), Some("col1".to_string()));
    assert_eq!(display.get_interaction(8, 0), Some("col1".to_string()));
}

#[test]
fn new_sorts_regions_and_reads_content() {
    let config = DisplayConfig {
        content: Some(StringOrVec::Vec(vec!["a".to_string(), "b\nc".to_string()])),
        interactions: vec![vec![(5, "x".to_string()), (0, "y".to_string()), (5, "z".to_string())]],
        ..Default::default()
    };
    let display = DisplayUI::new(config);
    assert_eq!(
        display.config.interactions[0],
        vec![(0, "y".to_string()), (5, "x".to_string()), (5, "z".to_string())]
    );
    assert!(display.show);
    assert!(!display.is_single_column());
    // the second column has two lines
    assert_eq!(*display.heights(), vec![2]);
}

#[test]
fn hidden_display_takes_no_rows_and_answers_no_click() {
    let mut display = DisplayUI::new(DisplayConfig {
        interactions: vec![vec![(0, "x".to_string())]],
        ..Default::default()
    });
    assert_eq!(display.height(), 0);
    assert_eq!(display.get_interaction(0, 0), None);
    display.set(raw("abc"));
    assert_eq!(display.get_interaction(0, 0), Some("x".to_string()));
    display.clear(false);
    assert!(!display.show);
    assert!(display.table().is_empty());
    assert_eq!(display.get_interaction(0, 0), None);
}

#[test]
fn clear_keeping_header_stays_shown() {
    let mut display = DisplayUI::default();
    display.header_table(vec![vec![line("h")]]);
    display.set(raw("content"));
    assert_eq!(display.table().len(), 2);
    display.clear(true);
    assert!(display.show);
    assert_eq!(display.table().len(), 1);
}

#[test]
fn border_counts_in_height_and_clicks() {
    let border = BorderSetting { sides: Some(BorderSides::all()), ..Default::default() };
    let mut display = DisplayUI::new(DisplayConfig {
        border,
        match_indent: false,
        interactions: vec![vec![(0, "a".to_string()), (2, "b".to_string())]],
        ..Default::default()
    });
    display.set(raw("abcd"));
    assert_eq!(display.height(), 3);
    // the top line and the left line come first
    assert_eq!(display.get_interaction(1, 0), None);
    assert_eq!(display.get_interaction(0, 1), None);
    assert_eq!(display.get_interaction(1, 1), Some("a".to_string()));
    assert_eq!(display.get_interaction(3, 1), Some("b".to_string()));
}

#[test]
fn make_display_drops_hidden_columns_and_pads() {
    let mut display = DisplayUI::new(DisplayConfig {
        row_connection: RowConnectionStyle::Full,
        ..Default::default()
    });
    display.push(raw("a"));
    display.push(raw("b"));
    display.push(raw("c"));
    let (table, full) = display.make_display((4, 1, vec![3, 0, 2]));
    let table = table.unwrap();
    assert!(full.is_none());
    assert_eq!(table.rows.len(), 1);
    assert_eq!(table.rows[0].cells.len(), 2);
    assert!(!table.rows[0].cell_styled);
    assert!(table.rows[0].row_styled);
    assert_eq!(table.widths, Some(vec![3, 2]));
    assert_eq!(table.column_spacing, 1);
    assert_eq!(table.padding_left, Some(4));
    assert!(table.styled);
    let mut single = DisplayUI::default();
    single.set(raw("x"));
    let (table, full) = single.make_display((3, 0, vec![]));
    assert_eq!(table.unwrap().widths, None);
    let (text, padding) = full.unwrap();
    assert_eq!(text, raw("x"));
    assert_eq!(padding, Padding { top: 0, right: 0, bottom: 0, left: 3 });
    let mut empty = DisplayUI::default();
    let (table, full) = empty.make_display((0, 0, vec![]));
    assert!(table.is_none() && full.is_none());
}
