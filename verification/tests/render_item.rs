use matchmaker::render::{
    render_cell, render_cell_with_indices, AutoscrollSettings, CellColor, CellStyle, Either, StyledText,
};
use nucleo::{Matcher, Nucleo};
use std::sync::Arc;

/// Sets up the necessary Nucleo state to trigger a match
fn setup_nucleo_mocks(search_query: &str, item_text: &str) -> (Nucleo<String>, Matcher, Vec<u32>) {
    let mut nucleo = Nucleo::<String>::new(nucleo::Config::DEFAULT, Arc::new(|| {}), None, 1);

    let injector = nucleo.injector();
    injector.push(item_text.to_string(), |item, columns| {
        columns[0] = item.clone().into();
    });

    nucleo.pattern.reparse(
        0,
        search_query,
        nucleo::pattern::CaseMatching::Ignore,
        nucleo::pattern::Normalization::Smart,
        false,
    );

    nucleo.tick(10); // Process the item

    let matcher = Matcher::default();
    let buffer = Vec::new();

    (nucleo, matcher, buffer)
}

fn render(
    query: &str,
    text: &str,
    wrap: bool,
    width_limit: u16,
    autoscroll: AutoscrollSettings,
    hscroll_offset: i8,
) -> (String, usize) {
    let (nucleo, mut matcher, mut buffer) = setup_nucleo_mocks(query, text);
    let snapshot = nucleo.snapshot();
    let item = snapshot.get_item(0).unwrap();

    let cell = StyledText::raw(text);
    let highlight = CellStyle::fg(CellColor::Red);

    let (result_text, width) = render_cell(
        cell,
        0,
        snapshot,
        item.matcher_columns,
        &mut matcher,
        highlight,
        wrap,
        width_limit,
        &mut buffer,
        autoscroll,
        hscroll_offset,
    )
    .unwrap();
    assert!(buffer.is_empty());
    (result_text.to_string(), width)
}

#[test]
fn test_no_scroll_context_renders_normally() {
    let (output_str, width) = render(
        "match",
        "hello match world",
        false,
        u16::MAX,
        AutoscrollSettings { enabled: false, ..Default::default() },
        0,
    );
    assert_eq!(output_str, "hello match world");
    assert_eq!(width, 17);
}

#[test]
fn test_scroll_context_cuts_prefix_correctly() {
    let (output_str, _) = render(
        "match",
        "hello match world",
        false,
        u16::MAX,
        AutoscrollSettings { initial_preserved: 0, context: 2, ..Default::default() },
        0,
    );
    assert_eq!(output_str, "hello match world");
}

#[test]
fn test_scroll_context_backfills_to_fill_width_limit() {
    let (output_str, width) = render(
        "match",
        "abcdefghijmatch",
        false,
        10,
        AutoscrollSettings { initial_preserved: 0, context: 1, ..Default::default() },
        0,
    );
    assert_eq!(output_str, "…ghijmatch");
    assert_eq!(width, 10);
}

#[test]
fn test_preserved_prefix_and_ellipsis() {
    let (output_str, width) = render(
        "match",
        "abcdefghijmatch",
        false,
        10,
        AutoscrollSettings { initial_preserved: 3, context: 1, ..Default::default() },
        0,
    );
    assert_eq!(output_str, "abc…jmatch");
    assert_eq!(width, 10);
}

#[test]
fn test_wrap() {
    let (output_str, width) = render(
        "match",
        "abcdefmatch",
        true,
        10,
        AutoscrollSettings { initial_preserved: 3, context: 1, ..Default::default() },
        -2,
    );
    assert_eq!(output_str, "abcdefmat↵\nch");
    assert_eq!(width, 10);
}

#[test]
fn test_wrap_edge_case_6_chars_width_5() {
    let (output_str, width) = render(
        "",
        "123456",
        true,
        5,
        AutoscrollSettings { enabled: false, ..Default::default() },
        0,
    );
    // Expecting "1234↵" and "56"
    assert_eq!(output_str, "1234↵\n56");
    assert_eq!(width, 5);
}

#[test]
fn test_autoscroll_end() {
    let (output_str, width) = render(
        "match",
        "abcdefghijmatch",
        false,
        10,
        AutoscrollSettings { end: true, context: 4, ..Default::default() },
        0,
    );
    assert_eq!(output_str, "…ghijmatch");
    assert_eq!(width, 10);
}

#[test]
fn test_autoscroll_end_context() {
    let (output_str, width) = render(
        "ma",
        "abcdefghijmatch",
        false,
        10,
        AutoscrollSettings { end: true, context: 2, ..Default::default() },
        0,
    );
    assert_eq!(output_str, "…fghijmatc");
    assert_eq!(width, 10);
}

#[test]
fn highlight_is_patched_onto_matched_graphemes() {
    let cell = StyledText::raw("abc");
    let red = CellStyle::fg(CellColor::Red);
    let (out, width) = render_cell_with_indices(
        &cell,
        &vec![2, 1, 1],
        red,
        false,
        u16::MAX,
        AutoscrollSettings { enabled: false, ..Default::default() },
        0,
    )
    .unwrap();
    assert_eq!(width, 3);
    assert_eq!(out.lines.len(), 1);
    let spans = &out.lines[0];
    assert_eq!(spans.len(), 2);
    assert_eq!(spans[0].content, "a");
    assert_eq!(spans[0].style, CellStyle::default());
    assert_eq!(spans[1].content, "bc");
    assert_eq!(spans[1].style, red);
}

#[test]
fn cut_without_wrapping_and_multiline_numbering() {
    let cell = StyledText::raw("abcdef\nxyz");
    // index 7 is the line end; the highlight does not move past it, so no
    // grapheme of the second line is highlighted
    let red = CellStyle::fg(CellColor::Red);
    let (out, width) = render_cell_with_indices(
        &cell,
        &vec![6, 7],
        red,
        false,
        4,
        AutoscrollSettings { enabled: false, ..Default::default() },
        0,
    )
    .unwrap();
    assert_eq!(out.to_string(), "abcd\nxyz");
    assert_eq!(width, 4);
    assert!(out.lines[1].iter().all(|s| s.style == CellStyle::default()));
}

#[test]
fn hscroll_past_an_empty_line_cannot_be_laid_out() {
    let cell = StyledText::raw("");
    let r = render_cell_with_indices(
        &cell,
        &vec![],
        CellStyle::default(),
        false,
        10,
        AutoscrollSettings { enabled: false, ..Default::default() },
        3,
    );
    assert!(r.is_none());
}

#[test]
fn wide_graphemes_count_by_display_width() {
    let cell = StyledText::raw("日本語");
    let (out, width) = render_cell_with_indices(
        &cell,
        &vec![],
        CellStyle::default(),
        false,
        5,
        AutoscrollSettings { enabled: false, ..Default::default() },
        0,
    )
    .unwrap();
    assert_eq!(out.to_string(), "日本");
    assert_eq!(width, 4);
}

#[test]
fn to_cow_gives_the_text() {

    let l: Either<String, StyledText> = Either::Left("plain".to_string());
    assert_eq!(l.to_cow(), "plain");
    let r: Either<String, StyledText> = Either::Right(StyledText::raw("a\nb"));
    assert_eq!(r.to_cow(), "a\nb");
}

#[test]
fn patch_overrides_set_colours_and_modifiers() {
    let base = CellStyle { fg: Some(CellColor::Blue), bg: Some(CellColor::Black), underline_color: None, add_modifier: 1, sub_modifier: 4 };
    let top = CellStyle { fg: Some(CellColor::Red), bg: None, underline_color: None, add_modifier: 4, sub_modifier: 1 };
    let p = base.patch(top);
    assert_eq!(p.fg, Some(CellColor::Red));
    assert_eq!(p.bg, Some(CellColor::Black));
    assert_eq!(p.add_modifier, 4);
    assert_eq!(p.sub_modifier, 1);
}
