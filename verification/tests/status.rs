use matchmaker::render::CellColor;
use matchmaker::status::{
    parse_template_to_status_line, span_from_template, try_parse_template_to_status_line, BOLD, RAPID_BLINK,
};

#[test]
fn parser_marks_interactive_aliases() {
    let line = parse_template_to_status_line("{i:a} {interactive:b}");
    let marked: Vec<&str> = line.lines[0]
        .iter()
        .filter(|span| span.style.add_modifier & RAPID_BLINK != 0)
        .map(|span| span.content.as_str())
        .collect();
    assert_eq!(marked, vec!["a", "b"]);
}

#[test]
fn sections_take_colors_and_modifiers() {
    let line = parse_template_to_status_line("{red,bold:x}y");
    let spans = &line.lines[0];
    assert_eq!(spans.len(), 2);
    assert_eq!(spans[0].content, "x");
    assert_eq!(spans[0].style.fg, Some(CellColor::Red));
    assert_eq!(spans[0].style.add_modifier & BOLD, BOLD);
    assert_eq!(spans[1].content, "y");
    assert_eq!(spans[1].style.fg, None);
}

#[test]
fn second_color_and_prefixed_colors_set_the_background() {
    let span = span_from_template("red, blue:t");
    assert_eq!(span.style.fg, Some(CellColor::Red));
    assert_eq!(span.style.bg, Some(CellColor::Blue));
    let span = span_from_template("bg=green:t");
    assert_eq!(span.style.bg, Some(CellColor::Green));
    assert_eq!(span.style.fg, None);
    // An empty token counts as the foreground, so the color goes to the background.
    let span = span_from_template(",yellow:t");
    assert_eq!(span.style.fg, None);
    assert_eq!(span.style.bg, Some(CellColor::Yellow));
    let span = span_from_template("no colon");
    assert_eq!(span.content, "no colon");
}

#[test]
fn unbalanced_template_is_one_plain_span() {
    let line = parse_template_to_status_line("a{b");
    assert_eq!(line.lines[0].len(), 1);
    assert_eq!(line.lines[0][0].content, "a{b");
}

#[test]
fn part_taken_as_section_without_brackets_is_refused() {
    assert!(try_parse_template_to_status_line("{a}{b}c").is_none());
    assert!(try_parse_template_to_status_line("x{a}y").is_some());
}

#[test]
fn colors_by_name_hex_and_index() {
    let span = span_from_template("light blue,#FF0080:t");
    assert_eq!(span.style.fg, Some(CellColor::LightBlue));
    assert_eq!(span.style.bg, Some(CellColor::Rgb(255, 0, 128)));
    let span = span_from_template("fg=200,bg=Grey:t");
    assert_eq!(span.style.fg, Some(CellColor::Indexed(200)));
    assert_eq!(span.style.bg, Some(CellColor::Gray));
    let span = span_from_template("notacolor,italic:t");
    assert_eq!(span.style.fg, None);
    assert_eq!(span.style.add_modifier, matchmaker::render::ITALIC);
}
