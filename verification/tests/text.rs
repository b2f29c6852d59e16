use matchmaker::render::{CellColor, CellStyle, StyledSpan, StyledText};
use matchmaker::text::{
    apply_style_at, is_empty, scrub_text_styles, take_lines, trim_text_lines, wrap_line, wrap_text,
    wrapped_line_height,
};

fn span(content: &str, style: CellStyle) -> StyledSpan {
    StyledSpan { content: content.to_string(), style }
}

fn raw(content: &str) -> StyledSpan {
    span(content, CellStyle::default())
}

fn fg(c: CellColor) -> CellStyle {
    CellStyle::fg(c)
}

fn bg(c: CellColor) -> CellStyle {
    CellStyle { bg: Some(c), ..CellStyle::default() }
}

#[test]
fn test_no_wrap_needed() {
    let text = StyledText { lines: vec![vec![raw("abc")]] };
    let (wrapped_text, wrapped) = wrap_text(text, 10);
    assert!(!wrapped);
    assert_eq!(wrapped_text.lines.len(), 1);
    assert_eq!(wrapped_text.lines[0][0].content, "abc");
}

#[test]
fn test_simple_wrap() {
    let text = StyledText { lines: vec![vec![raw("abcdef")]] };
    let (wrapped_text, wrapped) = wrap_text(text, 4);
    assert!(wrapped);
    assert_eq!(wrapped_text.lines.len(), 2);
    assert_eq!(wrapped_text.lines[0].last().unwrap().content, "↵");
}

#[test]
fn test_multiline_input_preserved() {
    let text = StyledText { lines: vec![vec![raw("abc")], vec![raw("defghij")]] };
    let (wrapped_text, wrapped) = wrap_text(text, 5);
    assert!(wrapped);
    assert_eq!(wrapped_text.lines.len(), 3);
    assert_eq!(wrapped_text.lines[0][0].content, "abc");
}

#[test]
fn test_handles_empty_line() {
    let text = StyledText { lines: vec![vec![], vec![raw("abc")]] };
    let (wrapped_text, wrapped) = wrap_text(text, 3);
    assert!(!wrapped);
    assert_eq!(wrapped_text.lines.len(), 2);
    assert!(wrapped_text.lines[0].is_empty());
}

#[test]
fn test_unicode_emoji_width() {
    let text = StyledText { lines: vec![vec![raw("🙂🙂🙂")]] };
    let (wrapped_text, wrapped) = wrap_text(text, 4); // each emoji width=2
    assert!(wrapped);
    assert!(wrapped_text.lines.len() > 1);
}

#[test]
fn test_apply_style_multiline_partial_spans() {
    let text = StyledText {
        lines: vec![
            // 12
            vec![raw("Hello"), span(", ", fg(CellColor::Green)), raw("world")],
            // 14
            vec![raw("This "), span("is ", bg(CellColor::Yellow)), raw("line 2")],
            vec![raw("Line "), span("three", fg(CellColor::Cyan)), raw(" ends here")],
        ],
    };

    // Apply a red style from line 1 to the first 2 (3 + 27 - (26 + 2)) chars of line 3.
    let styled_text = apply_style_at(text, 3, 27, fg(CellColor::Red));

    let red = fg(CellColor::Red);
    let expected = StyledText {
        lines: vec![
            // Line 1
            vec![raw("Hel"), span("lo", red), span(", ", red), span("world", red)],
            // Line 2
            vec![
                span("This ", red),
                span("is ", CellStyle { fg: Some(CellColor::Red), bg: Some(CellColor::Yellow), ..CellStyle::default() }),
                span("line 2", red),
            ],
            // Line 3
            vec![span("Li", red), raw("ne "), span("three", fg(CellColor::Cyan)), raw(" ends here")],
        ],
    };
    assert_eq!(styled_text, expected);
}

#[test]
fn wrap_line_keeps_styles_and_marks_cuts() {
    let red = fg(CellColor::Red);
    let line = vec![raw("ab"), span("cdef", red)];
    let lines = wrap_line(&line, 4);
    // three columns per line, the fourth is the wrap mark
    assert_eq!(lines.len(), 2);
    assert_eq!(lines[0].len(), 3);
    assert_eq!(lines[0][0], raw("ab"));
    assert_eq!(lines[0][1], span("c", red));
    assert_eq!(lines[0][2].content, "↵");
    assert_eq!(lines[1], vec![span("def", red)]);
    // fits: unchanged
    assert_eq!(wrap_line(&line, 6), vec![line.clone()]);
    assert_eq!(wrap_line(&line, 0), vec![line]);
}

#[test]
fn wrap_width_zero_keeps_text() {
    let text = StyledText { lines: vec![vec![raw("abcdef")]] };
    let (same, wrapped) = wrap_text(text.clone(), 0);
    assert!(!wrapped);
    assert_eq!(same, text);
}

#[test]
fn taking_and_trimming_lines() {
    let mut t = StyledText { lines: vec![vec![raw("a")], vec![raw("b")], vec![raw("c")]] };
    take_lines(&mut t, 2, true);
    assert_eq!(t.to_string(), "b\nc");
    take_lines(&mut t, 5, false);
    assert_eq!(t.to_string(), "b\nc");
    take_lines(&mut t, 1, false);
    assert_eq!(t.to_string(), "b");

    let mut t = StyledText { lines: vec![vec![], vec![raw("x")], vec![], vec![raw("y")], vec![]] };
    trim_text_lines(&mut t);
    assert_eq!(t.lines.len(), 3);
    assert_eq!(t.to_string(), "x\n\ny");
    let mut blank = StyledText { lines: vec![vec![], vec![]] };
    assert!(is_empty(&blank));
    trim_text_lines(&mut blank);
    assert!(blank.lines.is_empty());
    assert!(!is_empty(&t));
}

#[test]
fn scrubbing_drops_resets() {
    let mut t = StyledText {
        lines: vec![vec![span(
            "x",
            CellStyle { fg: Some(CellColor::Reset), bg: Some(CellColor::Blue), underline_color: Some(CellColor::Reset), add_modifier: 1, sub_modifier: 2 },
        )]],
    };
    scrub_text_styles(&mut t);
    assert_eq!(
        t.lines[0][0].style,
        CellStyle { fg: None, bg: Some(CellColor::Blue), underline_color: None, add_modifier: 1, sub_modifier: 0 }
    );
}

#[test]
fn wrapped_height_rounds_up() {
    let line = vec![raw("abcde"), raw("fg")];
    assert_eq!(wrapped_line_height(&line, 3), 3);
    assert_eq!(wrapped_line_height(&line, 7), 1);
    assert_eq!(wrapped_line_height(&vec![], 4), 0);
}
