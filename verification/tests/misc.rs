use matchmaker::config::{BorderSetting, BorderSides, Padding};
use matchmaker::config::{
    deserialize_option_auto, deserialize_string_or_char_as_double_width, max_cols, ColumnSetting,
    NucleoMatcherConfig, OverlayLayoutSettings, ScrollStrategy,
};
use matchmaker::errors::{MatchError, MatchResultExt};
use matchmaker::event::set_mode;
use matchmaker::worker::{new_snapshot, render_template, Column, Status};
use matchmaker::render::StyledText;
use matchmaker::tui::{take_cursor_position, take_paste_report, Startup};
use matchmaker::ui::{find_interaction, Click, OverlayEffect};
use matchmaker::utils::{sanitize_string, EnvVarsExt, HorizontalSeparator, Percentage, StringOrVec};
use std::sync::Arc;

#[test]
fn first_of_a_pick() {
    let ok: Result<Vec<u32>, MatchError> = Ok(vec![4, 5]);
    assert_eq!(ok.first(), Ok(4));
    let empty: Result<Vec<u32>, MatchError> = Ok(vec![]);
    assert_eq!(empty.first(), Err(MatchError::NoMatch));
    let err: Result<Vec<u32>, MatchError> = Err(MatchError::Abort(3));
    assert_eq!(err.first(), Err(MatchError::Abort(3)));
}

#[test]
fn mode_stack_from_a_comma_list() {
    let mut stack = vec!["old".to_string()];
    set_mode(&mut stack, " insert, ,vim ,");
    assert_eq!(stack, vec!["insert".to_string(), "vim".to_string()]);
    set_mode(&mut stack, "");
    assert!(stack.is_empty());
}

#[test]
fn template_replaces_columns() {
    let columns = vec![
        ("name".to_string(), Some("foo bar".to_string())),
        ("size".to_string(), Some("12".to_string())),
        ("none".to_string(), None),
    ];
    assert_eq!(render_template("{name}: {size}", false, "ITEM", &columns), "foo bar: 12");
    assert_eq!(render_template("open {}", true, "ITEM", &columns), "open 'ITEM'");
    assert_eq!(render_template("{missing}{none}!", false, "", &columns), "!");
    assert_eq!(render_template("\\{name} {name", false, "", &columns), "{name} {name");
    assert_eq!(render_template("'{name}'", true, "", &columns), "''foo bar''");
}

#[test]
fn env_vars_set_and_get() {
    let mut env: Vec<(String, String)> = Vec::new();
    env.env_set("A".to_string(), "1".to_string());
    env.env_set("B".to_string(), "2".to_string());
    env.env_set("A".to_string(), "3".to_string());
    assert_eq!(env.len(), 2);
    assert_eq!(env.env_get("A"), Some(&"3".to_string()));
    assert_eq!(env.env_get("B"), Some(&"2".to_string()));
    assert_eq!(env.env_get("C"), None);
}

#[test]
fn paste_report_is_cut_out() {
    let mut buf = "x\u{1b}[?2004;1$yrest".to_string();
    assert_eq!(take_paste_report(&mut buf), Some(true));
    assert_eq!(buf, "rest");
    let mut buf = "\u{1b}[?2004;2$y".to_string();
    assert_eq!(take_paste_report(&mut buf), Some(false));
    let mut buf = "\u{1b}[?2004;x$y".to_string();
    assert_eq!(take_paste_report(&mut buf), None);
    assert_eq!(buf, "\u{1b}[?2004;x$y");
}

#[test]
fn cursor_report_is_cut_out() {
    let mut buf = "\u{1b}[12;40Rtail".to_string();
    assert_eq!(take_cursor_position(&mut buf), Some((39, 11)));
    assert_eq!(buf, "tail");
    let mut buf = "\u{1b}[?2004;1$y".to_string();
    assert_eq!(take_cursor_position(&mut buf), None);
    let mut buf = "\u{1b}[5R".to_string();
    assert_eq!(take_cursor_position(&mut buf), None);
    assert_eq!(Startup::default(), Startup { cursor: None, bracketed_paste: None });
}

#[test]
fn config_values() {
    assert_eq!(deserialize_string_or_char_as_double_width("x"), "x ");
    assert_eq!(deserialize_string_or_char_as_double_width("ab"), "ab");
    assert_eq!(deserialize_option_auto(Some("auto".to_string())), None);
    assert_eq!(deserialize_option_auto(Some("3".to_string())), Some("3".to_string()));
    assert_eq!(deserialize_option_auto(None), None);
    assert_eq!(max_cols(0), 1);
    assert_eq!(max_cols(4), 4);
    assert_eq!(max_cols(50), 10);
    let c = ColumnSetting::from_name("path".to_string());
    assert!(c.filter && !c.hidden);
    assert_eq!(c.name, "path");
    assert_eq!(OverlayLayoutSettings::default().y_offset.inner(), 50);
    let _ = ScrollStrategy::Aggressive;
}

#[test]
fn matcher_flags_default_to_nucleo_defaults() {
    // reads nucleo's own default configuration
    let d = NucleoMatcherConfig::default();
    let n = nucleo::Config::DEFAULT;
    assert_eq!((d.normalize, d.ignore_case, d.prefer_prefix), (n.normalize, n.ignore_case, n.prefer_prefix));
    let c = NucleoMatcherConfig::from_options(None, Some(false), Some(true));
    assert_eq!((c.normalize, c.ignore_case, c.prefer_prefix), (true, false, true));
}

#[test]
fn percentage_arithmetic() {
    assert_eq!(Percentage::new(150).inner(), 100);
    assert_eq!(Percentage::default().inner(), 100);
    assert_eq!(Percentage::new(30).saturating_sub(50).inner(), 0);
    assert_eq!(Percentage::new(50).compute_clamped(30, 0, 0), 15);
    assert_eq!(Percentage::new(50).compute_clamped(30, 20, 0), 20);
    assert_eq!(Percentage::new(50).compute_clamped(30, 0, 10), 10);
}

#[test]
fn separators_and_text() {
    assert_eq!(HorizontalSeparator::Heavy.as_str(), "━");
    assert_eq!(HorizontalSeparator::Empty.as_str(), " ");
    assert_eq!(HorizontalSeparator::default(), HorizontalSeparator::NoLine);
    assert_eq!(sanitize_string("a\tb\rc\u{7}\n\u{1b}"), "a    b c\n\u{1b}");
    assert_eq!(StringOrVec::default(), StringOrVec::String(String::new()));
}

#[test]
fn interactions_under_a_column() {
    let regions = vec![(0, "first".to_string()), (5, String::new()), (9, "third".to_string())];
    assert_eq!(find_interaction(&regions, 3), Some("first".to_string()));
    assert_eq!(find_interaction(&regions, 6), None);
    assert_eq!(find_interaction(&regions, 12), Some("third".to_string()));
    assert_eq!(OverlayEffect::default(), OverlayEffect::NoEffect);
    let _ = Click::ResultPos(3);
}

#[test]
fn columns_show_and_take_raw_text() {
    let col: Column<String, ()> = Column::new("name".to_string(), |item: &String, _d: &()| StyledText::raw(item));
    assert!(col.filter());
    assert_eq!(col.raw(&"a\nb".to_string(), &()), "a\nb");
    let col = col.with_raw(|item: &String, _d: &()| item.to_uppercase()).without_filtering();
    assert!(!col.filter());
    assert_eq!(col.name, "name");
    assert_eq!(col.raw(&"ab".to_string(), &()), "AB");
    assert_eq!(col.format(&"ab".to_string(), &()).to_string(), "ab");
}

#[test]
fn snapshot_status_counts_items() {
    let mut nucleo = nucleo::Nucleo::<String>::new(nucleo::Config::DEFAULT, Arc::new(|| {}), None, 1);
    let injector = nucleo.injector();
    for s in ["apple", "banana", "cherry"] {
        injector.push(s.to_string(), |item, columns| {
            columns[0] = item.clone().into();
        });
    }
    nucleo.pattern.reparse(0, "an", nucleo::pattern::CaseMatching::Ignore, nucleo::pattern::Normalization::Smart, false);
    let mut status = Status::default();
    for _ in 0..200 {
        let (_, s) = new_snapshot(&mut nucleo);
        status = s;
        if !status.running && status.item_count == 3 {
            break;
        }
    }
    assert_eq!(status.item_count, 3);
    assert_eq!(status.matched_count, 1);
}

#[test]
fn border_sides_default_to_all_when_padded_typed_or_colored() {
    let padded = BorderSetting {
        padding: Padding { top: 1, right: 1, bottom: 1, left: 1 },
        ..Default::default()
    };
    assert_eq!(padded.sides(), BorderSides::all());
    let typed = BorderSetting { typed: true, ..Default::default() };
    assert_eq!(typed.sides(), BorderSides::all());
    let colored = BorderSetting { colored: true, ..Default::default() };
    assert_eq!(colored.sides(), BorderSides::all());
    assert_eq!(BorderSetting::default().sides(), BorderSides::none());
    let empty = BorderSetting { sides: Some(BorderSides::none()), typed: true, ..Default::default() };
    assert!(empty.is_empty());
}
