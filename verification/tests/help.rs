use matchmaker::help::{
    display_help, HelpBinding, HelpColors, HelpDisplayConfig, HelpItem, HelpText, HelpTriggerKind,
};
use matchmaker::render::{CellColor, CellStyle};

fn config() -> HelpDisplayConfig {
    HelpDisplayConfig {
        hide_semantic: false,
        show_events: false,
        event_trigger_prefix: String::new(),
        quote_traces: false,
        max_item_len: 100,
        ellipsize_center: false,
        sort_fn_last: false,
        colors: None,
        seq_brackets: None,
    }
}

fn bind(kind: HelpTriggerKind, trigger: &str, actions: Vec<HelpItem>) -> HelpBinding {
    HelpBinding { kind, trigger: trigger.to_string(), actions }
}

fn shown(s: &str) -> HelpItem {
    HelpItem::Shown(s.to_string())
}

fn plain(text: HelpText) -> String {
    match text {
        HelpText::Plain(s) => s,
        HelpText::Styled(_) => panic!("expected plain help"),
    }
}

#[test]
fn semantic_triggers_are_listed_unless_hidden() {
    let binds = vec![
        bind(HelpTriggerKind::Key, "a", vec![shown("Print(a)")]),
        bind(HelpTriggerKind::Semantic, "@foo", vec![shown("Print(foo)")]),
    ];
    let shown_help = plain(display_help(&binds, &config()));
    assert!(shown_help.contains("a = Print(a)"));
    assert!(shown_help.contains("@foo = Print(foo)"));
    let mut cfg = config();
    cfg.hide_semantic = true;
    let hidden_help = plain(display_help(&binds, &cfg));
    assert!(hidden_help.contains("a = Print(a)"));
    assert!(!hidden_help.contains("@foo"));
}

#[test]
fn function_keys_sort_last_when_asked() {
    let binds = vec![
        bind(HelpTriggerKind::Key, "F1", vec![shown("Print(f1)")]),
        bind(HelpTriggerKind::Key, "a", vec![shown("Print(a)")]),
        bind(HelpTriggerKind::Key, "F2", vec![shown("Print(f2)")]),
        bind(HelpTriggerKind::Key, "b", vec![shown("Print(b)")]),
    ];
    let mut cfg = config();
    cfg.sort_fn_last = true;
    let help = plain(display_help(&binds, &cfg));
    assert_eq!(help, "a = Print(a)\nb = Print(b)\nF1 = Print(f1)\nF2 = Print(f2)\n");

    let binds = vec![
        bind(HelpTriggerKind::Key, "F1", vec![shown("Print(aaa)")]),
        bind(HelpTriggerKind::Key, "b", vec![shown("Print(bbb)")]),
    ];
    let help = plain(display_help(&binds, &cfg));
    assert_eq!(help, "b = Print(bbb)\nF1 = Print(aaa)\n");
    cfg.sort_fn_last = false;
    let help = plain(display_help(&binds, &cfg));
    assert_eq!(help, "F1 = Print(aaa)\nb = Print(bbb)\n");
}

#[test]
fn events_are_shown_with_their_prefix_when_asked() {
    let binds = vec![
        bind(HelpTriggerKind::Key, "a", vec![shown("Print(a)")]),
        bind(HelpTriggerKind::Event, "Start", vec![shown("Print(start)")]),
    ];
    let mut cfg = config();
    cfg.event_trigger_prefix = "EV:".to_string();
    cfg.show_events = true;
    assert!(plain(display_help(&binds, &cfg)).contains("EV:Start = Print(start)"));
    cfg.show_events = false;
    assert!(!plain(display_help(&binds, &cfg)).contains("Start"));
}

#[test]
fn traces_stand_for_the_actions_they_cover() {
    let binds = vec![bind(
        HelpTriggerKind::Key,
        "k",
        vec![
            HelpItem::Trace("jump".to_string()),
            shown("Up"),
            shown("Down"),
            HelpItem::Trace(String::new()),
            shown("Quit"),
            HelpItem::Trace("@@alias".to_string()),
            shown("Hidden"),
        ],
    )];
    let mut cfg = config();
    cfg.quote_traces = true;
    cfg.seq_brackets = Some(('[', ']'));
    assert_eq!(plain(display_help(&binds, &cfg)), "k = [\"jump\", Quit, @alias]\n");
    cfg.quote_traces = false;
    cfg.seq_brackets = None;
    assert_eq!(plain(display_help(&binds, &cfg)), "k = jump, Quit, @alias\n");
}

#[test]
fn quoted_trace_lines_come_first_and_long_actions_are_cut() {
    let binds = vec![
        bind(HelpTriggerKind::Key, "a", vec![shown("abcdefgh")]),
        bind(HelpTriggerKind::Key, "b", vec![HelpItem::Trace("zzz".to_string()), shown("x")]),
        bind(HelpTriggerKind::Key, "c", vec![]),
    ];
    let mut cfg = config();
    cfg.quote_traces = true;
    cfg.max_item_len = 4;
    assert_eq!(plain(display_help(&binds, &cfg)), "c = \nb = \"zzz\"\na = abc…\n");
}

#[test]
fn colored_help_styles_triggers_and_actions() {
    let binds = vec![bind(HelpTriggerKind::Mouse, "left", vec![shown("Select"), shown("Down")])];
    let mut cfg = config();
    cfg.colors = Some(HelpColors { key: CellColor::Red, value: CellColor::Blue });
    cfg.seq_brackets = Some(('(', ')'));
    let text = match display_help(&binds, &cfg) {
        HelpText::Styled(t) => t,
        HelpText::Plain(_) => panic!("expected styled help"),
    };
    assert_eq!(text.lines.len(), 1);
    let spans: Vec<(&str, Option<CellColor>)> =
        text.lines[0].iter().map(|s| (s.content.as_str(), s.style.fg)).collect();
    assert_eq!(
        spans,
        vec![
            ("left", Some(CellColor::Red)),
            (" = ", None),
            ("(", None),
            ("Select", Some(CellColor::Blue)),
            (", ", None),
            ("Down", Some(CellColor::Blue)),
            (")", None),
            ("\n", None),
        ]
    );
    assert_eq!(text.lines[0][1].style, CellStyle::default());
}

#[test]
fn untraced_actions_are_all_shown() {
    let binds = vec![bind(HelpTriggerKind::Key, "k", vec![shown("Up"), shown("Down"), shown("Quit")])];
    assert_eq!(plain(display_help(&binds, &config())), "k = Up, Down, Quit\n");
}
