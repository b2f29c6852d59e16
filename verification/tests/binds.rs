use matchmaker::binds::{
    mouse_event_kind_as_str, mouse_trigger_to_string, parse_mouse_trigger, MouseButton,
    MouseEventKind, PrefixFilter, SimpleMouseEvent, ALT, CONTROL, SHIFT,
};

#[test]
fn test_prefix_filter() {
    // Empty filter matches everything
    let empty = PrefixFilter::default();
    assert!(empty.matches(&[]));
    assert!(empty.matches(&["0".to_string()]));
    assert!(empty.matches(&["0".to_string(), "1".to_string()]));
    assert!(empty.matches(&["vim".to_string()]));

    // Single positive prefix
    let f = PrefixFilter::from_str("0").unwrap();
    assert!(!f.matches(&[]));
    assert!(f.matches(&["0".to_string()]));
    assert!(f.matches(&["0".to_string(), "1".to_string()]));
    assert!(f.matches(&["0".to_string(), "vim".to_string()]));
    assert!(!f.matches(&["1".to_string()]));
    assert!(!f.matches(&["vim".to_string()]));

    // Multiple positive prefixes (AND)
    let f = PrefixFilter::from_str("0,1").unwrap();
    assert!(!f.matches(&[]));
    assert!(!f.matches(&["0".to_string()]));
    assert!(!f.matches(&["1".to_string()]));
    assert!(f.matches(&["0".to_string(), "1".to_string()]));
    assert!(f.matches(&["0".to_string(), "1".to_string(), "vim".to_string()]));
    assert!(f.matches(&["1".to_string(), "0".to_string()])); // order doesn't matter, both tags present
    assert!(!f.matches(&["vim".to_string()]));

    // Negative prefix
    let f = PrefixFilter::from_str("!0").unwrap();
    assert!(f.matches(&[]));
    assert!(!f.matches(&["0".to_string()]));
    assert!(!f.matches(&["0".to_string(), "1".to_string()]));
    assert!(f.matches(&["1".to_string()]));
    assert!(f.matches(&["vim".to_string()]));

    // Combined positive and negative
    let f = PrefixFilter::from_str("0,!1").unwrap();
    assert!(!f.matches(&[]));
    assert!(f.matches(&["0".to_string()]));
    assert!(!f.matches(&["0".to_string(), "1".to_string()]));
    assert!(f.matches(&["0".to_string(), "vim".to_string()]));
    assert!(!f.matches(&["1".to_string()]));
    assert!(!f.matches(&["vim".to_string()]));

    // Prefix matching (not just exact)
    let f = PrefixFilter::from_str("vim").unwrap();
    assert!(f.matches(&["vim".to_string()]));
    assert!(f.matches(&["vim_insert".to_string()])); // matches because starts with "vim"
    assert!(!f.matches(&["vi".to_string()]));

    // from() with patterns
    let f = PrefixFilter::from(vec!["0", "!1"]).unwrap();
    assert_eq!(f.positive_prefixes, vec!["0".to_string()]);
    assert_eq!(f.negative_prefixes, vec!["1".to_string()]);

    // is_empty
    assert!(PrefixFilter::default().is_empty());
    assert!(!PrefixFilter::from_str("0").unwrap().is_empty());

    // Display
    assert_eq!(PrefixFilter::from_str("0,1").unwrap().to_string(), "0,1");
    assert_eq!(PrefixFilter::from_str("0,!1").unwrap().to_string(), "0,!1");
    assert_eq!(PrefixFilter::default().to_string(), "");
}

#[test]
fn prefix_filter_from_str_trims_and_skips_empty_pieces() {
    let f = PrefixFilter::from_str(" 0 , ,!vim ").unwrap();
    assert_eq!(f.positive_prefixes, vec!["0".to_string()]);
    assert_eq!(f.negative_prefixes, vec!["vim".to_string()]);
    assert_eq!(f.to_string(), "0,!vim");
}

#[test]
fn prefix_filter_through_std_from_str() {
    let f: PrefixFilter = "a,!b".parse().unwrap();
    assert_eq!(f.positive_prefixes, vec!["a".to_string()]);
    assert_eq!(f.negative_prefixes, vec!["b".to_string()]);
}

#[test]
fn mouse_kind_names() {
    assert_eq!(mouse_event_kind_as_str(MouseEventKind::Down(MouseButton::Left)), "left");
    assert_eq!(mouse_event_kind_as_str(MouseEventKind::ScrollRight), "scrollright");
    assert_eq!(mouse_event_kind_as_str(MouseEventKind::Moved), "");
    assert_eq!(mouse_event_kind_as_str(MouseEventKind::Up(MouseButton::Left)), "");
}

#[test]
fn mouse_trigger_written_with_modifiers_in_order() {
    let e = SimpleMouseEvent { kind: MouseEventKind::ScrollUp, modifiers: ALT | SHIFT };
    assert_eq!(mouse_trigger_to_string(&e), "shift+alt+scrollup");
    let e = SimpleMouseEvent { kind: MouseEventKind::Down(MouseButton::Middle), modifiers: 0 };
    assert_eq!(mouse_trigger_to_string(&e), "middle");
}

#[test]
fn mouse_trigger_parses_case_insensitively() {
    // lowercasing goes through str::to_lowercase
    let r = parse_mouse_trigger("CTRL+ScrollUp").unwrap().unwrap();
    assert_eq!(r, SimpleMouseEvent { kind: MouseEventKind::ScrollUp, modifiers: CONTROL });
    let r = parse_mouse_trigger("none+Left").unwrap().unwrap();
    assert_eq!(r, SimpleMouseEvent { kind: MouseEventKind::Down(MouseButton::Left), modifiers: 0 });
}

#[test]
fn mouse_trigger_errors() {
    assert!(parse_mouse_trigger("ctrl+wheel").is_none());
    assert!(parse_mouse_trigger("").is_none());
    assert_eq!(
        parse_mouse_trigger("ctrl+Bogus+left").unwrap(),
        Err("Unknown modifier: bogus".to_string())
    );
}

#[test]
fn mouse_trigger_round_trip() {
    let e = SimpleMouseEvent {
        kind: MouseEventKind::ScrollLeft,
        modifiers: SHIFT | CONTROL | ALT,
    };
    let text = mouse_trigger_to_string(&e);
    assert_eq!(parse_mouse_trigger(&text), Some(Ok(e)));
}

#[test]
fn filter_text_round_trip() {
    let f = PrefixFilter::from(vec!["a b", "!!x", "!vim", "0"]).unwrap();
    assert_eq!(f.positive_prefixes, vec!["a b".to_string(), "0".to_string()]);
    assert_eq!(f.negative_prefixes, vec!["!x".to_string(), "vim".to_string()]);
    let text = f.to_string();
    assert_eq!(text, "a b,0,!!x,!vim");
    assert_eq!(PrefixFilter::from_str(&text).unwrap(), f);
}
