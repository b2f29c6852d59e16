use matchmaker::keys::{key_actions, BasicAction, KeyCode, KeyCombo, KeyOutcome, ALT, CONTROL, SHIFT};

fn key(c: KeyCode, m: u8) -> KeyCombo {
    KeyCombo { first: c, second: None, third: None, modifiers: m }
}

#[test]
fn bound_keys_give_their_binding() {
    let binds = vec![(key(KeyCode::Char('a'), 0), "first"), (key(KeyCode::Enter, 0), "enter")];
    assert_eq!(key_actions(&binds, key(KeyCode::Enter, 0)), KeyOutcome::Bound(1));
    assert_eq!(key_actions(&binds, key(KeyCode::Char('a'), 0)), KeyOutcome::Bound(0));
}

#[test]
fn unbound_characters_are_typed() {
    let binds: Vec<(KeyCombo, ())> = vec![];
    assert_eq!(key_actions(&binds, key(KeyCode::Char('x'), 0)), KeyOutcome::Letter('x'));
    assert_eq!(key_actions(&binds, key(KeyCode::Char('x'), SHIFT)), KeyOutcome::Letter('X'));
    assert_eq!(key_actions(&binds, key(KeyCode::Char('x'), ALT)), KeyOutcome::Unbound);
}

#[test]
fn basic_keys_keep_the_picker_usable() {
    let binds: Vec<(KeyCombo, ())> = vec![];
    assert_eq!(key_actions(&binds, key(KeyCode::Char('c'), CONTROL)), KeyOutcome::Basic(BasicAction::Quit));
    assert_eq!(key_actions(&binds, key(KeyCode::Esc, 0)), KeyOutcome::Basic(BasicAction::Quit));
    assert_eq!(key_actions(&binds, key(KeyCode::Enter, 0)), KeyOutcome::Basic(BasicAction::Accept));
    assert_eq!(key_actions(&binds, key(KeyCode::Left, CONTROL)), KeyOutcome::Basic(BasicAction::BackwardWord));
    assert_eq!(key_actions(&binds, key(KeyCode::Char('h'), ALT)), KeyOutcome::Basic(BasicAction::Help));
    assert_eq!(key_actions(&binds, key(KeyCode::F(1), 0)), KeyOutcome::Unbound);
}
