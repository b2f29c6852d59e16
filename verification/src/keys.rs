//! What a key press does: the actions bound to it, else the letter it
//! types, else the action of a basic key that keeps the picker usable.
use vstd::prelude::*;

verus! {

/// The Shift modifier bit.
pub const SHIFT: u8 = 1;

/// The Control modifier bit.
pub const CONTROL: u8 = 2;

/// The Alt modifier bit.
pub const ALT: u8 = 4;

/// A key of the keyboard.
#[derive(Debug, Clone, Copy, PartialEq, Eq, Structural)]
pub enum KeyCode {
    Char(char),
    F(u8),
    Backspace,
    Enter,
    Left,
    Right,
    Up,
    Down,
    Home,
    End,
    PageUp,
    PageDown,
    Tab,
    BackTab,
    Delete,
    Insert,
    Esc,
    /// Any other key, by a number of its own.
    Other(u16),
}

/// A key combination: one to three keys pressed together, and the
/// modifiers held (bits [`SHIFT`], [`CONTROL`], [`ALT`] and others).
#[derive(Debug, Clone, Copy, PartialEq, Eq, Structural)]
pub struct KeyCombo {
    pub first: KeyCode,
    pub second: Option<KeyCode>,
    pub third: Option<KeyCode>,
    pub modifiers: u8,
}

/// The actions the basic keys stand for when nothing is bound to them.
#[derive(Debug, Clone, Copy, PartialEq, Eq, Structural)]
pub enum BasicAction {
    Quit,
    Up,
    Down,
    Accept,
    ForwardChar,
    BackwardChar,
    ForwardWord,
    BackwardWord,
    DeleteChar,
    DeleteWord,
    ClearQuery,
    Help,
    ToggleWrap,
    TogglePreviewWrap,
}

/// What a key press leads to.
#[derive(Debug, Clone, Copy, PartialEq, Eq, Structural)]
pub enum KeyOutcome {
    /// The actions of the binding at this place of the bindings.
    Bound(usize),
    /// The letter typed.
    Letter(char),
    /// A basic key's action.
    Basic(BasicAction),
    /// Nothing.
    Unbound,
}

/// A single key with the modifiers `m`.
pub open spec fn single(c: KeyCode, m: u8) -> KeyCombo {
    KeyCombo { first: c, second: None, third: None, modifiers: m }
}

/// The first binding of `key`, if any.
pub open spec fn bound_at(keys: Seq<KeyCombo>, key: KeyCombo) -> Option<nat>
    decreases keys.len(),
{
    if keys.len() == 0 {
        None
    } else {
        match bound_at(keys.drop_last(), key) {
            Some(i) => Some(i),
            None => if keys.last() == key {
                Some((keys.len() - 1) as nat)
            } else {
                None
            },
        }
    }
}

/// `c` in upper case when it is an ASCII letter.
pub open spec fn ascii_upper(c: char) -> char {
    if 'a' <= c <= 'z' {
        ((c as u32) - 32) as char
    } else {
        c
    }
}

/// The letter a key types: a single character key, unmodified or with
/// Shift (then in upper case when ASCII).
pub open spec fn letter_of(key: KeyCombo) -> Option<char> {
    match key.first {
        KeyCode::Char(l) => if key.second is None && key.third is None && key.modifiers == 0 {
            Some(l)
        } else if key.second is None && key.third is None && key.modifiers == SHIFT {
            Some(ascii_upper(l))
        } else {
            None
        },
        _ => None,
    }
}

/// The basic keys' actions.
pub open spec fn basic_action(key: KeyCombo) -> Option<BasicAction> {
    if key == single(KeyCode::Char('c'), CONTROL) || key == single(KeyCode::Esc, 0) {
        Some(BasicAction::Quit)
    } else if key == single(KeyCode::Up, 0) {
        Some(BasicAction::Up)
    } else if key == single(KeyCode::Down, 0) {
        Some(BasicAction::Down)
    } else if key == single(KeyCode::Enter, 0) {
        Some(BasicAction::Accept)
    } else if key == single(KeyCode::Right, 0) {
        Some(BasicAction::ForwardChar)
    } else if key == single(KeyCode::Left, 0) {
        Some(BasicAction::BackwardChar)
    } else if key == single(KeyCode::Right, CONTROL) {
        Some(BasicAction::ForwardWord)
    } else if key == single(KeyCode::Left, CONTROL) {
        Some(BasicAction::BackwardWord)
    } else if key == single(KeyCode::Backspace, 0) {
        Some(BasicAction::DeleteChar)
    } else if key == single(KeyCode::Char('h'), CONTROL) {
        Some(BasicAction::DeleteWord)
    } else if key == single(KeyCode::Char('u'), CONTROL) {
        Some(BasicAction::ClearQuery)
    } else if key == single(KeyCode::Char('h'), ALT) {
        Some(BasicAction::Help)
    } else if key == single(KeyCode::Char('['), CONTROL) {
        Some(BasicAction::ToggleWrap)
    } else if key == single(KeyCode::Char(']'), CONTROL) {
        Some(BasicAction::TogglePreviewWrap)
    } else {
        None
    }
}

/// What pressing `key` leads to with the bindings' keys `keys`.
pub open spec fn key_outcome(keys: Seq<KeyCombo>, key: KeyCombo) -> KeyOutcome {
    match bound_at(keys, key) {
        Some(i) => KeyOutcome::Bound(i as usize),
        None => match letter_of(key) {
            Some(c) => KeyOutcome::Letter(c),
            None => match basic_action(key) {
                Some(a) => KeyOutcome::Basic(a),
                None => KeyOutcome::Unbound,
            },
        },
    }
}

/// The keys of the bindings.
pub open spec fn keys_of<A>(binds: Seq<(KeyCombo, A)>) -> Seq<KeyCombo> {
    binds.map_values(|b: (KeyCombo, A)| b.0)
}

/// What pressing `key` leads to (see [`key_outcome`]): the first binding
/// of the key (by its place in `binds`), else the letter it types, else a
/// basic key's action, else nothing.
pub fn key_actions<A>(binds: &Vec<(KeyCombo, A)>, key: KeyCombo) -> (r: KeyOutcome)
    ensures
        r == key_outcome(keys_of(binds@), key),
        r matches KeyOutcome::Bound(i) ==> i < binds@.len() && binds@[i as int].0 == key,
{
    let ghost keys = keys_of(binds@);
    let mut k: usize = 0;
    proof {
        assert(keys.take(0) =~= Seq::<KeyCombo>::empty());
    }
    while k < binds.len()
        invariant
            k <= binds@.len(),
            keys == keys_of(binds@),
            bound_at(keys.take(k as int), key) is None,
        decreases binds@.len() - k,
    {
        proof {
            assert(keys.take(k + 1).drop_last() =~= keys.take(k as int));
        }
        if binds[k].0 == key {
            proof {
                assert(keys.take(k + 1).last() == key);
                lemma_bound_prefix(keys, key, (k + 1) as nat);
            }
            return KeyOutcome::Bound(k);
        }
        k = k + 1;
    }
    proof {
        assert(keys.take(k as int) =~= keys);
    }
    match letter(key) {
        Some(c) => KeyOutcome::Letter(c),
        None => match basic(key) {
            Some(a) => KeyOutcome::Basic(a),
            None => KeyOutcome::Unbound,
        },
    }
}

/// A key first bound in a prefix is first bound there in the whole.
proof fn lemma_bound_prefix(keys: Seq<KeyCombo>, key: KeyCombo, k: nat)
    requires
        k <= keys.len(),
        bound_at(keys.take(k as int), key) is Some,
    ensures
        bound_at(keys, key) == bound_at(keys.take(k as int), key),
    decreases keys.len() - k,
{
    if k < keys.len() {
        assert(keys.take(k + 1 as int).drop_last() =~= keys.take(k as int));
        lemma_bound_prefix(keys, key, k + 1);
    } else {
        assert(keys.take(k as int) =~= keys);
    }
}

/// The letter a key types (see [`letter_of`]).
fn letter(key: KeyCombo) -> (r: Option<char>)
    ensures
        r == letter_of(key),
{
    match key.first {
        KeyCode::Char(l) => {
            if key.second.is_none() && key.third.is_none() && key.modifiers == 0 {
                Some(l)
            } else if key.second.is_none() && key.third.is_none() && key.modifiers == SHIFT {
                if 'a' <= l && l <= 'z' {
                    Some((((l as u32) - 32) as u8) as char)
                } else {
                    Some(l)
                }
            } else {
                None
            }
        },
        _ => None,
    }
}

/// A single key with the modifiers `m`.
fn single_key(c: KeyCode, m: u8) -> (r: KeyCombo)
    ensures
        r == single(c, m),
{
    KeyCombo { first: c, second: None, third: None, modifiers: m }
}

/// A basic key's action (see [`basic_action`]).
fn basic(key: KeyCombo) -> (r: Option<BasicAction>)
    ensures
        r == basic_action(key),
{
    if key == single_key(KeyCode::Char('c'), CONTROL) || key == single_key(KeyCode::Esc, 0) {
        Some(BasicAction::Quit)
    } else if key == single_key(KeyCode::Up, 0) {
        Some(BasicAction::Up)
    } else if key == single_key(KeyCode::Down, 0) {
        Some(BasicAction::Down)
    } else if key == single_key(KeyCode::Enter, 0) {
        Some(BasicAction::Accept)
    } else if key == single_key(KeyCode::Right, 0) {
        Some(BasicAction::ForwardChar)
    } else if key == single_key(KeyCode::Left, 0) {
        Some(BasicAction::BackwardChar)
    } else if key == single_key(KeyCode::Right, CONTROL) {
        Some(BasicAction::ForwardWord)
    } else if key == single_key(KeyCode::Left, CONTROL) {
        Some(BasicAction::BackwardWord)
    } else if key == single_key(KeyCode::Backspace, 0) {
        Some(BasicAction::DeleteChar)
    } else if key == single_key(KeyCode::Char('h'), CONTROL) {
        Some(BasicAction::DeleteWord)
    } else if key == single_key(KeyCode::Char('u'), CONTROL) {
        Some(BasicAction::ClearQuery)
    } else if key == single_key(KeyCode::Char('h'), ALT) {
        Some(BasicAction::Help)
    } else if key == single_key(KeyCode::Char('['), CONTROL) {
        Some(BasicAction::ToggleWrap)
    } else if key == single_key(KeyCode::Char(']'), CONTROL) {
        Some(BasicAction::TogglePreviewWrap)
    } else {
        None
    }
}

/// A key is bound exactly when some binding has it.
pub proof fn lemma_bound_iff_listed(keys: Seq<KeyCombo>, key: KeyCombo)
    ensures
        (bound_at(keys, key) is Some) <==> keys.contains(key),
        bound_at(keys, key) matches Some(i) ==> i < keys.len() && keys[i as int] == key,
    decreases keys.len(),
{
    if keys.len() > 0 {
        lemma_bound_iff_listed(keys.drop_last(), key);
        if keys.drop_last().contains(key) {
            let j = choose|j: int| 0 <= j < keys.drop_last().len() && keys.drop_last()[j] == key;
            assert(keys[j] == key);
        }
        if keys.contains(key) && !keys.drop_last().contains(key) {
            let j = choose|j: int| 0 <= j < keys.len() && keys[j] == key;
            if j < keys.len() - 1 {
                assert(keys.drop_last()[j] == key);
            }
        }
    }
}

/// The binding found for a key is its first one.
proof fn lemma_bound_first(keys: Seq<KeyCombo>, key: KeyCombo)
    ensures
        bound_at(keys, key) matches Some(i) ==> i < keys.len() && keys[i as int] == key && forall|j: int|
            0 <= j < i ==> keys[j] != key,
    decreases keys.len(),
{
    if keys.len() > 0 {
        lemma_bound_first(keys.drop_last(), key);
        lemma_bound_iff_listed(keys.drop_last(), key);
        if bound_at(keys.drop_last(), key) is None {
            assert forall|j: int| 0 <= j < keys.len() - 1 implies keys[j] != key by {
                assert(keys.drop_last()[j] == keys[j]);
            }
        } else {
            let i = bound_at(keys.drop_last(), key)->0;
            assert forall|j: int| 0 <= j < i implies keys[j] != key by {
                assert(keys.drop_last()[j] == keys[j]);
            }
        }
    }
}

/// A key that some binding has gives that binding, whatever the key; and
/// with no binding for them, the basic keys do what they name: the arrows
/// move the cursor their own way (Up up, Down down), Enter accepts,
/// Esc and Ctrl-C quit, Right and Left move through the query by a
/// character (by a word with Ctrl), Backspace deletes a character.
pub proof fn law_basic_keys_do_what_they_name(keys: Seq<KeyCombo>, key: KeyCombo)
    requires
        keys.len() <= usize::MAX,
    ensures
        keys.contains(key) ==> key_outcome(keys, key) is Bound,
        !keys.contains(single(KeyCode::Up, 0)) ==> key_outcome(keys, single(KeyCode::Up, 0))
            == KeyOutcome::Basic(BasicAction::Up),
        !keys.contains(single(KeyCode::Down, 0)) ==> key_outcome(keys, single(KeyCode::Down, 0))
            == KeyOutcome::Basic(BasicAction::Down),
        !keys.contains(single(KeyCode::Enter, 0)) ==> key_outcome(keys, single(KeyCode::Enter, 0))
            == KeyOutcome::Basic(BasicAction::Accept),
        !keys.contains(single(KeyCode::Esc, 0)) ==> key_outcome(keys, single(KeyCode::Esc, 0))
            == KeyOutcome::Basic(BasicAction::Quit),
        !keys.contains(single(KeyCode::Char('c'), CONTROL)) ==> key_outcome(
            keys,
            single(KeyCode::Char('c'), CONTROL),
        ) == KeyOutcome::Basic(BasicAction::Quit),
        !keys.contains(single(KeyCode::Right, 0)) ==> key_outcome(keys, single(KeyCode::Right, 0))
            == KeyOutcome::Basic(BasicAction::ForwardChar),
        !keys.contains(single(KeyCode::Left, 0)) ==> key_outcome(keys, single(KeyCode::Left, 0))
            == KeyOutcome::Basic(BasicAction::BackwardChar),
        !keys.contains(single(KeyCode::Right, CONTROL)) ==> key_outcome(keys, single(KeyCode::Right, CONTROL))
            == KeyOutcome::Basic(BasicAction::ForwardWord),
        !keys.contains(single(KeyCode::Left, CONTROL)) ==> key_outcome(keys, single(KeyCode::Left, CONTROL))
            == KeyOutcome::Basic(BasicAction::BackwardWord),
        !keys.contains(single(KeyCode::Backspace, 0)) ==> key_outcome(keys, single(KeyCode::Backspace, 0))
            == KeyOutcome::Basic(BasicAction::DeleteChar),
        !keys.contains(single(KeyCode::Char('h'), CONTROL)) ==> key_outcome(keys, single(KeyCode::Char('h'), CONTROL))
            == KeyOutcome::Basic(BasicAction::DeleteWord),
        !keys.contains(single(KeyCode::Char('u'), CONTROL)) ==> key_outcome(keys, single(KeyCode::Char('u'), CONTROL))
            == KeyOutcome::Basic(BasicAction::ClearQuery),
        !keys.contains(single(KeyCode::Char('h'), ALT)) ==> key_outcome(keys, single(KeyCode::Char('h'), ALT))
            == KeyOutcome::Basic(BasicAction::Help),
        !keys.contains(single(KeyCode::Char('['), CONTROL)) ==> key_outcome(keys, single(KeyCode::Char('['), CONTROL))
            == KeyOutcome::Basic(BasicAction::ToggleWrap),
        !keys.contains(single(KeyCode::Char(']'), CONTROL)) ==> key_outcome(keys, single(KeyCode::Char(']'), CONTROL))
            == KeyOutcome::Basic(BasicAction::TogglePreviewWrap),
        key_outcome(keys, key) matches KeyOutcome::Bound(i) ==> i < keys.len() && keys[i as int] == key && forall|
            j: int,
        | 0 <= j < i ==> keys[j] != key,
        key.second is Some || key.third is Some ==> key_outcome(keys, key) is Bound || key_outcome(keys, key)
            is Unbound,
{
    lemma_bound_first(keys, key);
    lemma_bound_iff_listed(keys, single(KeyCode::Char('h'), CONTROL));
    lemma_bound_iff_listed(keys, single(KeyCode::Char('u'), CONTROL));
    lemma_bound_iff_listed(keys, single(KeyCode::Char('h'), ALT));
    lemma_bound_iff_listed(keys, single(KeyCode::Char('['), CONTROL));
    lemma_bound_iff_listed(keys, single(KeyCode::Char(']'), CONTROL));
    lemma_bound_iff_listed(keys, key);
    lemma_bound_iff_listed(keys, single(KeyCode::Up, 0));
    lemma_bound_iff_listed(keys, single(KeyCode::Down, 0));
    lemma_bound_iff_listed(keys, single(KeyCode::Enter, 0));
    lemma_bound_iff_listed(keys, single(KeyCode::Esc, 0));
    lemma_bound_iff_listed(keys, single(KeyCode::Char('c'), CONTROL));
    lemma_bound_iff_listed(keys, single(KeyCode::Right, 0));
    lemma_bound_iff_listed(keys, single(KeyCode::Left, 0));
    lemma_bound_iff_listed(keys, single(KeyCode::Right, CONTROL));
    lemma_bound_iff_listed(keys, single(KeyCode::Left, CONTROL));
    lemma_bound_iff_listed(keys, single(KeyCode::Backspace, 0));
}

/// With no binding for it, a character key typed alone types that
/// character, and with Shift its upper case (for ASCII letters).
pub proof fn law_unbound_characters_are_typed(keys: Seq<KeyCombo>, c: char)
    ensures
        !keys.contains(single(KeyCode::Char(c), 0)) ==> key_outcome(keys, single(KeyCode::Char(c), 0))
            == KeyOutcome::Letter(c),
        !keys.contains(single(KeyCode::Char(c), SHIFT)) && 'a' <= c <= 'z' ==> key_outcome(
            keys,
            single(KeyCode::Char(c), SHIFT),
        ) == KeyOutcome::Letter(((c as u32) - 32) as char),
{
    lemma_bound_iff_listed(keys, single(KeyCode::Char(c), 0));
    lemma_bound_iff_listed(keys, single(KeyCode::Char(c), SHIFT));
}

} // verus!
