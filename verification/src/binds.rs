//! Mouse triggers: their names, how they are written and how they are read.
use vstd::prelude::*;
use vstd::string::StringExecFns;

pub use crate::mode_filter::PrefixFilter;
use crate::strings::{chars_of, push_str, split, str_eq, string_of, strings_view};

verus! {

/// A mouse button.
#[derive(Debug, Clone, Copy, PartialEq, Eq, Hash)]
pub enum MouseButton {
    Left,
    Right,
    Middle,
}

/// What a mouse event did.
#[derive(Debug, Clone, Copy, PartialEq, Eq, Hash)]
pub enum MouseEventKind {
    Down(MouseButton),
    Up(MouseButton),
    Drag(MouseButton),
    Moved,
    ScrollDown,
    ScrollUp,
    ScrollLeft,
    ScrollRight,
}

pub const SHIFT: u8 = 1;

pub const CONTROL: u8 = 2;

pub const ALT: u8 = 4;

pub const SUPER: u8 = 8;

pub const HYPER: u8 = 16;

pub const META: u8 = 32;

/// A mouse event without location: its kind and the modifier keys held
/// (a bit set of [`SHIFT`], [`CONTROL`], [`ALT`], [`SUPER`], [`HYPER`], [`META`]).
#[derive(Debug, Clone, Copy, PartialEq, Eq, Hash)]
pub struct SimpleMouseEvent {
    pub kind: MouseEventKind,
    pub modifiers: u8,
}

impl SimpleMouseEvent {
    /// The key by which mouse triggers are ordered: the kind (in declaration
    /// order, then by button), then the modifier bits.
    pub fn order_key(&self) -> (r: (u8, u8, u8))
        ensures
            r == (kind_rank(self.kind), button_rank(self.kind), self.modifiers),
    {
        let rank = match self.kind {
            MouseEventKind::Down(_) => 0,
            MouseEventKind::Up(_) => 1,
            MouseEventKind::Drag(_) => 2,
            MouseEventKind::Moved => 3,
            MouseEventKind::ScrollDown => 4,
            MouseEventKind::ScrollUp => 5,
            MouseEventKind::ScrollLeft => 6,
            MouseEventKind::ScrollRight => 7,
        };
        let button = match self.kind {
            MouseEventKind::Down(b) | MouseEventKind::Up(b) | MouseEventKind::Drag(b) => match b {
                MouseButton::Left => 0,
                MouseButton::Right => 1,
                MouseButton::Middle => 2,
            },
            _ => 0,
        };
        (rank, button, self.modifiers)
    }
}

pub open spec fn kind_rank(k: MouseEventKind) -> u8 {
    match k {
        MouseEventKind::Down(_) => 0,
        MouseEventKind::Up(_) => 1,
        MouseEventKind::Drag(_) => 2,
        MouseEventKind::Moved => 3,
        MouseEventKind::ScrollDown => 4,
        MouseEventKind::ScrollUp => 5,
        MouseEventKind::ScrollLeft => 6,
        MouseEventKind::ScrollRight => 7,
    }
}

pub open spec fn button_rank(k: MouseEventKind) -> u8 {
    match k {
        MouseEventKind::Down(b) | MouseEventKind::Up(b) | MouseEventKind::Drag(b) => match b {
            MouseButton::Left => 0,
            MouseButton::Right => 1,
            MouseButton::Middle => 2,
        },
        _ => 0,
    }
}

/// The name of a mouse event kind in bindings (empty for kinds that cannot be bound).
pub open spec fn kind_name(kind: MouseEventKind) -> Seq<char> {
    match kind {
        MouseEventKind::Down(MouseButton::Left) => "left"@,
        MouseEventKind::Down(MouseButton::Middle) => "middle"@,
        MouseEventKind::Down(MouseButton::Right) => "right"@,
        MouseEventKind::ScrollDown => "scrolldown"@,
        MouseEventKind::ScrollUp => "scrollup"@,
        MouseEventKind::ScrollLeft => "scrollleft"@,
        MouseEventKind::ScrollRight => "scrollright"@,
        _ => ""@,
    }
}

/// The mouse event kind with the given (lowercase) name.
pub open spec fn kind_named(name: Seq<char>) -> Option<MouseEventKind> {
    if name == "left"@ {
        Some(MouseEventKind::Down(MouseButton::Left))
    } else if name == "middle"@ {
        Some(MouseEventKind::Down(MouseButton::Middle))
    } else if name == "right"@ {
        Some(MouseEventKind::Down(MouseButton::Right))
    } else if name == "scrolldown"@ {
        Some(MouseEventKind::ScrollDown)
    } else if name == "scrollup"@ {
        Some(MouseEventKind::ScrollUp)
    } else if name == "scrollleft"@ {
        Some(MouseEventKind::ScrollLeft)
    } else if name == "scrollright"@ {
        Some(MouseEventKind::ScrollRight)
    } else {
        None
    }
}

/// The modifier bit of a (lowercase) modifier name; `none` has no bit.
pub open spec fn modifier_named(name: Seq<char>) -> Option<u8> {
    if name == "shift"@ {
        Some(SHIFT)
    } else if name == "ctrl"@ {
        Some(CONTROL)
    } else if name == "alt"@ {
        Some(ALT)
    } else if name == "super"@ {
        Some(SUPER)
    } else if name == "hyper"@ {
        Some(HYPER)
    } else if name == "meta"@ {
        Some(META)
    } else if name == "none"@ {
        Some(0)
    } else {
        None
    }
}

/// The name of a mouse event kind in bindings.
pub fn mouse_event_kind_as_str(kind: MouseEventKind) -> (r: &'static str)
    ensures
        r@ == kind_name(kind),
{
    match kind {
        MouseEventKind::Down(MouseButton::Left) => "left",
        MouseEventKind::Down(MouseButton::Middle) => "middle",
        MouseEventKind::Down(MouseButton::Right) => "right",
        MouseEventKind::ScrollDown => "scrolldown",
        MouseEventKind::ScrollUp => "scrollup",
        MouseEventKind::ScrollLeft => "scrollleft",
        MouseEventKind::ScrollRight => "scrollright",
        _ => "",  // Other kinds are not handled in deserialize
    }
}

/// Whether the given mouse event kind is a scroll event.
pub fn is_scroll_kind(kind: &MouseEventKind) -> (r: bool)
    ensures
        r == (kind_rank(*kind) >= 4),
{
    match kind {
        MouseEventKind::ScrollUp | MouseEventKind::ScrollDown | MouseEventKind::ScrollLeft
        | MouseEventKind::ScrollRight => true,
        _ => false,
    }
}

/// How a mouse trigger is written: each held modifier followed by `+`
/// (in the order shift, ctrl, alt, super, hyper, meta), then the kind's name.
pub open spec fn mouse_trigger_text(e: SimpleMouseEvent) -> Seq<char> {
    (if e.modifiers & SHIFT != 0 {
        "shift+"@
    } else {
        ""@
    }) + (if e.modifiers & CONTROL != 0 {
        "ctrl+"@
    } else {
        ""@
    }) + (if e.modifiers & ALT != 0 {
        "alt+"@
    } else {
        ""@
    }) + (if e.modifiers & SUPER != 0 {
        "super+"@
    } else {
        ""@
    }) + (if e.modifiers & HYPER != 0 {
        "hyper+"@
    } else {
        ""@
    }) + (if e.modifiers & META != 0 {
        "meta+"@
    } else {
        ""@
    }) + kind_name(e.kind)
}

/// Writes a mouse trigger as it appears in bindings.
pub fn mouse_trigger_to_string(e: &SimpleMouseEvent) -> (r: String)
    ensures
        r@ == mouse_trigger_text(*e),
{
    let mut r = String::new();
    let ghost empty = ""@;
    proof {
        reveal_strlit("");
        assert(r@ =~= empty);
    }
    if e.modifiers & SHIFT != 0 {
        push_str(&mut r, "shift+");
    } else {
        push_str(&mut r, "");
    }
    if e.modifiers & CONTROL != 0 {
        push_str(&mut r, "ctrl+");
    } else {
        push_str(&mut r, "");
    }
    if e.modifiers & ALT != 0 {
        push_str(&mut r, "alt+");
    } else {
        push_str(&mut r, "");
    }
    if e.modifiers & SUPER != 0 {
        push_str(&mut r, "super+");
    } else {
        push_str(&mut r, "");
    }
    if e.modifiers & HYPER != 0 {
        push_str(&mut r, "hyper+");
    } else {
        push_str(&mut r, "");
    }
    if e.modifiers & META != 0 {
        push_str(&mut r, "meta+");
    } else {
        push_str(&mut r, "");
    }
    push_str(&mut r, mouse_event_kind_as_str(e.kind));
    proof {
        assert(r@ =~= mouse_trigger_text(*e));
    }
    r
}

/// The lowercase form of a string, as `str::to_lowercase` gives it.
pub uninterp spec fn lowercase(s: Seq<char>) -> Seq<char>;

pub open spec fn is_ascii_seq(s: Seq<char>) -> bool {
    forall|i: int| 0 <= i < s.len() ==> (#[trigger] s[i]) <= '\u{7f}'
}

pub open spec fn ascii_lower(c: char) -> char {
    if 'A' <= c <= 'Z' {
        ((c as u32) + 32) as char
    } else {
        c
    }
}

/// `str::to_lowercase`. Its result is named; for ASCII input, the std
/// documentation's mapping of `A`-`Z` to `a`-`z` (and nothing else) is stated.
#[verifier::external_body]
pub(crate) fn to_lowercase(s: &str) -> (r: String)
    ensures
        r@ == lowercase(s@),
        is_ascii_seq(s@) ==> r@ == s@.map_values(|c: char| ascii_lower(c)),
{
    s.to_lowercase()
}

/// What `to_lowercase` gives: `A`-`Z` mapped to `a`-`z` for ASCII text,
/// the Unicode lowercase mapping otherwise.
pub open spec fn lower(s: Seq<char>) -> Seq<char> {
    if is_ascii_seq(s) {
        s.map_values(|c: char| ascii_lower(c))
    } else {
        lowercase(s)
    }
}

/// The lowercase names of `parts`, OR-ed into a modifier set, or the first
/// unknown name.
pub open spec fn modifiers_of(parts: Seq<Seq<char>>) -> Result<u8, Seq<char>>
    decreases parts.len(),
{
    if parts.len() == 0 {
        Ok(0)
    } else {
        match modifiers_of(parts.drop_last()) {
            Err(e) => Err(e),
            Ok(m) => match modifier_named(lower(parts.last())) {
                Some(b) => Ok(m | b),
                None => Err(lower(parts.last())),
            },
        }
    }
}

/// Reading a mouse trigger: the pieces between `+` are modifiers, then the
/// kind's name, each compared in lowercase. `None` when the last piece names
/// no mouse event kind; an error naming the first unknown modifier.
pub open spec fn parse_mouse_spec(value: Seq<char>) -> Option<Result<SimpleMouseEvent, Seq<char>>> {
    let parts = split(value, '+');
    match kind_named(lower(parts.last())) {
        None => None,
        Some(kind) => match modifiers_of(parts.drop_last()) {
            Ok(m) => Some(Ok(SimpleMouseEvent { kind, modifiers: m })),
            Err(bad) => Some(Err("Unknown modifier: "@ + bad)),
        },
    }
}

fn kind_from_name(name: &str) -> (r: Option<MouseEventKind>)
    ensures
        r == kind_named(name@),
{
    if str_eq(name, "left") {
        Some(MouseEventKind::Down(MouseButton::Left))
    } else if str_eq(name, "middle") {
        Some(MouseEventKind::Down(MouseButton::Middle))
    } else if str_eq(name, "right") {
        Some(MouseEventKind::Down(MouseButton::Right))
    } else if str_eq(name, "scrolldown") {
        Some(MouseEventKind::ScrollDown)
    } else if str_eq(name, "scrollup") {
        Some(MouseEventKind::ScrollUp)
    } else if str_eq(name, "scrollleft") {
        Some(MouseEventKind::ScrollLeft)
    } else if str_eq(name, "scrollright") {
        Some(MouseEventKind::ScrollRight)
    } else {
        None
    }
}

fn modifier_from_name(name: &str) -> (r: Option<u8>)
    ensures
        r == modifier_named(name@),
{
    if str_eq(name, "shift") {
        Some(SHIFT)
    } else if str_eq(name, "ctrl") {
        Some(CONTROL)
    } else if str_eq(name, "alt") {
        Some(ALT)
    } else if str_eq(name, "super") {
        Some(SUPER)
    } else if str_eq(name, "hyper") {
        Some(HYPER)
    } else if str_eq(name, "meta") {
        Some(META)
    } else if str_eq(name, "none") {
        Some(0)
    } else {
        None
    }
}

/// The pieces of `s` between occurrences of `sep`.
pub fn split_on(s: &str, sep: char) -> (r: Vec<String>)
    ensures
        strings_view(r@) == split(s@, sep),
{
    let cs = chars_of(s);
    let n = cs.len();
    let mut out: Vec<String> = Vec::new();
    let mut start: usize = 0;
    let mut i: usize = 0;
    proof {
        assert(s@.take(0) =~= Seq::<char>::empty());
        assert(split(s@.take(0), sep).drop_last() =~= Seq::<Seq<char>>::empty());
    }
    while i < n
        invariant
            cs@ == s@,
            n == s@.len(),
            start <= i <= n,
            split(s@.take(i as int), sep).last() == s@.subrange(start as int, i as int),
            split(s@.take(i as int), sep).len() >= 1,
            strings_view(out@) == split(s@.take(i as int), sep).drop_last(),
        decreases n - i,
    {
        let ghost parts = split(s@.take(i as int), sep);
        proof {
            assert(s@.take(i as int + 1).drop_last() =~= s@.take(i as int));
            assert(s@.take(i as int + 1).last() == cs@[i as int]);
        }
        if cs[i] == sep {
            let t = string_of(&cs, start, i);
            out.push(t);
            proof {
                let next = split(s@.take(i as int + 1), sep);
                assert(next.drop_last() =~= parts);
                assert(parts =~= parts.drop_last().push(t@));
                assert(strings_view(out@) =~= strings_view(out@.drop_last()).push(t@));
            }
            start = i + 1;
            proof {
                assert(s@.subrange(start as int, i as int + 1) =~= Seq::<char>::empty());
            }
        } else {
            proof {
                let next = split(s@.take(i as int + 1), sep);
                assert(next.drop_last() =~= parts.drop_last());
                assert(next.last() =~= s@.subrange(start as int, i as int + 1));
            }
        }
        i = i + 1;
    }
    let t = string_of(&cs, start, n);
    out.push(t);
    proof {
        let parts = split(s@.take(n as int), sep);
        assert(s@.take(n as int) =~= s@);
        assert(parts =~= parts.drop_last().push(t@));
        assert(strings_view(out@) =~= strings_view(out@.drop_last()).push(t@));
    }
    out
}

/// Reads a mouse trigger such as `ctrl+scrollup` (see [`parse_mouse_spec`]).
pub fn parse_mouse_trigger(value: &str) -> (r: Option<Result<SimpleMouseEvent, String>>)
    ensures
        match parse_mouse_spec(value@) {
            None => r is None,
            Some(Ok(e)) => r == Some(Ok::<SimpleMouseEvent, String>(e)),
            Some(Err(msg)) => r matches Some(Err(m)) && m@ == msg,
        },
{
    let parts = split_on(value, '+');
    let ghost pv = strings_view(parts@);
    proof {
        crate::strings::lemma_split_nonempty(value@, '+');
    }
    let n = parts.len();
    proof {
        assert(pv.last() == parts@[n - 1]@);
    }
    let last = to_lowercase(parts[n - 1].as_str());
    let kind = match kind_from_name(last.as_str()) {
        Some(k) => k,
        None => return None,
    };
    let mut modifiers: u8 = 0;
    let mut i: usize = 0;
    while i < n - 1
        invariant
            n == parts@.len(),
            n >= 1,
            pv == strings_view(parts@),
            i <= n - 1,
            modifiers_of(pv.take(i as int)) == Ok::<u8, Seq<char>>(modifiers),
            kind_named(lower(pv.last())) == Some(kind),
            pv == split(value@, '+'),
        decreases n - 1 - i,
    {
        let name = to_lowercase(parts[i].as_str());
        proof {
            assert(pv.take(i as int + 1).drop_last() =~= pv.take(i as int));
            assert(pv.take(i as int + 1).last() == parts@[i as int]@);
        }
        match modifier_from_name(name.as_str()) {
            Some(bit) => {
                modifiers = modifiers | bit;
            },
            None => {
                let mut msg = String::from_str("Unknown modifier: ");
                push_str(&mut msg, name.as_str());
                proof {
                    assert(modifiers_of(pv.take(i as int + 1)) == Err::<u8, Seq<char>>(name@));
                    assert(pv.drop_last().take(i as int + 1) =~= pv.take(i as int + 1));
                    lemma_modifiers_err_prefix(pv.drop_last(), i as int + 1);

                }
                return Some(Err(msg));
            },
        }
        i = i + 1;
    }
    proof {
        assert(pv.take((n - 1) as int) =~= pv.drop_last());
    }
    Some(Ok(SimpleMouseEvent { kind, modifiers }))
}

/// An error in a prefix is the error of the whole.
proof fn lemma_modifiers_err_prefix(parts: Seq<Seq<char>>, n: int)
    requires
        0 <= n <= parts.len(),
        modifiers_of(parts.take(n)) is Err,
    ensures
        modifiers_of(parts) == modifiers_of(parts.take(n)),
    decreases parts.len() - n,
{
    if n < parts.len() {
        assert(parts.take(n + 1).drop_last() =~= parts.take(n));
        lemma_modifiers_err_prefix(parts, n + 1);
    } else {
        assert(parts.take(n) =~= parts);
    }
}


// ------------------------------------------------------------------------
// Writing a trigger and reading it back

/// The names of the modifiers of `m`, in the order they are written.
pub open spec fn modifier_words(m: u8) -> Seq<Seq<char>> {
    words_upto(m, 6)
}

/// The names of the first `k` modifiers (in writing order) that `m` holds.
pub open spec fn words_upto(m: u8, k: nat) -> Seq<Seq<char>>
    decreases k,
{
    if k == 0 {
        Seq::empty()
    } else {
        let before = words_upto(m, (k - 1) as nat);
        let (bit, word) = modifier_entry((k - 1) as nat);
        if m & bit != 0 {
            before.push(word)
        } else {
            before
        }
    }
}

/// The `i`-th modifier in writing order: its bit and its name.
pub open spec fn modifier_entry(i: nat) -> (u8, Seq<char>) {
    if i == 0 {
        (SHIFT, "shift"@)
    } else if i == 1 {
        (CONTROL, "ctrl"@)
    } else if i == 2 {
        (ALT, "alt"@)
    } else if i == 3 {
        (SUPER, "super"@)
    } else if i == 4 {
        (HYPER, "hyper"@)
    } else {
        (META, "meta"@)
    }
}

/// Each word followed by a `+`.
pub open spec fn plus_joined(ws: Seq<Seq<char>>) -> Seq<char>
    decreases ws.len(),
{
    if ws.len() == 0 {
        Seq::empty()
    } else {
        ws[0] + seq!['+'] + plus_joined(ws.drop_first())
    }
}

proof fn lemma_plus_joined_push(ws: Seq<Seq<char>>, w: Seq<char>)
    ensures
        plus_joined(ws.push(w)) == plus_joined(ws) + w + seq!['+'],
    decreases ws.len(),
{
    if ws.len() == 0 {
        assert(ws.push(w).drop_first() =~= Seq::<Seq<char>>::empty());
        assert(plus_joined(Seq::<Seq<char>>::empty()) =~= Seq::<char>::empty());
        assert(plus_joined(ws) =~= Seq::<char>::empty());
        assert(plus_joined(ws.push(w)) =~= w + seq!['+']);
    } else {
        assert(ws.push(w).drop_first() =~= ws.drop_first().push(w));
        lemma_plus_joined_push(ws.drop_first(), w);
        assert(plus_joined(ws.push(w)) =~= plus_joined(ws) + w + seq!['+']);
    }
}



proof fn lemma_split_joined(ws: Seq<Seq<char>>, name: Seq<char>)
    requires
        forall|k: int| 0 <= k < ws.len() ==> !(#[trigger] ws[k]).contains('+'),
        !name.contains('+'),
    ensures
        split(plus_joined(ws) + name, '+') == ws.push(name),
    decreases ws.len(),
{
    if ws.len() == 0 {
        assert(plus_joined(ws) + name =~= name);
        crate::strings::lemma_split_no_sep(name, '+');
        assert(ws.push(name) =~= seq![name]);
    } else {
        let rest = ws.drop_first();
        assert forall|k: int| 0 <= k < rest.len() implies !(#[trigger] rest[k]).contains('+') by {
            assert(rest[k] == ws[k + 1]);
        }
        lemma_split_joined(rest, name);
        assert(plus_joined(ws) + name =~= ws[0] + seq!['+'] + (plus_joined(rest) + name));
        assert(!ws[0].contains('+'));
        crate::strings::lemma_split_concat(ws[0], plus_joined(rest) + name, '+');
        assert(seq![ws[0]] + rest.push(name) =~= ws.push(name));
    }
}

/// Each modifier name is plain lowercase ASCII without `+`, names its bit,
/// and is written followed by `+`.
proof fn lemma_modifier_entry(i: nat)
    requires
        i < 6,
    ensures
        ({
            let (bit, word) = modifier_entry(i);
            &&& lower(word) == word
            &&& !word.contains('+')
            &&& modifier_named(word) == Some(bit)
            &&& word.len() > 0
        }),
{
    reveal_strlit("shift");
    reveal_strlit("ctrl");
    reveal_strlit("alt");
    reveal_strlit("super");
    reveal_strlit("hyper");
    reveal_strlit("meta");
    reveal_strlit("none");
    let (bit, word) = modifier_entry(i);
    assert(word.map_values(|c: char| ascii_lower(c)) =~= word);
    assert("shift"@[1] == 'h' && "super"@[1] == 'u' && "hyper"@[0] == 'h' && "shift"@[0] == 's');
    assert("ctrl"@[0] == 'c' && "meta"@[0] == 'm' && "none"@[0] == 'n' && "alt"@[0] == 'a');
}

proof fn lemma_kind_names(k: MouseEventKind)
    requires
        kind_name(k).len() > 0,
    ensures
        lower(kind_name(k)) == kind_name(k),
        !kind_name(k).contains('+'),
        kind_named(kind_name(k)) == Some(k),
{
    reveal_strlit("left");
    reveal_strlit("middle");
    reveal_strlit("right");
    reveal_strlit("scrolldown");
    reveal_strlit("scrollup");
    reveal_strlit("scrollleft");
    reveal_strlit("scrollright");
    reveal_strlit("");
    let n = kind_name(k);
    assert(n.map_values(|c: char| ascii_lower(c)) =~= n);
    assert("scrolldown"@[6] == 'd' && "scrollleft"@[6] == 'l');
    assert("left"@[0] == 'l' && "right"@[0] == 'r' && "middle"@[0] == 'm');
}

/// The written trigger: the modifier words each followed by `+`, then the name.
proof fn lemma_trigger_text(e: SimpleMouseEvent)
    ensures
        mouse_trigger_text(e) == plus_joined(modifier_words(e.modifiers)) + kind_name(e.kind),
{
    reveal_strlit("shift+");
    reveal_strlit("ctrl+");
    reveal_strlit("alt+");
    reveal_strlit("super+");
    reveal_strlit("hyper+");
    reveal_strlit("meta+");
    reveal_strlit("shift");
    reveal_strlit("ctrl");
    reveal_strlit("alt");
    reveal_strlit("super");
    reveal_strlit("hyper");
    reveal_strlit("meta");
    reveal_strlit("");
    let m = e.modifiers;
    lemma_text_upto(m, 6);
    let piece = |b: u8, w: Seq<char>| if m & b != 0 {
        w + seq!['+']
    } else {
        Seq::<char>::empty()
    };
    assert(text_upto(m, 0) == Seq::<char>::empty());
    assert(text_upto(m, 1) == text_upto(m, 0) + piece(SHIFT, "shift"@));
    assert(text_upto(m, 2) == text_upto(m, 1) + piece(CONTROL, "ctrl"@));
    assert(text_upto(m, 3) == text_upto(m, 2) + piece(ALT, "alt"@));
    assert(text_upto(m, 4) == text_upto(m, 3) + piece(SUPER, "super"@));
    assert(text_upto(m, 5) == text_upto(m, 4) + piece(HYPER, "hyper"@));
    assert(text_upto(m, 6) == text_upto(m, 5) + piece(META, "meta"@));
    assert("shift+"@ =~= "shift"@ + seq!['+']);
    assert("ctrl+"@ =~= "ctrl"@ + seq!['+']);
    assert("alt+"@ =~= "alt"@ + seq!['+']);
    assert("super+"@ =~= "super"@ + seq!['+']);
    assert("hyper+"@ =~= "hyper"@ + seq!['+']);
    assert("meta+"@ =~= "meta"@ + seq!['+']);
    assert(""@ =~= Seq::<char>::empty());
    assert(mouse_trigger_text(e) =~= piece(SHIFT, "shift"@) + piece(CONTROL, "ctrl"@) + piece(ALT, "alt"@)
        + piece(SUPER, "super"@) + piece(HYPER, "hyper"@) + piece(META, "meta"@) + kind_name(e.kind));
    assert(mouse_trigger_text(e) =~= text_upto(m, 6) + kind_name(e.kind));
}

proof fn lemma_text_upto(m: u8, k: nat)
    ensures
        plus_joined(words_upto(m, k)) == text_upto(m, k),
    decreases k,
{
    if k == 0 {
        assert(plus_joined(words_upto(m, 0)) =~= Seq::<char>::empty());
    } else {
        lemma_text_upto(m, (k - 1) as nat);
        let (bit, word) = modifier_entry((k - 1) as nat);
        if m & bit != 0 {
            lemma_plus_joined_push(words_upto(m, (k - 1) as nat), word);
            assert(text_upto(m, k) =~= text_upto(m, (k - 1) as nat) + word + seq!['+']);
        } else {
            assert(text_upto(m, k) =~= text_upto(m, (k - 1) as nat));
        }
    }
}

/// What is written for the first `k` modifiers of `m`.
pub open spec fn text_upto(m: u8, k: nat) -> Seq<char>
    decreases k,
{
    if k == 0 {
        Seq::empty()
    } else {
        let (bit, word) = modifier_entry((k - 1) as nat);
        text_upto(m, (k - 1) as nat) + if m & bit != 0 {
            word + seq!['+']
        } else {
            Seq::empty()
        }
    }
}

/// The low `k` bits.
pub open spec fn low_bits(k: nat) -> u8 {
    if k == 0 {
        0u8
    } else if k == 1 {
        1u8
    } else if k == 2 {
        3u8
    } else if k == 3 {
        7u8
    } else if k == 4 {
        15u8
    } else if k == 5 {
        31u8
    } else {
        63u8
    }
}

proof fn lemma_words_upto(m: u8, k: nat)
    requires
        k <= 6,
    ensures
        modifiers_of(words_upto(m, k)) == Ok::<u8, Seq<char>>(m & low_bits(k)),
        forall|j: int| 0 <= j < words_upto(m, k).len() ==> !(#[trigger] words_upto(m, k)[j]).contains('+'),
    decreases k,
{
    if k == 0 {
        assert(m & 0u8 == 0u8) by (bit_vector);
    } else {
        let i = (k - 1) as nat;
        lemma_words_upto(m, i);
        let (bit, word) = modifier_entry(i);
        lemma_modifier_entry(i);
        let before = words_upto(m, i);
        let acc = m & low_bits(i);
        if m & bit != 0 {
            assert(before.push(word).drop_last() =~= before);
            assert forall|j: int| 0 <= j < before.push(word).len() implies !(#[trigger] before.push(word)[j]).contains('+') by {
                if j < before.len() {
                    assert(before.push(word)[j] == before[j]);
                }
            }
        }
        let next: u8 = if m & bit != 0 { acc | bit } else { acc };
        if i == 0 {
            assert(next == m & 1u8) by (bit_vector) requires acc == m & 0u8, next == (if m & 1u8 != 0 { acc | 1u8 } else { acc });
        } else if i == 1 {
            assert(next == m & 3u8) by (bit_vector) requires acc == m & 1u8, next == (if m & 2u8 != 0 { acc | 2u8 } else { acc });
        } else if i == 2 {
            assert(next == m & 7u8) by (bit_vector) requires acc == m & 3u8, next == (if m & 4u8 != 0 { acc | 4u8 } else { acc });
        } else if i == 3 {
            assert(next == m & 15u8) by (bit_vector) requires acc == m & 7u8, next == (if m & 8u8 != 0 { acc | 8u8 } else { acc });
        } else if i == 4 {
            assert(next == m & 31u8) by (bit_vector) requires acc == m & 15u8, next == (if m & 16u8 != 0 { acc | 16u8 } else { acc });
        } else {
            assert(next == m & 63u8) by (bit_vector) requires acc == m & 31u8, next == (if m & 32u8 != 0 { acc | 32u8 } else { acc });
        }
    }
}

/// Reading the modifier words gives back the modifier bits.
proof fn lemma_words_read_back(m: u8)
    requires
        m < 64,
    ensures
        modifiers_of(modifier_words(m)) == Ok::<u8, Seq<char>>(m),
        forall|j: int| 0 <= j < modifier_words(m).len() ==> !(#[trigger] modifier_words(m)[j]).contains('+'),
{
    lemma_words_upto(m, 6);
    assert(m & 63u8 == m) by (bit_vector) requires m < 64;
}

/// A mouse trigger that can be bound, written out, reads back as the same
/// trigger (with the modifiers that have names).
pub proof fn law_mouse_trigger_round_trip(e: SimpleMouseEvent)
    requires
        kind_name(e.kind).len() > 0,
        e.modifiers < 64,
    ensures
        parse_mouse_spec(mouse_trigger_text(e)) == Some(Ok::<SimpleMouseEvent, Seq<char>>(e)),
{
    lemma_kind_names(e.kind);
    lemma_trigger_text(e);
    lemma_words_read_back(e.modifiers);
    let ws = modifier_words(e.modifiers);
    let name = kind_name(e.kind);
    lemma_split_joined(ws, name);
    let parts = split(mouse_trigger_text(e), '+');
    assert(parts.last() == name);
    assert(parts.drop_last() =~= ws);
}

} // verus!
