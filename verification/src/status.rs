//! The status line's template: text with `{style:text}` sections, each
//! styled by its comma separated tokens (colors, modifiers, `fg=`/`bg=`
//! colors, and `i`/`interactive` for a clickable region).
use std::str::FromStr;
use vstd::prelude::*;

use crate::binds::{lowercase, split_on, to_lowercase};
use crate::render::{plain_style, span_view, CellColor, CellStyle, StyledSpan, StyledText, DIM, ITALIC};
use crate::tui::{is_digit, parse_uint, parse_uint_chars, strip_plus};
use crate::strings::{chars_of, split, starts_with, str_eq, str_starts_with, string_of, strings_view, trim, trim_bounds};

verus! {

/// The `BOLD` text modifier bit.
pub const BOLD: u16 = 1;

/// The `UNDERLINED` text modifier bit.
pub const UNDERLINED: u16 = 8;

/// The `SLOW_BLINK` text modifier bit.
pub const SLOW_BLINK: u16 = 16;

/// The `RAPID_BLINK` text modifier bit; it also marks a clickable region.
pub const RAPID_BLINK: u16 = 32;

/// The `REVERSED` text modifier bit.
pub const REVERSED: u16 = 64;

/// The `HIDDEN` text modifier bit.
pub const HIDDEN: u16 = 128;

/// The `CROSSED_OUT` text modifier bit.
pub const CROSSED_OUT: u16 = 256;

/// What ratatui's `Color::from_str` reads from `s`, written out by the
/// color's `Display`; `None` where `s` names no color.
pub uninterp spec fn color_text(s: Seq<char>) -> Option<Seq<char>>;

/// What cba's `split_on_nesting` gives for `s` with the brackets
/// `open` and `close`: the pieces at and between top-level bracketed
/// sections, or the unbalanced depth.
pub uninterp spec fn nested_parts(s: Seq<char>, open: char, close: char) -> Result<Seq<Seq<char>>, i32>;

/// `Color::from_str(s)` (ratatui), the color then written by its `Display`
/// (a name such as `Red`, `#RRGGBB`, or an index); `None` where `s` is no
/// color.
#[verifier::external_body]
fn color_text_of(s: &str) -> (r: Option<String>)
    ensures
        match r {
            Some(t) => color_text(s@) == Some(t@),
            None => color_text(s@) is None,
        },
{
    match ratatui::style::Color::from_str(s) {
        Ok(c) => Some(format!("{}", c)),
        Err(_) => None,
    }
}

/// The color a name of `Display` stands for.
pub open spec fn named_color(t: Seq<char>) -> Option<CellColor> {
    if t == "Reset"@ {
        Some(CellColor::Reset)
    } else if t == "Black"@ {
        Some(CellColor::Black)
    } else if t == "Red"@ {
        Some(CellColor::Red)
    } else if t == "Green"@ {
        Some(CellColor::Green)
    } else if t == "Yellow"@ {
        Some(CellColor::Yellow)
    } else if t == "Blue"@ {
        Some(CellColor::Blue)
    } else if t == "Magenta"@ {
        Some(CellColor::Magenta)
    } else if t == "Cyan"@ {
        Some(CellColor::Cyan)
    } else if t == "Gray"@ {
        Some(CellColor::Gray)
    } else if t == "DarkGray"@ {
        Some(CellColor::DarkGray)
    } else if t == "LightRed"@ {
        Some(CellColor::LightRed)
    } else if t == "LightGreen"@ {
        Some(CellColor::LightGreen)
    } else if t == "LightYellow"@ {
        Some(CellColor::LightYellow)
    } else if t == "LightBlue"@ {
        Some(CellColor::LightBlue)
    } else if t == "LightMagenta"@ {
        Some(CellColor::LightMagenta)
    } else if t == "LightCyan"@ {
        Some(CellColor::LightCyan)
    } else if t == "White"@ {
        Some(CellColor::White)
    } else {
        None
    }
}

/// Whether `c` is a hexadecimal digit.
pub open spec fn is_hex(c: char) -> bool {
    ('0' <= c <= '9') || ('A' <= c <= 'F') || ('a' <= c <= 'f')
}

/// The value of the hexadecimal digit `c`.
pub open spec fn hex_val(c: char) -> int {
    if '0' <= c <= '9' {
        c as int - '0' as int
    } else if 'A' <= c <= 'F' {
        c as int - 'A' as int + 10
    } else {
        c as int - 'a' as int + 10
    }
}

/// The byte two hexadecimal digits write.
pub open spec fn hex_byte(hi: char, lo: char) -> u8 {
    (hex_val(hi) * 16 + hex_val(lo)) as u8
}

/// The color that a color's `Display` text `t` stands for: a name,
/// `#RRGGBB`, or an index.
pub open spec fn color_of_text(t: Seq<char>) -> Option<CellColor> {
    if named_color(t) is Some {
        named_color(t)
    } else if t.len() == 7 && t[0] == '#' && (forall|k: int| 1 <= k < 7 ==> is_hex(#[trigger] t[k])) {
        Some(CellColor::Rgb(hex_byte(t[1], t[2]), hex_byte(t[3], t[4]), hex_byte(t[5], t[6])))
    } else {
        match parse_uint(t, 255) {
            Some(v) => Some(CellColor::Indexed(v as u8)),
            None => None,
        }
    }
}

/// The color ratatui reads from `s`.
pub open spec fn parsed_color(s: Seq<char>) -> Option<CellColor> {
    match color_text(s) {
        Some(t) => color_of_text(t),
        None => None,
    }
}

/// The color a name of `Display` stands for (see [`named_color`]).
fn named_color_of(t: &str) -> (r: Option<CellColor>)
    ensures
        r == named_color(t@),
{
    if str_eq(t, "Reset") {
        Some(CellColor::Reset)
    } else if str_eq(t, "Black") {
        Some(CellColor::Black)
    } else if str_eq(t, "Red") {
        Some(CellColor::Red)
    } else if str_eq(t, "Green") {
        Some(CellColor::Green)
    } else if str_eq(t, "Yellow") {
        Some(CellColor::Yellow)
    } else if str_eq(t, "Blue") {
        Some(CellColor::Blue)
    } else if str_eq(t, "Magenta") {
        Some(CellColor::Magenta)
    } else if str_eq(t, "Cyan") {
        Some(CellColor::Cyan)
    } else if str_eq(t, "Gray") {
        Some(CellColor::Gray)
    } else if str_eq(t, "DarkGray") {
        Some(CellColor::DarkGray)
    } else if str_eq(t, "LightRed") {
        Some(CellColor::LightRed)
    } else if str_eq(t, "LightGreen") {
        Some(CellColor::LightGreen)
    } else if str_eq(t, "LightYellow") {
        Some(CellColor::LightYellow)
    } else if str_eq(t, "LightBlue") {
        Some(CellColor::LightBlue)
    } else if str_eq(t, "LightMagenta") {
        Some(CellColor::LightMagenta)
    } else if str_eq(t, "LightCyan") {
        Some(CellColor::LightCyan)
    } else if str_eq(t, "White") {
        Some(CellColor::White)
    } else {
        None
    }
}

/// The value of `c` as a hexadecimal digit, `None` for another character.
fn hex_digit(c: char) -> (r: Option<u8>)
    ensures
        r == (if is_hex(c) {
            Some(hex_val(c) as u8)
        } else {
            None::<u8>
        }),
        r matches Some(v) ==> v < 16,
{
    if '0' <= c && c <= '9' {
        Some(((c as u32) - ('0' as u32)) as u8)
    } else if 'A' <= c && c <= 'F' {
        Some(((c as u32) - ('A' as u32) + 10) as u8)
    } else if 'a' <= c && c <= 'f' {
        Some(((c as u32) - ('a' as u32) + 10) as u8)
    } else {
        None
    }
}

/// The color that a color's `Display` text stands for (see
/// [`color_of_text`]).
fn color_from_text(t: &str) -> (r: Option<CellColor>)
    ensures
        r == color_of_text(t@),
{
    let named = named_color_of(t);
    if named.is_some() {
        return named;
    }
    let cs = chars_of(t);
    if cs.len() == 7 && cs[0] == '#' {
        let mut ds: Vec<u8> = Vec::new();
        let mut k: usize = 1;
        while k < 7
            invariant
                1 <= k <= 7,
                cs@ == t@,
                cs@.len() == 7,
                cs@[0] == '#',
                named_color(t@) is None,
                ds@.len() == k - 1,
                forall|j: int| 1 <= j < k ==> is_hex(#[trigger] cs@[j]),
                forall|j: int| 1 <= j < k ==> ds@[j - 1] == hex_val(#[trigger] cs@[j]) && ds@[j - 1] < 16,
            decreases 7 - k,
        {
            match hex_digit(cs[k]) {
                Some(v) => ds.push(v),
                None => {
                    proof {
                        assert(!is_hex(t@[k as int]));
                    }
                    proof {
                        assert(strip_plus(t@) == t@);
                        assert(!is_digit(t@[0]));
                        assert(parse_uint(t@, 255) is None);
                        assert(!(forall|j: int| 1 <= j < 7 ==> is_hex(#[trigger] t@[j])));
                    }
                    return None;
                },
            }
            k = k + 1;
        }
        let r = ds[0] * 16 + ds[1];
        let g = ds[2] * 16 + ds[3];
        let b = ds[4] * 16 + ds[5];
        proof {
            assert(ds@[0] == hex_val(t@[1]));
            assert(ds@[1] == hex_val(t@[2]));
            assert(ds@[2] == hex_val(t@[3]));
            assert(ds@[3] == hex_val(t@[4]));
            assert(ds@[4] == hex_val(t@[5]));
            assert(ds@[5] == hex_val(t@[6]));
        }
        return Some(CellColor::Rgb(r, g, b));
    }
    let n = cs.len();
    if n < 1 {
        proof {
            assert(cs@.subrange(0, n as int) =~= t@);
        }
        return None;
    }
    proof {
        assert(cs@.subrange(0, n as int) =~= t@);
    }
    match parse_uint_chars(&cs, 0, n, 255) {
        Some(v) => Some(CellColor::Indexed(v as u8)),
        None => None,
    }
}

/// The color ratatui reads from `s` (see [`parsed_color`]).
fn parse_color(s: &str) -> (r: Option<CellColor>)
    ensures
        r == parsed_color(s@),
{
    match color_text_of(s) {
        Some(t) => color_from_text(t.as_str()),
        None => None,
    }
}

/// Whether `s` can be handed to `split_on_nesting`: it slices `s` at the
/// byte after each backslash, counting that place in characters, so that
/// place must fall on a character boundary; and it negates a character
/// position as an `i32`.
pub open spec fn nesting_safe(s: Seq<char>) -> bool {
    &&& s.len() <= i32::MAX
    &&& forall|k: int|
        0 <= k < s.len() && #[trigger] s[k] == '\\' ==> vstd::utf8::is_char_boundary(
            vstd::utf8::encode_utf8(s),
            k + 1,
        )
}

/// `split_on_nesting(s, [open, close])` (cba).
#[verifier::external_body]
fn split_nesting(s: &str, open: char, close: char) -> (r: Result<Vec<String>, i32>)
    requires
        nesting_safe(s@),
    ensures
        match r {
            Ok(v) => nested_parts(s@, open, close) == Ok::<Seq<Seq<char>>, i32>(strings_view(v@)),
            Err(e) => nested_parts(s@, open, close) == Err::<Seq<Seq<char>>, i32>(e),
        },
{
    cba::bring::split::split_on_nesting(s, [open, close])
}

/// The modifier bit a token names, 0 for none.
pub open spec fn modifier_named(lo: Seq<char>) -> u16 {
    if lo == "bold"@ {
        BOLD
    } else if lo == "dim"@ {
        DIM
    } else if lo == "italic"@ {
        ITALIC
    } else if lo == "underlined"@ {
        UNDERLINED
    } else if lo == "slow_blink"@ {
        SLOW_BLINK
    } else if lo == "rapid_blink"@ {
        RAPID_BLINK
    } else if lo == "reversed"@ {
        REVERSED
    } else if lo == "hidden"@ {
        HIDDEN
    } else if lo == "crossed_out"@ {
        CROSSED_OUT
    } else {
        0
    }
}

/// `st` with the modifier bits `m` added.
pub open spec fn with_modifier(st: CellStyle, m: u16) -> CellStyle {
    CellStyle { add_modifier: st.add_modifier | m, ..st }
}

/// The style after one token, with whether the foreground and background
/// were set: an empty token counts as the foreground; `i`/`interactive`
/// marks a clickable region; a color sets the foreground, then the
/// background; a modifier name adds it; `fg=`/`bg=` set a color; anything
/// else is skipped.
pub open spec fn apply_token(st: (CellStyle, bool, bool), tok: Seq<char>) -> (CellStyle, bool, bool) {
    let t = trim(tok);
    let lo = lowercase(t);
    if t.len() == 0 {
        (st.0, true, st.2)
    } else if lo == "i"@ || lo == "interactive"@ {
        (with_modifier(st.0, RAPID_BLINK), st.1, st.2)
    } else if !st.1 && parsed_color(t) is Some {
        (CellStyle { fg: parsed_color(t), ..st.0 }, true, st.2)
    } else if !st.2 && parsed_color(t) is Some {
        (CellStyle { bg: parsed_color(t), ..st.0 }, st.1, true)
    } else if modifier_named(lo) != 0 {
        (with_modifier(st.0, modifier_named(lo)), st.1, st.2)
    } else if starts_with(t, "bg="@) {
        match parsed_color(t.skip(3)) {
            Some(c) => (CellStyle { bg: Some(c), ..st.0 }, st.1, true),
            None => st,
        }
    } else if starts_with(t, "fg="@) {
        match parsed_color(t.skip(3)) {
            Some(c) => (CellStyle { fg: Some(c), ..st.0 }, true, st.2),
            None => st,
        }
    } else {
        st
    }
}

/// The style after the tokens in turn, from the plain style.
pub open spec fn tokens_style(toks: Seq<Seq<char>>) -> (CellStyle, bool, bool)
    decreases toks.len(),
{
    if toks.len() == 0 {
        (plain_style(), false, false)
    } else {
        apply_token(tokens_style(toks.drop_last()), toks.last())
    }
}

/// The first position of `c` in `s`.
pub open spec fn first_of(s: Seq<char>, c: char) -> Option<nat>
    decreases s.len(),
{
    if s.len() == 0 {
        None
    } else {
        match first_of(s.drop_last(), c) {
            Some(i) => Some(i),
            None => if s.last() == c {
                Some((s.len() - 1) as nat)
            } else {
                None
            },
        }
    }
}

/// The span a section `style:text` makes (no `:`: all text): the text,
/// styled by the comma separated tokens before the first `:`.
pub open spec fn template_span(inner: Seq<char>) -> (Seq<char>, CellStyle) {
    match first_of(inner, ':') {
        Some(i) => (inner.skip(i + 1 as int), tokens_style(split(inner.take(i as int), ',')).0),
        None => (inner, tokens_style(split(Seq::<char>::empty(), ',')).0),
    }
}

/// Whether part `k` of the template `s` is a section: parts alternate,
/// starting with a section when `s` starts with `{`.
pub open spec fn section_at(s: Seq<char>, k: int) -> bool {
    (k % 2 == 0) == starts_with(s, seq!['{'])
}

/// Whether every part taken as a section has brackets to drop: two
/// characters at least, the first and the last of one byte.
pub open spec fn sections_ok(s: Seq<char>, parts: Seq<Seq<char>>) -> bool {
    forall|k: int|
        0 <= k < parts.len() && section_at(s, k) ==> (#[trigger] parts[k]).len() >= 2 && parts[k][0]
            <= '\u{7f}' && parts[k].last() <= '\u{7f}'
}

/// The status line of the template `s` split into `parts` (or not, on an
/// error): sections become styled spans, the rest plain spans; an
/// unbalanced template is one plain span.
pub open spec fn line_of_parts(s: Seq<char>, parts: Result<Seq<Seq<char>>, i32>) -> Seq<Seq<(Seq<char>, CellStyle)>> {
    match parts {
        Ok(ps) => seq![
            Seq::new(
                ps.len(),
                |k: int|
                    if section_at(s, k) {
                        template_span(ps[k].subrange(1, ps[k].len() - 1))
                    } else {
                        (ps[k], plain_style())
                    },
            ),
        ],
        Err(_) => seq![seq![(s, plain_style())]],
    }
}

/// Whether the template `s` can be read: cba can split it, and each part
/// taken as a section has brackets to drop.
pub open spec fn template_ok(s: Seq<char>) -> bool {
    &&& nesting_safe(s)
    &&& nested_parts(s, '{', '}') matches Ok(ps) ==> sections_ok(s, ps)
}

/// The style of the comma separated `tokens` (see [`apply_token`]).
fn style_of_tokens(tokens: &str) -> (r: CellStyle)
    ensures
        r == tokens_style(split(tokens@, ',')).0,
{
    let toks = split_on(tokens, ',');
    let ghost tv = strings_view(toks@);
    let mut style = CellStyle::default();
    let mut fg_set = false;
    let mut bg_set = false;
    let mut k: usize = 0;
    proof {
        assert(tv.take(0) =~= Seq::<Seq<char>>::empty());
    }
    while k < toks.len()
        invariant
            k <= toks@.len(),
            tv == strings_view(toks@),
            tv.len() == toks@.len(),
            (style, fg_set, bg_set) == tokens_style(tv.take(k as int)),
        decreases toks@.len() - k,
    {
        proof {
            assert(tv.take(k + 1).drop_last() =~= tv.take(k as int));
            assert(tv[k as int] == toks@[k as int]@);
        }
        let tcs = chars_of(toks[k].as_str());
        let (lo, hi) = trim_bounds(&tcs, 0, tcs.len());
        proof {
            assert(tcs@.subrange(0, tcs@.len() as int) =~= tcs@);
        }
        let t = string_of(&tcs, lo, hi);
        let low = to_lowercase(t.as_str());
        let color = parse_color(t.as_str());
        if lo == hi {
            fg_set = true;
        } else if str_eq(low.as_str(), "i") || str_eq(low.as_str(), "interactive") {
            style = CellStyle { add_modifier: style.add_modifier | RAPID_BLINK, ..style };
        } else if !fg_set && color.is_some() {
            style = CellStyle { fg: color, ..style };
            fg_set = true;
        } else if !bg_set && color.is_some() {
            style = CellStyle { bg: color, ..style };
            bg_set = true;
        } else {
            let m = modifier_bit(low.as_str());
            if m != 0 {
                style = CellStyle { add_modifier: style.add_modifier | m, ..style };
            } else if str_starts_with(t.as_str(), "bg=") {
                proof {
                    reveal_strlit("bg=");
                }
                let rest = string_of(&tcs, lo + 3, hi);
                proof {
                    assert(rest@ =~= t@.skip(3));
                }
                match parse_color(rest.as_str()) {
                    Some(c) => {
                        style = CellStyle { bg: Some(c), ..style };
                        bg_set = true;
                    },
                    None => {},
                }
            } else if str_starts_with(t.as_str(), "fg=") {
                proof {
                    reveal_strlit("fg=");
                }
                let rest = string_of(&tcs, lo + 3, hi);
                proof {
                    assert(rest@ =~= t@.skip(3));
                }
                match parse_color(rest.as_str()) {
                    Some(c) => {
                        style = CellStyle { fg: Some(c), ..style };
                        fg_set = true;
                    },
                    None => {},
                }
            }
        }
        k = k + 1;
    }
    proof {
        assert(tv.take(k as int) =~= tv);
    }
    style
}

/// The modifier bit a (lowercase) token names, 0 for none.
fn modifier_bit(lo: &str) -> (r: u16)
    ensures
        r == modifier_named(lo@),
{
    if str_eq(lo, "bold") {
        BOLD
    } else if str_eq(lo, "dim") {
        DIM
    } else if str_eq(lo, "italic") {
        ITALIC
    } else if str_eq(lo, "underlined") {
        UNDERLINED
    } else if str_eq(lo, "slow_blink") {
        SLOW_BLINK
    } else if str_eq(lo, "rapid_blink") {
        RAPID_BLINK
    } else if str_eq(lo, "reversed") {
        REVERSED
    } else if str_eq(lo, "hidden") {
        HIDDEN
    } else if str_eq(lo, "crossed_out") {
        CROSSED_OUT
    } else {
        0
    }
}

/// Converts a template section `style:text` into a styled span (see
/// [`template_span`]).
pub fn span_from_template(inner: &str) -> (r: StyledSpan)
    ensures
        span_view(r) == template_span(inner@),
{
    let cs = chars_of(inner);
    let n = cs.len();
    let mut i: usize = 0;
    let mut found = false;
    while i < n && !found
        invariant
            i <= n,
            n == cs@.len(),
            cs@ == inner@,
            !found ==> first_of(cs@.take(i as int), ':') is None,
            found ==> i < n && first_of(cs@, ':') == Some(i as nat),
        decreases n - i, if found {
            0int
        } else {
            1int
        },
    {
        proof {
            assert(cs@.take(i + 1).drop_last() =~= cs@.take(i as int));
        }
        if cs[i] == ':' {
            proof {
                lemma_first_of_prefix(cs@, ':', (i + 1) as nat);
            }
            found = true;
        } else {
            i = i + 1;
        }
    }
    if found {
        let style_part = string_of(&cs, 0, i);
        let text = string_of(&cs, i + 1, n);
        let style = style_of_tokens(style_part.as_str());
        proof {
            assert(style_part@ =~= inner@.take(i as int));
            assert(text@ =~= inner@.skip(i + 1));
        }
        StyledSpan { content: text, style }
    } else {
        proof {
            assert(cs@.take(i as int) =~= cs@);
        }
        let style = style_of_tokens("");
        proof {
            reveal_strlit("");
            assert(""@ =~= Seq::<char>::empty());
        }
        let text = string_of(&cs, 0, n);
        proof {
            assert(text@ =~= inner@);
        }
        StyledSpan { content: text, style }
    }
}

/// A character first found in a prefix is first found there in the whole.
proof fn lemma_first_of_prefix(s: Seq<char>, c: char, k: nat)
    requires
        k <= s.len(),
        first_of(s.take(k as int), c) is Some,
    ensures
        first_of(s, c) == first_of(s.take(k as int), c),
    decreases s.len() - k,
{
    if k < s.len() {
        assert(s.take(k + 1 as int).drop_last() =~= s.take(k as int));
        lemma_first_of_prefix(s, c, k + 1);
    } else {
        assert(s.take(k as int) =~= s);
    }
}

/// The status line of the template `s` from how it splits (see
/// [`line_of_parts`]).
fn line_from_parts(s: &str, parts: &Result<Vec<String>, i32>) -> (r: StyledText)
    requires
        parts matches Ok(v) ==> sections_ok(s@, strings_view(v@)),
    ensures
        r@ == line_of_parts(
            s@,
            match parts {
                Ok(v) => Ok::<Seq<Seq<char>>, i32>(strings_view(v@)),
                Err(e) => Err::<Seq<Seq<char>>, i32>(*e),
            },
        ),
{
    match parts {
        Err(_) => {
            let cs = chars_of(s);
            let content = string_of(&cs, 0, cs.len());
            proof {
                assert(content@ =~= s@);
            }
            let mut line: Vec<StyledSpan> = Vec::new();
            line.push(StyledSpan { content, style: CellStyle::default() });
            let mut lines: Vec<Vec<StyledSpan>> = Vec::new();
            lines.push(line);
            let r = StyledText { lines };
            proof {
                assert(span_view(line@[0]) == (s@, plain_style()));
                assert(crate::render::line_view(line@) =~= seq![(s@, plain_style())]);
                assert(r@ =~= seq![seq![(s@, plain_style())]]);
            }
            r
        },
        Ok(v) => {
            let ghost pv = strings_view(v@);
            let sw = str_starts_with(s, "{");
            proof {
                reveal_strlit("{");
                assert("{"@ =~= seq!['{']);
            }
            let mut spans: Vec<StyledSpan> = Vec::new();
            let mut k: usize = 0;
            let mut nested = !sw;
            while k < v.len()
                invariant
                    k <= v@.len(),
                    pv == strings_view(v@),
                    sections_ok(s@, pv),
                    sw == starts_with(s@, seq!['{']),
                    nested == if k % 2 == 0 {
                        !sw
                    } else {
                        sw
                    },
                    spans@.len() == k,
                    forall|j: int|
                        0 <= j < k ==> span_view(#[trigger] spans@[j]) == if section_at(s@, j) {
                            template_span(pv[j].subrange(1, pv[j].len() - 1))
                        } else {
                            (pv[j], plain_style())
                        },
                decreases v@.len() - k,
            {
                nested = !nested;
                let part = &v[k];
                proof {
                    assert(pv[k as int] == part@);
                    assert(nested == section_at(s@, k as int));
                }
                if nested {
                    let pcs = chars_of(part.as_str());
                    let inner = string_of(&pcs, 1, pcs.len() - 1);
                    spans.push(span_from_template(inner.as_str()));
                } else {
                    let pcs = chars_of(part.as_str());
                    let content = string_of(&pcs, 0, pcs.len());
                    proof {
                        assert(content@ =~= part@);
                    }
                    spans.push(StyledSpan { content, style: CellStyle::default() });
                    proof {
                        assert(span_view(spans@[k as int]) == (pv[k as int], plain_style()));
                    }
                }
                k = k + 1;
            }
            let mut lines: Vec<Vec<StyledSpan>> = Vec::new();
            lines.push(spans);
            let r = StyledText { lines };
            proof {
                assert(r@[0] =~= Seq::new(
                    pv.len(),
                    |j: int|
                        if section_at(s@, j) {
                            template_span(pv[j].subrange(1, pv[j].len() - 1))
                        } else {
                            (pv[j], plain_style())
                        },
                ));
                assert(r@ =~= line_of_parts(s@, Ok::<Seq<Seq<char>>, i32>(pv)));
            }
            r
        },
    }
}

/// Reads the status template `s`: `{style:text}` sections become styled
/// spans (see [`template_span`]), the text around them plain spans; an
/// unbalanced template is one plain span.
pub fn parse_template_to_status_line(s: &str) -> (r: StyledText)
    requires
        template_ok(s@),
    ensures
        r@ == line_of_parts(s@, nested_parts(s@, '{', '}')),
{
    let parts = split_nesting(s, '{', '}');
    line_from_parts(s, &parts)
}

/// Reads the status template `s` when it can be read (see
/// [`parse_template_to_status_line`]); `None` when cba cannot split it or a
/// part taken as a section has no brackets to drop.
pub fn try_parse_template_to_status_line(s: &str) -> (r: Option<StyledText>)
    ensures
        r is Some <==> template_ok(s@),
        r matches Some(t) ==> t@ == line_of_parts(s@, nested_parts(s@, '{', '}')),
{
    let cs = chars_of(s);
    if cs.len() > 2147483647 {
        return None;
    }
    let mut k: usize = 0;
    while k < cs.len()
        invariant
            k <= cs@.len(),
            cs@.len() <= i32::MAX,
            cs@ == s@,
            forall|j: int|
                0 <= j < k && #[trigger] s@[j] == '\\' ==> vstd::utf8::is_char_boundary(
                    vstd::utf8::encode_utf8(s@),
                    j + 1,
                ),
        decreases cs@.len() - k,
    {
        if cs[k] == '\\' {
            if !s.is_char_boundary(k + 1) {
                return None;
            }
        }
        k = k + 1;
    }
    let parts = split_nesting(s, '{', '}');
    match &parts {
        Ok(v) => {
            let sw = str_starts_with(s, "{");
            proof {
                reveal_strlit("{");
                assert("{"@ =~= seq!['{']);
            }
            let ghost pv = strings_view(v@);
            let mut j: usize = 0;
            while j < v.len()
                invariant
                    j <= v@.len(),
                    pv == strings_view(v@),
                    nested_parts(s@, '{', '}') == Ok::<Seq<Seq<char>>, i32>(pv),
                    nesting_safe(s@),
                    sw == starts_with(s@, seq!['{']),
                    forall|i: int|
                        0 <= i < j && section_at(s@, i) ==> (#[trigger] pv[i]).len() >= 2 && pv[i][0]
                            <= '\u{7f}' && pv[i].last() <= '\u{7f}',
                decreases v@.len() - j,
            {
                let section = (j % 2 == 0) == sw;
                if section {
                    let pcs = chars_of(v[j].as_str());
                    if pcs.len() < 2 || pcs[0] > '\u{7f}' || pcs[pcs.len() - 1] > '\u{7f}' {
                        proof {
                            assert(pv[j as int] == pcs@);
                            assert(section_at(s@, j as int));
                            assert(!sections_ok(s@, pv));
                        }
                        return None;
                    }
                }
                j = j + 1;
            }
        },
        Err(_) => {},
    }
    Some(line_from_parts(s, &parts))
}

/// Modifier tokens accumulate: a token never clears a modifier bit set by
/// the tokens before it; `i`/`interactive` sets the interactive mark; and a
/// modifier name (read as one when no color slot takes the token) sets its
/// bit.
pub proof fn law_modifier_tokens_accumulate(toks: Seq<Seq<char>>, t: Seq<char>)
    ensures
        ({
            let before = tokens_style(toks);
            let after = tokens_style(toks.push(t));
            let tt = trim(t);
            let lo = lowercase(tt);
            &&& after.0.add_modifier & before.0.add_modifier == before.0.add_modifier
            &&& (tt.len() > 0 && (lo == "i"@ || lo == "interactive"@)) ==> after.0.add_modifier & RAPID_BLINK
                == RAPID_BLINK
            &&& (tt.len() > 0 && !(lo == "i"@ || lo == "interactive"@) && (before.1 || parsed_color(tt) is None)
                && (before.2 || parsed_color(tt) is None) && modifier_named(lo) != 0) ==> after.0.add_modifier
                & modifier_named(lo) == modifier_named(lo)
        }),
{
    assert(toks.push(t).drop_last() =~= toks);
    let a = tokens_style(toks).0.add_modifier;
    let m = modifier_named(lowercase(trim(t)));
    assert((a | m) & a == a) by (bit_vector);
    assert((a | m) & m == m) by (bit_vector);
    assert((a | RAPID_BLINK) & a == a) by (bit_vector);
    assert((a | RAPID_BLINK) & RAPID_BLINK == RAPID_BLINK) by (bit_vector);
    assert(a & a == a) by (bit_vector);
}

/// Each modifier name sets its own single bit, numbered as the terminal
/// style numbers them (bold 1, dim 2, italic 4, underlined 8, slow_blink
/// 16, rapid_blink 32, reversed 64, hidden 128, crossed_out 256); any
/// other word names no modifier.
pub proof fn law_modifier_names_set_their_own_bit(lo: Seq<char>)
    ensures
        modifier_named("bold"@) == 1u16,
        modifier_named("dim"@) == 2u16,
        modifier_named("italic"@) == 4u16,
        modifier_named("underlined"@) == 8u16,
        modifier_named("slow_blink"@) == 16u16,
        modifier_named("rapid_blink"@) == 32u16,
        modifier_named("reversed"@) == 64u16,
        modifier_named("hidden"@) == 128u16,
        modifier_named("crossed_out"@) == 256u16,
        !(lo == "bold"@ || lo == "dim"@ || lo == "italic"@ || lo == "underlined"@ || lo == "slow_blink"@ || lo == "rapid_blink"@ || lo == "reversed"@ || lo == "hidden"@ || lo == "crossed_out"@) ==> modifier_named(lo) == 0,
{
    reveal_strlit("bold");
    reveal_strlit("dim");
    reveal_strlit("italic");
    reveal_strlit("underlined");
    reveal_strlit("slow_blink");
    reveal_strlit("rapid_blink");
    reveal_strlit("reversed");
    reveal_strlit("hidden");
    reveal_strlit("crossed_out");
    assert("dim"@.len() != "bold"@.len());
    assert("italic"@.len() != "bold"@.len());
    assert("italic"@.len() != "dim"@.len());
    assert("underlined"@.len() != "bold"@.len());
    assert("underlined"@.len() != "dim"@.len());
    assert("underlined"@.len() != "italic"@.len());
    assert("slow_blink"@.len() != "bold"@.len());
    assert("slow_blink"@.len() != "dim"@.len());
    assert("slow_blink"@.len() != "italic"@.len());
    assert("slow_blink"@[0] != "underlined"@[0]);
    assert("rapid_blink"@.len() != "bold"@.len());
    assert("rapid_blink"@.len() != "dim"@.len());
    assert("rapid_blink"@.len() != "italic"@.len());
    assert("rapid_blink"@.len() != "underlined"@.len());
    assert("rapid_blink"@.len() != "slow_blink"@.len());
    assert("reversed"@.len() != "bold"@.len());
    assert("reversed"@.len() != "dim"@.len());
    assert("reversed"@.len() != "italic"@.len());
    assert("reversed"@.len() != "underlined"@.len());
    assert("reversed"@.len() != "slow_blink"@.len());
    assert("reversed"@.len() != "rapid_blink"@.len());
    assert("hidden"@.len() != "bold"@.len());
    assert("hidden"@.len() != "dim"@.len());
    assert("hidden"@[0] != "italic"@[0]);
    assert("hidden"@.len() != "underlined"@.len());
    assert("hidden"@.len() != "slow_blink"@.len());
    assert("hidden"@.len() != "rapid_blink"@.len());
    assert("hidden"@.len() != "reversed"@.len());
    assert("crossed_out"@.len() != "bold"@.len());
    assert("crossed_out"@.len() != "dim"@.len());
    assert("crossed_out"@.len() != "italic"@.len());
    assert("crossed_out"@.len() != "underlined"@.len());
    assert("crossed_out"@.len() != "slow_blink"@.len());
    assert("crossed_out"@[0] != "rapid_blink"@[0]);
    assert("crossed_out"@.len() != "reversed"@.len());
    assert("crossed_out"@.len() != "hidden"@.len());
    assert(DIM == 2u16 && ITALIC == 4u16);
}

/// Every modifier bit set by some token stays set after all the tokens
/// that follow it.
pub proof fn law_modifier_bits_survive_later_tokens(toks: Seq<Seq<char>>, n: nat)
    requires
        n <= toks.len(),
    ensures
        tokens_style(toks).0.add_modifier & tokens_style(toks.take(n as int)).0.add_modifier == tokens_style(
            toks.take(n as int),
        ).0.add_modifier,
    decreases toks.len() - n,
{
    let a = tokens_style(toks.take(n as int)).0.add_modifier;
    if n == toks.len() {
        assert(toks.take(n as int) =~= toks);
        assert(a & a == a) by (bit_vector);
    } else {
        law_modifier_tokens_accumulate(toks.take(n as int), toks[n as int]);
        assert(toks.take(n as int).push(toks[n as int]) =~= toks.take(n + 1 as int));
        law_modifier_bits_survive_later_tokens(toks, n + 1);
        let b = tokens_style(toks.take(n + 1 as int)).0.add_modifier;
        let c = tokens_style(toks).0.add_modifier;
        assert(c & a == a) by (bit_vector)
            requires
                b & a == a,
                c & b == b,
        ;
    }
}

/// Colors fill the foreground first, then the background: an empty token
/// counts as the foreground; a color token sets the foreground when it is
/// not yet set, else the background when that is not; a side once set
/// stays set, and a token that sets one side leaves the other's color.
pub proof fn law_color_tokens_fill_fg_then_bg(toks: Seq<Seq<char>>, t: Seq<char>)
    ensures
        ({
            let before = tokens_style(toks);
            let after = tokens_style(toks.push(t));
            let tt = trim(t);
            let lo = lowercase(tt);
            let plain_tok = tt.len() > 0 && !(lo == "i"@ || lo == "interactive"@);
            &&& before.1 ==> after.1
            &&& before.2 ==> after.2
            &&& tt.len() == 0 ==> after == (before.0, true, before.2)
            &&& (plain_tok && !before.1 && parsed_color(tt) is Some) ==> (after.0.fg == parsed_color(tt) && after.1
                && after.0.bg == before.0.bg && !after.2 == !before.2)
            &&& (plain_tok && before.1 && !before.2 && parsed_color(tt) is Some) ==> (after.0.bg == parsed_color(tt)
                && after.2 && after.0.fg == before.0.fg)
        }),
{
    assert(toks.push(t).drop_last() =~= toks);
}

proof fn lemma_first_of_spec(s: Seq<char>, c: char)
    ensures
        first_of(s, c) matches Some(i) ==> i < s.len() && s[i as int] == c && forall|j: int| 0 <= j < i ==> s[j] != c,
        first_of(s, c) is None ==> forall|j: int| 0 <= j < s.len() ==> s[j] != c,
    decreases s.len(),
{
    if s.len() > 0 {
        lemma_first_of_spec(s.drop_last(), c);
        assert forall|j: int| 0 <= j < s.len() - 1 implies s.drop_last()[j] == s[j] by {}
    }
}

/// A section's text is what follows its first `:` (the style tokens come
/// before it); without a `:` the whole section is text, in the plain
/// style. An unbalanced template is shown as it is, in one plain span.
pub proof fn law_section_text_follows_first_colon(inner: Seq<char>, tmpl: Seq<char>, e: i32)
    ensures
        (forall|j: int| 0 <= j < inner.len() ==> inner[j] != ':') ==> template_span(inner) == (inner, plain_style()),
        forall|i: int|
            0 <= i < inner.len() && inner[i] == ':' && (forall|j: int| 0 <= j < i ==> inner[j] != ':')
                ==> #[trigger] template_span(inner).0 == inner.skip(i + 1),
        line_of_parts(tmpl, Err::<Seq<Seq<char>>, i32>(e)) == seq![seq![(tmpl, plain_style())]],
{
    lemma_first_of_spec(inner, ':');
    assert(split(Seq::<char>::empty(), ',') == seq![Seq::<char>::empty()]);
    let none: Seq<Seq<char>> = seq![Seq::<char>::empty()];
    assert(none.drop_last() =~= Seq::<Seq<char>>::empty());
    assert(trim(Seq::<char>::empty()) =~= Seq::<char>::empty()) by {
        reveal_with_fuel(crate::strings::trim_start, 2);
        reveal_with_fuel(crate::strings::trim_end, 2);
    }
    assert(none.last() == Seq::<char>::empty());
    assert(tokens_style(Seq::<Seq<char>>::empty()) == (plain_style(), false, false));
    assert(trim(none.last()).len() == 0);
    assert(tokens_style(none) == apply_token(tokens_style(Seq::<Seq<char>>::empty()), Seq::<char>::empty()));
    assert(tokens_style(none) == (plain_style(), true, false));
    if forall|j: int| 0 <= j < inner.len() ==> inner[j] != ':' {
        if first_of(inner, ':') is Some {
            let k = first_of(inner, ':')->0;
            assert(inner[k as int] == ':');
        }
        assert(template_span(inner) == (inner, plain_style()));
    }
    assert forall|i: int|
        0 <= i < inner.len() && inner[i] == ':' && (forall|j: int| 0 <= j < i ==> inner[j] != ':')
            implies #[trigger] template_span(inner).0 == inner.skip(i + 1) by {
        match first_of(inner, ':') {
            Some(k) => {
                if (k as int) < i {
                    assert(inner[k as int] != ':');
                } else if (k as int) > i {
                    assert(inner[i] != ':');
                }
            },
            None => {
                assert(inner[i] != ':');
            },
        }
    }
}

/// Parts of a template alternate between sections and plain text, the
/// first being a section exactly when the template starts with `{`.
pub proof fn law_parts_alternate(s: Seq<char>, k: int)
    ensures
        section_at(s, k) != section_at(s, k + 1),
        section_at(s, 0) == (s.len() > 0 && s[0] == '{'),
{
    assert((k + 1) % 2 == 0 <==> !(k % 2 == 0));
    if s.len() > 0 {
        assert(s.take(1) =~= seq![s[0]]);
        assert(s.take(1)[0] == s[0]);
        assert(seq!['{'][0] == '{');
        if s[0] == '{' {
            assert(s.take(1) =~= seq!['{']);
        }
    }
}

/// `bg=color` sets the background and `fg=color` the foreground (when the
/// token is not itself a color taken by an open side, a modifier, or the
/// interactive mark); an unknown color after `bg=`/`fg=`, or an unknown
/// token, changes nothing.
pub proof fn law_prefixed_colors_set_their_side(toks: Seq<Seq<char>>, t: Seq<char>)
    ensures
        ({
            let before = tokens_style(toks);
            let after = tokens_style(toks.push(t));
            let tt = trim(t);
            let lo = lowercase(tt);
            let other = tt.len() > 0 && !(lo == "i"@ || lo == "interactive"@) && (before.1 || parsed_color(tt) is None)
                && (before.2 || parsed_color(tt) is None) && modifier_named(lo) == 0;
            &&& (other && starts_with(tt, "bg="@) && parsed_color(tt.skip(3)) is Some) ==> (after.0.bg == parsed_color(
                tt.skip(3),
            ) && after.2 && after.0.fg == before.0.fg && after.1 == before.1)
            &&& (other && !starts_with(tt, "bg="@) && starts_with(tt, "fg="@) && parsed_color(tt.skip(3)) is Some)
                ==> (after.0.fg == parsed_color(tt.skip(3)) && after.1 && after.0.bg == before.0.bg && after.2
                == before.2)
            &&& (other && (starts_with(tt, "bg="@) || starts_with(tt, "fg="@)) && parsed_color(tt.skip(3)) is None)
                ==> after == before
            &&& (other && !starts_with(tt, "bg="@) && !starts_with(tt, "fg="@)) ==> after == before
        }),
{
    assert(toks.push(t).drop_last() =~= toks);
}

} // verus!
