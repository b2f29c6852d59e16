//! Terminal placement: how far to scroll and how tall the inline viewport is.
use vstd::prelude::*;

use crate::config::{ScrollStrategy, TerminalLayoutSettings};
use crate::ui::Rect;
use crate::utils::{clamp_nonzero, percent_of};

verus! {

pub open spec fn sat_sub(a: int, b: int) -> int {
    if a >= b {
        a - b
    } else {
        0
    }
}

pub open spec fn min_of(a: int, b: int) -> int {
    if a <= b {
        a
    } else {
        b
    }
}

pub open spec fn max_of(a: int, b: int) -> int {
    if a >= b {
        a
    } else {
        b
    }
}

/// Rows to scroll for each strategy, given the rows available below the cursor.
pub open spec fn scroll_amount_spec(strategy: ScrollStrategy, request: int, min: int, available: int) -> int {
    match strategy {
        ScrollStrategy::Compact => sat_sub(min, available),
        ScrollStrategy::Lazy => if available >= min {
            0
        } else {
            sat_sub(request, available)
        },
        _ => sat_sub(request, available),
    }
}

/// Rows to scroll up for the given strategy, given the rows currently
/// available below the cursor.
///
/// Callers assume the cursor position is the worst case (`height - 1`) when it
/// cannot be measured, so every strategy still produces an in-view placement.
pub fn scroll_amount(strategy: ScrollStrategy, request: u16, min: u16, available: u16) -> (r: u16)
    ensures
        r == scroll_amount_spec(strategy, request as int, min as int, available as int),
        available <= max_of(request as int, min as int) ==> available + r <= max_of(
            request as int,
            min as int,
        ),
{
    match strategy {
        ScrollStrategy::Compact => min.saturating_sub(available),
        ScrollStrategy::Lazy if available >= min => 0,
        ScrollStrategy::Aggressive | ScrollStrategy::Lazy | ScrollStrategy::Expansive => {
            request.saturating_sub(available)
        },
    }
}

/// Final viewport height for the given strategy.
pub fn viewport_height(strategy: ScrollStrategy, request: u16, min: u16, max: u16, available: u16) -> (r: u16)
    ensures
        r == match strategy {
            ScrollStrategy::Expansive => max_of(
                min_of(
                    available as int,
                    if max == 0 {
                        available as int
                    } else {
                        max as int
                    },
                ),
                min as int,
            ),
            _ => max_of(min_of(available as int, request as int), min as int),
        },
        r >= min,
{
    match strategy {
        // occupy every row below the cursor, capped by max
        ScrollStrategy::Expansive => {
            let cap = if max == 0 {
                available
            } else {
                max
            };
            let h = if available <= cap {
                available
            } else {
                cap
            };
            if h >= min {
                h
            } else {
                min
            }
        },
        _ => {
            let h = if available <= request {
                available
            } else {
                request
            };
            if h >= min {
                h
            } else {
                min
            }
        },
    }
}

/// The viewport height for each strategy (see [`viewport_height`]).
pub open spec fn viewport_height_spec(strategy: ScrollStrategy, request: int, min: int, max: int, available: int) -> int {
    match strategy {
        ScrollStrategy::Expansive => max_of(
            min_of(
                available,
                if max == 0 {
                    available
                } else {
                    max
                },
            ),
            min,
        ),
        _ => max_of(min_of(available, request), min),
    }
}

/// The rows an inline viewport asks for: its percentage of the terminal's
/// height, bounded by its minimum and maximum (0: no bound).
pub open spec fn requested_rows(layout: TerminalLayoutSettings, height: u16) -> int {
    clamp_nonzero(percent_of(layout.percentage.value(), height as nat), layout.min as nat, layout.max as nat) as int
}

/// The cursor's row, taken as the last row when it could not be read.
pub open spec fn cursor_row(height: u16, cursor_y: Option<u16>) -> int {
    match cursor_y {
        Some(y) => y as int,
        None => sat_sub(height as int, 1),
    }
}

/// How many rows to scroll up before placing the inline viewport.
pub open spec fn initial_scroll_spec(
    height: u16,
    cursor_y: Option<u16>,
    layout: TerminalLayoutSettings,
    strategy: ScrollStrategy,
) -> int {
    scroll_amount_spec(
        strategy,
        requested_rows(layout, height),
        layout.min as int,
        sat_sub(height as int, cursor_row(height, cursor_y)),
    )
}

/// Where the inline viewport goes: below the cursor (moved up by the
/// scroll when it took place), as tall as [`viewport_height`] gives; the
/// whole terminal when less than the minimum is left below the cursor.
pub open spec fn initial_viewport_spec(
    width: u16,
    height: u16,
    cursor_y: Option<u16>,
    layout: TerminalLayoutSettings,
    strategy: ScrollStrategy,
    scrolled: bool,
) -> Rect {
    let cy = cursor_row(height, cursor_y);
    let y = if scrolled {
        sat_sub(cy, initial_scroll_spec(height, cursor_y, layout, strategy))
    } else {
        cy
    };
    let available = sat_sub(height as int, y);
    if available < layout.min {
        Rect { x: 0, y: 0, width, height }
    } else {
        Rect {
            x: 0,
            y: y as u16,
            width,
            height: viewport_height_spec(
                strategy,
                requested_rows(layout, height),
                layout.min as int,
                layout.max as int,
                available,
            ) as u16,
        }
    }
}

/// How many rows to scroll up before placing the inline viewport: what
/// [`scroll_amount`] gives for the requested rows and the rows below the
/// cursor (the last row when the cursor could not be read).
pub fn initial_scroll(height: u16, cursor_y: Option<u16>, layout: &TerminalLayoutSettings, strategy: ScrollStrategy) -> (r: u16)
    ensures
        r == initial_scroll_spec(height, cursor_y, *layout, strategy),
{
    let request = layout.percentage.compute_clamped(height, layout.min, layout.max);
    let cy = match cursor_y {
        Some(y) => y,
        None => height.saturating_sub(1),
    };
    scroll_amount(strategy, request, layout.min, height.saturating_sub(cy))
}

/// The inline viewport's area once the terminal scrolled by
/// [`initial_scroll`] (`scrolled`) or could not: see
/// [`initial_viewport_spec`].
pub fn initial_viewport(
    width: u16,
    height: u16,
    cursor_y: Option<u16>,
    layout: &TerminalLayoutSettings,
    strategy: ScrollStrategy,
    scrolled: bool,
) -> (r: Rect)
    ensures
        r == initial_viewport_spec(width, height, cursor_y, *layout, strategy, scrolled),
        r.height >= layout.min || r == (Rect { x: 0, y: 0, width, height }),
{
    let request = layout.percentage.compute_clamped(height, layout.min, layout.max);
    let cy = match cursor_y {
        Some(y) => y,
        None => height.saturating_sub(1),
    };
    let y = if scrolled {
        cy.saturating_sub(initial_scroll(height, cursor_y, layout, strategy))
    } else {
        cy
    };
    let available = height.saturating_sub(y);
    if available < layout.min {
        Rect { x: 0, y: 0, width, height }
    } else {
        Rect { x: 0, y, width, height: viewport_height(strategy, request, layout.min, layout.max, available) }
    }
}

/// When the cursor is too low for the viewport, scrolling makes exactly the
/// target height available below it: the minimum for `Compact`, the request
/// for the other strategies (with `min <= request`).
pub proof fn law_scroll_reaches_target(
    strategy: ScrollStrategy,
    request: int,
    min: int,
    available: int,
)
    requires
        0 <= available < min <= request,
    ensures
        available + scroll_amount_spec(strategy, request, min, available) == match strategy {
            ScrollStrategy::Compact => min,
            _ => request,
        },
{
}

/// No strategy scrolls when the requested height already fits below the cursor.
pub proof fn law_no_scroll_when_fits(
    strategy: ScrollStrategy,
    request: int,
    min: int,
    available: int,
)
    requires
        0 <= min <= request <= available,
    ensures
        scroll_amount_spec(strategy, request, min, available) == 0,
{
}


/// Result of the startup query round trip.
#[derive(Debug, Clone, Copy, PartialEq, Eq)]
pub struct Startup {
    /// Cursor position (col, row), if the terminal answered the DSR query.
    pub cursor: Option<(u16, u16)>,
    /// Whether bracketed paste (DECSET 2004) was enabled; `None` when the
    /// terminal did not answer the DECRQM query.
    pub bracketed_paste: Option<bool>,
}

impl Default for Startup {
    fn default() -> (r: Self)
        ensures
            r.cursor is None && r.bracketed_paste is None,
    {
        Startup { cursor: None, bracketed_paste: None }
    }
}

/// The first occurrence of `t` in `s` at or after `from`.
pub open spec fn find_from(s: Seq<char>, t: Seq<char>, from: int) -> Option<int>
    decreases s.len() + 1 - from,
{
    if from < 0 || from + t.len() > s.len() {
        None
    } else if s.subrange(from, from + t.len()) == t {
        Some(from)
    } else {
        find_from(s, t, from + 1)
    }
}

pub open spec fn is_digit(c: char) -> bool {
    '0' <= c <= '9'
}

pub open spec fn digits_value(s: Seq<char>) -> nat
    decreases s.len(),
{
    if s.len() == 0 {
        0
    } else {
        digits_value(s.drop_last()) * 10 + (s.last() as nat - '0' as nat) as nat
    }
}

/// What `str::parse` gives for an unsigned integer type whose largest value
/// is `max`: an optional `+` followed by one or more ASCII digits, in range.
pub open spec fn strip_plus(s: Seq<char>) -> Seq<char> {
    if s.len() > 0 && s[0] == '+' {
        s.drop_first()
    } else {
        s
    }
}

pub open spec fn parse_uint(s: Seq<char>, max: nat) -> Option<nat> {
    let d = strip_plus(s);
    if d.len() > 0 && (forall|k: int| 0 <= k < d.len() ==> is_digit(#[trigger] d[k]))
        && digits_value(d) <= max {
        Some(digits_value(d))
    } else {
        None
    }
}

pub open spec fn paste_head() -> Seq<char> {
    seq!['\u{1b}', '[', '?', '2', '0', '0', '4', ';']
}

/// The first bracketed paste report (`ESC [ ? 2004 ; status $ y`) in `s`:
/// whether it reports the mode as set (status 1 or 3), and where it ends.
pub open spec fn paste_report(s: Seq<char>) -> Option<(bool, int)> {
    match find_from(s, paste_head(), 0) {
        None => None,
        Some(start) => match find_from(s, seq!['$', 'y'], start) {
            None => None,
            Some(q) => match parse_uint(s.subrange(start + 8, q), u32::MAX as nat) {
                None => None,
                Some(v) => Some((v == 1 || v == 3, q + 2)),
            },
        },
    }
}

/// The first cursor position report (`ESC [ row ; col R`) in `s`, as the
/// 1-based `(row, col)` and where it ends; `None` when the first `ESC [` is
/// not followed by a digit.
pub open spec fn cursor_report(s: Seq<char>) -> Option<(nat, nat, int)> {
    match find_from(s, seq!['\u{1b}', '['], 0) {
        None => None,
        Some(start) => if !(start + 2 < s.len() && is_digit(s[start + 2])) {
            None
        } else {
            match find_from(s, seq!['R'], start) {
                None => None,
                Some(r) => match row_col(s.subrange(start + 2, r)) {
                    Some((row, col)) => Some((row, col, r + 1)),
                    None => None,
                },
            }
        },
    }
}

/// The first two `;`-separated pieces of `body` (there must be a `;`),
/// each parsed as a `u16`.
pub open spec fn row_col(body: Seq<char>) -> Option<(nat, nat)> {
    match find_from(body, seq![';'], 0) {
        None => None,
        Some(a) => {
            let rest = body.subrange(a + 1, body.len() as int);
            let b = match find_from(rest, seq![';'], 0) {
                Some(b) => b,
                None => rest.len() as int,
            };
            match (parse_uint(body.take(a), u16::MAX as nat), parse_uint(rest.take(b), u16::MAX as nat)) {
                (Some(row), Some(col)) => Some((row, col)),
                _ => None,
            }
        },
    }
}

/// Finds `t` (not empty) in `cs` at or after `from`.
fn find_chars(cs: &Vec<char>, t: &Vec<char>, from: usize) -> (r: Option<usize>)
    requires
        t@.len() > 0,
    ensures
        match find_from(cs@, t@, from as int) {
            Some(i) => r matches Some(p) && p == i,
            None => r is None,
        },
{
    let n = cs.len();
    let m = t.len();
    if m > n || from > n - m {
        proof {
            lemma_find_from_none(cs@, t@, from as int);
        }
        return None;
    }
    let mut i = from;
    while i <= n - m
        invariant
            n == cs@.len(),
            m == t@.len(),
            m > 0,
            m <= n,
            from <= i,
            i <= n,
            find_from(cs@, t@, from as int) == find_from(cs@, t@, i as int),
        decreases n - i,
    {
        let mut j: usize = 0;
        while j < m && cs[i + j] == t[j]
            invariant
                n == cs@.len(),
                m == t@.len(),
                i + m <= n,
                j <= m,
                forall|k: int| 0 <= k < j ==> cs@[i + k] == t@[k],
            decreases m - j,
        {
            j = j + 1;
        }
        if j == m {
            proof {
                assert(cs@.subrange(i as int, i + m) =~= t@);
            }
            return Some(i);
        }
        proof {
            assert(cs@.subrange(i as int, i + m)[j as int] != t@[j as int]);
        }
        i = i + 1;
    }
    proof {
        lemma_find_from_none(cs@, t@, i as int);
    }
    None
}

/// A match found is a match, at or after the start.
pub proof fn lemma_find_from_some(s: Seq<char>, t: Seq<char>, from: int)
    ensures
        find_from(s, t, from) matches Some(i) ==> from <= i && i + t.len() <= s.len()
            && s.subrange(i, i + t.len()) == t,
    decreases s.len() + 1 - from,
{
    if !(from < 0 || from + t.len() > s.len()) && s.subrange(from, from + t.len()) != t {
        lemma_find_from_some(s, t, from + 1);
    }
}

proof fn lemma_find_from_none(s: Seq<char>, t: Seq<char>, from: int)
    requires
        from + t.len() > s.len(),
    ensures
        find_from(s, t, from) is None,
{
}

/// Parses `cs[lo..hi]` as an unsigned integer no larger than `max`.
pub(crate) fn parse_uint_chars(cs: &Vec<char>, lo: usize, hi: usize, max: u32) -> (r: Option<u32>)
    requires
        lo <= hi <= cs@.len(),
        max >= 9,
    ensures
        match parse_uint(cs@.subrange(lo as int, hi as int), max as nat) {
            Some(v) => r == Some(v as u32),
            None => r is None,
        },
{
    let ghost s = cs@.subrange(lo as int, hi as int);
    let mut start = lo;
    if lo < hi && cs[lo] == '+' {
        start = lo + 1;
    }
    let ghost d = cs@.subrange(start as int, hi as int);
    proof {
        assert(strip_plus(s) =~= d);
    }
    if start == hi {
        return None;
    }
    let mut v: u32 = 0;
    let mut i = start;
    while i < hi
        invariant
            lo <= start < hi <= cs@.len(),
            start <= i <= hi,
            d == cs@.subrange(start as int, hi as int),
            strip_plus(cs@.subrange(lo as int, hi as int)) == d,
            max >= 9,
            forall|k: int| start <= k < i ==> is_digit(cs@[k]),
            v as nat == digits_value(cs@.subrange(start as int, i as int)),
            v <= max,
        decreases hi - i,
    {
        let c = cs[i];
        if !('0' <= c && c <= '9') {
            proof {
                assert(!is_digit(d[i - start]));
            }
            return None;
        }
        let digit = (c as u32) - ('0' as u32);
        proof {
            assert(digit <= 9);
            assert(cs@.subrange(start as int, i as int + 1).drop_last() =~= cs@.subrange(
                start as int,
                i as int,
            ));
        }
        if v > (max - digit) / 10 {
            proof {
                assert(v * 10 + digit > max) by (nonlinear_arith)
                    requires
                        v > (max - digit) / 10,
                        digit <= 9,
                        digit <= max,
                ;
                lemma_digits_grow(cs@.subrange(start as int, hi as int), (i - start + 1) as int);
                assert(cs@.subrange(start as int, hi as int).take((i - start + 1) as int)
                    =~= cs@.subrange(start as int, i as int + 1));
            }
            return None;
        }
        v = v * 10 + digit;
        i = i + 1;
    }
    proof {
        assert(cs@.subrange(start as int, hi as int) =~= d);
        assert forall|k: int| 0 <= k < d.len() implies is_digit(#[trigger] d[k]) by {
            assert(d[k] == cs@[start + k]);
        }
    }
    Some(v)
}

/// Extending a string of digits never makes its value smaller.
proof fn lemma_digits_grow(s: Seq<char>, n: int)
    requires
        0 <= n <= s.len(),
        forall|k: int| 0 <= k < s.len() && is_digit(s[k]) ==> true,
    ensures
        (forall|k: int| 0 <= k < s.len() ==> is_digit(#[trigger] s[k])) ==> digits_value(
            s.take(n),
        ) <= digits_value(s),
    decreases s.len() - n,
{
    if n < s.len() {
        lemma_digits_grow(s, n + 1);
        assert(s.take(n + 1).drop_last() =~= s.take(n));
    } else {
        assert(s.take(n) =~= s);
    }
}

/// Cut the first DECRQM report (`ESC [ ? 2004 ; status $ y`) out of the
/// buffer and interpret its status: 1 (set) and 3 (permanently set) mean
/// enabled, 0/2/4 mean not enabled.
pub fn take_paste_report(buf: &mut String) -> (r: Option<bool>)
    ensures
        match paste_report(old(buf)@) {
            Some((enabled, end)) => r == Some(enabled) && final(buf)@ == old(buf)@.subrange(
                end,
                old(buf)@.len() as int,
            ),
            None => r is None && final(buf)@ == old(buf)@,
        },
{
    let cs = crate::strings::chars_of(buf.as_str());
    let mut head: Vec<char> = Vec::new();
    head.push('\u{1b}');
    head.push('[');
    head.push('?');
    head.push('2');
    head.push('0');
    head.push('0');
    head.push('4');
    head.push(';');
    proof {
        assert(head@ =~= paste_head());
    }
    let start = match find_chars(&cs, &head, 0) {
        Some(p) => p,
        None => return None,
    };
    let mut tail: Vec<char> = Vec::new();
    tail.push('$');
    tail.push('y');
    proof {
        assert(tail@ =~= seq!['$', 'y']);
    }
    let q = match find_chars(&cs, &tail, start) {
        Some(p) => p,
        None => return None,
    };
    proof {
        lemma_find_from_some(cs@, head@, 0);
        lemma_find_from_some(cs@, tail@, start as int);
        assert(cs@.subrange(start as int, start + 8) == paste_head());
        assert(cs@.subrange(q as int, q + 2) == seq!['$', 'y']);
        assert(cs@[q as int] == '$');
        if q < start + 8 {
            assert(cs@[q as int] == paste_head()[q - start]);
        }
    }
    let status = match parse_uint_chars(&cs, start + 8, q, u32::MAX) {
        Some(v) => v,
        None => return None,
    };
    proof {
        assert(q + 2 <= cs@.len());
        assert(q + 2 <= cs.len());
    }
    let end = q + 2;
    *buf = crate::strings::string_of(&cs, end, cs.len());
    Some(status == 1 || status == 3)
}

/// Finds the first cursor position report in `cs`: its 1-based row and
/// column and where it ends (see [`cursor_report`]).
fn find_cursor_report(cs: &Vec<char>) -> (r: Option<(u16, u16, usize)>)
    ensures
        match cursor_report(cs@) {
            Some((row, col, end)) => r matches Some((rr, cc, e)) && rr == row && cc == col && e == end
                && e <= cs@.len(),
            None => r is None,
        },
{
    let mut esc: Vec<char> = Vec::new();
    esc.push('\u{1b}');
    esc.push('[');
    proof {
        assert(esc@ =~= seq!['\u{1b}', '[']);
    }
    let start = match find_chars(cs, &esc, 0) {
        Some(p) => p,
        None => return None,
    };
    proof {
        lemma_find_from_some(cs@, esc@, 0);
        assert(find_from(cs@, esc@, 0) == Some(start as int));
        assert(start + 2 <= cs@.len());
    }
    // the paste report starts with `ESC [ ?`, only the cursor report is
    // followed directly by a digit
    if !(cs.len() - start > 2 && '0' <= cs[start + 2] && cs[start + 2] <= '9') {
        return None;
    }
    let mut rr: Vec<char> = Vec::new();
    rr.push('R');
    proof {
        assert(rr@ =~= seq!['R']);
    }
    let r = match find_chars(cs, &rr, start) {
        Some(p) => p,
        None => return None,
    };
    proof {
        lemma_find_from_some(cs@, esc@, 0);
        lemma_find_from_some(cs@, rr@, start as int);
        assert(cs@.subrange(r as int, r + 1) == seq!['R']);
        assert(cs@.subrange(r as int, r + 1)[0] == cs@[r as int]);
        if r < start + 2 {
            assert(cs@.subrange(start as int, start + 2) == seq!['\u{1b}', '[']);
            assert(cs@.subrange(start as int, start + 2)[r - start] == cs@[r as int]);
        }
        if r == start + 2 {
            assert(is_digit(cs@[r as int]));
        }
    }
    // the body lies between `ESC [` and `R`; its first two `;`-separated pieces are row and col
    let (row, col) = match parse_row_col(cs, start + 2, r) {
        Some(rc) => rc,
        None => return None,
    };
    Some((row, col, r + 1))
}

/// The 1-based `(row, col)` of the first cursor position report in `buf`,
/// if there is one (the buffer is left as it is).
pub fn cursor_report_of(buf: &str) -> (r: Option<(u16, u16)>)
    ensures
        match cursor_report(buf@) {
            Some((row, col, end)) => r == Some((row as u16, col as u16)),
            None => r is None,
        },
{
    let cs = crate::strings::chars_of(buf);
    match find_cursor_report(&cs) {
        Some((row, col, _)) => Some((row, col)),
        None => None,
    }
}

/// Cut the first cursor position report (`ESC [ row ; col R`) out of the
/// buffer and return (col, row) as 0-based coordinates.
pub fn take_cursor_position(buf: &mut String) -> (r: Option<(u16, u16)>)
    requires
        cursor_report(old(buf)@) matches Some((row, col, end)) ==> row >= 1 && col >= 1,
    ensures
        match cursor_report(old(buf)@) {
            Some((row, col, end)) => r == Some(((col - 1) as u16, (row - 1) as u16))
                && final(buf)@ == old(buf)@.subrange(end, old(buf)@.len() as int),
            None => r is None && final(buf)@ == old(buf)@,
        },
{
    let cs = crate::strings::chars_of(buf.as_str());
    match find_cursor_report(&cs) {
        Some((row, col, end)) => {
            *buf = crate::strings::string_of(&cs, end, cs.len());
            Some((col - 1, row - 1))
        },
        None => None,
    }
}

/// The first two `;`-separated pieces of `cs[lo..hi]`, parsed as `u16`.
fn parse_row_col(cs: &Vec<char>, lo: usize, hi: usize) -> (r: Option<(u16, u16)>)
    requires
        lo <= hi <= cs@.len(),
    ensures
        match row_col(cs@.subrange(lo as int, hi as int)) {
            Some((row, col)) => r == Some((row as u16, col as u16)),
            None => r is None,
        },
{
    let body = crate::strings::sub_vec(cs, lo, hi);
    let mut semi: Vec<char> = Vec::new();
    semi.push(';');
    proof {
        assert(semi@ =~= seq![';']);
    }
    let a = match find_chars(&body, &semi, 0) {
        Some(a) => a,
        None => return None,
    };
    proof {
        lemma_find_from_some(body@, semi@, 0);
    }
    let rest = crate::strings::sub_vec(&body, a + 1, body.len());
    let b = match find_chars(&rest, &semi, 0) {
        Some(b) => b,
        None => rest.len(),
    };
    proof {
        lemma_find_from_some(rest@, semi@, 0);
        assert(body@.take(a as int) =~= body@.subrange(0, a as int));
        assert(rest@.take(b as int) =~= rest@.subrange(0, b as int));
    }
    let row = match parse_uint_chars(&body, 0, a, 65535) {
        Some(v) => v as u16,
        None => return None,
    };
    let col = match parse_uint_chars(&rest, 0, b, 65535) {
        Some(v) => v as u16,
        None => return None,
    };
    Some((row, col))
}

/// The inline viewport lies inside the terminal: at the left edge, as
/// wide as the terminal, ending at or before the last row; it is at least
/// the minimum tall, or it is the whole terminal (the first when the
/// cursor is in the terminal). Without a scroll it
/// starts at the cursor's row (or at the top, for the whole terminal).
pub proof fn law_viewport_fits_the_terminal(
    width: u16,
    height: u16,
    cursor_y: Option<u16>,
    layout: TerminalLayoutSettings,
    strategy: ScrollStrategy,
    scrolled: bool,
)
    ensures
        ({
            let r = initial_viewport_spec(width, height, cursor_y, layout, strategy, scrolled);
            &&& r.x == 0 && r.width == width
            &&& cursor_row(height, cursor_y) <= height ==> (r.y + r.height <= height || r == (Rect {
                x: 0,
                y: 0,
                width,
                height,
            }))
            &&& r.height >= layout.min || r == (Rect { x: 0, y: 0, width, height })
            &&& (!scrolled && cursor_y is Some && (cursor_y.unwrap() as int) < height) ==> (r.y
                == cursor_y.unwrap() || r == (Rect { x: 0, y: 0, width, height }))
        }),
{
}

/// Scrolling never asks for more rows than the viewport wants beyond what
/// is free below the cursor, and none when the minimum (for the compact
/// strategy, or lazily) already fits.
pub proof fn law_scroll_only_as_needed(
    height: u16,
    cursor_y: Option<u16>,
    layout: TerminalLayoutSettings,
    strategy: ScrollStrategy,
)
    ensures
        ({
            let free = sat_sub(height as int, cursor_row(height, cursor_y));
            let s = initial_scroll_spec(height, cursor_y, layout, strategy);
            &&& s >= 0
            &&& s <= max_of(requested_rows(layout, height), layout.min as int)
            &&& (strategy == ScrollStrategy::Compact || strategy == ScrollStrategy::Lazy) && free >= layout.min
                ==> s == 0
            &&& free >= max_of(requested_rows(layout, height), layout.min as int) ==> s == 0
        }),
{
}

} // verus!
