//! Rendering one cell of a result row: match highlighting, horizontal
//! scrolling and wrapping, over a plain model of styled text.
use vstd::prelude::*;

use crate::strings::{split, strings_view};

verus! {

/// A terminal colour (the palette of the terminal backend).
#[derive(Debug, Clone, Copy, PartialEq, Eq, Structural)]
pub enum CellColor {
    Reset,
    Black,
    Red,
    Green,
    Yellow,
    Blue,
    Magenta,
    Cyan,
    Gray,
    DarkGray,
    LightRed,
    LightGreen,
    LightYellow,
    LightBlue,
    LightMagenta,
    LightCyan,
    White,
    Rgb(u8, u8, u8),
    Indexed(u8),
}

/// The `DIM` text modifier bit.
pub const DIM: u16 = 2;

/// The `ITALIC` text modifier bit.
pub const ITALIC: u16 = 4;

/// The style of a piece of text: colours that are set, and the modifier
/// bits that are added and removed.
#[derive(Debug, Clone, Copy, PartialEq, Eq, Structural)]
pub struct CellStyle {
    pub fg: Option<CellColor>,
    pub bg: Option<CellColor>,
    pub underline_color: Option<CellColor>,
    pub add_modifier: u16,
    pub sub_modifier: u16,
}

/// `a` when set, else `b`.
pub open spec fn color_or(a: Option<CellColor>, b: Option<CellColor>) -> Option<CellColor> {
    match a {
        Some(c) => Some(c),
        None => b,
    }
}

pub open spec fn plain_style() -> CellStyle {
    CellStyle { fg: None, bg: None, underline_color: None, add_modifier: 0, sub_modifier: 0 }
}

impl CellStyle {
    /// `self` with `other` applied on top: colours set in `other` win, and
    /// `other`'s modifiers are added and removed.
    pub open spec fn patched(self, other: CellStyle) -> CellStyle {
        CellStyle {
            fg: color_or(other.fg, self.fg),
            bg: color_or(other.bg, self.bg),
            underline_color: color_or(other.underline_color, self.underline_color),
            add_modifier: (self.add_modifier & !other.sub_modifier) | other.add_modifier,
            sub_modifier: (self.sub_modifier & !other.add_modifier) | other.sub_modifier,
        }
    }

    /// Applies `other` on top of `self`.
    pub fn patch(self, other: CellStyle) -> (r: CellStyle)
        ensures
            r == self.patched(other),
    {
        CellStyle {
            fg: match other.fg {
                Some(c) => Some(c),
                None => self.fg,
            },
            bg: match other.bg {
                Some(c) => Some(c),
                None => self.bg,
            },
            underline_color: match other.underline_color {
                Some(c) => Some(c),
                None => self.underline_color,
            },
            add_modifier: (self.add_modifier & !other.sub_modifier) | other.add_modifier,
            sub_modifier: (self.sub_modifier & !other.add_modifier) | other.sub_modifier,
        }
    }

    /// A style with only the foreground colour set.
    pub fn fg(color: CellColor) -> (r: CellStyle)
        ensures
            r == (CellStyle { fg: Some(color), ..plain_style() }),
    {
        CellStyle { fg: Some(color), bg: None, underline_color: None, add_modifier: 0, sub_modifier: 0 }
    }
}

/// Patching styles is a monoid with the plain style as its unit: patching
/// with the plain style, or patching the plain style, changes nothing, and
/// patches group either way. A patch wins where it says something: its
/// colours are kept, its added modifiers are on, and its removed ones that
/// it does not also add are off.
pub proof fn law_patch_monoid(a: CellStyle, b: CellStyle, c: CellStyle)
    ensures
        a.patched(plain_style()) == a,
        plain_style().patched(a) == a,
        a.patched(b).patched(c) == a.patched(b.patched(c)),
        a.patched(a) == a,
        b.fg is Some ==> a.patched(b).fg == b.fg,
        b.bg is Some ==> a.patched(b).bg == b.bg,
        a.patched(b).add_modifier & b.add_modifier == b.add_modifier,
        a.patched(b).add_modifier & (b.sub_modifier & !b.add_modifier) == 0,
{
    let (x, y, z) = (a.add_modifier, b.add_modifier, c.add_modifier);
    let (p, q, r) = (a.sub_modifier, b.sub_modifier, c.sub_modifier);
    assert((x & !0u16) | 0u16 == x) by (bit_vector);
    assert((p & !0u16) | 0u16 == p) by (bit_vector);
    assert((0u16 & !p) | x == x) by (bit_vector);
    assert((0u16 & !x) | p == p) by (bit_vector);
    assert((((x & !q) | y) & !r) | z == (x & !((q & !z) | r)) | ((y & !r) | z)) by (bit_vector);
    assert((((p & !y) | q) & !z) | r == (p & !((y & !r) | z)) | ((q & !z) | r)) by (bit_vector);
    assert((x & !p) | x == x) by (bit_vector);
    assert((p & !x) | p == p) by (bit_vector);
    assert(((x & !q) | y) & y == y) by (bit_vector);
    assert(((x & !q) | y) & (q & !y) == 0) by (bit_vector);
}

impl Default for CellStyle {
    /// No colour and no modifier.
    fn default() -> (r: Self)
        ensures
            r == plain_style(),
    {
        CellStyle { fg: None, bg: None, underline_color: None, add_modifier: 0, sub_modifier: 0 }
    }
}

/// A run of text in one style.
#[derive(Debug, Clone, PartialEq, Eq)]
pub struct StyledSpan {
    pub content: String,
    pub style: CellStyle,
}

/// Lines of styled spans.
#[derive(Debug, Clone, PartialEq, Eq)]
pub struct StyledText {
    pub lines: Vec<Vec<StyledSpan>>,
}

pub open spec fn span_view(s: StyledSpan) -> (Seq<char>, CellStyle) {
    (s.content@, s.style)
}

pub open spec fn line_view(l: Seq<StyledSpan>) -> Seq<(Seq<char>, CellStyle)> {
    l.map_values(|s: StyledSpan| span_view(s))
}

impl View for StyledText {
    type V = Seq<Seq<(Seq<char>, CellStyle)>>;

    open spec fn view(&self) -> Seq<Seq<(Seq<char>, CellStyle)>> {
        self.lines@.map_values(|l: Vec<StyledSpan>| line_view(l@))
    }
}

/// The text of a line: its spans' contents one after another.
pub open spec fn line_text(l: Seq<(Seq<char>, CellStyle)>) -> Seq<char>
    decreases l.len(),
{
    if l.len() == 0 {
        Seq::empty()
    } else {
        line_text(l.drop_last()) + l.last().0
    }
}

/// The text of styled text: its lines separated by newlines.
pub open spec fn text_string(t: Seq<Seq<(Seq<char>, CellStyle)>>) -> Seq<char>
    decreases t.len(),
{
    if t.len() == 0 {
        Seq::empty()
    } else if t.len() == 1 {
        line_text(t[0])
    } else {
        text_string(t.drop_last()) + seq!['\n'] + line_text(t.last())
    }
}


// ------------------------------------------------------------------------
// Outside computations: grapheme clusters and display widths

/// The extended grapheme clusters of a string, in order, as the Unicode
/// segmentation rules give them.
pub uninterp spec fn grapheme_clusters(s: Seq<char>) -> Seq<Seq<char>>;

/// The number of terminal columns a string takes, as the Unicode width
/// tables give it.
pub uninterp spec fn display_width(s: Seq<char>) -> nat;

/// `UnicodeSegmentation::graphemes(s, true)`: the extended grapheme clusters
/// of `s`, each copied into a `String`.
#[verifier::external_body]
pub(crate) fn graphemes_of(s: &str) -> (r: Vec<String>)
    ensures
        strings_view(r@) == grapheme_clusters(s@),
{
    unicode_segmentation::UnicodeSegmentation::graphemes(s, true).map(|g| g.to_string()).collect()
}

/// `UnicodeWidthStr::width(s)`: the columns `s` takes.
#[verifier::external_body]
pub(crate) fn str_width(s: &str) -> (r: usize)
    ensures
        r == display_width(s@),
{
    unicode_width::UnicodeWidthStr::width(s)
}

// ------------------------------------------------------------------------
// The rendering rules

/// Horizontal autoscroll settings of a results column.
#[derive(Debug, Clone, Copy, PartialEq, Eq)]
pub struct AutoscrollSettings {
    /// Scroll each line so that its match is in view.
    pub enabled: bool,
    /// Keep the end of the last match in view (else the start of the first).
    pub end: bool,
    /// Scroll even when lines wrap.
    pub always: bool,
    /// Graphemes at the start of a line that stay in view when it scrolls.
    pub initial_preserved: usize,
    /// Graphemes of context kept in view around the match.
    pub context: usize,
}

impl Default for AutoscrollSettings {
    fn default() -> (r: Self)
        ensures
            r.enabled && !r.end && !r.always && r.initial_preserved == 0 && r.context == 4,
    {
        AutoscrollSettings { enabled: true, end: false, always: false, initial_preserved: 0, context: 4 }
    }
}

pub open spec fn usize_sat(x: int) -> nat {
    if x < 0 {
        0
    } else if x > usize::MAX {
        usize::MAX as nat
    } else {
        x as nat
    }
}

pub open spec fn nat_sub(a: int, b: int) -> nat {
    if a >= b {
        (a - b) as nat
    } else {
        0
    }
}

pub open spec fn nat_min(a: nat, b: nat) -> nat {
    if a <= b {
        a
    } else {
        b
    }
}

pub open spec fn nat_max(a: nat, b: nat) -> nat {
    if a >= b {
        a
    } else {
        b
    }
}

/// A grapheme and its style.
pub type Cell = (Seq<char>, CellStyle);

/// The graphemes of a line, each with the style of its span.
pub open spec fn line_graphemes(line: Seq<(Seq<char>, CellStyle)>) -> Seq<Cell>
    decreases line.len(),
{
    if line.len() == 0 {
        Seq::empty()
    } else {
        let (content, style) = line.last();
        line_graphemes(line.drop_last()) + grapheme_clusters(content).map_values(
            |g: Seq<char>| (g, style),
        )
    }
}

/// The total width of the graphemes at `lo..hi`.
pub open spec fn widths_between(cells: Seq<Cell>, lo: int, hi: int) -> nat
    decreases hi - lo,
{
    if hi <= lo {
        0
    } else {
        widths_between(cells, lo, hi - 1) + display_width(cells[hi - 1].0)
    }
}

/// The match position the highlight is looking for next: the `ptr`-th of
/// the sorted indices, or `u32::MAX` once they are used up.
pub open spec fn next_target(hs: Seq<u32>, ptr: nat) -> int {
    if ptr < hs.len() {
        hs[ptr as int] as int
    } else {
        u32::MAX as int
    }
}

/// The graphemes of a line after highlighting, how far the highlight got,
/// and where the scroll anchors.
pub struct Marked {
    pub cells: Seq<Cell>,
    pub ptr: nat,
    pub gi: nat,
    pub match_idx: Option<nat>,
}

/// Highlights the graphemes of one line. Graphemes are numbered across the
/// whole cell (`gi`, one extra number per line end); a grapheme whose
/// number is the next sorted match index gets the highlight patched onto
/// its style and moves on to the following index. The scroll anchor is the
/// first highlighted grapheme, or the last one when `end` is set.
pub open spec fn mark_line(
    gl: Seq<Cell>,
    hs: Seq<u32>,
    highlight: CellStyle,
    end: bool,
    ptr: nat,
    gi: nat,
) -> Marked
    decreases gl.len(),
{
    if gl.len() == 0 {
        Marked { cells: Seq::empty(), ptr, gi, match_idx: None }
    } else {
        let m = mark_line(gl.drop_last(), hs, highlight, end, ptr, gi);
        let (g, s) = gl.last();
        let is_match = m.gi == next_target(hs, m.ptr);
        let style = if is_match {
            s.patched(highlight)
        } else {
            s
        };
        let mi = if is_match && (end || m.match_idx is None) {
            Some(m.cells.len())
        } else {
            m.match_idx
        };
        Marked {
            cells: m.cells.push((g, style)),
            ptr: if is_match {
                m.ptr + 1
            } else {
                m.ptr
            },
            gi: m.gi + 1,
            match_idx: mi,
        }
    }
}

pub open spec fn gap_mark(i: nat, p: nat) -> nat {
    if i >= 1 && i - 1 > p {
        1
    } else {
        0
    }
}

/// Scrolling back from the end anchor: step left while the graphemes taken
/// in, plus a gap mark when the preserved start is not reached, stay below
/// `target`.
pub open spec fn scroll_end(cells: Seq<Cell>, i: nat, cur: nat, p: nat, target: nat) -> nat
    decreases i,
{
    if i > p && cur + display_width(cells[i as int].0) + gap_mark(i, p) < target {
        scroll_end(cells, (i - 1) as nat, cur + display_width(cells[i as int].0), p, target)
    } else {
        i
    }
}

/// Scrolling back from the context anchor: step left while the tail from
/// the start index, the preserved start, a gap mark and the grapheme before
/// fit in `limit`.
pub open spec fn scroll_ctx(cells: Seq<Cell>, i: nat, tail: nat, pw: nat, p: nat, limit: nat) -> nat
    decreases i,
{
    if i > p && tail + pw + gap_mark(i, p) + display_width(cells[i - 1].0) <= limit {
        scroll_ctx(cells, (i - 1) as nat, tail + display_width(cells[i - 1].0), pw, p, limit)
    } else {
        i
    }
}

/// `usize::saturating_add_signed`.
pub open spec fn add_signed(i: nat, h: int) -> nat {
    usize_sat(i + h)
}

/// Where the visible part of a line starts.
pub open spec fn start_index(
    cells: Seq<Cell>,
    mi: Option<nat>,
    enabled: bool,
    end: bool,
    p: nat,
    context: nat,
    limit: nat,
    h: int,
) -> nat {
    let len = cells.len();
    let pw = usize_sat(widths_between(cells, 0, nat_min(p, len) as int) as int);
    if enabled && end {
        let i0 = match mi {
            Some(x) => x,
            None => nat_sub(len as int, 1),
        };
        let room = match mi {
            Some(x) => nat_sub(limit as int, nat_min(context, nat_sub(len as int, (x + 1) as int)) as int),
            None => limit,
        };
        let target = nat_sub(room as int, pw as int);
        let i1 = add_signed(scroll_end(cells, i0, 0, p, target), h);
        if i1 <= p {
            0
        } else {
            i1
        }
    } else if enabled && mi is Some {
        let i0 = nat_sub(mi->0 as int, context as int);
        let tail = usize_sat(widths_between(cells, i0 as int, len as int) as int);
        let i1 = add_signed(scroll_ctx(cells, i0, tail, pw, p, limit), h);
        if i1 <= p {
            0
        } else {
            i1
        }
    } else if h > 0 {
        h as nat
    } else {
        0
    }
}

/// The state of laying out the graphemes of a line.
pub struct Emit {
    pub lines: Seq<Seq<(Seq<char>, CellStyle)>>,
    pub spans: Seq<(Seq<char>, CellStyle)>,
    pub span: Seq<char>,
    pub style: CellStyle,
    pub width: nat,
    pub wrapped: bool,
    pub done: bool,
}

pub open spec fn hscroll_mark() -> (Seq<char>, CellStyle) {
    (seq!['…'], CellStyle { fg: Some(CellColor::DarkGray), ..plain_style() })
}

pub open spec fn wrap_mark() -> (Seq<char>, CellStyle) {
    (seq!['↵'], CellStyle { fg: Some(CellColor::DarkGray), add_modifier: DIM, ..plain_style() })
}

/// Closes the open span, if it holds text.
pub open spec fn flush(e: Emit) -> Emit {
    if e.span.len() > 0 {
        Emit { spans: e.spans.push((e.span, e.style)), span: Seq::empty(), ..e }
    } else {
        e
    }
}

/// Switches to style `s`, closing the open span when the style changes.
pub open spec fn restyle(e: Emit, s: CellStyle) -> Emit {
    if s != e.style {
        Emit { style: s, ..flush(e) }
    } else {
        e
    }
}

/// Appends a grapheme to the open span.
pub open spec fn append(e: Emit, g: Seq<char>) -> Emit {
    Emit { span: e.span + g, width: usize_sat((e.width + display_width(g)) as int), ..e }
}

/// Ends the current output line with the wrap mark; the next line starts empty.
pub open spec fn break_line(e: Emit) -> Emit {
    Emit { lines: e.lines.push(e.spans.push(wrap_mark())), spans: Seq::empty(), width: 0, wrapped: true, ..e }
}

/// The first grapheme at or after `from` that takes some width.
pub open spec fn next_visible(cells: Seq<Cell>, from: int) -> Option<int>
    decreases cells.len() - from,
{
    if from < 0 || from >= cells.len() {
        None
    } else if display_width(cells[from].0) != 0 {
        Some(from)
    } else {
        next_visible(cells, from + 1)
    }
}

pub proof fn lemma_next_visible_range(cells: Seq<Cell>, from: int)
    ensures
        next_visible(cells, from) matches Some(j) ==> from <= j < cells.len() && display_width(
            cells[j].0,
        ) != 0,
        from >= 0 && next_visible(cells, from) is None ==> forall|j: int|
            from <= j < cells.len() ==> #[trigger] display_width(cells[j].0) == 0,
    decreases cells.len() - from,
{
    if 0 <= from < cells.len() && display_width(cells[from].0) == 0 {
        lemma_next_visible_range(cells, from + 1);
    }
}

/// The graphemes at `lo..hi`, one after another.
pub open spec fn joined(cells: Seq<Cell>, lo: int, hi: int) -> Seq<char>
    decreases hi - lo,
{
    if hi <= lo {
        Seq::empty()
    } else {
        joined(cells, lo, hi - 1) + cells[hi - 1].0
    }
}

/// Lays out the graphemes from `k` on: a grapheme that does not fit ends
/// the line (with a wrap mark when wrapping, else the rest is cut); one that
/// exactly fills the line moves, with the zero-width graphemes after it, to
/// the next line when another visible grapheme follows.
pub open spec fn emit_from(cells: Seq<Cell>, k: int, e: Emit, wrap: bool, limit: nat) -> Emit
    decreases cells.len() - k,
{
    if e.done || k < 0 || k >= cells.len() {
        e
    } else {
        let (g, s) = cells[k];
        let w = display_width(g);
        if e.width + w > limit {
            if wrap {
                emit_from(cells, k + 1, append(restyle(break_line(flush(e)), s), g), wrap, limit)
            } else {
                Emit { done: true, ..flush(e) }
            }
        } else if e.width + w == limit {
            if wrap {
                let e1 = if e.style != s {
                    Emit { spans: e.spans.push((e.span, e.style)), span: Seq::empty(), style: s, ..e }
                } else {
                    e
                };
                match next_visible(cells, k + 1) {
                    Some(j) => {
                        proof {
                            lemma_next_visible_range(cells, k + 1);
                        }
                        let f = break_line(flush(e1));
                        let f2 = Emit { span: g + joined(cells, k + 1, j), width: w, ..f };
                        emit_from(cells, j + 1, append(restyle(f2, cells[j].1), cells[j].0), wrap, limit)
                    },
                    None => if !e.wrapped {
                        Emit {
                            spans: e1.spans.push((e1.span + g + joined(cells, k + 1, cells.len() as int), s)),
                            span: Seq::empty(),
                            style: s,
                            width: e1.width + w,
                            done: true,
                            ..e1
                        }
                    } else {
                        Emit { done: true, ..append(restyle(e1, s), g) }
                    },
                }
            } else {
                Emit { done: true, ..append(restyle(e, s), g) }
            }
        } else {
            emit_from(cells, k + 1, append(restyle(e, s), g), wrap, limit)
        }
    }
}

/// Groups graphemes into spans of one style (the preserved start of a scrolled line).
pub open spec fn group_from(cells: Seq<Cell>, k: int, e: Emit) -> Emit
    decreases cells.len() - k,
{
    if k < 0 || k >= cells.len() {
        e
    } else {
        group_from(cells, k + 1, append(restyle(e, cells[k].1), cells[k].0))
    }
}

pub open spec fn spans_width(spans: Seq<(Seq<char>, CellStyle)>) -> nat
    decreases spans.len(),
{
    if spans.len() == 0 {
        0
    } else {
        spans_width(spans.drop_last()) + display_width(spans.last().0)
    }
}

pub open spec fn fresh(lines: Seq<Seq<(Seq<char>, CellStyle)>>, wrapped: bool) -> Emit {
    Emit {
        lines,
        spans: Seq::empty(),
        span: Seq::empty(),
        style: plain_style(),
        width: 0,
        wrapped,
        done: false,
    }
}

/// Rendering a cell so far: the output lines, the widest line, whether any
/// line wrapped, the highlight's progress, and whether a line could not be
/// laid out.
pub struct CellState {
    pub lines: Seq<Seq<(Seq<char>, CellStyle)>>,
    pub cell_width: nat,
    pub wrapped: bool,
    pub ptr: nat,
    pub gi: nat,
    pub failed: bool,
}

/// The settings that rendering a cell depends on.
pub struct RenderParams {
    pub hs: Seq<u32>,
    pub highlight: CellStyle,
    pub wrap: bool,
    pub limit: nat,
    pub enabled: bool,
    pub end: bool,
    pub p: nat,
    pub context: nat,
    pub h: int,
}

/// A line cannot be laid out when a scrolled line starts inside its
/// preserved start, or when it starts past the end of what remains.
pub open spec fn line_fails(len: nat, i: nat, enabled: bool, p: nat) -> bool {
    let shifted = i > 0 && enabled;
    if shifted && i < p {
        true
    } else {
        let rest = if shifted {
            nat_sub(len as int, nat_min(p, len) as int)
        } else {
            len
        };
        let i2 = if shifted {
            nat_sub(i as int, p as int)
        } else {
            i
        };
        rest == 0 && i2 > 0
    }
}

/// Renders one line of the cell on top of the state so far.
pub open spec fn render_line(st: CellState, line: Seq<(Seq<char>, CellStyle)>, rp: RenderParams) -> CellState {
    let m = mark_line(line_graphemes(line), rp.hs, rp.highlight, rp.end, st.ptr, st.gi);
    let cells = m.cells;
    let len = cells.len();
    let i = start_index(cells, m.match_idx, rp.enabled, rp.end, rp.p, rp.context, rp.limit, rp.h);
    if line_fails(len, i, rp.enabled, rp.p) {
        CellState { failed: true, ..st }
    } else {
        let shifted = i > 0 && rp.enabled;
        let cut = if shifted {
            nat_min(rp.p, len)
        } else {
            0
        };
        let prefix = flush(group_from(cells.take(cut as int), 0, fresh(st.lines, st.wrapped))).spans;
        let e0 = if shifted {
            Emit {
                spans: prefix.push(hscroll_mark()),
                width: usize_sat((usize_sat(spans_width(prefix) as int) + 1) as int),
                ..fresh(st.lines, st.wrapped)
            }
        } else {
            fresh(st.lines, st.wrapped)
        };
        let rest = cells.skip(cut as int);
        let i2 = if shifted {
            nat_sub(i as int, rp.p as int)
        } else {
            i
        };
        let start = if rest.len() > 0 {
            nat_min(i2, rest.len())
        } else {
            i2
        };
        let cw = if rest.len() > 0 {
            nat_max(st.cell_width, 1)
        } else {
            st.cell_width
        };
        let e = emit_from(rest, start as int, e0, rp.wrap, rp.limit);
        CellState {
            lines: e.lines.push(e.spans.push((e.span, e.style))),
            cell_width: nat_max(cw, e.width),
            wrapped: e.wrapped,
            ptr: m.ptr,
            gi: m.gi + 1,
            failed: false,
        }
    }
}

/// Renders the lines of a cell one after another.
pub open spec fn render_lines(text: Seq<Seq<(Seq<char>, CellStyle)>>, rp: RenderParams) -> CellState
    decreases text.len(),
{
    if text.len() == 0 {
        CellState { lines: Seq::empty(), cell_width: 0, wrapped: false, ptr: 0, gi: 0, failed: false }
    } else {
        let st = render_lines(text.drop_last(), rp);
        if st.failed {
            st
        } else {
            render_line(st, text.last(), rp)
        }
    }
}

/// What rendering a cell gives: the laid-out lines and the cell's width
/// (the width limit when any line wrapped); nothing when a line cannot be
/// laid out.
pub open spec fn rendered_cell(text: Seq<Seq<(Seq<char>, CellStyle)>>, rp: RenderParams) -> Option<
    (Seq<Seq<(Seq<char>, CellStyle)>>, nat),
> {
    let st = render_lines(text, rp);
    if st.failed {
        None
    } else {
        Some((st.lines, if st.wrapped {
            rp.limit
        } else {
            st.cell_width
        }))
    }
}

pub open spec fn strictly_increasing(s: Seq<u32>) -> bool {
    forall|a: int, b: int| 0 <= a < b < s.len() ==> s[a] < s[b]
}

/// The distinct values of `ix` in increasing order.
pub open spec fn sorted_unique(ix: Seq<u32>) -> Seq<u32> {
    choose|r: Seq<u32>| strictly_increasing(r) && r.to_set() == ix.to_set()
}


// ------------------------------------------------------------------------
// The rendering code

pub open spec fn cells_view(v: Seq<(String, CellStyle)>) -> Seq<Cell> {
    v.map_values(|c: (String, CellStyle)| (c.0@, c.1))
}

pub open spec fn lines_view(v: Seq<Vec<StyledSpan>>) -> Seq<Seq<(Seq<char>, CellStyle)>> {
    v.map_values(|l: Vec<StyledSpan>| line_view(l@))
}

pub open spec fn widths_of(ws: Seq<usize>, cells: Seq<Cell>) -> bool {
    &&& ws.len() == cells.len()
    &&& forall|k: int| 0 <= k < ws.len() ==> #[trigger] ws[k] == display_width(cells[k].0)
}

pub open spec fn emit_state(
    lines: Seq<Vec<StyledSpan>>,
    spans: Seq<StyledSpan>,
    span: Seq<char>,
    style: CellStyle,
    width: usize,
    wrapped: bool,
    done: bool,
) -> Emit {
    Emit { lines: lines_view(lines), spans: line_view(spans), span, style, width: width as nat, wrapped, done }
}

pub(crate) fn wrap_mark_span() -> (r: StyledSpan)
    ensures
        span_view(r) == wrap_mark(),
{
    let mut content = String::new();
    crate::strings::string_push(&mut content, '↵');
    proof {
        assert(content@ =~= seq!['↵']);
    }
    StyledSpan {
        content,
        style: CellStyle {
            fg: Some(CellColor::DarkGray),
            bg: None,
            underline_color: None,
            add_modifier: DIM,
            sub_modifier: 0,
        },
    }
}

fn hscroll_mark_span() -> (r: StyledSpan)
    ensures
        span_view(r) == hscroll_mark(),
{
    let mut content = String::new();
    crate::strings::string_push(&mut content, '…');
    proof {
        assert(content@ =~= seq!['…']);
    }
    StyledSpan { content, style: CellStyle::fg(CellColor::DarkGray) }
}

/// Lays out the graphemes of `rest` from `start` on (see [`emit_from`]).
fn emit_line(
    rest: &Vec<(String, CellStyle)>,
    ws: &Vec<usize>,
    start: usize,
    lines: Vec<Vec<StyledSpan>>,
    spans: Vec<StyledSpan>,
    width: usize,
    wrapped: bool,
    wrap: bool,
    limit: u16,
) -> (r: (Vec<Vec<StyledSpan>>, Vec<StyledSpan>, String, CellStyle, usize, bool))
    requires
        widths_of(ws@, cells_view(rest@)),
        start <= rest@.len(),
    ensures
        ({
            let e = emit_from(
                cells_view(rest@),
                start as int,
                emit_state(lines@, spans@, Seq::empty(), plain_style(), width, wrapped, false),
                wrap,
                limit as nat,
            );
            &&& lines_view(r.0@) == e.lines
            &&& line_view(r.1@) == e.spans
            &&& r.2@ == e.span
            &&& r.3 == e.style
            &&& r.4 == e.width
            &&& r.5 == e.wrapped
        }),
{
    let ghost cells = cells_view(rest@);
    let ghost target = emit_from(
        cells,
        start as int,
        emit_state(lines@, spans@, Seq::empty(), plain_style(), width, wrapped, false),
        wrap,
        limit as nat,
    );
    let mut lines = lines;
    let mut spans = spans;
    let mut span = String::new();
    let mut style = CellStyle::default();
    let mut width = width;
    let mut wrapped = wrapped;
    let mut done = false;
    let mut k = start;
    let n = rest.len();
    let lim = limit as usize;
    proof {
        assert(span@ =~= Seq::<char>::empty());
    }
    while !done && k < n
        invariant
            n == rest@.len(),
            cells == cells_view(rest@),
            widths_of(ws@, cells),
            k <= n,
            lim == limit as nat,
            target == emit_from(
                cells,
                k as int,
                emit_state(lines@, spans@, span@, style, width, wrapped, done),
                wrap,
                limit as nat,
            ),
        decreases n - k,
    {
        let ghost e = emit_state(lines@, spans@, span@, style, width, wrapped, done);
        let g = &rest[k].0;
        let s = rest[k].1;
        let w = ws[k];
        proof {
            assert(cells[k as int] == (g@, s));
            assert(w == display_width(g@));
        }
        if w > lim || width > lim - w {
            // does not fit
            if !span.as_str().is_empty() {
                spans.push(StyledSpan { content: span, style });
                span = String::new();
            }
            proof {
                assert(line_view(spans@) =~= flush(e).spans);
                assert(span@ =~= flush(e).span);
            }
            if wrap {
                let ghost f = break_line(flush(e));
                spans.push(wrap_mark_span());
                proof {
                    assert(line_view(spans@) =~= flush(e).spans.push(wrap_mark()));
                }
                let ghost old_lines = lines@;
                lines.push(spans);
                proof {
                    assert(lines@ == old_lines.push(lines@.last()));
                    assert(lines_view(lines@) =~= lines_view(old_lines).push(line_view(lines@.last()@)));
                }
                spans = Vec::new();
                wrapped = true;
                width = 0;
                proof {
                    assert(lines_view(lines@) =~= f.lines);
                    assert(line_view(spans@) =~= f.spans);
                }
                if s != style {
                    if !span.as_str().is_empty() {
                        spans.push(StyledSpan { content: span, style });
                        span = String::new();
                    }
                    style = s;
                }
                proof {
                    assert(line_view(spans@) =~= restyle(Emit { width: 0, ..f }, s).spans);
                }
                crate::strings::push_str(&mut span, g.as_str());
                width = w;
                k = k + 1;
            } else {
                done = true;
                k = n;
            }
        } else if width + w == lim {
            if wrap {
                if style != s {
                    spans.push(StyledSpan { content: span, style });
                    span = String::new();
                    style = s;
                }
                let ghost e1 = emit_state(lines@, spans@, span@, style, width, wrapped, done);
                proof {
                    assert(span@ =~= (if e.style != s {
                        Seq::<char>::empty()
                    } else {
                        e.span
                    }));
                    assert(line_view(spans@) =~= (if e.style != s {
                        e.spans.push((e.span, e.style))
                    } else {
                        e.spans
                    }));
                }
                // the zero-width graphemes that follow stay with this one
                let mut new = String::new();
                crate::strings::push_str(&mut new, g.as_str());
                let mut j = k + 1;
                proof {
                    assert(new@ =~= g@ + joined(cells, k as int + 1, j as int));
                }
                while j < n && ws[j] == 0
                    invariant
                        n == rest@.len(),
                        cells == cells_view(rest@),
                        widths_of(ws@, cells),
                        k < j <= n,
                        new@ == g@ + joined(cells, k as int + 1, j as int),
                        next_visible(cells, k as int + 1) == next_visible(cells, j as int),
                    decreases n - j,
                {
                    proof {
                        assert(cells[j as int] == (rest@[j as int].0@, rest@[j as int].1));
                    }
                    crate::strings::push_str(&mut new, rest[j].0.as_str());
                    proof {
                        assert(new@ =~= g@ + joined(cells, k as int + 1, j as int + 1));
                    }
                    j = j + 1;
                }
                if j < n {
                    proof {
                        assert(next_visible(cells, j as int) == Some(j as int));
                    }
                    let ghost f = break_line(flush(e1));
                    if !span.as_str().is_empty() {
                        spans.push(StyledSpan { content: span, style });
                    }
                    proof {
                        assert(line_view(spans@) =~= flush(e1).spans);
                    }
                    spans.push(wrap_mark_span());
                    proof {
                        assert(line_view(spans@) =~= flush(e1).spans.push(wrap_mark()));
                    }
                    let ghost old_lines = lines@;
                    lines.push(spans);
                    proof {
                        assert(lines_view(lines@) =~= lines_view(old_lines).push(line_view(lines@.last()@)));
                    }
                    spans = Vec::new();
                    wrapped = true;
                    proof {
                        assert(lines_view(lines@) =~= f.lines);
                        assert(line_view(spans@) =~= f.spans);
                    }
                    span = new;
                    width = w;
                    let g2 = &rest[j].0;
                    let s2 = rest[j].1;
                    proof {
                        assert(cells[j as int] == (g2@, s2));
                    }
                    let ghost f2 = Emit { span: span@, width: w as nat, ..f };
                    if s2 != style {
                        if !span.as_str().is_empty() {
                            spans.push(StyledSpan { content: span, style });
                            span = String::new();
                        }
                        style = s2;
                    }
                    proof {
                        assert(line_view(spans@) =~= restyle(f2, s2).spans);
                        assert(span@ =~= restyle(f2, s2).span);
                    }
                    crate::strings::push_str(&mut span, g2.as_str());
                    width = w.saturating_add(ws[j]);
                    k = j + 1;
                } else {
                    proof {
                        assert(next_visible(cells, j as int) is None);
                    }
                    if !wrapped {
                        crate::strings::push_str(&mut span, new.as_str());
                        proof {
                            assert(span@ =~= e1.span + g@ + joined(cells, k as int + 1, n as int));
                            assert(line_view(spans@) =~= e1.spans);
                        }
                        let ghost sp_before = spans@;
                        spans.push(StyledSpan { content: span, style: s });
                        proof {
                            assert(line_view(spans@) =~= line_view(sp_before).push(span_view(spans@.last())));
                        }
                        span = String::new();
                        style = s;
                        width = width + w;
                        proof {
                            assert(line_view(spans@) =~= e1.spans.push(
                                (e1.span + g@ + joined(cells, k as int + 1, n as int), s),
                            ));
                            assert(span@ =~= Seq::<char>::empty());
                        }
                    } else {
                        crate::strings::push_str(&mut span, g.as_str());
                        width = width + w;
                    }
                    done = true;
                    k = n;
                }
            } else {
                if s != style {
                    if !span.as_str().is_empty() {
                        spans.push(StyledSpan { content: span, style });
                        span = String::new();
                    }
                    style = s;
                }
                proof {
                    assert(line_view(spans@) =~= restyle(e, s).spans);
                    assert(span@ =~= restyle(e, s).span);
                }
                crate::strings::push_str(&mut span, g.as_str());
                width = width + w;
                done = true;
                k = n;
            }
        } else {
            if s != style {
                if !span.as_str().is_empty() {
                    spans.push(StyledSpan { content: span, style });
                    span = String::new();
                }
                style = s;
            }
            proof {
                assert(line_view(spans@) =~= restyle(e, s).spans);
                assert(span@ =~= restyle(e, s).span);
            }
            crate::strings::push_str(&mut span, g.as_str());
            width = width + w;
            k = k + 1;
        }
    }
    (lines, spans, span, style, width, wrapped)
}


/// The graphemes of a line, each with the style of its span.
fn line_cells(line: &Vec<StyledSpan>) -> (r: Vec<(String, CellStyle)>)
    ensures
        cells_view(r@) == line_graphemes(line_view(line@)),
{
    let ghost lv = line_view(line@);
    let mut r: Vec<(String, CellStyle)> = Vec::new();
    let mut i: usize = 0;
    proof {
        assert(cells_view(r@) =~= line_graphemes(lv.take(0)));
    }
    while i < line.len()
        invariant
            i <= line@.len(),
            lv == line_view(line@),
            cells_view(r@) == line_graphemes(lv.take(i as int)),
        decreases line@.len() - i,
    {
        let gs = graphemes_of(line[i].content.as_str());
        let style = line[i].style;
        let ghost before = cells_view(r@);
        let ghost clusters = grapheme_clusters(line@[i as int].content@);
        let mut j: usize = 0;
        proof {
            assert(before + clusters.take(0).map_values(|g: Seq<char>| (g, style)) =~= before);
        }
        while j < gs.len()
            invariant
                j <= gs@.len(),
                strings_view(gs@) == clusters,
                cells_view(r@) == before + clusters.take(j as int).map_values(
                    |g: Seq<char>| (g, style),
                ),
            decreases gs@.len() - j,
        {
            let g = gs[j].clone();
            proof {
                assert(g@ == clusters[j as int]);
            }
            let ghost old_r = r@;
            r.push((g, style));
            proof {
                assert(cells_view(r@) =~= cells_view(old_r).push((clusters[j as int], style)));
                assert(clusters.take(j as int + 1).map_values(|g: Seq<char>| (g, style))
                    =~= clusters.take(j as int).map_values(|g: Seq<char>| (g, style)).push(
                    (clusters[j as int], style),
                ));
                assert(cells_view(r@) =~= before + clusters.take(j as int + 1).map_values(
                    |g: Seq<char>| (g, style),
                ));
            }
            j = j + 1;
        }
        proof {
            assert(clusters.take(gs@.len() as int) =~= clusters);
            assert(lv.take(i as int + 1).drop_last() =~= lv.take(i as int));
            assert(lv.take(i as int + 1).last() == (line@[i as int].content@, style));
        }
        i = i + 1;
    }
    proof {
        assert(lv.take(line@.len() as int) =~= lv);
    }
    r
}

/// The display width of each grapheme.
fn cell_widths(cells: &Vec<(String, CellStyle)>) -> (r: Vec<usize>)
    ensures
        widths_of(r@, cells_view(cells@)),
{
    let mut r: Vec<usize> = Vec::new();
    let mut k: usize = 0;
    while k < cells.len()
        invariant
            k <= cells@.len(),
            r@.len() == k,
            forall|j: int| 0 <= j < k ==> #[trigger] r@[j] == display_width(cells_view(cells@)[j].0),
        decreases cells@.len() - k,
    {
        let w = str_width(cells[k].0.as_str());
        r.push(w);
        k = k + 1;
    }
    r
}

/// The total width of the graphemes at `lo..hi`, saturating.
fn sum_widths(ws: &Vec<usize>, Ghost(cells): Ghost<Seq<Cell>>, lo: usize, hi: usize) -> (r: usize)
    requires
        widths_of(ws@, cells),
        lo <= hi <= ws@.len(),
    ensures
        r == usize_sat(widths_between(cells, lo as int, hi as int) as int),
{
    let mut acc: usize = 0;
    let mut k = lo;
    while k < hi
        invariant
            widths_of(ws@, cells),
            lo <= k <= hi <= ws@.len(),
            acc == usize_sat(widths_between(cells, lo as int, k as int) as int),
        decreases hi - k,
    {
        acc = acc.saturating_add(ws[k]);
        k = k + 1;
    }
    acc
}


pub open spec fn opt_nat(o: Option<usize>) -> Option<nat> {
    match o {
        Some(x) => Some(x as nat),
        None => None,
    }
}

/// The highlight's position in the exact count, clamped where it can no
/// longer make a difference.
pub open spec fn gi_clamp(gi: nat) -> nat {
    nat_min(gi, u32::MAX as nat + 1)
}

/// Highlights the graphemes of one line (see [`mark_line`]).
fn mark_cells(
    gl: &Vec<(String, CellStyle)>,
    hs: &Vec<u32>,
    highlight: CellStyle,
    end: bool,
    ptr: usize,
    gi: u64,
    Ghost(sptr): Ghost<nat>,
    Ghost(sgi): Ghost<nat>,
) -> (r: (Vec<(String, CellStyle)>, usize, u64, Option<usize>))
    requires
        ptr == nat_min(sptr, hs@.len()),
        gi == gi_clamp(sgi),
    ensures
        ({
            let m = mark_line(cells_view(gl@), hs@, highlight, end, sptr, sgi);
            &&& cells_view(r.0@) == m.cells
            &&& r.1 == nat_min(m.ptr, hs@.len())
            &&& r.2 == gi_clamp(m.gi)
            &&& opt_nat(r.3) == m.match_idx
            &&& (r.3 matches Some(x) ==> x < gl@.len())
            &&& r.0@.len() == gl@.len()
        }),
{
    let ghost glv = cells_view(gl@);
    let mut out: Vec<(String, CellStyle)> = Vec::new();
    let mut ptr = ptr;
    let mut gi = gi;
    let mut match_idx: Option<usize> = None;
    let mut k: usize = 0;
    proof {
        assert(glv.take(0) =~= Seq::<Cell>::empty());
        assert(cells_view(out@) =~= Seq::<Cell>::empty());
    }
    while k < gl.len()
        invariant
            k <= gl@.len(),
            glv == cells_view(gl@),
            out@.len() == k,
            ({
                let m = mark_line(glv.take(k as int), hs@, highlight, end, sptr, sgi);
                &&& cells_view(out@) == m.cells
                &&& ptr == nat_min(m.ptr, hs@.len())
                &&& gi == gi_clamp(m.gi)
                &&& opt_nat(match_idx) == m.match_idx
                &&& (match_idx matches Some(x) ==> x < k)
            }),
        decreases gl@.len() - k,
    {
        let ghost m = mark_line(glv.take(k as int), hs@, highlight, end, sptr, sgi);
        proof {
            assert(glv.take(k as int + 1).drop_last() =~= glv.take(k as int));
            assert(glv.take(k as int + 1).last() == glv[k as int]);
            assert(next_target(hs@, m.ptr) == next_target(hs@, ptr as nat));
        }
        let target: u64 = if ptr < hs.len() {
            hs[ptr] as u64
        } else {
            0xffff_ffffu64
        };
        let is_match = gi == target;
        proof {
            assert(is_match == (m.gi == next_target(hs@, m.ptr)));
        }
        let style = if is_match {
            gl[k].1.patch(highlight)
        } else {
            gl[k].1
        };
        if is_match && (end || match_idx.is_none()) {
            match_idx = Some(k);
        }
        let g = gl[k].0.clone();
        let ghost old_out = out@;
        out.push((g, style));
        proof {
            assert(cells_view(out@) =~= cells_view(old_out).push((glv[k as int].0, style)));
        }
        if is_match && ptr < hs.len() {
            ptr = ptr + 1;
        }
        if gi <= 0xffff_ffffu64 {
            gi = gi + 1;
        }
        k = k + 1;
    }
    proof {
        assert(glv.take(gl@.len() as int) =~= glv);
    }
    (out, ptr, gi, match_idx)
}


/// `i.saturating_add_signed(h)`.
fn add_signed_exec(i: usize, h: i8) -> (r: usize)
    ensures
        r == add_signed(i as nat, h as int),
{
    if h >= 0 {
        i.saturating_add(h as usize)
    } else {
        let d: usize = (0i16 - h as i16) as usize;
        i.saturating_sub(d)
    }
}

/// Where the visible part of a line starts (see [`start_index`]).
fn start_index_of(
    ws: &Vec<usize>,
    Ghost(cells): Ghost<Seq<Cell>>,
    mi: Option<usize>,
    enabled: bool,
    end: bool,
    p: usize,
    context: usize,
    limit: u16,
    h: i8,
) -> (r: usize)
    requires
        widths_of(ws@, cells),
        mi matches Some(x) ==> x < cells.len(),
    ensures
        r == start_index(cells, opt_nat(mi), enabled, end, p as nat, context as nat, limit as nat, h as int),
{
    let len = ws.len();
    let lim = limit as usize;
    let pcut = if p <= len {
        p
    } else {
        len
    };
    let pw = sum_widths(ws, Ghost(cells), 0, pcut);
    if enabled && end {
        let i0 = match mi {
            Some(x) => x,
            None => len.saturating_sub(1),
        };
        let room = match mi {
            Some(x) => {
                let after = len - x - 1;
                let c = if context <= after {
                    context
                } else {
                    after
                };
                lim.saturating_sub(c)
            },
            None => lim,
        };
        let target = room.saturating_sub(pw);
        let mut i = i0;
        let mut cur: usize = 0;
        let mut go = true;
        while go && i > p
            invariant
                widths_of(ws@, cells),
                len == cells.len(),
                i < len || i == 0,
                target <= lim,
                lim == limit as nat,
                cur <= target,
                scroll_end(cells, i0 as nat, 0, p as nat, target as nat) == (if go {
                    scroll_end(cells, i as nat, cur as nat, p as nat, target as nat)
                } else {
                    i as nat
                }),
            decreases i + (if go {
                1usize
            } else {
                0usize
            }),
        {
            let w = ws[i];
            let ind: usize = if i - 1 > p {
                1
            } else {
                0
            };
            proof {
                assert(ind == gap_mark(i as nat, p as nat));
            }
            if w < target && cur + ind < target - w {
                i = i - 1;
                cur = cur + w;
            } else {
                go = false;
            }
        }
        let i1 = add_signed_exec(i, h);
        if i1 <= p {
            0
        } else {
            i1
        }
    } else if enabled && mi.is_some() {
        let m = match mi {
            Some(x) => x,
            None => 0,
        };
        let i0 = m.saturating_sub(context);
        let tail0 = sum_widths(ws, Ghost(cells), i0, len);
        let mut i = i0;
        let mut tail = tail0;
        let mut go = true;
        while go && i > p
            invariant
                widths_of(ws@, cells),
                len == cells.len(),
                i <= len,
                lim == limit as nat,
                scroll_ctx(cells, i0 as nat, tail0 as nat, pw as nat, p as nat, lim as nat) == (if go {
                    scroll_ctx(cells, i as nat, tail as nat, pw as nat, p as nat, lim as nat)
                } else {
                    i as nat
                }),
            decreases i + (if go {
                1usize
            } else {
                0usize
            }),
        {
            let prev = ws[i - 1];
            let ind: usize = if i - 1 > p {
                1
            } else {
                0
            };
            proof {
                assert(ind == gap_mark(i as nat, p as nat));
            }
            if tail <= lim && pw <= lim - tail && ind <= lim - tail - pw && prev <= lim - tail - pw
                - ind {
                i = i - 1;
                tail = tail + prev;
            } else {
                go = false;
            }
        }
        let i1 = add_signed_exec(i, h);
        if i1 <= p {
            0
        } else {
            i1
        }
    } else if h > 0 {
        h as usize
    } else {
        0
    }
}


/// Groups the first `cut` graphemes into spans of one style.
fn group_prefix(cells: &Vec<(String, CellStyle)>, cut: usize, Ghost(e0): Ghost<Emit>) -> (r: Vec<StyledSpan>)
    requires
        cut <= cells@.len(),
        e0.spans.len() == 0,
        e0.span.len() == 0,
        e0.style == plain_style(),
        e0.width == 0,
    ensures
        line_view(r@) == flush(group_from(cells_view(cells@).take(cut as int), 0, e0)).spans,
{
    let ghost cv = cells_view(cells@).take(cut as int);
    let ghost target = group_from(cv, 0, e0);
    let mut spans: Vec<StyledSpan> = Vec::new();
    let mut span = String::new();
    let mut style = CellStyle::default();
    let mut width: usize = 0;
    let mut k: usize = 0;
    proof {
        assert(line_view(spans@) =~= e0.spans);
        assert(span@ =~= e0.span);
    }
    while k < cut
        invariant
            cut <= cells@.len(),
            cv == cells_view(cells@).take(cut as int),
            k <= cut,
            target == group_from(
                cv,
                k as int,
                Emit { spans: line_view(spans@), span: span@, style, width: width as nat, ..e0 },
            ),
        decreases cut - k,
    {
        let ghost e = Emit { spans: line_view(spans@), span: span@, style, width: width as nat, ..e0 };
        let s = cells[k].1;
        proof {
            assert(cv[k as int] == (cells@[k as int].0@, s));
        }
        if s != style {
            if !span.as_str().is_empty() {
                spans.push(StyledSpan { content: span, style });
                span = String::new();
            }
            style = s;
        }
        proof {
            assert(line_view(spans@) =~= restyle(e, s).spans);
            assert(span@ =~= restyle(e, s).span);
        }
        crate::strings::push_str(&mut span, cells[k].0.as_str());
        let w = str_width(cells[k].0.as_str());
        width = width.saturating_add(w);
        k = k + 1;
    }
    let ghost e = Emit { spans: line_view(spans@), span: span@, style, width: width as nat, ..e0 };
    if !span.as_str().is_empty() {
        spans.push(StyledSpan { content: span, style });
    }
    proof {
        assert(line_view(spans@) =~= flush(e).spans);
    }
    spans
}

/// The total width of the spans' contents, saturating.
pub(crate) fn spans_width_of(spans: &Vec<StyledSpan>) -> (r: usize)
    ensures
        r == usize_sat(spans_width(line_view(spans@)) as int),
{
    let ghost lv = line_view(spans@);
    let mut acc: usize = 0;
    let mut k: usize = 0;
    while k < spans.len()
        invariant
            k <= spans@.len(),
            lv == line_view(spans@),
            acc == usize_sat(spans_width(lv.take(k as int)) as int),
        decreases spans@.len() - k,
    {
        proof {
            assert(lv.take(k as int + 1).drop_last() =~= lv.take(k as int));
        }
        acc = acc.saturating_add(str_width(spans[k].content.as_str()));
        k = k + 1;
    }
    proof {
        assert(lv.take(spans@.len() as int) =~= lv);
    }
    acc
}

/// The graphemes (and their widths) from `cut` on.
fn split_rest(cells: &Vec<(String, CellStyle)>, ws: &Vec<usize>, cut: usize) -> (r: (
    Vec<(String, CellStyle)>,
    Vec<usize>,
))
    requires
        cut <= cells@.len(),
        widths_of(ws@, cells_view(cells@)),
    ensures
        cells_view(r.0@) == cells_view(cells@).skip(cut as int),
        widths_of(r.1@, cells_view(r.0@)),
{
    let mut rest: Vec<(String, CellStyle)> = Vec::new();
    let mut rws: Vec<usize> = Vec::new();
    let mut k = cut;
    while k < cells.len()
        invariant
            cut <= k <= cells@.len(),
            widths_of(ws@, cells_view(cells@)),
            cells_view(rest@) == cells_view(cells@).subrange(cut as int, k as int),
            widths_of(rws@, cells_view(rest@)),
        decreases cells@.len() - k,
    {
        let ghost old_rest = rest@;
        rest.push((cells[k].0.clone(), cells[k].1));
        rws.push(ws[k]);
        proof {
            assert(cells_view(rest@) =~= cells_view(old_rest).push(cells_view(cells@)[k as int]));
            assert(cells_view(rest@) =~= cells_view(cells@).subrange(cut as int, k as int + 1));
        }
        k = k + 1;
    }
    proof {
        assert(cells_view(cells@).subrange(cut as int, cells@.len() as int) =~= cells_view(cells@).skip(cut as int));
    }
    (rest, rws)
}


/// The parameters of rendering a cell with the given settings.
pub open spec fn render_params(
    hs: Seq<u32>,
    highlight: CellStyle,
    wrap: bool,
    width_limit: u16,
    autoscroll: AutoscrollSettings,
    hscroll_offset: i8,
) -> RenderParams {
    RenderParams {
        hs,
        highlight,
        wrap,
        limit: width_limit as nat,
        enabled: autoscroll.enabled && (autoscroll.always || !wrap),
        end: autoscroll.end,
        p: autoscroll.initial_preserved as nat,
        context: autoscroll.context as nat,
        h: hscroll_offset as int,
    }
}

/// Renders one line on top of the state so far (see [`render_line`]);
/// `None` when the line cannot be laid out.
#[verifier::rlimit(60)]
fn render_one_line(
    line: &Vec<StyledSpan>,
    hs: &Vec<u32>,
    highlight: CellStyle,
    wrap: bool,
    width_limit: u16,
    enabled: bool,
    autoscroll: AutoscrollSettings,
    hscroll_offset: i8,
    lines: Vec<Vec<StyledSpan>>,
    cell_width: usize,
    wrapped: bool,
    ptr: usize,
    gi: u64,
    Ghost(st): Ghost<CellState>,
    Ghost(rp): Ghost<RenderParams>,
) -> (r: Option<(Vec<Vec<StyledSpan>>, usize, bool, usize, u64)>)
    requires
        rp == render_params(hs@, highlight, wrap, width_limit, autoscroll, hscroll_offset),
        enabled == rp.enabled,
        !st.failed,
        lines_view(lines@) == st.lines,
        cell_width == st.cell_width,
        wrapped == st.wrapped,
        ptr == nat_min(st.ptr, hs@.len()),
        gi == gi_clamp(st.gi),
    ensures
        ({
            let nst = render_line(st, line_view(line@), rp);
            &&& r is None <==> nst.failed
            &&& r matches Some(x) ==> {
                &&& lines_view(x.0@) == nst.lines
                &&& x.1 == nst.cell_width
                &&& x.2 == nst.wrapped
                &&& x.3 == nat_min(nst.ptr, hs@.len())
                &&& x.4 == gi_clamp(nst.gi)
            }
        }),
{
    let gl = line_cells(line);
    let (cells, nptr, ngi, mi) = mark_cells(
        &gl,
        hs,
        highlight,
        autoscroll.end,
        ptr,
        gi,
        Ghost(st.ptr),
        Ghost(st.gi),
    );
    let ghost cv = cells_view(cells@);
    let ws = cell_widths(&cells);
    let p = autoscroll.initial_preserved;
    let i = start_index_of(
        &ws,
        Ghost(cv),
        mi,
        enabled,
        autoscroll.end,
        p,
        autoscroll.context,
        width_limit,
        hscroll_offset,
    );
    let len = cells.len();
    let shifted = i > 0 && enabled;
    if shifted && i < p {
        return None;
    }
    let cut = if shifted {
        if p <= len {
            p
        } else {
            len
        }
    } else {
        0
    };
    let i2 = if shifted {
        i - p
    } else {
        i
    };
    if len - cut == 0 && i2 > 0 {
        return None;
    }
    let ghost e_fresh = fresh(st.lines, st.wrapped);
    let mut spans: Vec<StyledSpan> = Vec::new();
    let mut width: usize = 0;
    if shifted {
        spans = group_prefix(&cells, cut, Ghost(e_fresh));
        let pw = spans_width_of(&spans);
        width = pw.saturating_add(1);
        let ghost before = spans@;
        spans.push(hscroll_mark_span());
        proof {
            assert(line_view(spans@) =~= line_view(before).push(hscroll_mark()));
        }
    }
    proof {
        if !shifted {
            assert(line_view(spans@) =~= Seq::<(Seq<char>, CellStyle)>::empty());
        }
    }
    let (rest, rws) = split_rest(&cells, &ws, cut);
    let rest_len = rest.len();
    let start = if rest_len > 0 && i2 > rest_len {
        rest_len
    } else {
        i2
    };
    let cw = if rest_len > 0 && cell_width < 1 {
        1
    } else {
        cell_width
    };
    let (mut lines2, mut spans2, span2, style2, width2, wrapped2) = emit_line(
        &rest,
        &rws,
        start,
        lines,
        spans,
        width,
        wrapped,
        wrap,
        width_limit,
    );
    let ghost sp_before = spans2@;
    spans2.push(StyledSpan { content: span2, style: style2 });
    proof {
        assert(line_view(spans2@) =~= line_view(sp_before).push((span2@, style2)));
    }
    let ghost ln_before = lines2@;
    lines2.push(spans2);
    proof {
        assert(lines_view(lines2@) =~= lines_view(ln_before).push(line_view(lines2@.last()@)));
    }
    let new_width = if cw >= width2 {
        cw
    } else {
        width2
    };
    let ngi2 = if ngi <= 0xffff_ffffu64 {
        ngi + 1
    } else {
        ngi
    };
    Some((lines2, new_width, wrapped2, nptr, ngi2))
}


/// Inserts `x` into a strictly increasing sequence, keeping it so.
fn insert_sorted(v: &mut Vec<u32>, x: u32)
    requires
        strictly_increasing(old(v)@),
    ensures
        strictly_increasing(final(v)@),
        final(v)@.to_set() == old(v)@.to_set().insert(x),
{
    let mut q: usize = 0;
    while q < v.len() && v[q] < x
        invariant
            q <= v@.len(),
            forall|j: int| 0 <= j < q ==> v@[j] < x,
        decreases v@.len() - q,
    {
        q = q + 1;
    }
    if q < v.len() && v[q] == x {
        proof {
            assert(v@.to_set().insert(x) =~= v@.to_set()) by {
                assert(v@.to_set().contains(v@[q as int]));
            }
        }
        return ;
    }
    let ghost before = v@;
    v.insert(q, x);
    proof {
        assert(v@ =~= before.insert(q as int, x));
        assert forall|a: int, b: int| 0 <= a < b < v@.len() implies v@[a] < v@[b] by {
            if b < q {
                assert(v@[a] == before[a] && v@[b] == before[b]);
            } else if b == q {
                assert(v@[a] == before[a]);
            } else if a < q {
                assert(v@[a] == before[a] && v@[b] == before[b - 1]);
                assert(before[b - 1] >= x);
            } else if a == q {
                assert(v@[b] == before[b - 1]);
                assert(before[q as int] > x);
                if b - 1 > q {
                    assert(before[q as int] < before[b - 1]);
                }
            } else {
                assert(v@[a] == before[a - 1] && v@[b] == before[b - 1]);
            }
        }
        assert forall|y: u32| #[trigger] v@.to_set().contains(y) <==> before.to_set().insert(x).contains(y) by {
            if v@.to_set().contains(y) {
                let j = choose|j: int| 0 <= j < v@.len() && v@[j] == y;
                if j < q {
                    assert(before[j] == y);
                } else if j > q {
                    assert(before[j - 1] == y);
                }
            }
            if before.to_set().contains(y) {
                let j = choose|j: int| 0 <= j < before.len() && before[j] == y;
                if j < q {
                    assert(v@[j] == y);
                } else {
                    assert(v@[j + 1] == y);
                }
            }
            if y == x {
                assert(v@[q as int] == x);
            }
        }
        assert(v@.to_set() =~= before.to_set().insert(x));
    }
}

/// Sorts the indices and drops repeated ones.
fn sort_unique(v: &Vec<u32>) -> (r: Vec<u32>)
    ensures
        strictly_increasing(r@),
        r@.to_set() == v@.to_set(),
{
    let mut r: Vec<u32> = Vec::new();
    let mut k: usize = 0;
    proof {
        assert(r@.to_set() =~= v@.take(0).to_set());
    }
    while k < v.len()
        invariant
            k <= v@.len(),
            strictly_increasing(r@),
            r@.to_set() == v@.take(k as int).to_set(),
        decreases v@.len() - k,
    {
        insert_sorted(&mut r, v[k]);
        proof {
            assert(v@.take(k as int + 1) =~= v@.take(k as int).push(v@[k as int]));
            v@.take(k as int).lemma_push_to_set_commute(v@[k as int]);
        }
        k = k + 1;
    }
    proof {
        assert(v@.take(v@.len() as int) =~= v@);
    }
    r
}

/// Two increasing sequences with the same values are the same.
proof fn lemma_sorted_unique(a: Seq<u32>, b: Seq<u32>)
    requires
        strictly_increasing(a),
        strictly_increasing(b),
        a.to_set() == b.to_set(),
    ensures
        a == b,
    decreases a.len() + b.len(),
{
    if a.len() > 0 && b.len() > 0 {
        // the last elements are both the largest value
        let x = a.last();
        let y = b.last();
        assert(b.to_set().contains(x));
        assert(a.to_set().contains(y));
        let i = choose|i: int| 0 <= i < b.len() && b[i] == x;
        let j = choose|j: int| 0 <= j < a.len() && a[j] == y;
        assert(x == y) by {
            if x < y {
                assert(a[j] <= x);
            } else if y < x {
                assert(b[i] <= y);
            }
        }
        let a2 = a.drop_last();
        let b2 = b.drop_last();
        assert(a2.to_set() =~= b2.to_set()) by {
            assert forall|z: u32| a2.to_set().contains(z) implies b2.to_set().contains(z) by {
                let k = choose|k: int| 0 <= k < a2.len() && a2[k] == z;
                assert(a.to_set().contains(z));
                let m = choose|m: int| 0 <= m < b.len() && b[m] == z;
                assert(z < x);
                assert(m != b.len() - 1);
                assert(b2[m] == z);
            }
            assert forall|z: u32| b2.to_set().contains(z) implies a2.to_set().contains(z) by {
                let k = choose|k: int| 0 <= k < b2.len() && b2[k] == z;
                assert(b.to_set().contains(z));
                let m = choose|m: int| 0 <= m < a.len() && a[m] == z;
                assert(z < y);
                assert(m != a.len() - 1);
                assert(a2[m] == z);
            }
        }
        lemma_sorted_unique(a2, b2);
        assert(a =~= a2.push(x));
        assert(b =~= b2.push(y));
    } else if a.len() > 0 {
        assert(b.to_set().contains(a[0]));
    } else if b.len() > 0 {
        assert(a.to_set().contains(b[0]));
    }
}

/// Renders a cell given the positions matched in it (see [`rendered_cell`]):
/// the highlight is patched onto the graphemes at the sorted, distinct
/// positions, each line is scrolled and cut or wrapped to `width_limit`.
/// `None` when a line cannot be laid out: its start falls inside the
/// preserved start of a scrolled line, or past the end of an empty rest.
pub fn render_cell_with_indices(
    cell: &StyledText,
    indices: &Vec<u32>,
    highlight_style: CellStyle,
    wrap: bool,
    width_limit: u16,
    autoscroll: AutoscrollSettings,
    hscroll_offset: i8,
) -> (r: Option<(StyledText, usize)>)
    ensures
        match rendered_cell(
            cell@,
            render_params(sorted_unique(indices@), highlight_style, wrap, width_limit, autoscroll, hscroll_offset),
        ) {
            Some((lines, width)) => r matches Some(x) && x.0@ == lines && x.1 == width,
            None => r is None,
        },
{
    let hs = sort_unique(indices);
    proof {
        assert(strictly_increasing(hs@) && hs@.to_set() == indices@.to_set());
        lemma_sorted_unique(hs@, sorted_unique(indices@));
        assert(hs@ == sorted_unique(indices@));
    }
    let ghost rp = render_params(hs@, highlight_style, wrap, width_limit, autoscroll, hscroll_offset);
    let ghost text = cell@;
    let enabled = autoscroll.enabled && (autoscroll.always || !wrap);
    let mut lines: Vec<Vec<StyledSpan>> = Vec::new();
    let mut cell_width: usize = 0;
    let mut wrapped = false;
    let mut ptr: usize = 0;
    let mut gi: u64 = 0;
    let mut li: usize = 0;
    proof {
        assert(text.take(0) =~= Seq::<Seq<(Seq<char>, CellStyle)>>::empty());
        assert(lines_view(lines@) =~= Seq::<Seq<(Seq<char>, CellStyle)>>::empty());
    }
    while li < cell.lines.len()
        invariant
            li <= cell.lines@.len(),
            text == cell@,
            hs@ == sorted_unique(indices@),
            rp == render_params(hs@, highlight_style, wrap, width_limit, autoscroll, hscroll_offset),
            enabled == rp.enabled,
            ({
                let st = render_lines(text.take(li as int), rp);
                &&& !st.failed
                &&& lines_view(lines@) == st.lines
                &&& cell_width == st.cell_width
                &&& wrapped == st.wrapped
                &&& ptr == nat_min(st.ptr, hs@.len())
                &&& gi == gi_clamp(st.gi)
            }),
        decreases cell.lines@.len() - li,
    {
        let ghost st = render_lines(text.take(li as int), rp);
        proof {
            assert(text.take(li as int + 1).drop_last() =~= text.take(li as int));
            assert(text.take(li as int + 1).last() == line_view(cell.lines@[li as int]@));
        }
        match render_one_line(
            &cell.lines[li],
            &hs,
            highlight_style,
            wrap,
            width_limit,
            enabled,
            autoscroll,
            hscroll_offset,
            lines,
            cell_width,
            wrapped,
            ptr,
            gi,
            Ghost(st),
            Ghost(rp),
        ) {
            None => {
                proof {
                    lemma_render_failed_stays(text, rp, li as int + 1);
                    assert(text.take(text.len() as int) =~= text);
                }
                return None;
            },
            Some((l, w, wr, p, g)) => {
                lines = l;
                cell_width = w;
                wrapped = wr;
                ptr = p;
                gi = g;
            },
        }
        li = li + 1;
    }
    proof {
        assert(text.take(cell.lines@.len() as int) =~= text);
    }
    let width = if wrapped {
        width_limit as usize
    } else {
        cell_width
    };
    let out = StyledText { lines };
    proof {
        assert(out@ =~= lines_view(out.lines@));
    }
    Some((out, width))
}

/// Once a line cannot be laid out, rendering the whole cell fails.
proof fn lemma_render_failed_stays(text: Seq<Seq<(Seq<char>, CellStyle)>>, rp: RenderParams, n: int)
    requires
        0 <= n <= text.len(),
        render_lines(text.take(n), rp).failed,
    ensures
        render_lines(text, rp).failed,
    decreases text.len() - n,
{
    if n < text.len() {
        assert(text.take(n + 1).drop_last() =~= text.take(n));
        lemma_render_failed_stays(text, rp, n + 1);
    } else {
        assert(text.take(n) =~= text);
    }
}


// ------------------------------------------------------------------------
// Match positions from the fuzzy matcher

#[verifier::external_type_specification]
#[verifier::external_body]
#[verifier::reject_recursive_types(T)]
pub struct ExSnapshot<T: Sync + Send + 'static>(nucleo::Snapshot<T>);

#[verifier::external_type_specification]
#[verifier::external_body]
pub struct ExMatcher(nucleo::Matcher);

#[verifier::external_type_specification]
#[verifier::external_body]
pub struct ExUtf32String(nucleo::Utf32String);

/// A snapshot with the number of columns of its pattern. nucleo gives the
/// pattern and every item of a matcher the same number of columns, and
/// shows no count of a pattern's columns; so the count is read off the
/// snapshot's first item. Built only by [`render_cell`], from that reading.
#[verifier::reject_recursive_types(T)]
struct SnapshotColumns<'a, T: Sync + Send + 'static> {
    snapshot: &'a nucleo::Snapshot<T>,
    count: usize,
}

/// `snapshot.get_item(0)` (nucleo): the matcher columns of the snapshot's
/// first item, `None` when it holds no item. What they are depends on what
/// the matcher's threads have taken in, so nothing is stated of them.
#[verifier::external_body]
fn first_item_columns<'a, T: Sync + Send + 'static>(snapshot: &'a nucleo::Snapshot<T>) -> (r: Option<
    &'a [nucleo::Utf32String],
>) {
    snapshot.get_item(0).map(|item| item.matcher_columns)
}

/// `snapshot.pattern().column_pattern(col_idx).indices(columns[col_idx], ..)`
/// (nucleo, nucleo-matcher): appends to `buf` the positions of column
/// `col_idx` of `columns` that the snapshot's pattern matches, leaving what
/// `buf` held in front. Which positions those are depends on the pattern
/// the snapshot holds, which is not visible here, so nothing more is
/// stated. Both the columns given and the pattern's columns are indexed by
/// `col_idx` without a check: the first bound is `columns`' length, the
/// second the count that `m` holds (see [`SnapshotColumns`]).
#[verifier::external_body]
fn append_match_indices<T: Sync + Send + 'static>(
    m: &SnapshotColumns<T>,
    columns: &[nucleo::Utf32String],
    col_idx: usize,
    matcher: &mut nucleo::Matcher,
    buf: &mut Vec<u32>,
)
    requires
        col_idx < columns@.len(),
        col_idx < m.count,
    ensures
        old(buf)@.len() <= final(buf)@.len(),
        final(buf)@.subrange(0, old(buf)@.len() as int) == old(buf)@,
{
    m.snapshot.pattern().column_pattern(col_idx).indices(columns[col_idx].slice(..), matcher, buf);
}

/// Renders a single cell by applying match highlighting, wrapping, and
/// hscroll clipping: the positions matched in column `col_idx` of the
/// item's matcher columns `item_columns` are taken from the snapshot's
/// pattern (none when the snapshot's pattern has no such column), then the
/// cell is rendered as [`render_cell_with_indices`] does with them. The
/// scratch buffer is left empty. `None` when a line of the cell cannot be
/// laid out.
pub fn render_cell<T: Sync + Send + 'static>(
    cell: StyledText,
    col_idx: usize,
    snapshot: &nucleo::Snapshot<T>,
    item_columns: &[nucleo::Utf32String],
    matcher: &mut nucleo::Matcher,
    highlight_style: CellStyle,
    wrap: bool,
    width_limit: u16,
    col_indices_buffer: &mut Vec<u32>,
    autoscroll: AutoscrollSettings,
    hscroll_offset: i8,
) -> (r: Option<(StyledText, usize)>)
    requires
        col_idx < item_columns@.len(),
    ensures
        final(col_indices_buffer)@.len() == 0,
        exists|ix: Seq<u32>|
            match rendered_cell(
                cell@,
                render_params(#[trigger] sorted_unique(ix), highlight_style, wrap, width_limit, autoscroll, hscroll_offset),
            ) {
                Some((lines, width)) => r matches Some(x) && x.0@ == lines && x.1 == width,
                None => r is None,
            },
{
    col_indices_buffer.clear();
    match first_item_columns(snapshot) {
        Some(first) => {
            let m = SnapshotColumns { snapshot, count: first.len() };
            if col_idx < m.count {
                append_match_indices(&m, item_columns, col_idx, matcher, col_indices_buffer);
            }
        },
        None => {},
    }
    let r = render_cell_with_indices(
        &cell,
        col_indices_buffer,
        highlight_style,
        wrap,
        width_limit,
        autoscroll,
        hscroll_offset,
    );
    let ghost ix = col_indices_buffer@;
    col_indices_buffer.clear();
    proof {
        assert(match rendered_cell(
            cell@,
            render_params(sorted_unique(ix), highlight_style, wrap, width_limit, autoscroll, hscroll_offset),
        ) {
            Some((lines, width)) => r matches Some(x) && x.0@ == lines && x.1 == width,
            None => r is None,
        });
    }
    r
}


// ------------------------------------------------------------------------
// Building and reading styled text

impl StyledText {
    /// Unstyled text: one line, holding one span, per `\n`-separated piece of `s`.
    pub fn raw(s: &str) -> (r: StyledText)
        ensures
            r@.len() == split(s@, '\n').len(),
            forall|k: int|
                0 <= k < r@.len() ==> #[trigger] r@[k] == seq![(split(s@, '\n')[k], plain_style())],
    {
        let pieces = crate::binds::split_on(s, '\n');
        let mut lines: Vec<Vec<StyledSpan>> = Vec::new();
        let mut k: usize = 0;
        while k < pieces.len()
            invariant
                k <= pieces@.len(),
                strings_view(pieces@) == split(s@, '\n'),
                lines@.len() == k,
                forall|j: int|
                    0 <= j < k ==> #[trigger] line_view(lines@[j]@) == seq![(split(s@, '\n')[j], plain_style())],
            decreases pieces@.len() - k,
        {
            let mut line: Vec<StyledSpan> = Vec::new();
            line.push(StyledSpan { content: pieces[k].clone(), style: CellStyle::default() });
            proof {
                assert(line_view(line@) =~= seq![(split(s@, '\n')[k as int], plain_style())]);
            }
            lines.push(line);
            k = k + 1;
        }
        StyledText { lines }
    }

    /// The text: the lines' contents separated by newlines.
    pub fn to_string(&self) -> (r: String)
        ensures
            r@ == text_string(self@),
    {
        let ghost t = self@;
        let mut r = String::new();
        let mut k: usize = 0;
        proof {
            assert(r@ =~= text_string(t.take(0)));
        }
        while k < self.lines.len()
            invariant
                k <= self.lines@.len(),
                t == self@,
                r@ == text_string(t.take(k as int)),
            decreases self.lines@.len() - k,
        {
            proof {
                assert(t.take(k as int + 1).drop_last() =~= t.take(k as int));
                assert(t.take(k as int + 1).last() == line_view(self.lines@[k as int]@));
            }
            if k > 0 {
                crate::strings::string_push(&mut r, '\n');
            }
            let ghost before = r@;
            let line = &self.lines[k];
            let ghost lv = line_view(line@);
            let mut j: usize = 0;
            proof {
                assert(before + line_text(lv.take(0)) =~= r@);
            }
            while j < line.len()
                invariant
                    j <= line@.len(),
                    lv == line_view(line@),
                    r@ == before + line_text(lv.take(j as int)),
                decreases line@.len() - j,
            {
                proof {
                    assert(lv.take(j as int + 1).drop_last() =~= lv.take(j as int));
                }
                crate::strings::push_str(&mut r, line[j].content.as_str());
                proof {
                    assert(r@ =~= before + line_text(lv.take(j as int + 1)));
                }
                j = j + 1;
            }
            proof {
                assert(lv.take(line@.len() as int) =~= lv);
                if k > 0 {
                    assert(r@ =~= text_string(t.take(k as int)) + seq!['\n'] + line_text(lv));
                } else {
                    assert(r@ =~= line_text(lv));
                }
            }
            k = k + 1;
        }
        proof {
            assert(t.take(self.lines@.len() as int) =~= t);
        }
        r
    }
}

/// One of two values.
#[derive(Debug, Clone, PartialEq, Eq)]
pub enum Either<L, R> {
    Left(L),
    Right(R),
}

impl Either<String, StyledText> {
    /// The text: the string itself, or the styled text's lines joined by newlines.
    pub fn to_cow(&self) -> (r: String)
        ensures
            match self {
                Either::Left(s) => r@ == s@,
                Either::Right(t) => r@ == text_string(t@),
            },
    {
        match self {
            Either::Left(s) => s.clone(),
            Either::Right(t) => t.to_string(),
        }
    }
}

} // verus!
