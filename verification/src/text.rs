//! Styled text utilities: wrapping lines to a width, styling a range of
//! characters, and trimming lines.
use vstd::prelude::*;

use crate::render::{
    display_width, grapheme_clusters, graphemes_of, line_view, spans_width, spans_width_of, str_width,
    usize_sat, wrap_mark, wrap_mark_span, CellColor, CellStyle, StyledSpan, StyledText,
};
use crate::strings::strings_view;

verus! {

pub type Span = (Seq<char>, CellStyle);

/// The graphemes at `a..b`, one after another.
pub open spec fn joined_clusters(gs: Seq<Seq<char>>, a: int, b: int) -> Seq<char>
    decreases b - a,
{
    if b <= a {
        Seq::empty()
    } else {
        joined_clusters(gs, a, b - 1) + gs[b - 1]
    }
}

/// The width a wrapped line counts for a grapheme (its display width, as a `u16`).
pub open spec fn cols(g: Seq<char>) -> nat {
    display_width(g) % 65536
}

/// Wrapping so far: the finished lines, the spans of the open line and its width.
pub struct Wrap {
    pub lines: Seq<Seq<Span>>,
    pub spans: Seq<Span>,
    pub cur: nat,
}

/// Wrapping the graphemes of one span from `j` on; `k0` is where the
/// unflushed part of the span starts. A grapheme that takes columns and does
/// not fit in `avail` starts a new line (unless the line is empty); the
/// open line is closed with the wrap mark.
pub open spec fn wrap_span_from(
    gs: Seq<Seq<char>>,
    style: CellStyle,
    j: int,
    k0: int,
    st: Wrap,
    avail: nat,
) -> (Wrap, int)
    decreases gs.len() - j,
{
    if j < 0 || j >= gs.len() {
        (st, k0)
    } else {
        let w = cols(gs[j]);
        if w == 0 {
            wrap_span_from(gs, style, j + 1, k0, st, avail)
        } else if st.cur + w > avail && st.cur > 0 {
            let spans = if j > k0 {
                st.spans.push((joined_clusters(gs, k0, j), style))
            } else {
                st.spans
            };
            let next = Wrap { lines: st.lines.push(spans.push(wrap_mark())), spans: Seq::empty(), cur: w };
            wrap_span_from(gs, style, j + 1, j, next, avail)
        } else {
            wrap_span_from(gs, style, j + 1, k0, Wrap { cur: st.cur + w, ..st }, avail)
        }
    }
}

/// Wrapping one more span of the line.
pub open spec fn wrap_span(st: Wrap, span: Span, avail: nat) -> Wrap {
    let gs = grapheme_clusters(span.0);
    let (st2, k0) = wrap_span_from(gs, span.1, 0, 0, st, avail);
    if k0 < gs.len() {
        Wrap { spans: st2.spans.push((joined_clusters(gs, k0, gs.len() as int), span.1)), ..st2 }
    } else {
        st2
    }
}

/// Wrapping the spans of a line one after another.
pub open spec fn wrap_spans(line: Seq<Span>, avail: nat) -> Wrap
    decreases line.len(),
{
    if line.len() == 0 {
        Wrap { lines: Seq::empty(), spans: Seq::empty(), cur: 0 }
    } else {
        wrap_span(wrap_spans(line.drop_last(), avail), line.last(), avail)
    }
}

/// The width of a line, as a `u16`.
pub open spec fn line_cols(line: Seq<Span>) -> nat {
    usize_sat(spans_width(line) as int) % 65536
}

/// A line wrapped to `max_width` columns: unchanged when it fits (or the
/// width is 0); otherwise cut before each grapheme that does not fit in
/// the width less the wrap mark's, each cut line ending with the wrap mark.
pub open spec fn wrapped_line(line: Seq<Span>, max_width: nat) -> Seq<Seq<Span>> {
    if max_width == 0 || line_cols(line) <= max_width {
        seq![line]
    } else {
        let avail = if max_width >= cols(wrap_mark().0) {
            (max_width - cols(wrap_mark().0)) as nat
        } else {
            0
        };
        let st = wrap_spans(line, avail);
        if st.spans.len() > 0 {
            st.lines.push(st.spans)
        } else {
            st.lines
        }
    }
}

/// Each line wrapped, one after another.
pub open spec fn wrapped_lines(text: Seq<Seq<Span>>, max_width: nat) -> Seq<Seq<Span>>
    decreases text.len(),
{
    if text.len() == 0 {
        Seq::empty()
    } else {
        wrapped_lines(text.drop_last(), max_width) + wrapped_line(text.last(), max_width)
    }
}

/// Whether some line wraps onto more than one line.
pub open spec fn any_wraps(text: Seq<Seq<Span>>, max_width: nat) -> bool {
    exists|k: int| 0 <= k < text.len() && #[trigger] wrapped_line(text[k], max_width).len() > 1
}

pub open spec fn spans_of(v: Seq<StyledSpan>) -> Seq<Span> {
    line_view(v)
}


/// A copy of a line.
pub fn copy_line(line: &Vec<StyledSpan>) -> (r: Vec<StyledSpan>)
    ensures
        line_view(r@) == line_view(line@),
{
    let mut r: Vec<StyledSpan> = Vec::new();
    let mut k: usize = 0;
    while k < line.len()
        invariant
            k <= line@.len(),
            line_view(r@) == line_view(line@).take(k as int),
        decreases line@.len() - k,
    {
        let ghost before = r@;
        r.push(StyledSpan { content: line[k].content.clone(), style: line[k].style });
        proof {
            assert(line_view(r@) =~= line_view(before).push(line_view(line@)[k as int]));
            assert(line_view(line@).take(k as int + 1) =~= line_view(line@).take(k as int).push(
                line_view(line@)[k as int],
            ));
        }
        k = k + 1;
    }
    proof {
        assert(line_view(line@).take(line@.len() as int) =~= line_view(line@));
    }
    r
}

/// The graphemes at `a..b`, one after another.
fn join_clusters(gs: &Vec<String>, a: usize, b: usize) -> (r: String)
    requires
        a <= b <= gs@.len(),
    ensures
        r@ == joined_clusters(strings_view(gs@), a as int, b as int),
{
    let mut r = String::new();
    let mut k = a;
    proof {
        assert(r@ =~= joined_clusters(strings_view(gs@), a as int, a as int));
    }
    while k < b
        invariant
            a <= k <= b <= gs@.len(),
            r@ == joined_clusters(strings_view(gs@), a as int, k as int),
        decreases b - k,
    {
        crate::strings::push_str(&mut r, gs[k].as_str());
        k = k + 1;
    }
    r
}

/// A copy of `text`.
pub fn copy_text(text: &StyledText) -> (r: StyledText)
    ensures
        r@ == text@,
{
    let mut lines: Vec<Vec<StyledSpan>> = Vec::new();
    let mut k: usize = 0;
    while k < text.lines.len()
        invariant
            k <= text.lines@.len(),
            lines@.len() == k,
            forall|j: int| 0 <= j < k ==> line_view(#[trigger] lines@[j]@) == line_view(text.lines@[j]@),
        decreases text.lines@.len() - k,
    {
        lines.push(copy_line(&text.lines[k]));
        k = k + 1;
    }
    let r = StyledText { lines };
    proof {
        assert(r@ =~= text@);
    }
    r
}

pub open spec fn lines_of(v: Seq<Vec<StyledSpan>>) -> Seq<Seq<Span>> {
    v.map_values(|l: Vec<StyledSpan>| line_view(l@))
}

/// Wraps a line to `max_width` columns (see [`wrapped_line`]). Any
/// grapheme which doesn't fit is forced onto a new line.
pub fn wrap_line(line: &Vec<StyledSpan>, max_width: u16) -> (r: Vec<Vec<StyledSpan>>)
    ensures
        lines_of(r@) == wrapped_line(line_view(line@), max_width as nat),
{
    let ghost lv = line_view(line@);
    let width = spans_width_of(line);
    if max_width == 0 || width % 65536 <= max_width as usize {
        let copy = copy_line(line);
        let mut r: Vec<Vec<StyledSpan>> = Vec::new();
        r.push(copy);
        proof {
            assert(lines_of(r@) =~= seq![lv]);
        }
        return r;
    }
    let mark = wrap_mark_span();
    let mark_cols = str_width(mark.content.as_str()) % 65536;
    let avail: u16 = if (max_width as usize) >= mark_cols {
        max_width - mark_cols as u16
    } else {
        0
    };
    let mut lines: Vec<Vec<StyledSpan>> = Vec::new();
    let mut spans: Vec<StyledSpan> = Vec::new();
    let mut cur: u32 = 0;
    let mut i: usize = 0;
    proof {
        assert(lv.take(0) =~= Seq::<Span>::empty());
        assert(lines_of(lines@) =~= Seq::<Seq<Span>>::empty());
        assert(line_view(spans@) =~= Seq::<Span>::empty());
    }
    while i < line.len()
        invariant
            i <= line@.len(),
            lv == line_view(line@),
            cur <= 65535,
            ({
                let st = wrap_spans(lv.take(i as int), avail as nat);
                &&& lines_of(lines@) == st.lines
                &&& line_view(spans@) == st.spans
                &&& cur == st.cur
            }),
        decreases line@.len() - i,
    {
        proof {
            assert(lv.take(i as int + 1).drop_last() =~= lv.take(i as int));
            assert(lv.take(i as int + 1).last() == lv[i as int]);
        }
        let ghost st0 = Wrap { lines: lines_of(lines@), spans: line_view(spans@), cur: cur as nat };
        let style = line[i].style;
        let gs = graphemes_of(line[i].content.as_str());
        let ghost gv = strings_view(gs@);
        let mut k0: usize = 0;
        let mut j: usize = 0;
        while j < gs.len()
            invariant
                j <= gs@.len(),
                k0 <= j,
                gv == strings_view(gs@),
                cur <= 65535,
                wrap_span_from(gv, style, 0, 0, st0, avail as nat) == wrap_span_from(
                    gv,
                    style,
                    j as int,
                    k0 as int,
                    Wrap { lines: lines_of(lines@), spans: line_view(spans@), cur: cur as nat },
                    avail as nat,
                ),
            decreases gs@.len() - j,
        {
            let w = (str_width(gs[j].as_str()) % 65536) as u32;
            proof {
                assert(gv[j as int] == gs@[j as int]@);
            }
            if w == 0 {
                j = j + 1;
            } else if cur + w > avail as u32 && cur > 0 {
                let ghost sp_before = line_view(spans@);
                if j > k0 {
                    let piece = join_clusters(&gs, k0, j);
                    spans.push(StyledSpan { content: piece, style });
                }
                proof {
                    assert(line_view(spans@) =~= (if j > k0 {
                        sp_before.push((joined_clusters(gv, k0 as int, j as int), style))
                    } else {
                        sp_before
                    }));
                }
                let ghost sp_mid = line_view(spans@);
                spans.push(wrap_mark_span());
                proof {
                    assert(line_view(spans@) =~= sp_mid.push(wrap_mark()));
                }
                let ghost ln_before = lines_of(lines@);
                lines.push(spans);
                proof {
                    assert(lines_of(lines@) =~= ln_before.push(sp_mid.push(wrap_mark())));
                }
                spans = Vec::new();
                proof {
                    assert(line_view(spans@) =~= Seq::<Span>::empty());
                }
                cur = w;
                k0 = j;
                j = j + 1;
            } else {
                cur = cur + w;
                j = j + 1;
            }
        }
        if k0 < gs.len() {
            let ghost sp_before = line_view(spans@);
            let piece = join_clusters(&gs, k0, gs.len());
            spans.push(StyledSpan { content: piece, style });
            proof {
                assert(line_view(spans@) =~= sp_before.push(
                    (joined_clusters(gv, k0 as int, gv.len() as int), style),
                ));
            }
        }
        i = i + 1;
    }
    proof {
        assert(lv.take(line@.len() as int) =~= lv);
    }
    if spans.len() > 0 {
        let ghost ln_before = lines_of(lines@);
        let ghost sp = line_view(spans@);
        lines.push(spans);
        proof {
            assert(lines_of(lines@) =~= ln_before.push(sp));
        }
    }
    lines
}


/// Wraps every line of `text` to `max_width` columns (nothing happens for
/// a width of 0); also tells whether any line wrapped.
pub fn wrap_text_static(text: &StyledText, max_width: u16) -> (r: (StyledText, bool))
    ensures
        max_width == 0 ==> r.0@ == text@ && !r.1,
        max_width > 0 ==> r.0@ == wrapped_lines(text@, max_width as nat) && r.1 == any_wraps(
            text@,
            max_width as nat,
        ),
{
    let ghost t = text@;
    let mut lines: Vec<Vec<StyledSpan>> = Vec::new();
    let mut did_wrap = false;
    let mut k: usize = 0;
    if max_width == 0 {
        while k < text.lines.len()
            invariant
                k <= text.lines@.len(),
                t == text@,
                lines_of(lines@) == t.take(k as int),
            decreases text.lines@.len() - k,
        {
            let copy = copy_line(&text.lines[k]);
            let ghost before = lines_of(lines@);
            lines.push(copy);
            proof {
                assert(lines_of(lines@) =~= before.push(t[k as int]));
                assert(t.take(k as int + 1) =~= t.take(k as int).push(t[k as int]));
            }
            k = k + 1;
        }
        let out = StyledText { lines };
        proof {
            assert(t.take(text.lines@.len() as int) =~= t);
            assert(out@ =~= lines_of(out.lines@));
        }
        return (out, false);
    }
    proof {
        assert(lines_of(lines@) =~= wrapped_lines(t.take(0), max_width as nat));
    }
    while k < text.lines.len()
        invariant
            k <= text.lines@.len(),
            t == text@,
            max_width > 0,
            lines_of(lines@) == wrapped_lines(t.take(k as int), max_width as nat),
            did_wrap == any_wraps(t.take(k as int), max_width as nat),
        decreases text.lines@.len() - k,
    {
        let new = wrap_line(&text.lines[k], max_width);
        proof {
            assert(t.take(k as int + 1).drop_last() =~= t.take(k as int));
            assert(t.take(k as int + 1).last() == t[k as int]);
        }
        let ghost before = lines_of(lines@);
        let ghost nv = lines_of(new@);
        if new.len() > 1 {
            did_wrap = true;
        }
        let mut new = new;
        lines.append(&mut new);
        proof {
            assert(lines_of(lines@) =~= before + nv);
            let tk = t.take(k as int + 1);
            if did_wrap {
                if nv.len() > 1 {
                    assert(wrapped_line(tk[k as int], max_width as nat).len() > 1);
                } else {
                    let w = choose|w: int| 0 <= w < k && #[trigger] wrapped_line(t.take(k as int)[w], max_width as nat).len() > 1;
                    assert(tk[w] == t.take(k as int)[w]);
                }
            } else {
                assert forall|w: int| 0 <= w < tk.len() implies !(#[trigger] wrapped_line(tk[w], max_width as nat).len() > 1) by {
                    if w < k {
                        assert(tk[w] == t.take(k as int)[w]);
                    }
                }
            }
        }
        k = k + 1;
    }
    let out = StyledText { lines };
    proof {
        assert(t.take(text.lines@.len() as int) =~= t);
        assert(out@ =~= lines_of(out.lines@));
    }
    (out, did_wrap)
}

/// Wraps every line of `text` (see [`wrap_text_static`]).
pub fn wrap_text(text: StyledText, max_width: u16) -> (r: (StyledText, bool))
    ensures
        max_width == 0 ==> r.0@ == text@ && !r.1,
        max_width > 0 ==> r.0@ == wrapped_lines(text@, max_width as nat) && r.1 == any_wraps(
            text@,
            max_width as nat,
        ),
{
    if max_width == 0 {
        return (text, false);
    }
    wrap_text_static(&text, max_width)
}

/// The rows a line takes when wrapped at `width` columns (its width divided
/// by `width`, rounded up).
pub fn wrapped_line_height(line: &Vec<StyledSpan>, width: u16) -> (r: u16)
    requires
        width > 0,
    ensures
        r == ((usize_sat(spans_width(line_view(line@)) as int) + width - 1) / (width as int)) % 65536,
{
    let w = spans_width_of(line);
    proof {
        let ww = width as int;
        let wi = w as int;
        assert(wi % ww != 0 ==> wi / ww < wi) by (nonlinear_arith)
            requires
                ww > 0,
                wi >= 0,
        ;
    }
    let q = w / (width as usize) + if w % (width as usize) != 0 {
        1usize
    } else {
        0usize
    };
    proof {
        let ww = width as int;
        let wi = w as int;
        assert((wi + ww - 1) / ww == wi / ww + if wi % ww != 0 {
            1int
        } else {
            0int
        }) by (nonlinear_arith)
            requires
                ww > 0,
                wi >= 0,
        ;
    }
    (q % 65536) as u16
}

/// The first `max_lines` lines, or the last ones when `from_end`.
pub fn take_lines(original: &mut StyledText, max_lines: u16, from_end: bool)
    ensures
        ({
            let n = old(original)@.len();
            let m = if (max_lines as int) < n {
                max_lines as int
            } else {
                n as int
            };
            final(original)@ == if from_end {
                old(original)@.subrange(n - m, n as int)
            } else {
                old(original)@.take(m)
            }
        }),
{
    let ghost t = original@;
    let n = original.lines.len();
    let m = if (max_lines as usize) < n {
        max_lines as usize
    } else {
        n
    };
    let lo = if from_end {
        n - m
    } else {
        0
    };
    let mut lines: Vec<Vec<StyledSpan>> = Vec::new();
    let mut k = lo;
    while k < lo + m
        invariant
            n == original.lines@.len(),
            t == original@,
            lo + m <= n,
            lo <= k <= lo + m,
            lines_of(lines@) == t.subrange(lo as int, k as int),
        decreases lo + m - k,
    {
        let copy = copy_line(&original.lines[k]);
        let ghost before = lines_of(lines@);
        lines.push(copy);
        proof {
            assert(lines_of(lines@) =~= before.push(t[k as int]));
            assert(t.subrange(lo as int, k as int + 1) =~= t.subrange(lo as int, k as int).push(t[k as int]));
        }
        k = k + 1;
    }
    original.lines = lines;
    proof {
        assert(original@ =~= lines_of(original.lines@));
        if !from_end {
            assert(t.subrange(0, m as int) =~= t.take(m as int));
        }
    }
}

/// Whether no line holds a span.
pub fn is_empty(text: &StyledText) -> (r: bool)
    ensures
        r == forall|k: int| 0 <= k < text@.len() ==> (#[trigger] text@[k]).len() == 0,
{
    let mut k: usize = 0;
    while k < text.lines.len()
        invariant
            k <= text.lines@.len(),
            forall|j: int| 0 <= j < k ==> (#[trigger] text@[j]).len() == 0,
        decreases text.lines@.len() - k,
    {
        if text.lines[k].len() > 0 {
            proof {
                assert(text@[k as int].len() > 0);
            }
            return false;
        }
        k = k + 1;
    }
    true
}

/// The number of lines without spans at the start.
pub open spec fn leading_blank(t: Seq<Seq<Span>>) -> nat
    decreases t.len(),
{
    if t.len() == 0 || t[0].len() > 0 {
        0
    } else {
        1 + leading_blank(t.drop_first())
    }
}

/// The number of lines without spans at the end.
pub open spec fn trailing_blank(t: Seq<Seq<Span>>) -> nat
    decreases t.len(),
{
    if t.len() == 0 || t.last().len() > 0 {
        0
    } else {
        1 + trailing_blank(t.drop_last())
    }
}

/// Drops the lines without spans at the start and at the end (all of them
/// when no line has spans).
pub open spec fn trimmed_lines(t: Seq<Seq<Span>>) -> Seq<Seq<Span>> {
    if leading_blank(t) == t.len() {
        Seq::empty()
    } else {
        t.subrange(leading_blank(t) as int, t.len() - trailing_blank(t))
    }
}

proof fn lemma_leading_blank(t: Seq<Seq<Span>>, k: int)
    requires
        0 <= k <= t.len(),
        forall|j: int| 0 <= j < k ==> (#[trigger] t[j]).len() == 0,
        k == t.len() || t[k].len() > 0,
    ensures
        leading_blank(t) == k,
    decreases k,
{
    if k > 0 {
        let d = t.drop_first();
        assert forall|j: int| 0 <= j < k - 1 implies (#[trigger] d[j]).len() == 0 by {
            assert(d[j] == t[j + 1]);
        }
        if k < t.len() {
            assert(d[k - 1] == t[k]);
        }
        lemma_leading_blank(d, k - 1);
        assert(t[0].len() == 0);
    }
}

proof fn lemma_trailing_blank(t: Seq<Seq<Span>>, e: int)
    requires
        0 <= e <= t.len(),
        forall|j: int| e <= j < t.len() ==> (#[trigger] t[j]).len() == 0,
        e == 0 || t[e - 1].len() > 0,
    ensures
        trailing_blank(t) == t.len() - e,
    decreases t.len() - e,
{
    if e < t.len() {
        let d = t.drop_last();
        assert forall|j: int| e <= j < d.len() implies (#[trigger] d[j]).len() == 0 by {
            assert(d[j] == t[j]);
        }
        if e > 0 {
            assert(d[e - 1] == t[e - 1]);
        }
        lemma_trailing_blank(d, e);
        assert(t.last() == t[t.len() - 1]);
    }
}

/// Drops the lines without spans at the start and at the end.
pub fn trim_text_lines(text: &mut StyledText)
    ensures
        final(text)@ == trimmed_lines(old(text)@),
{
    let ghost t = text@;
    let n = text.lines.len();
    let mut start: usize = 0;
    while start < n && text.lines[start].len() == 0
        invariant
            n == text.lines@.len(),
            t == text@,
            start <= n,
            forall|j: int| 0 <= j < start ==> (#[trigger] t[j]).len() == 0,
        decreases n - start,
    {
        start = start + 1;
    }
    if start == n {
        text.lines = Vec::new();
        proof {
            lemma_leading_blank(t, start as int);
            assert(text@ =~= Seq::<Seq<Span>>::empty());
        }
        return ;
    }
    let mut end: usize = n;
    while end > start && text.lines[end - 1].len() == 0
        invariant
            n == text.lines@.len(),
            t == text@,
            start < n,
            t[start as int].len() > 0,
            start < end <= n,
            forall|j: int| end <= j < n ==> (#[trigger] t[j]).len() == 0,
        decreases end,
    {
        end = end - 1;
    }
    let mut lines: Vec<Vec<StyledSpan>> = Vec::new();
    let mut k = start;
    while k < end
        invariant
            n == text.lines@.len(),
            t == text@,
            start <= k <= end <= n,
            lines_of(lines@) == t.subrange(start as int, k as int),
        decreases end - k,
    {
        let copy = copy_line(&text.lines[k]);
        let ghost before = lines_of(lines@);
        lines.push(copy);
        proof {
            assert(lines_of(lines@) =~= before.push(t[k as int]));
            assert(t.subrange(start as int, k as int + 1) =~= t.subrange(start as int, k as int).push(t[k as int]));
        }
        k = k + 1;
    }
    proof {
        lemma_leading_blank(t, start as int);
        lemma_trailing_blank(t, end as int);
    }
    text.lines = lines;
    proof {
        assert(text@ =~= lines_of(text.lines@));
    }
}


/// A colour that is explicitly reset is left unset, so that it is inherited.
pub open spec fn scrubbed_color(c: Option<CellColor>) -> Option<CellColor> {
    if c == Some(CellColor::Reset) {
        None
    } else {
        c
    }
}

/// The style without reset colours and without removed modifiers.
pub open spec fn scrubbed_style(s: CellStyle) -> CellStyle {
    CellStyle {
        fg: scrubbed_color(s.fg),
        bg: scrubbed_color(s.bg),
        underline_color: scrubbed_color(s.underline_color),
        add_modifier: s.add_modifier,
        sub_modifier: 0,
    }
}

pub open spec fn scrubbed_line(l: Seq<Span>) -> Seq<Span> {
    l.map_values(|sp: Span| (sp.0, scrubbed_style(sp.1)))
}

fn scrub_color(c: Option<CellColor>) -> (r: Option<CellColor>)
    ensures
        r == scrubbed_color(c),
{
    match c {
        Some(CellColor::Reset) => None,
        _ => c,
    }
}

/// Cleans text by removing explicit reset colours and removed modifiers,
/// so that it inherits the styles of its container.
pub fn scrub_text_styles(text: &mut StyledText)
    ensures
        final(text)@ == old(text)@.map_values(|l: Seq<Span>| scrubbed_line(l)),
{
    let ghost t = text@;
    let mut lines: Vec<Vec<StyledSpan>> = Vec::new();
    let mut k: usize = 0;
    while k < text.lines.len()
        invariant
            k <= text.lines@.len(),
            t == text@,
            lines_of(lines@) == t.take(k as int).map_values(|l: Seq<Span>| scrubbed_line(l)),
        decreases text.lines@.len() - k,
    {
        let line = &text.lines[k];
        let ghost lv = line_view(line@);
        let mut out: Vec<StyledSpan> = Vec::new();
        let mut j: usize = 0;
        while j < line.len()
            invariant
                j <= line@.len(),
                lv == line_view(line@),
                line_view(out@) == scrubbed_line(lv.take(j as int)),
            decreases line@.len() - j,
        {
            let st = line[j].style;
            let style = CellStyle {
                fg: scrub_color(st.fg),
                bg: scrub_color(st.bg),
                underline_color: scrub_color(st.underline_color),
                add_modifier: st.add_modifier,
                sub_modifier: 0,
            };
            let ghost before = line_view(out@);
            out.push(StyledSpan { content: line[j].content.clone(), style });
            proof {
                assert(line_view(out@) =~= before.push((lv[j as int].0, scrubbed_style(lv[j as int].1))));
                assert(scrubbed_line(lv.take(j as int + 1)) =~= scrubbed_line(lv.take(j as int)).push(
                    (lv[j as int].0, scrubbed_style(lv[j as int].1)),
                ));
            }
            j = j + 1;
        }
        proof {
            assert(lv.take(line@.len() as int) =~= lv);
        }
        let ghost before = lines_of(lines@);
        lines.push(out);
        proof {
            assert(lines_of(lines@) =~= before.push(scrubbed_line(t[k as int])));
            assert(t.take(k as int + 1).map_values(|l: Seq<Span>| scrubbed_line(l)) =~= t.take(
                k as int,
            ).map_values(|l: Seq<Span>| scrubbed_line(l)).push(scrubbed_line(t[k as int])));
        }
        k = k + 1;
    }
    text.lines = lines;
    proof {
        assert(t.take(t.len() as int) =~= t);
        assert(text@ =~= lines_of(text.lines@));
    }
}

/// The characters of a line.
pub open spec fn line_chars(l: Seq<Span>) -> nat
    decreases l.len(),
{
    if l.len() == 0 {
        0
    } else {
        line_chars(l.drop_last()) + l.last().0.len()
    }
}

/// The characters of the text, one more for each line end.
pub open spec fn text_chars(t: Seq<Seq<Span>>) -> nat
    decreases t.len(),
{
    if t.len() == 0 {
        0
    } else {
        text_chars(t.drop_last()) + line_chars(t.last()) + 1
    }
}

/// A span starting at character `p`, with the characters at `start..end`
/// (counted over the whole text) patched with `style`.
pub open spec fn styled_span(sp: Span, p: int, start: int, end: int, style: CellStyle) -> Seq<Span> {
    let (c, s) = sp;
    let n = c.len() as int;
    if p < end && p + n > start {
        let ls = if start > p {
            start - p
        } else {
            0
        };
        let le = if n < end - p {
            n
        } else {
            end - p
        };
        (if ls > 0 {
            seq![(c.take(ls), s)]
        } else {
            Seq::empty()
        }) + seq![(c.subrange(ls, le), s.patched(style))] + (if le < n {
            seq![(c.skip(le), s)]
        } else {
            Seq::empty()
        })
    } else {
        seq![sp]
    }
}

/// A line starting at character `p` with the range styled.
pub open spec fn styled_line(l: Seq<Span>, p: int, start: int, end: int, style: CellStyle) -> Seq<Span>
    decreases l.len(),
{
    if l.len() == 0 {
        Seq::empty()
    } else {
        styled_line(l.drop_last(), p, start, end, style) + styled_span(
            l.last(),
            p + line_chars(l.drop_last()),
            start,
            end,
            style,
        )
    }
}

/// The text with the characters at `start..end` patched with `style`
/// (lines are counted as if separated by one character).
pub open spec fn styled_text(t: Seq<Seq<Span>>, start: int, end: int, style: CellStyle) -> Seq<Seq<Span>>
    decreases t.len(),
{
    if t.len() == 0 {
        Seq::empty()
    } else {
        styled_text(t.drop_last(), start, end, style).push(
            styled_line(t.last(), text_chars(t.drop_last()) as int, start, end, style),
        )
    }
}

proof fn lemma_text_chars_prefix(t: Seq<Seq<Span>>, k: int)
    requires
        0 <= k <= t.len(),
    ensures
        text_chars(t.take(k)) <= text_chars(t),
    decreases t.len() - k,
{
    if k < t.len() {
        lemma_text_chars_prefix(t, k + 1);
        assert(t.take(k + 1).drop_last() =~= t.take(k));
    } else {
        assert(t.take(k) =~= t);
    }
}

proof fn lemma_line_chars_prefix(l: Seq<Span>, k: int)
    requires
        0 <= k <= l.len(),
    ensures
        line_chars(l.take(k)) <= line_chars(l),
    decreases l.len() - k,
{
    if k < l.len() {
        lemma_line_chars_prefix(l, k + 1);
        assert(l.take(k + 1).drop_last() =~= l.take(k));
    } else {
        assert(l.take(k) =~= l);
    }
}

/// The characters at `lo..hi` of `s`.
fn char_slice(cs: &Vec<char>, lo: usize, hi: usize) -> (r: String)
    requires
        lo <= hi <= cs@.len(),
    ensures
        r@ == cs@.subrange(lo as int, hi as int),
{
    crate::strings::string_of(cs, lo, hi)
}

/// Patches `style` onto the `len` characters from character `start` on,
/// splitting spans where the range starts or ends (lines are counted as if
/// separated by one character).
pub fn apply_style_at(text: StyledText, start: usize, len: usize, style: CellStyle) -> (r: StyledText)
    requires
        start + len <= usize::MAX,
        text_chars(text@) <= usize::MAX,
    ensures
        r@ == styled_text(text@, start as int, start + len, style),
{
    let ghost t = text@;
    let end = start + len;
    let mut global_pos: usize = 0;
    let mut lines: Vec<Vec<StyledSpan>> = Vec::new();
    let mut k: usize = 0;
    proof {
        assert(t.take(0) =~= Seq::<Seq<Span>>::empty());
        assert(lines_of(lines@) =~= styled_text(t.take(0), start as int, end as int, style));
    }
    while k < text.lines.len()
        invariant
            k <= text.lines@.len(),
            t == text@,
            end == start + len,
            text_chars(t) <= usize::MAX,
            global_pos == text_chars(t.take(k as int)),
            lines_of(lines@) == styled_text(t.take(k as int), start as int, end as int, style),
        decreases text.lines@.len() - k,
    {
        proof {
            assert(t.take(k as int + 1).drop_last() =~= t.take(k as int));
            assert(t.take(k as int + 1).last() == t[k as int]);
            lemma_text_chars_prefix(t, k as int + 1);
        }
        let line = &text.lines[k];
        let ghost lv = line_view(line@);
        let ghost p0 = global_pos as int;
        let mut out: Vec<StyledSpan> = Vec::new();
        let mut j: usize = 0;
        proof {
            assert(lv.take(0) =~= Seq::<Span>::empty());
            assert(line_view(out@) =~= styled_line(lv.take(0), p0, start as int, end as int, style));
        }
        while j < line.len()
            invariant
                j <= line@.len(),
                lv == line_view(line@),
                end == start + len,
                p0 + line_chars(lv) < usize::MAX,
                global_pos == p0 + line_chars(lv.take(j as int)),
                line_view(out@) == styled_line(lv.take(j as int), p0, start as int, end as int, style),
            decreases line@.len() - j,
        {
            proof {
                assert(lv.take(j as int + 1).drop_last() =~= lv.take(j as int));
                assert(lv.take(j as int + 1).last() == lv[j as int]);
                lemma_line_chars_prefix(lv, j as int + 1);
            }
            let cs = crate::strings::chars_of(line[j].content.as_str());
            let s = line[j].style;
            let span_len = cs.len();
            let span_end = global_pos + span_len;
            let ghost before = line_view(out@);
            if global_pos < end && span_end > start {
                let local_start = if start > global_pos {
                    start - global_pos
                } else {
                    0
                };
                let local_end = if span_len < end - global_pos {
                    span_len
                } else {
                    end - global_pos
                };
                if local_start > 0 {
                    out.push(StyledSpan { content: char_slice(&cs, 0, local_start), style: s });
                }
                out.push(StyledSpan { content: char_slice(&cs, local_start, local_end), style: s.patch(style) });
                if local_end < span_len {
                    out.push(StyledSpan { content: char_slice(&cs, local_end, span_len), style: s });
                }
                proof {
                    let c = lv[j as int].0;
                    assert(cs@.subrange(0, local_start as int) =~= c.take(local_start as int));
                    assert(cs@.subrange(local_end as int, span_len as int) =~= c.skip(local_end as int));
                    assert(line_view(out@) =~= before + styled_span(lv[j as int], global_pos as int, start as int, end as int, style));
                }
            } else {
                out.push(StyledSpan { content: line[j].content.clone(), style: s });
                proof {
                    assert(line_view(out@) =~= before + styled_span(lv[j as int], global_pos as int, start as int, end as int, style));
                }
            }
            global_pos = span_end;
            j = j + 1;
        }
        proof {
            assert(lv.take(line@.len() as int) =~= lv);
        }
        let ghost ln_before = lines_of(lines@);
        lines.push(out);
        proof {
            assert(lines_of(lines@) =~= ln_before.push(styled_line(t[k as int], p0, start as int, end as int, style)));
        }
        global_pos = global_pos + 1;
        k = k + 1;
    }
    proof {
        assert(t.take(t.len() as int) =~= t);
    }
    let out = StyledText { lines };
    proof {
        assert(out@ =~= lines_of(out.lines@));
    }
    out
}

proof fn lemma_leading_blank_props(t: Seq<Seq<Span>>)
    ensures
        leading_blank(t) <= t.len(),
        forall|j: int| 0 <= j < leading_blank(t) ==> (#[trigger] t[j]).len() == 0,
        leading_blank(t) < t.len() ==> t[leading_blank(t) as int].len() > 0,
    decreases t.len(),
{
    if t.len() > 0 && t[0].len() == 0 {
        let d = t.drop_first();
        lemma_leading_blank_props(d);
        assert forall|j: int| 0 <= j < leading_blank(t) implies (#[trigger] t[j]).len() == 0 by {
            if j > 0 {
                assert(t[j] == d[j - 1]);
            }
        }
        if leading_blank(t) < t.len() {
            assert(t[leading_blank(t) as int] == d[leading_blank(d) as int]);
        }
    }
}

proof fn lemma_trailing_blank_props(t: Seq<Seq<Span>>)
    ensures
        trailing_blank(t) <= t.len(),
        forall|j: int| t.len() - trailing_blank(t) <= j < t.len() ==> (#[trigger] t[j]).len() == 0,
        trailing_blank(t) < t.len() ==> t[t.len() - trailing_blank(t) - 1].len() > 0,
    decreases t.len(),
{
    if t.len() > 0 && t.last().len() == 0 {
        let d = t.drop_last();
        lemma_trailing_blank_props(d);
        assert forall|j: int| t.len() - trailing_blank(t) <= j < t.len() implies (#[trigger] t[j]).len() == 0 by {
            if j < t.len() - 1 {
                assert(t[j] == d[j]);
            }
        }
        if trailing_blank(t) < t.len() {
            assert(t[t.len() - trailing_blank(t) - 1] == d[d.len() - trailing_blank(d) - 1]);
        }
    }
}

/// Trimming drops only lines without spans, at the ends: what is left is
/// a stretch of the lines that starts and ends with a line holding spans
/// and keeps every line that holds spans; nothing is left exactly when no
/// line holds spans. Trimming twice is trimming once.
pub proof fn law_trim_keeps_all_content(t: Seq<Seq<Span>>)
    ensures
        ({
            let r = trimmed_lines(t);
            &&& r.len() > 0 ==> r[0].len() > 0 && r.last().len() > 0
            &&& (r.len() == 0) <==> (forall|j: int| 0 <= j < t.len() ==> (#[trigger] t[j]).len() == 0)
            &&& r.len() > 0 ==> exists|a: int| 0 <= a && a + r.len() <= t.len() && r == #[trigger] t.subrange(a, a + r.len())
            &&& forall|j: int|
                0 <= j < t.len() && (#[trigger] t[j]).len() > 0 ==> r.len() > 0 && leading_blank(t) <= j && j
                    - leading_blank(t) < r.len() && r[j - leading_blank(t)] == t[j]
        }),
{
    lemma_leading_blank_props(t);
    lemma_trailing_blank_props(t);
    let lb = leading_blank(t);
    let tb = trailing_blank(t);
    if lb < t.len() {
        // the first line with spans is also before the trailing blanks
        assert(t[lb as int].len() > 0);
        assert(lb < t.len() - tb);
        let r = t.subrange(lb as int, t.len() - tb);
        assert(r[0] == t[lb as int]);
        assert(r.last() == t[t.len() - tb - 1]);
        assert(r =~= t.subrange(lb as int, lb + r.len() as int));
        assert forall|j: int| 0 <= j < t.len() && (#[trigger] t[j]).len() > 0 implies r.len() > 0 && lb <= j && j
            - lb < r.len() && r[j - lb] == t[j] by {
            assert(j >= lb);
            assert(j < t.len() - tb);
        }
    } else {
        assert forall|j: int| 0 <= j < t.len() implies (#[trigger] t[j]).len() == 0 by {}
    }
}

/// Scrubbing keeps the text of every span and its added modifiers; a reset
/// colour becomes unset, other colours stay, and no modifier is removed.
pub proof fn law_scrub_keeps_text(l: Seq<Span>, k: int)
    requires
        0 <= k < l.len(),
    ensures
        scrubbed_line(l).len() == l.len(),
        scrubbed_line(l)[k].0 == l[k].0,
        scrubbed_line(l)[k].1.add_modifier == l[k].1.add_modifier,
        scrubbed_line(l)[k].1.sub_modifier == 0,
        scrubbed_line(l)[k].1.fg != Some(CellColor::Reset) && scrubbed_line(l)[k].1.bg != Some(CellColor::Reset),
        l[k].1.fg != Some(CellColor::Reset) ==> scrubbed_line(l)[k].1.fg == l[k].1.fg,
        l[k].1.bg != Some(CellColor::Reset) ==> scrubbed_line(l)[k].1.bg == l[k].1.bg,
{
}

} // verus!
