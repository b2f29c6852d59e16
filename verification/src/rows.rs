//! Rendering one matched item into the cells of its row: each shown column
//! is formatted, scrolled vertically and cut to the height limit, then
//! highlighted or wrapped within its width limit.
use vstd::prelude::*;

use crate::display::TextView;
use crate::render::{
    display_width, plain_style, render_cell, render_params, rendered_cell, sorted_unique, span_view, spans_width,
    str_width, AutoscrollSettings, CellColor, CellStyle, StyledSpan, StyledText,
};
use crate::text::{wrap_text_static, wrapped_lines};
use crate::tui::max_of;
use crate::worker::Column;

verus! {

/// The widest line of `t`.
pub open spec fn text_width(t: TextView) -> nat
    decreases t.len(),
{
    if t.len() == 0 {
        0
    } else {
        max_of(text_width(t.drop_last()) as int, spans_width(t.last()) as int) as nat
    }
}

/// `n`, or `usize::MAX` when it is larger.
pub open spec fn capped(n: nat) -> usize {
    if n <= usize::MAX {
        n as usize
    } else {
        usize::MAX
    }
}

/// The mark added to a cell cut to its height limit.
pub open spec fn truncation_mark() -> (Seq<char>, CellStyle) {
    (seq![' ', '⋮'], CellStyle { fg: Some(CellColor::DarkGray), ..plain_style() })
}

/// The lines of a cell under a height limit (0 for none), the last one
/// marked when lines were cut.
pub open spec fn height_limited(t: TextView, max_height: nat) -> TextView {
    if max_height > 0 && t.len() > max_height {
        let c = t.take(max_height as int);
        c.update(c.len() - 1, c.last().push(truncation_mark()))
    } else {
        t
    }
}

/// A cell scrolled down by `to_skip` lines: its lines kept, the lines left
/// to skip, and whether any line shows. Stacked cells use up the lines to
/// skip; side-by-side cells each skip them.
pub open spec fn scroll_cell(t: TextView, to_skip: nat, stacked: bool, max_height: nat) -> (TextView, nat, bool) {
    if stacked {
        if to_skip >= t.len() {
            (Seq::empty(), (to_skip - t.len()) as nat, false)
        } else {
            (height_limited(t.skip(to_skip as int), max_height), 0, true)
        }
    } else if t.len() > to_skip {
        (height_limited(t.skip(to_skip as int), max_height), to_skip, true)
    } else {
        (Seq::empty(), to_skip, false)
    }
}

/// The cells scrolled in turn (see [`scroll_cell`]), the lines left to
/// skip, and whether any line shows.
pub open spec fn scroll_cells(cells: Seq<TextView>, to_skip: nat, stacked: bool, max_height: nat) -> (Seq<TextView>, nat, bool)
    decreases cells.len(),
{
    if cells.len() == 0 {
        (Seq::empty(), to_skip, false)
    } else {
        let s = scroll_cells(cells.drop_last(), to_skip, stacked, max_height);
        let c = scroll_cell(cells.last(), s.1, stacked, max_height);
        (s.0.push(c.0), c.1, s.2 || c.2)
    }
}

/// The columns below `n` that are not marked hidden.
pub open spec fn shown_cols(hidden: Seq<bool>, n: nat) -> Seq<usize>
    decreases n,
{
    if n == 0 {
        Seq::empty()
    } else {
        let s = shown_cols(hidden, (n - 1) as nat);
        if n - 1 < hidden.len() && hidden[n - 1] {
            s
        } else {
            s.push((n - 1) as usize)
        }
    }
}

/// The columns below `n` drawn, with their width limit: those with a
/// nonzero limit, and every column past the limits (unlimited).
pub open spec fn visible_cols(limits: Seq<u16>, n: nat) -> Seq<(usize, u16)>
    decreases n,
{
    if n == 0 {
        Seq::empty()
    } else {
        let s = visible_cols(limits, (n - 1) as nat);
        let i = n - 1;
        if i < limits.len() {
            if limits[i] != 0 {
                s.push((i as usize, limits[i]))
            } else {
                s
            }
        } else {
            s.push((i as usize, u16::MAX))
        }
    }
}

/// Whether `out` is how a cell comes out: highlighted and laid out (for a
/// filtered column, with the positions matched there; `None` when a line
/// cannot be laid out), wrapped to its limit, or kept as it is.
pub open spec fn cell_out(
    filter: bool,
    t: TextView,
    limit: u16,
    wrap: bool,
    highlight_style: CellStyle,
    autoscroll: AutoscrollSettings,
    hscroll_offset: i8,
    out: Option<TextView>,
) -> bool {
    if filter {
        exists|ix: Seq<u32>|
            match rendered_cell(
                t,
                render_params(#[trigger] sorted_unique(ix), highlight_style, wrap, limit, autoscroll, hscroll_offset),
            ) {
                Some((lines, _w)) => out == Some(lines),
                None => out is None,
            }
    } else if wrap && limit != u16::MAX && limit > 0 {
        out == Some(wrapped_lines(t, limit as nat))
    } else {
        out == Some(t)
    }
}

/// The views of `ts`.
pub open spec fn text_views(ts: Seq<StyledText>) -> Seq<TextView> {
    Seq::new(ts.len(), |k: int| ts[k]@)
}

/// The views of the cells, if any.
pub open spec fn cells_view(cells: Option<Vec<StyledText>>) -> Option<Seq<TextView>> {
    match cells {
        Some(cs) => Some(text_views(cs@)),
        None => None,
    }
}

/// The width of the widest line of `t` (capped at `usize::MAX`).
pub fn text_width_of(t: &StyledText) -> (r: usize)
    ensures
        r == capped(text_width(t@)),
{
    let mut w: usize = 0;
    let mut k: usize = 0;
    while k < t.lines.len()
        invariant
            k <= t@.len(),
            t@.len() == t.lines@.len(),
            w == capped(text_width(t@.take(k as int))),
        decreases t@.len() - k,
    {
        proof {
            assert(t@.take(k + 1).drop_last() =~= t@.take(k as int));
            assert(t@.take(k + 1).last() == t@[k as int]);
        }
        let line = &t.lines[k];
        let mut lw: usize = 0;
        let mut j: usize = 0;
        while j < line.len()
            invariant
                j <= line@.len(),
                t@[k as int] == crate::render::line_view(line@),
                lw == capped(spans_width(t@[k as int].take(j as int))),
            decreases line@.len() - j,
        {
            proof {
                assert(t@[k as int].take(j + 1).drop_last() =~= t@[k as int].take(j as int));
                assert(t@[k as int].take(j + 1).last() == span_view(line@[j as int]));
            }
            let sw = str_width(line[j].content.as_str());
            lw = lw.saturating_add(sw);
            j = j + 1;
        }
        proof {
            assert(t@[k as int].take(j as int) =~= t@[k as int]);
        }
        if lw > w {
            w = lw;
        }
        k = k + 1;
    }
    proof {
        assert(t@.take(k as int) =~= t@);
    }
    w
}

/// The mark added to a cell cut to its height limit.
fn truncation_span() -> (r: StyledSpan)
    ensures
        span_view(r) == truncation_mark(),
{
    let mut content = String::new();
    crate::strings::string_push(&mut content, ' ');
    crate::strings::string_push(&mut content, '⋮');
    proof {
        assert(content@ =~= seq![' ', '⋮']);
    }
    StyledSpan { content, style: CellStyle::fg(CellColor::DarkGray) }
}

/// `t` from line `from` on, cut to the height limit (see [`height_limited`]).
fn skip_and_limit(t: StyledText, from: usize, max_height: usize) -> (r: StyledText)
    requires
        from <= t@.len(),
    ensures
        r@ == height_limited(t@.skip(from as int), max_height as nat),
{
    let ghost tv = t@;
    let mut lines: Vec<Vec<StyledSpan>> = Vec::new();
    let mut src = t.lines;
    let n = src.len();
    let mut k: usize = from;
    let limit = if max_height > 0 && n - from > max_height {
        from + max_height
    } else {
        n
    };
    while k < limit
        invariant
            from <= k <= limit <= n,
            n == src@.len(),
            tv.len() == n,
            forall|j: int| k <= j < n ==> crate::render::line_view(#[trigger] src@[j]@) == tv[j],
            lines@.len() == k - from,
            forall|j: int| 0 <= j < k - from ==> crate::render::line_view(#[trigger] lines@[j]@) == tv[from + j],
        decreases limit - k,
    {
        let mut line: Vec<StyledSpan> = Vec::new();
        std::mem::swap(&mut line, &mut src[k]);
        proof {
            assert(crate::render::line_view(line@) == tv[k as int]);
        }
        lines.push(line);
        k = k + 1;
    }
    if limit < n {
        let last = lines.len() - 1;
        let mut line: Vec<StyledSpan> = Vec::new();
        std::mem::swap(&mut line, &mut lines[last]);
        let ghost before = line@;
        line.push(truncation_span());
        proof {
            assert(crate::render::line_view(line@) =~= crate::render::line_view(before).push(truncation_mark()));
        }
        lines.set(last, line);
    }
    let r = StyledText { lines };
    proof {
        let want = height_limited(tv.skip(from as int), max_height as nat);
        assert(r@.len() == want.len());
        assert forall|j: int| 0 <= j < r@.len() implies r@[j] == want[j] by {}
        assert(r@ =~= want);
    }
    r
}

/// Scrolls one cell down by `to_skip` lines (see [`scroll_cell`]).
fn scroll_one(t: StyledText, to_skip: usize, stacked: bool, max_height: usize) -> (r: (StyledText, usize, bool))
    ensures
        (r.0@, r.1 as nat, r.2) == scroll_cell(t@, to_skip as nat, stacked, max_height as nat),
{
    let h = t.lines.len();
    if stacked {
        if to_skip >= h {
            let empty = StyledText { lines: Vec::new() };
            proof {
                assert(empty@ =~= Seq::<Seq<(Seq<char>, CellStyle)>>::empty());
            }
            (empty, to_skip - h, false)
        } else {
            (skip_and_limit(t, to_skip, max_height), 0, true)
        }
    } else if h > to_skip {
        (skip_and_limit(t, to_skip, max_height), to_skip, true)
    } else {
        let empty = StyledText { lines: Vec::new() };
        proof {
            assert(empty@ =~= Seq::<Seq<(Seq<char>, CellStyle)>>::empty());
        }
        (empty, to_skip, false)
    }
}

/// The drawn columns below `n` with their width limits (see [`visible_cols`]).
fn visible_columns(limits: &Vec<u16>, n: usize) -> (r: Vec<(usize, u16)>)
    ensures
        r@ == visible_cols(limits@, n as nat),
        r@.len() <= n,
        forall|k: int| 0 <= k < r@.len() ==> #[trigger] r@[k].0 < n,
{
    let mut r: Vec<(usize, u16)> = Vec::new();
    let mut i: usize = 0;
    while i < n
        invariant
            i <= n,
            r@ == visible_cols(limits@, i as nat),
            r@.len() <= i,
            forall|k: int| 0 <= k < r@.len() ==> #[trigger] r@[k].0 < i,
        decreases n - i,
    {
        if i < limits.len() {
            if limits[i] != 0 {
                r.push((i, limits[i]));
            }
        } else {
            r.push((i, u16::MAX));
        }
        i = i + 1;
    }
    r
}

/// Whether the row came out of formatting the shown columns as `fs`: the
/// widths reported, then each drawn cell highlighted, wrapped or kept
/// after scrolling (none when nothing shows after scrolling; `None` when
/// a filtered cell cannot be laid out).
pub open spec fn row_from<T, D>(
    columns: Seq<Column<T, D>>,
    data: &T,
    d: &D,
    hidden: Seq<bool>,
    limits: Seq<u16>,
    stacked: bool,
    max_height: nat,
    wrap: bool,
    highlight_style: CellStyle,
    autoscroll: AutoscrollSettings,
    hscroll_offset: i8,
    vscroll_offset: nat,
    fs: Seq<StyledText>,
    cells: Option<Seq<TextView>>,
    widths: Seq<(usize, usize)>,
) -> bool {
    let sh = shown_cols(hidden, columns.len());
    let sc = scroll_cells(text_views(fs), vscroll_offset, stacked, max_height);
    let vc = visible_cols(limits, columns.len());
    let m = if sc.0.len() < vc.len() {
        sc.0.len()
    } else {
        vc.len()
    };
    &&& fs.len() == sh.len()
    &&& forall|k: int| 0 <= k < sh.len() ==> columns[sh[k] as int].format_gives(data, d, #[trigger] fs[k])
    &&& widths == Seq::new(sh.len(), |k: int| (sh[k], capped(text_width(fs[k]@))))
    &&& if !sc.2 {
        cells == Some(Seq::<TextView>::empty())
    } else {
        match cells {
            Some(cs) => {
                &&& cs.len() == m
                &&& forall|k: int|
                    0 <= k < m ==> cell_out(
                        columns[vc[k].0 as int].filters(),
                        sc.0[k],
                        vc[k].1,
                        wrap,
                        highlight_style,
                        autoscroll,
                        hscroll_offset,
                        Some(#[trigger] cs[k]),
                    )
            },
            None => exists|k: int|
                0 <= k < m && cell_out(
                    columns[vc[k].0 as int].filters(),
                    #[trigger] sc.0[k],
                    vc[k].1,
                    wrap,
                    highlight_style,
                    autoscroll,
                    hscroll_offset,
                    None,
                ),
        }
    }
}

/// Renders one matched item into the cells of its row: each column not
/// marked hidden is formatted (its width reported), scrolled down by
/// `vscroll_offset` lines and cut to `max_height` lines (0 for no limit);
/// when no line shows the row has no cells. Else each drawn column (a
/// nonzero width limit, or past the limits) is highlighted with the
/// positions matched in it when filtered, else wrapped to its limit when
/// `wrap`, else kept. `None` in place of the cells when a filtered cell
/// cannot be laid out. `data` is the item's data, `item_columns` its
/// matcher columns, and `d` what the worker prepared from it.
pub fn render_row<T: Sync + Send + 'static, D>(
    item_columns: &[nucleo::Utf32String],
    data: &T,
    d: &D,
    snapshot: &nucleo::Snapshot<T>,
    columns: &Vec<Column<T, D>>,
    width_limits: &Vec<u16>,
    hidden_cols: &Vec<bool>,
    stacked: bool,
    max_height: usize,
    wrap: bool,
    highlight_style: CellStyle,
    autoscroll: AutoscrollSettings,
    hscroll_offset: i8,
    vscroll_offset: usize,
    matcher: &mut nucleo::Matcher,
    col_indices_buffer: &mut Vec<u32>,
) -> (r: (Option<Vec<StyledText>>, Vec<(usize, usize)>))
    requires
        forall|i: int|
            0 <= i < columns@.len() && !(i < hidden_cols@.len() && hidden_cols@[i]) ==> (#[trigger] columns@[i]).format_accepts(
                data,
                d,
            ),
        forall|i: int| 0 <= i < columns@.len() && (#[trigger] columns@[i]).filters() ==> i < item_columns@.len(),
    ensures
        exists|fs: Seq<StyledText>|
            #[trigger] row_from(
                columns@,
                data,
                d,
                hidden_cols@,
                width_limits@,
                stacked,
                max_height as nat,
                wrap,
                highlight_style,
                autoscroll,
                hscroll_offset,
                vscroll_offset as nat,
                fs,
                cells_view(r.0),
                r.1@,
            ),
{
    let ghost mut fs: Seq<StyledText> = Seq::empty();
    let mut to_skip = vscroll_offset;
    let mut shows = false;
    let mut candidates: Vec<StyledText> = Vec::new();
    let mut widths: Vec<(usize, usize)> = Vec::new();
    let n = columns.len();
    let mut i: usize = 0;
    while i < n
        invariant
            n == columns@.len(),
            i <= n,
            forall|c: int|
                0 <= c < columns@.len() && !(c < hidden_cols@.len() && hidden_cols@[c]) ==> (#[trigger] columns@[c]).format_accepts(
                    data,
                    d,
                ),
            fs.len() == shown_cols(hidden_cols@, i as nat).len(),
            forall|k: int|
                0 <= k < fs.len() ==> columns@[shown_cols(hidden_cols@, i as nat)[k] as int].format_gives(
                    data,
                    d,
                    #[trigger] fs[k],
                ),
            forall|k: int| 0 <= k < fs.len() ==> #[trigger] shown_cols(hidden_cols@, i as nat)[k] < i,
            widths@ == Seq::new(
                fs.len(),
                |k: int| (shown_cols(hidden_cols@, i as nat)[k], capped(text_width(fs[k]@))),
            ),
            (text_views(candidates@), to_skip as nat, shows) == scroll_cells(
                text_views(fs),
                vscroll_offset as nat,
                stacked,
                max_height as nat,
            ),
        decreases n - i,
    {
        let hidden = i < hidden_cols.len() && hidden_cols[i];
        if !hidden {
            let t = columns[i].format(data, d);
            let w = text_width_of(&t);
            widths.push((i, w));
            let ghost before = fs;
            proof {
                fs = fs.push(t);
                assert(text_views(fs).drop_last() =~= text_views(before));
                assert(text_views(fs).last() == t@);
            }
            let (c, left, vis) = scroll_one(t, to_skip, stacked, max_height);
            candidates.push(c);
            to_skip = left;
            shows = shows || vis;
            proof {
                assert(text_views(candidates@) =~= scroll_cells(
                    text_views(fs),
                    vscroll_offset as nat,
                    stacked,
                    max_height as nat,
                ).0);
                assert(widths@ =~= Seq::new(
                    fs.len(),
                    |k: int| (shown_cols(hidden_cols@, (i + 1) as nat)[k], capped(text_width(fs[k]@))),
                ));
            }
        }
        i = i + 1;
    }
    if !shows {
        let empty: Vec<StyledText> = Vec::new();
        let res = (Some(empty), widths);
        proof {
            assert(text_views(res.0.unwrap()@) =~= Seq::<TextView>::empty());
            assert(row_from(
                columns@,
                data,
                d,
                hidden_cols@,
                width_limits@,
                stacked,
                max_height as nat,
                wrap,
                highlight_style,
                autoscroll,
                hscroll_offset,
                vscroll_offset as nat,
                fs,
                cells_view(res.0),
                res.1@,
            ));
        }
        return res;
    }
    let vc = visible_columns(width_limits, n);
    let ghost sc = text_views(candidates@);
    let m = if candidates.len() < vc.len() {
        candidates.len()
    } else {
        vc.len()
    };
    let mut cells: Vec<StyledText> = Vec::new();
    let mut k: usize = 0;
    let mut rest = candidates;
    while k < m
        invariant
            k <= m,
            m <= rest@.len(),
            m <= vc@.len(),
            n == columns@.len(),
            vc@ == visible_cols(width_limits@, n as nat),
            forall|j: int| 0 <= j < vc@.len() ==> #[trigger] vc@[j].0 < n,
            forall|i: int| 0 <= i < columns@.len() && (#[trigger] columns@[i]).filters() ==> i < item_columns@.len(),
            forall|j: int| k <= j < rest@.len() ==> #[trigger] rest@[j]@ == sc[j],
            rest@.len() == sc.len(),
            fs.len() == shown_cols(hidden_cols@, n as nat).len(),
            forall|j: int|
                0 <= j < fs.len() ==> columns@[shown_cols(hidden_cols@, n as nat)[j] as int].format_gives(
                    data,
                    d,
                    #[trigger] fs[j],
                ),
            widths@ == Seq::new(
                fs.len(),
                |j: int| (shown_cols(hidden_cols@, n as nat)[j], capped(text_width(fs[j]@))),
            ),
            sc == scroll_cells(text_views(fs), vscroll_offset as nat, stacked, max_height as nat).0,
            scroll_cells(text_views(fs), vscroll_offset as nat, stacked, max_height as nat).2,
            m == if sc.len() < vc@.len() {
                sc.len()
            } else {
                vc@.len()
            },
            cells@.len() == k,
            forall|j: int|
                0 <= j < k ==> cell_out(
                    columns@[vc@[j].0 as int].filters(),
                    sc[j],
                    vc@[j].1,
                    wrap,
                    highlight_style,
                    autoscroll,
                    hscroll_offset,
                    Some(#[trigger] cells@[j]@),
                ),
        decreases m - k,
    {
        let (col_idx, limit) = vc[k];
        let mut cell = StyledText { lines: Vec::new() };
        std::mem::swap(&mut cell, &mut rest[k]);
        proof {
            assert(cell@ == sc[k as int]);
            assert forall|j: int| k < j < rest@.len() implies #[trigger] rest@[j]@ == sc[j] by {}
        }
        let out = if columns[col_idx].filter() {
            let rc = render_cell(
                cell,
                col_idx,
                snapshot,
                item_columns,
                matcher,
                highlight_style,
                wrap,
                limit,
                col_indices_buffer,
                autoscroll,
                hscroll_offset,
            );
            match rc {
                Some((t, _w)) => t,
                None => {
                    let res = (None, widths);
                    proof {
                        assert(cell_out(
                            columns@[vc@[k as int].0 as int].filters(),
                            sc[k as int],
                            vc@[k as int].1,
                            wrap,
                            highlight_style,
                            autoscroll,
                            hscroll_offset,
                            None,
                        ));
                        assert(row_from(
                        columns@,
                        data,
                        d,
                        hidden_cols@,
                        width_limits@,
                        stacked,
                        max_height as nat,
                        wrap,
                        highlight_style,
                        autoscroll,
                        hscroll_offset,
                        vscroll_offset as nat,
                        fs,
                            cells_view(res.0),
                            res.1@,
                        ));
                    }
                    return res;
                },
            }
        } else if wrap && limit != u16::MAX {
            let (t, _wrapped) = wrap_text_static(&cell, limit);
            t
        } else {
            cell
        };
        cells.push(out);
        k = k + 1;
    }
    let res = (Some(cells), widths);
    proof {
        assert(text_views(res.0.unwrap()@).len() == m);
        assert(row_from(
        columns@,
        data,
        d,
        hidden_cols@,
        width_limits@,
        stacked,
        max_height as nat,
        wrap,
        highlight_style,
        autoscroll,
        hscroll_offset,
        vscroll_offset as nat,
        fs,
            cells_view(res.0),
            res.1@,
        ));
    }
    res
}

} // verus!
