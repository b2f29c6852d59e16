//! Overlay geometry.
use vstd::prelude::*;
use ratatui::layout::Constraint;
use vstd::string::StrSliceExecFns;

use crate::config::{
    BorderSetting, OverlayLayoutSettings, PreviewLayout, Side, TerminalLayoutSettings, UiConfig,
};
use crate::preview::{dimensioned, split_parts, PreviewModel, PreviewUI};
use crate::tui::{max_of, min_of, sat_sub};
use crate::utils::{clamp_nonzero, percent_of, Percentage};

verus! {

/// A rectangle of terminal cells.
#[derive(Debug, Clone, Copy, PartialEq, Eq)]
pub struct Rect {
    pub x: u16,
    pub y: u16,
    pub width: u16,
    pub height: u16,
}

impl Default for Rect {
    fn default() -> (r: Self)
        ensures
            r.x == 0 && r.y == 0 && r.width == 0 && r.height == 0,
    {
        Rect { x: 0, y: 0, width: 0, height: 0 }
    }
}

/// The areas of the picker.
#[derive(Debug, Clone, Copy, PartialEq, Eq)]
pub struct Layout {
    pub preview: Rect,
    pub input: Rect,
    pub status: Rect,
    pub header: Rect,
    pub results: Rect,
    pub footer: Rect,
}

/// Adaptive sizing points: `(axis size, percentage)` pairs in ascending axis
/// size order.
pub open spec fn points_view(points: Seq<(u16, Percentage)>) -> Seq<(nat, nat)> {
    points.map_values(|p: (u16, Percentage)| (p.0 as nat, p.1.value()))
}

/// The first window `[k, k + 1]` of `points` whose sizes enclose `size`.
pub open spec fn first_window(points: Seq<(nat, nat)>, size: nat, from: int) -> Option<int>
    decreases points.len() - from,
{
    if from < 0 || from + 1 >= points.len() {
        None
    } else if points[from].0 <= size <= points[from + 1].0 {
        Some(from)
    } else {
        first_window(points, size, from + 1)
    }
}

/// Linear interpolation between `(lo_size, lo_pct)` and `(hi_size, hi_pct)` at `size`.
pub open spec fn interpolate(lo_size: nat, lo_pct: nat, hi_size: nat, hi_pct: nat, size: nat) -> nat {
    let span = hi_size - lo_size;
    if span == 0 {
        hi_pct
    } else {
        let t = size - lo_size;
        ((lo_pct * (span - t) + hi_pct * t) / span) as nat
    }
}

/// The percentage at `size`: the first point's below it, the last point's
/// past it, and linearly interpolated within the first enclosing window
/// (between the first and last points if there is none).
pub open spec fn adaptive_percentage(points: Seq<(nat, nat)>, size: nat) -> nat {
    if points.len() == 0 {
        0
    } else if size <= points[0].0 {
        points[0].1
    } else if size >= points.last().0 {
        points.last().1
    } else {
        match first_window(points, size, 0) {
            Some(k) => interpolate(points[k].0, points[k].1, points[k + 1].0, points[k + 1].1, size),
            None => interpolate(points[0].0, points[0].1, points.last().0, points.last().1, size),
        }
    }
}

/// Linearly interpolates the percentage at `size` from `points`.
///
/// Clamps to the first point's percentage below the first size and to the
/// last point's percentage past the last size. Returns `0%` for empty input.
pub fn compute_adaptive_percentage(points: &[(u16, Percentage)], size: u16) -> (r: Percentage)
    requires
        forall|k: int| 0 <= k < points@.len() ==> (#[trigger] points@[k]).1.wf(),
    ensures
        r.wf(),
        r.value() == adaptive_percentage(points_view(points@), size as nat),
{
    let ghost pv = points_view(points@);
    let n = points.len();
    if n == 0 {
        return Percentage::new(0);
    }
    let (first_size, first_pct) = points[0];
    if size <= first_size {
        return first_pct;
    }
    let (last_size, last_pct) = points[n - 1];
    if size >= last_size {
        return last_pct;
    }
    let mut k: usize = 0;
    while k + 1 < n && !(points[k].0 <= size && size <= points[k + 1].0)
        invariant
            n == points@.len(),
            pv == points_view(points@),
            n >= 1,
            k < n,
            first_window(pv, size as nat, 0) == first_window(pv, size as nat, k as int),
        decreases n - k,
    {
        proof {
            assert(pv[k as int] == (points@[k as int].0 as nat, points@[k as int].1.value()));
            assert(pv[k as int + 1] == (
                points@[k as int + 1].0 as nat,
                points@[k as int + 1].1.value(),
            ));
        }
        k = k + 1;
    }
    proof {
        if k + 1 < n {
            assert(pv[k as int] == (points@[k as int].0 as nat, points@[k as int].1.value()));
            assert(pv[k as int + 1] == (
                points@[k as int + 1].0 as nat,
                points@[k as int + 1].1.value(),
            ));
        }
        assert(pv[0] == (points@[0].0 as nat, points@[0].1.value()));
        assert(pv.last() == (points@[n - 1].0 as nat, points@[n - 1].1.value()));
    }
    let (lo_size, lo_pct, hi_size, hi_pct) = if k + 1 < n {
        (points[k].0, points[k].1, points[k + 1].0, points[k + 1].1)
    } else {
        (first_size, first_pct, last_size, last_pct)
    };
    let span = hi_size - lo_size;
    if span == 0 {
        return hi_pct;
    }
    let t = (size - lo_size) as u32;
    let span = span as u32;
    let lo = lo_pct.inner() as u32;
    let hi = hi_pct.inner() as u32;
    proof {
        assert(lo * (span - t) <= 100 * 65535) by (nonlinear_arith)
            requires
                lo <= 100,
                span - t <= 65535,
        ;
        assert(hi * t <= 100 * 65535) by (nonlinear_arith)
            requires
                hi <= 100,
                t <= 65535,
        ;
        assert((lo * (span - t) + hi * t) / (span as int) <= 100) by (nonlinear_arith)
            requires
                lo <= 100,
                hi <= 100,
                t <= span,
                span > 0,
        ;
    }
    let v = ((lo * (span - t) + hi * t) / span) as u16;
    Percentage::new(v)
}

/// Point sizes in strictly ascending order.
pub open spec fn strictly_ascending(points: Seq<(nat, nat)>) -> bool {
    forall|a: int, b: int| 0 <= a < b < points.len() ==> points[a].0 < points[b].0
}

proof fn lemma_first_window_encloses(points: Seq<(nat, nat)>, size: nat, from: int)
    ensures
        first_window(points, size, from) matches Some(k) ==> 0 <= from <= k && k + 1 < points.len()
            && points[k].0 <= size <= points[k + 1].0,
    decreases points.len() - from,
{
    if !(from < 0 || from + 1 >= points.len()) && !(points[from].0 <= size <= points[from
        + 1].0) {
        lemma_first_window_encloses(points, size, from + 1);
    }
}

proof fn lemma_first_window_at_point(points: Seq<(nat, nat)>, j: int, from: int)
    requires
        strictly_ascending(points),
        0 < j < points.len(),
        0 <= from <= j - 1,
    ensures
        first_window(points, points[j].0, from) == Some(j - 1),
    decreases j - from,
{
    if from < j - 1 {
        assert(points[from + 1].0 < points[j].0);
        lemma_first_window_at_point(points, j, from + 1);
    }
}

proof fn lemma_interpolate_between(lo_size: nat, lo_pct: nat, hi_size: nat, hi_pct: nat, size: nat, l: nat, h: nat)
    requires
        lo_size <= size <= hi_size,
        l <= lo_pct <= h,
        l <= hi_pct <= h,
    ensures
        l <= interpolate(lo_size, lo_pct, hi_size, hi_pct, size) <= h,
{
    let span = hi_size - lo_size;
    if span != 0 {
        let t = size - lo_size;
        let num = lo_pct * (span - t) + hi_pct * t;
        assert(l * span <= num <= h * span) by (nonlinear_arith)
            requires
                0 <= t <= span,
                l <= lo_pct <= h,
                l <= hi_pct <= h,
                num == lo_pct * (span - t) + hi_pct * t,
        ;
        assert(l <= num / span <= h) by (nonlinear_arith)
            requires
                span > 0,
                l * span <= num <= h * span,
        ;
    }
}

/// At the size of one of its points (sizes strictly ascending), the adaptive
/// percentage is exactly that point's percentage.
pub proof fn law_adaptive_hits_points(points: Seq<(nat, nat)>, j: int)
    requires
        strictly_ascending(points),
        0 <= j < points.len(),
    ensures
        adaptive_percentage(points, points[j].0) == points[j].1,
{
    let size = points[j].0;
    if j > 0 {
        assert(points[0].0 < size);
        if j < points.len() - 1 {
            assert(size < points.last().0);
            lemma_first_window_at_point(points, j, 0);
            let lo = points[j - 1].0;
            let span = size - lo;
            let hi = points[j].1;
            assert((points[j - 1].1 * (span - span) + hi * span) / span == hi) by (nonlinear_arith)
                requires
                    span > 0,
            ;
        }
    }
}

/// The adaptive percentage never leaves the range of the points'
/// percentages: any bounds that hold for every point hold for the result.
pub proof fn law_adaptive_within_points(points: Seq<(nat, nat)>, size: nat, l: nat, h: nat)
    requires
        points.len() > 0,
        forall|k: int| 0 <= k < points.len() ==> l <= (#[trigger] points[k]).1 <= h,
    ensures
        l <= adaptive_percentage(points, size) <= h,
{
    let last = points.len() - 1;
    assert(points.last() == points[last]);
    assert(l <= points[0].1 <= h);
    assert(l <= points[last].1 <= h);
    if points[0].0 < size && size < points.last().0 {
        lemma_first_window_encloses(points, size, 0);
        match first_window(points, size, 0) {
            Some(k) => {
                assert(l <= points[k].1 <= h);
                assert(l <= points[k + 1].1 <= h);
                lemma_interpolate_between(points[k].0, points[k].1, points[k + 1].0, points[k + 1].1, size, l, h);
            },
            None => {
                lemma_interpolate_between(points[0].0, points[0].1, points.last().0, points.last().1, size, l, h);
            },
        }
    }
}

/// A size constraint for one axis of an overlay: the base size is interpolated
/// from `adaptive_percentage` against the axis size, or falls back to the
/// layout percentage when empty, then is clamped to `[min, max]` where `0`
/// means no clamp (see [`default_area`]).
#[derive(Debug, Clone, Copy, PartialEq, Eq)]
pub struct SizeHint {
    /// Percentage points keyed by axis size, in ascending order.
    pub adaptive_percentage: &'static [(u16, Percentage)],
    /// Lower clamp; `0` = no clamp.
    pub min: u16,
    /// Upper clamp; `0` = no clamp.
    pub max: u16,
}

impl SizeHint {
    pub open spec fn wf(self) -> bool {
        forall|k: int|
            0 <= k < self.adaptive_percentage@.len() ==> (
            #[trigger] self.adaptive_percentage@[k]).1.wf()
    }
}

impl From<u16> for SizeHint {
    /// Exact size: both clamps equal to `value`.
    fn from(value: u16) -> (r: Self) {
        SizeHint { adaptive_percentage: &[], min: value, max: value }
    }
}

impl vstd::std_specs::convert::FromSpecImpl<u16> for SizeHint {
    open spec fn obeys_from_spec() -> bool {
        true
    }

    open spec fn from_spec(value: u16) -> SizeHint {
        SizeHint { adaptive_percentage: &[], min: value, max: value }
    }
}

impl From<[u16; 2]> for SizeHint {
    /// `[min, max]` clamps over the computed base size.
    fn from(min_max: [u16; 2]) -> (r: Self) {
        SizeHint { adaptive_percentage: &[], min: min_max[0], max: min_max[1] }
    }
}

impl vstd::std_specs::convert::FromSpecImpl<[u16; 2]> for SizeHint {
    open spec fn obeys_from_spec() -> bool {
        true
    }

    open spec fn from_spec(min_max: [u16; 2]) -> SizeHint {
        SizeHint { adaptive_percentage: &[], min: min_max[0], max: min_max[1] }
    }
}

/// The size of one axis of an overlay.
pub open spec fn axis_size(hint: SizeHint, pct: Percentage, lmin: nat, lmax: nat, total: nat) -> nat {
    let computed = if hint.adaptive_percentage@.len() == 0 {
        clamp_nonzero(percent_of(pct.value(), total), lmin, lmax)
    } else {
        percent_of(adaptive_percentage(points_view(hint.adaptive_percentage@), total), total)
    };
    let w = if hint.max != 0 {
        min_of(computed as int, hint.max as int)
    } else {
        computed as int
    };
    let w = if hint.min != 0 {
        max_of(w, hint.min as int)
    } else {
        w
    };
    min_of(w, total as int) as nat
}

/// The vertical offset of an overlay of height `h` in an area of height `height`.
pub open spec fn vertical_offset(y_offset: nat, height: nat, h: nat) -> nat {
    let available_h = sat_sub(height as int, h as int) as nat;
    if y_offset < 50 {
        let o = percent_of(y_offset, sat_sub(available_h as int, h as int) as nat);
        sat_sub((available_h / 2) as int, o as int) as nat
    } else {
        available_h / 2 + percent_of((y_offset - 50) as nat, available_h)
    }
}

fn axis(hint: &SizeHint, pct: Percentage, lmin: u16, lmax: u16, total: u16) -> (r: u16)
    requires
        hint.wf(),
        pct.wf(),
    ensures
        r == axis_size(*hint, pct, lmin as nat, lmax as nat, total as nat),
{
    let computed = if hint.adaptive_percentage.len() == 0 {
        pct.compute_clamped(total, lmin, lmax)
    } else {
        compute_adaptive_percentage(hint.adaptive_percentage, total).compute_clamped(total, 0, 0)
    };
    let mut w = computed;
    if hint.max != 0 {
        w = if w <= hint.max {
            w
        } else {
            hint.max
        };
    }
    if hint.min != 0 {
        w = if w >= hint.min {
            w
        } else {
            hint.min
        };
    }
    if w <= total {
        w
    } else {
        total
    }
}

/// The default area of an overlay inside `ui_area`: each axis sized by its
/// hint (see [`SizeHint`]), centered horizontally and placed vertically by
/// `layout.y_offset`.
pub fn default_area(size: [SizeHint; 2], layout: &OverlayLayoutSettings, ui_area: &Rect) -> (r:
    Rect)
    requires
        size[0].wf(),
        size[1].wf(),
        layout.percentage[0].wf(),
        layout.percentage[1].wf(),
        layout.y_offset.wf(),
        ui_area.x + ui_area.width <= u16::MAX,
        ui_area.y + ui_area.height <= u16::MAX,
    ensures
        r.width == axis_size(
            size[0],
            layout.percentage[0],
            layout.min[0] as nat,
            layout.max[0] as nat,
            ui_area.width as nat,
        ),
        r.height == axis_size(
            size[1],
            layout.percentage[1],
            layout.min[1] as nat,
            layout.max[1] as nat,
            ui_area.height as nat,
        ),
        r.x == ui_area.x + (ui_area.width - r.width) / 2,
        r.y == ui_area.y + vertical_offset(
            layout.y_offset.value(),
            ui_area.height as nat,
            r.height as nat,
        ),
        ui_area.x <= r.x,
        r.x + r.width <= ui_area.x + ui_area.width,
        ui_area.y <= r.y,
        r.y + r.height <= ui_area.y + ui_area.height,
{
    let w = axis(&size[0], layout.percentage[0], layout.min[0], layout.max[0], ui_area.width);
    let h = axis(&size[1], layout.percentage[1], layout.min[1], layout.max[1], ui_area.height);
    let available_h = ui_area.height.saturating_sub(h);
    let offset = if layout.y_offset.inner() < 50 {
        let o = layout.y_offset.compute_clamped(available_h.saturating_sub(h), 0, 0);
        (available_h / 2).saturating_sub(o)
    } else {
        let extra = layout.y_offset.saturating_sub(50).compute_clamped(available_h, 0, 0);
        proof {
            let p = (layout.y_offset.value() - 50) as nat;
            assert(available_h as nat * p / 100 <= available_h as nat / 2) by (nonlinear_arith)
                requires
                    p <= 50,
            ;
        }
        available_h / 2 + extra
    };
    let x = ui_area.x + (ui_area.width.saturating_sub(w)) / 2;
    let y = ui_area.y + offset;
    Rect { x, y, width: w, height: h }
}

/// Resizes `area` to the given width and height (where given), keeping its center.
pub fn update_area(area: &mut Rect, w: Option<u16>, h: Option<u16>)
    requires
        old(area).x + old(area).width / 2 <= u16::MAX,
        old(area).y + old(area).height / 2 <= u16::MAX,
    ensures
        final(area).width == match w {
            Some(v) => v,
            None => old(area).width,
        },
        final(area).height == match h {
            Some(v) => v,
            None => old(area).height,
        },
        final(area).x == sat_sub(
            old(area).x + old(area).width / 2,
            (final(area).width / 2) as int,
        ),
        final(area).y == sat_sub(
            old(area).y + old(area).height / 2,
            (final(area).height / 2) as int,
        ),
{
    let center_x = area.x + area.width / 2;
    let center_y = area.y + area.height / 2;
    if let Some(new_w) = w {
        area.width = new_w;
    }
    if let Some(new_h) = h {
        area.height = new_h;
    }
    // preserve the original center
    area.x = center_x.saturating_sub(area.width / 2);
    area.y = center_y.saturating_sub(area.height / 2);
}

// ------------------------------------------------------------------------
// Dividing the picker's area

/// The strip of `height` rows (at most all of them) cut off the top of
/// `rect` when `cut_top`, else off its bottom, and what is left.
pub open spec fn cut_off(rect: Rect, height: u16, cut_top: bool) -> (Rect, Rect) {
    let h = min_of(height as int, rect.height as int) as u16;
    let rest = (rect.height - h) as u16;
    if cut_top {
        (
            Rect { x: rect.x, y: rect.y, width: rect.width, height: h },
            Rect { x: rect.x, y: (rect.y + h) as u16, width: rect.width, height: rest },
        )
    } else {
        (
            Rect { x: rect.x, y: (rect.y + rest) as u16, width: rect.width, height: h },
            Rect { x: rect.x, y: rect.y, width: rect.width, height: rest },
        )
    }
}

/// Cuts a strip of `height` rows (at most all of them) off the top of
/// `rect` when `cut_top`, else off its bottom, and returns the strip.
pub fn split(rect: &mut Rect, height: u16, cut_top: bool) -> (r: Rect)
    requires
        old(rect).y + old(rect).height <= u16::MAX,
    ensures
        (r, *final(rect)) == cut_off(*old(rect), height, cut_top),
        ({
            let h = min_of(height as int, old(rect).height as int);
            &&& r.x == old(rect).x && r.width == old(rect).width && r.height == h
            &&& final(rect).x == old(rect).x && final(rect).width == old(rect).width
            &&& final(rect).height == old(rect).height - h
            &&& if cut_top {
                r.y == old(rect).y && final(rect).y == old(rect).y + h
            } else {
                r.y == old(rect).y + old(rect).height - h && final(rect).y == old(rect).y
            }
        }),
{
    let h = if height <= rect.height {
        height
    } else {
        rect.height
    };
    if cut_top {
        let offshoot = Rect { x: rect.x, y: rect.y, width: rect.width, height: h };
        rect.y = rect.y + h;
        rect.height = rect.height - h;
        offshoot
    } else {
        let offshoot = Rect { x: rect.x, y: rect.y + rect.height - h, width: rect.width, height: h };
        rect.height = rect.height - h;
        offshoot
    }
}

/// The smallest width of the results beside a preview.
pub const RESULTS_MIN_W: u16 = 5;

/// The smallest height of the results.
pub const RESULTS_MIN_H: u16 = 1;

/// A preview bound: a negative value leaves that many rows or columns to
/// the results, a positive one counts the preview's border too; at most `total`.
pub open spec fn preview_bound(v: int, total: nat, border: nat) -> nat {
    let b = if v < 0 {
        sat_sub(total as int, -v) as nat
    } else {
        min_of(v + border, u16::MAX as int) as nat
    };
    min_of(b as int, total as int) as nat
}

/// The size of the preview along its side: the size it was dragged to (at
/// most `total`), else the layout's percentage of `total` clamped to the
/// layout's bounds (the upper one dropped when it is below the lower one).
pub open spec fn preview_size(total: nat, layout: PreviewLayout, border: nat, current: Option<u16>) -> nat {
    match current {
        Some(size) => min_of(size as int, total as int) as nat,
        None => {
            let min = preview_bound(layout.min as int, total, border);
            let max = preview_bound(layout.max as int, total, border);
            let p = percent_of(layout.percentage.value(), total);
            if min <= max {
                clamp_nonzero(p, min, max)
            } else {
                clamp_nonzero(p, min, 0)
            }
        },
    }
}

/// The size of the preview along its side (see [`preview_size`]).
pub fn preview_side_size(total: u16, layout: &PreviewLayout, border: u16, current: Option<u16>) -> (r: u16)
    requires
        layout.min != i16::MIN,
        layout.max != i16::MIN,
    ensures
        r == preview_size(total as nat, *layout, border as nat, current),
{
    match current {
        Some(size) => if size <= total {
            size
        } else {
            total
        },
        None => {
            let min = if layout.min < 0 {
                total.saturating_sub((0i16 - layout.min) as u16)
            } else {
                (layout.min as u16).saturating_add(border)
            };
            let max = if layout.max < 0 {
                total.saturating_sub((0i16 - layout.max) as u16)
            } else {
                (layout.max as u16).saturating_add(border)
            };
            let min = if min <= total {
                min
            } else {
                total
            };
            let max = if max <= total {
                max
            } else {
                total
            };
            if min <= max {
                layout.percentage.compute_clamped(total, min, max)
            } else {
                layout.percentage.compute_clamped(total, min, 0)
            }
        },
    }
}

/// Whether the preview leaves too little room for the results, so that it
/// is hidden: too narrow beside a preview on the left or right, too low
/// beside one on the top or bottom.
pub fn preview_too_big(side: Side, picker_area: Rect) -> (r: bool)
    ensures
        r == match side {
            Side::Left | Side::Right => picker_area.width <= RESULTS_MIN_W,
            _ => picker_area.height <= RESULTS_MIN_H,
        },
{
    match side {
        Side::Left | Side::Right => picker_area.width <= RESULTS_MIN_W,
        _ => picker_area.height <= RESULTS_MIN_H,
    }
}

/// Rows the results lack of [`RESULTS_MIN_H`].
pub open spec fn results_need(results: Rect) -> int {
    if results.height <= RESULTS_MIN_H {
        sat_sub(RESULTS_MIN_H as int, results.height as int)
    } else {
        0
    }
}

/// Rows the results take from the footer.
pub open spec fn taken_from_footer(results: Rect, footer: Rect) -> int {
    min_of(results_need(results), footer.height as int)
}

/// Rows the results take from the header.
pub open spec fn taken_from_header(header: Rect, results: Rect, footer: Rect) -> int {
    min_of(results_need(results) - taken_from_footer(results, footer), header.height as int)
}

/// The header, results and footer after [`grow_results`].
pub open spec fn grown(header: Rect, results: Rect, footer: Rect, reverse: bool) -> (Rect, Rect, Rect) {
    let from_footer = taken_from_footer(results, footer);
    let from_header = taken_from_header(header, results, footer);
    (
        Rect {
            y: if reverse {
                (header.y + from_header) as u16
            } else {
                header.y
            },
            height: (header.height - from_header) as u16,
            ..header
        },
        Rect {
            y: if reverse {
                results.y
            } else {
                (results.y - from_header) as u16
            },
            height: (results.height + from_footer + from_header) as u16,
            ..results
        },
        Rect {
            y: if reverse {
                footer.y
            } else {
                (footer.y + from_footer) as u16
            },
            height: (footer.height - from_footer) as u16,
            ..footer
        },
    )
}

/// Gives the results at least [`RESULTS_MIN_H`] rows, taking what is
/// missing from the footer first and then from the header, on the side
/// where they touch the results.
pub fn grow_results(header: &mut Rect, results: &mut Rect, footer: &mut Rect, reverse: bool)
    requires
        !reverse ==> old(footer).y + taken_from_footer(*old(results), *old(footer)) <= u16::MAX
            && old(results).y >= taken_from_header(*old(header), *old(results), *old(footer)),
        reverse ==> old(header).y + taken_from_header(*old(header), *old(results), *old(footer))
            <= u16::MAX,
    ensures
        ({
            let from_footer = taken_from_footer(*old(results), *old(footer));
            let from_header = taken_from_header(*old(header), *old(results), *old(footer));
            &&& final(footer).height == old(footer).height - from_footer
            &&& final(footer).y == if reverse {
                old(footer).y as int
            } else {
                old(footer).y + from_footer
            }
            &&& final(header).height == old(header).height - from_header
            &&& final(header).y == if reverse {
                old(header).y + from_header
            } else {
                old(header).y as int
            }
            &&& final(results).height == old(results).height + from_footer + from_header
            &&& final(results).y == if reverse {
                old(results).y as int
            } else {
                old(results).y - from_header
            }
            &&& final(footer).x == old(footer).x && final(footer).width == old(footer).width
            &&& final(header).x == old(header).x && final(header).width == old(header).width
            &&& final(results).x == old(results).x && final(results).width == old(results).width
        }),
        (*final(header), *final(results), *final(footer)) == grown(*old(header), *old(results), *old(footer), reverse),
{
    if results.height <= RESULTS_MIN_H {
        let mut needed = RESULTS_MIN_H.saturating_sub(results.height);
        if needed > 0 && footer.height > 0 {
            let take = if needed <= footer.height {
                needed
            } else {
                footer.height
            };
            footer.height = footer.height - take;
            if !reverse {
                footer.y = footer.y + take;
            }
            results.height = results.height + take;
            needed = needed - take;
        }
        if needed > 0 && header.height > 0 {
            let take = if needed <= header.height {
                needed
            } else {
                header.height
            };
            header.height = header.height - take;
            if !reverse {
                results.y = results.y - take;
            } else {
                header.y = header.y + take;
            }
            results.height = results.height + take;
        }
    }
}

// ------------------------------------------------------------------------
// Dividing an area by size rules

/// The axis along which an area is divided.
#[derive(Debug, Clone, Copy, PartialEq, Eq)]
pub enum Direction {
    Horizontal,
    Vertical,
}

/// How a part of a divided area is sized.
#[derive(Debug, Clone, Copy, PartialEq, Eq)]
pub enum SizeRule {
    /// Exactly this many cells.
    Length(u16),
    /// At least this many cells.
    Min(u16),
    /// A share of what is left, in proportion to this weight.
    Fill(u16),
}

/// The parts `ratatui::layout::Layout::split` divides `area` into along
/// `direction` by `rules`, one per rule.
pub uninterp spec fn solved_layout(area: Rect, direction: Direction, rules: Seq<SizeRule>) -> Seq<Rect>;

/// Whether `part` spans `area` across `direction` and lies within it along it.
pub open spec fn part_of(area: Rect, direction: Direction, part: Rect) -> bool {
    match direction {
        Direction::Vertical => {
            &&& part.x == area.x && part.width == area.width
            &&& area.y <= part.y && part.y + part.height <= area.y + area.height
        },
        Direction::Horizontal => {
            &&& part.y == area.y && part.height == area.height
            &&& area.x <= part.x && part.x + part.width <= area.x + area.width
        },
    }
}

/// `ratatui::layout::Layout::split` on `area` with `direction` and `rules`
/// (each rule as the constraint of the same name). The source builds one
/// part per constraint; each part keeps the area's position and size across
/// the direction, and its bounds along it are solver values that required
/// constraints keep within the area's bounds and in order from one part to
/// the next. Which sizes the solver picks is left to the name.
#[verifier::external_body]
pub(crate) fn solve_layout(area: Rect, direction: Direction, rules: &Vec<SizeRule>) -> (r: Vec<Rect>)
    ensures
        r@ == solved_layout(area, direction, rules@),
        r@.len() == rules@.len(),
        forall|i: int| 0 <= i < r@.len() ==> part_of(area, direction, #[trigger] r@[i]),
        forall|i: int, j: int|
            0 <= i < j < r@.len() ==> ends_before(direction, #[trigger] r@[i], #[trigger] r@[j]),
{
    let cs = rules.iter().map(|c| match c {
        SizeRule::Length(n) => Constraint::Length(*n),
        SizeRule::Min(n) => Constraint::Min(*n),
        SizeRule::Fill(n) => Constraint::Fill(*n),
    });
    let split = match direction {
        Direction::Horizontal => ratatui::layout::Layout::horizontal(cs),
        Direction::Vertical => ratatui::layout::Layout::vertical(cs),
    };
    let whole = ratatui::layout::Rect { x: area.x, y: area.y, width: area.width, height: area.height };
    split.split(whole).iter().map(|p| Rect { x: p.x, y: p.y, width: p.width, height: p.height }).collect()
}

/// Whether `a` ends before `b` starts along `direction`.
pub open spec fn ends_before(direction: Direction, a: Rect, b: Rect) -> bool {
    match direction {
        Direction::Vertical => a.y + a.height <= b.y,
        Direction::Horizontal => a.x + a.width <= b.x,
    }
}

/// The size rules of the picker's sections, top to bottom: the input, the
/// status line (one row when shown), the header, and the results taking
/// the rest; bottom to top when `reverse`.
pub open spec fn picker_rules(input: u16, status_shown: bool, header: u16, reverse: bool) -> Seq<SizeRule> {
    let rules = seq![
        SizeRule::Length(input),
        SizeRule::Length(if status_shown { 1 } else { 0 }),
        SizeRule::Length(header),
        SizeRule::Fill(1),
    ];
    if reverse {
        rules.reverse()
    } else {
        rules
    }
}

/// The picker's sections in `area`: input, status, header and results.
pub open spec fn picker_sections(
    area: Rect,
    input: u16,
    status_shown: bool,
    header: u16,
    reverse: bool,
) -> Seq<Rect> {
    let parts = solved_layout(area, Direction::Vertical, picker_rules(input, status_shown, header, reverse));
    if reverse {
        parts.reverse()
    } else {
        parts
    }
}

/// Divides the picker's `area` into the input (`input` rows), the status
/// line, the header (`header` rows) and the results, stacked top to bottom
/// (bottom to top when `reverse`); returned in that order.
pub fn picker_layout(area: Rect, input: u16, status_shown: bool, header: u16, reverse: bool) -> (r: [Rect; 4])
    ensures
        r@ == picker_sections(area, input, status_shown, header, reverse),
        forall|i: int| 0 <= i < 4 ==> part_of(area, Direction::Vertical, #[trigger] r@[i]),
        !reverse ==> forall|i: int, j: int|
            0 <= i < j < 4 ==> ends_before(Direction::Vertical, #[trigger] r@[i], #[trigger] r@[j]),
        reverse ==> forall|i: int, j: int|
            0 <= i < j < 4 ==> ends_before(Direction::Vertical, #[trigger] r@[j], #[trigger] r@[i]),
{
    let status: u16 = if status_shown {
        1
    } else {
        0
    };
    let mut rules = vec![SizeRule::Length(input), SizeRule::Length(status), SizeRule::Length(header), SizeRule::Fill(1)];
    if reverse {
        rules = vec![SizeRule::Fill(1), SizeRule::Length(header), SizeRule::Length(status), SizeRule::Length(input)];
    }
    proof {
        assert(rules@ =~= picker_rules(input, status_shown, header, reverse));
    }
    let c = solve_layout(area, Direction::Vertical, &rules);
    let r = if reverse {
        [c[3], c[2], c[1], c[0]]
    } else {
        [c[0], c[1], c[2], c[3]]
    };
    proof {
        assert(r@ =~= picker_sections(area, input, status_shown, header, reverse));
    }
    r
}

// ------------------------------------------------------------------------
// The interface's frame

/// The interface's frame: the borders, the area inside the outer border,
/// and the picker pane.
pub struct UI {
    pub layout: Option<TerminalLayoutSettings>,
    area: Rect,
    picker_area: Rect,
    pub config: UiConfig,
}

/// What a frame holds, field for field.
pub struct UiModel {
    pub layout: Option<TerminalLayoutSettings>,
    pub area: Rect,
    pub picker_area: Rect,
    pub config: UiConfig,
}

impl View for UI {
    type V = UiModel;

    closed spec fn view(&self) -> UiModel {
        UiModel { layout: self.layout, area: self.area, picker_area: self.picker_area, config: self.config }
    }
}

/// Whether `r` ends within `u16` along both axes.
pub open spec fn bounded(r: Rect) -> bool {
    r.x + r.width <= u16::MAX && r.y + r.height <= u16::MAX
}

/// Whether a border's thickness fits in `u16`.
pub open spec fn border_fits(b: BorderSetting) -> bool {
    b.spec_width() <= u16::MAX && b.spec_height() <= u16::MAX
}

impl UI {
    /// A frame not laid out yet.
    pub fn new_offline(config: UiConfig) -> (r: UI)
        ensures
            r@ == (UiModel {
                layout: None,
                area: Rect { x: 0, y: 0, width: 0, height: 0 },
                picker_area: Rect { x: 0, y: 0, width: 0, height: 0 },
                config,
            }),
    {
        UI { layout: None, area: Rect::default(), picker_area: Rect::default(), config }
    }

    /// The frame of a terminal area `tui_area` with the inline viewport
    /// settings `layout`: the area and the picker pane both lie inside the
    /// outer border.
    pub fn new(config: UiConfig, layout: Option<TerminalLayoutSettings>, tui_area: Rect) -> (r: UI)
        requires
            border_fits(config.outer_border),
            tui_area.x + config.outer_border.spec_left() <= u16::MAX,
            tui_area.y + config.outer_border.spec_top() <= u16::MAX,
        ensures
            r@ == (UiModel {
                layout,
                area: config.outer_border.spec_inner_of(tui_area),
                picker_area: config.outer_border.spec_inner_of(tui_area),
                config,
            }),
    {
        let width = tui_area.width.saturating_sub(config.outer_border.width());
        let height = tui_area.height.saturating_sub(config.outer_border.height());
        let area = Rect {
            x: tui_area.x + config.outer_border.left(),
            y: tui_area.y + config.outer_border.top(),
            width,
            height,
        };
        UI { layout, area, picker_area: area, config }
    }

    /// Takes the area inside the outer border of `area` as the frame's area.
    pub fn update_dimensions(&mut self, area: Rect)
        requires
            border_fits(old(self)@.config.outer_border),
        ensures
            final(self)@ == (UiModel { area: old(self)@.config.outer_border.spec_inner_of(area), ..old(self)@ }),
    {
        self.area = self.config.outer_border.inner_of(area);
    }

    /// The border around everything.
    pub fn outer_border(&self) -> (r: &BorderSetting)
        ensures
            *r == self@.config.outer_border,
    {
        &self.config.outer_border
    }

    /// The border around the picker pane.
    pub fn border(&self) -> (r: &BorderSetting)
        ensures
            *r == self@.config.border,
    {
        &self.config.border
    }

    /// The picker pane, its border included.
    pub fn picker_area(&self) -> (r: Rect)
        ensures
            r == self@.picker_area,
    {
        self.picker_area
    }

    pub fn update_picker_area(&mut self, area: Rect)
        ensures
            final(self)@ == (UiModel { picker_area: area, ..old(self)@ }),
    {
        self.picker_area = area;
    }

    /// The area inside the outer border.
    pub fn area(&self) -> (r: Rect)
        ensures
            r == self@.area,
    {
        self.area
    }

    /// The area with the outer border around it.
    pub fn full_area(&self) -> (r: Rect)
        requires
            border_fits(self@.config.outer_border),
            self@.area.x >= self@.config.outer_border.spec_left(),
            self@.area.y >= self@.config.outer_border.spec_top(),
            self@.area.width + self@.config.outer_border.spec_width() <= u16::MAX,
            self@.area.height + self@.config.outer_border.spec_height() <= u16::MAX,
        ensures
            r == (Rect {
                x: (self@.area.x - self@.config.outer_border.spec_left()) as u16,
                y: (self@.area.y - self@.config.outer_border.spec_top()) as u16,
                width: (self@.area.width + self@.config.outer_border.spec_width()) as u16,
                height: (self@.area.height + self@.config.outer_border.spec_height()) as u16,
            }),
    {
        let outer_border = &self.config.outer_border;
        Rect {
            x: self.area.x - outer_border.left(),
            y: self.area.y - outer_border.top(),
            width: self.area.width + outer_border.width(),
            height: self.area.height + outer_border.height(),
        }
    }
}

/// Whether the preview or the results changed size from `old` to `new`.
pub open spec fn layout_resized(old: Layout, new: Layout) -> bool {
    old.preview.width != new.preview.width || old.preview.height != new.preview.height
        || old.results.width != new.results.width || old.results.height != new.results.height
}

/// Records `new_layout` as the last one; returns whether the preview or the
/// results changed size.
pub fn update_layout(last: &mut Layout, new_layout: Layout) -> (r: bool)
    ensures
        *final(last) == new_layout,
        r == layout_resized(*old(last), new_layout),
{
    let changed = last.preview.width != new_layout.preview.width || last.preview.height
        != new_layout.preview.height || last.results.width != new_layout.results.width
        || last.results.height != new_layout.results.height;
    *last = new_layout;
    changed
}

/// The rows the picker's sections ask for.
#[derive(Debug, Clone, Copy, PartialEq, Eq)]
pub struct PickerSizes {
    /// Rows of the input.
    pub input: u16,
    /// Whether the status line is shown.
    pub status_shown: bool,
    /// Rows of the header.
    pub header: u16,
    /// Whether the sections are stacked bottom to top.
    pub reverse: bool,
}

/// The footer's rows, and whether it spans the whole width, below the
/// preview too.
#[derive(Debug, Clone, Copy, PartialEq, Eq)]
pub struct FooterSizes {
    pub height: u16,
    pub full_width: bool,
}

/// The preview model of an optional pane.
pub open spec fn preview_model(p: Option<PreviewUI>) -> Option<PreviewModel> {
    match p {
        Some(q) => Some(q@),
        None => None,
    }
}

/// The areas of a frame in `area`, the picker pane, and whether the preview
/// had to be hidden for lack of room (see [`update_layout_and_state`]).
pub open spec fn frame_layout(
    area: Rect,
    outer: BorderSetting,
    border: BorderSetting,
    sizes: PickerSizes,
    footer: FooterSizes,
    preview: Option<PreviewModel>,
) -> (Layout, Rect, bool) {
    let zero = Rect { x: 0, y: 0, width: 0, height: 0 };
    let a0 = outer.spec_inner_of(area);
    let visible = preview is Some && preview.unwrap().visible();
    let first_cut = if footer.full_width || !visible {
        cut_off(a0, footer.height, sizes.reverse)
    } else {
        (zero, a0)
    };
    let f0 = first_cut.0;
    let a1 = first_cut.1;
    let panes: (Rect, Rect, Rect, Rect, bool) = if visible {
        let pm = preview.unwrap();
        let parts = split_parts(pm, a1);
        let pa = border.spec_inner_of(parts.1);
        let hide = if pm.current().layout.side.spec_is_vertical() {
            pa.width <= RESULTS_MIN_W
        } else {
            pa.height <= RESULTS_MIN_H
        };
        if hide {
            (zero, a1, border.spec_inner_of(a1), f0, true)
        } else if !footer.full_width {
            let c = cut_off(pa, footer.height, sizes.reverse);
            (parts.0, parts.1, c.1, c.0, false)
        } else {
            (parts.0, parts.1, pa, f0, false)
        }
    } else {
        (zero, a1, border.spec_inner_of(a1), f0, false)
    };
    let s = picker_sections(panes.2, sizes.input, sizes.status_shown, sizes.header, sizes.reverse);
    let g = grown(s[2], s[3], panes.3, sizes.reverse);
    (
        Layout { preview: panes.0, input: s[0], status: s[1], header: g.0, results: g.1, footer: g.2 },
        panes.1,
        panes.4,
    )
}

/// Whether an optional pane can be laid out: its layout index is valid, its
/// bounds can be negated, and its border's thickness fits in `u16`.
pub open spec fn preview_ready(p: Option<PreviewModel>) -> bool {
    match p {
        Some(m) => {
            &&& m.wf()
            &&& m.enabled() ==> m.current().layout.min != i16::MIN && m.current().layout.max != i16::MIN
            &&& border_fits(m.border())
        },
        None => true,
    }
}

proof fn lemma_inner_bounded(b: BorderSetting, r: Rect)
    requires
        bounded(r),
        border_fits(b),
    ensures
        bounded(b.spec_inner_of(r)),
{
}

proof fn lemma_cut_bounded(r: Rect, height: u16, cut_top: bool)
    requires
        bounded(r),
    ensures
        bounded(cut_off(r, height, cut_top).0),
        bounded(cut_off(r, height, cut_top).1),
{
}

/// Lays out a frame in `area`: the outer border, the footer (below
/// everything when it spans the whole width or there is no preview), the
/// preview beside the picker pane (hidden when it leaves the results too
/// little room), the picker's border, and its sections, the results taking
/// rows from the footer and the header when they have fewer than
/// [`RESULTS_MIN_H`]. The frame keeps the picker pane; when the preview or
/// the results changed size since `last`, the frame and the preview take
/// their new areas. Returns the areas.
pub fn update_layout_and_state(
    area: Rect,
    last: &mut Layout,
    sizes: &PickerSizes,
    footer: &FooterSizes,
    preview_ui: &mut Option<PreviewUI>,
    ui: &mut UI,
) -> (r: Layout)
    requires
        bounded(area),
        border_fits(old(ui)@.config.outer_border),
        border_fits(old(ui)@.config.border),
        preview_ready(preview_model(*old(preview_ui))),
    ensures
        ({
            let fl = frame_layout(
                area,
                old(ui)@.config.outer_border,
                old(ui)@.config.border,
                *sizes,
                *footer,
                preview_model(*old(preview_ui)),
            );
            let resized = layout_resized(*old(last), fl.0);
            &&& r == fl.0
            &&& *final(last) == fl.0
            &&& final(ui)@ == (UiModel {
                picker_area: fl.1,
                area: if resized {
                    old(ui)@.config.outer_border.spec_inner_of(area)
                } else {
                    old(ui)@.area
                },
                ..old(ui)@
            })
            &&& preview_model(*final(preview_ui)) == match preview_model(*old(preview_ui)) {
                Some(m) => {
                    let m1 = if fl.2 {
                        PreviewModel { show: false, ..m }
                    } else {
                        m
                    };
                    Some(
                        if resized {
                            dimensioned(m1, fl.0.preview)
                        } else {
                            m1
                        },
                    )
                },
                None => None,
            }
        }),
{
    let ghost pm = preview_model(*preview_ui);
    let ghost fl = frame_layout(area, ui@.config.outer_border, ui@.config.border, *sizes, *footer, pm);
    let mut a = ui.outer_border().inner_of(area);
    proof {
        lemma_inner_bounded(ui@.config.outer_border, area);
    }
    let visible = match preview_ui {
        Some(p) => p.visible(),
        None => false,
    };
    let mut footer_rect = if footer.full_width || !visible {
        proof {
            lemma_cut_bounded(a, footer.height, sizes.reverse);
        }
        split(&mut a, footer.height, sizes.reverse)
    } else {
        Rect::default()
    };
    let mut preview = Rect::default();
    let mut picker = a;
    let mut picker_area = ui.border().inner_of(a);
    proof {
        lemma_inner_bounded(ui@.config.border, a);
    }
    let mut hidden = false;
    if visible {
        match preview_ui {
            Some(p) => {
                let parts = p.split(a);
                let pa = ui.border().inner_of(parts[1]);
                proof {
                    lemma_inner_bounded(ui@.config.border, parts@[1]);
                }
                let hide = if p.is_vertical() {
                    pa.width <= RESULTS_MIN_W
                } else {
                    pa.height <= RESULTS_MIN_H
                };
                if hide {
                    p.show(false);
                    hidden = true;
                } else {
                    preview = parts[0];
                    picker = parts[1];
                    let mut pa = pa;
                    if !footer.full_width {
                        proof {
                            lemma_cut_bounded(pa, footer.height, sizes.reverse);
                        }
                        footer_rect = split(&mut pa, footer.height, sizes.reverse);
                    }
                    picker_area = pa;
                }
            },
            None => {},
        }
    }
    let s = picker_layout(picker_area, sizes.input, sizes.status_shown, sizes.header, sizes.reverse);
    let mut header = s[2];
    let mut results = s[3];
    grow_results(&mut header, &mut results, &mut footer_rect, sizes.reverse);
    let layout = Layout { preview, input: s[0], status: s[1], header, results, footer: footer_rect };
    proof {
        assert(layout == fl.0);
        assert(picker == fl.1);
        assert(hidden == fl.2);
    }
    ui.update_picker_area(picker);
    if update_layout(last, layout) {
        ui.update_dimensions(area);
        match preview_ui {
            Some(p) => p.update_dimensions(&preview),
            None => {},
        }
    }
    layout
}

/// What an overlay asks of the picker after handling input.
#[derive(Debug, Clone, Copy, PartialEq, Eq)]
pub enum OverlayEffect {
    NoEffect,
    Disable,
}

impl Default for OverlayEffect {
    fn default() -> (r: Self)
        ensures
            r == OverlayEffect::NoEffect,
    {
        OverlayEffect::NoEffect
    }
}

/// A pending click in the picker.
#[derive(Debug, Clone, PartialEq, Eq)]
pub enum Click {
    NoClick,
    ResultPos(u16),
    Semantic(String),
}

/// The action of the last region of `setting` that starts at or before `x`,
/// unless that action is empty.
pub open spec fn interaction_at(setting: Seq<(nat, Seq<char>)>, x: nat) -> Option<Seq<char>>
    decreases setting.len(),
{
    if setting.len() == 0 {
        None
    } else if setting.last().0 <= x {
        if setting.last().1.len() > 0 {
            Some(setting.last().1)
        } else {
            None
        }
    } else {
        interaction_at(setting.drop_last(), x)
    }
}

/// Interactive regions of a status line: `(start column, action)` pairs.
pub open spec fn regions_view(setting: Seq<(u16, String)>) -> Seq<(nat, Seq<char>)> {
    setting.map_values(|p: (u16, String)| (p.0 as nat, p.1@))
}

/// The action of the region under column `x`.
pub fn find_interaction(setting: &Vec<(u16, String)>, x: u16) -> (r: Option<String>)
    ensures
        match interaction_at(regions_view(setting@), x as nat) {
            Some(a) => r matches Some(s) && s@ == a,
            None => r is None,
        },
{
    let ghost rv = regions_view(setting@);
    let mut i = setting.len();
    proof {
        assert(rv.take(i as int) =~= rv);
    }
    while i > 0
        invariant
            i <= setting@.len(),
            rv == regions_view(setting@),
            interaction_at(rv, x as nat) == interaction_at(rv.take(i as int), x as nat),
        decreases i,
    {
        proof {
            assert(rv.take(i as int).drop_last() =~= rv.take(i as int - 1));
            assert(rv.take(i as int).last() == (setting@[i - 1].0 as nat, setting@[i - 1].1@));
        }
        if setting[i - 1].0 <= x {
            let action = setting[i - 1].1.clone();
            if action.as_str().unicode_len() > 0 {
                return Some(action);
            } else {
                return None;
            }
        }
        i = i - 1;
    }
    None
}

/// Laying out the same areas again reports no resize.
pub proof fn law_same_layout_not_resized(layout: Layout)
    ensures
        !layout_resized(layout, layout),
{
}

} // verus!
