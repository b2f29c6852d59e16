//! The preview pane: which layout is in use, whether it is shown, and where
//! its content is scrolled to.
use vstd::prelude::*;

use crate::config::{
    BorderSetting, BorderSides, PreviewConfig, PreviewSetting, ShowCondition, Side,
};
use crate::render::{line_view, spans_width, usize_sat, StyledSpan, StyledText};
use crate::text::{trim_text_lines, trimmed_lines, wrapped_line_height, Span};
use crate::tui::{max_of, min_of, sat_sub};
use crate::ui::{
    part_of, preview_side_size, preview_size, solve_layout, solved_layout, Direction, Rect, SizeRule,
};
use crate::utils::percent_of;

verus! {

/// The extent of a `width` x `height` area along the axis a pane on `side`
/// divides: its height for the top and bottom, else its width.
pub open spec fn along(side: Side, width: u16, height: u16) -> u16 {
    match side {
        Side::Bottom | Side::Top => height,
        _ => width,
    }
}

/// Whether the first layout leaves the preview more than five cells beyond
/// its lower bound along its axis.
pub open spec fn has_room(layouts: Seq<PreviewSetting>, width: u16, height: u16) -> bool {
    layouts.len() > 0 && along(layouts[0].layout.side, width, height) > 5 + max_of(
        layouts[0].layout.min as int,
        0,
    )
}

/// Whether the preview starts shown in a `width` x `height` picker.
pub open spec fn initial_show(
    show: ShowCondition,
    layouts: Seq<PreviewSetting>,
    width: u16,
    height: u16,
) -> bool {
    match show {
        ShowCondition::Free(x) => layouts.len() > 0 && along(layouts[0].layout.side, width, height)
            >= x,
        ShowCondition::Bool(b) => b && has_room(layouts, width, height),
    }
}

/// A layout's border made to face the results: a drawn border that names
/// no sides gets only the side across from the preview's.
pub open spec fn facing_border(b: BorderSetting, side: Side) -> BorderSetting {
    if b.sides is None && !b.spec_is_empty() {
        BorderSetting { sides: Some(BorderSides::spec_only(side.spec_opposite())), ..b }
    } else {
        b
    }
}

/// A layout with its border made to face the results.
pub open spec fn facing_setting(s: PreviewSetting) -> PreviewSetting {
    match s.border {
        Some(b) => PreviewSetting { border: Some(facing_border(b, s.layout.side)), ..s },
        None => s,
    }
}

/// All layouts with their borders made to face the results.
pub open spec fn facing_settings(layouts: Seq<PreviewSetting>) -> Seq<PreviewSetting> {
    layouts.map_values(|s: PreviewSetting| facing_setting(s))
}

/// The next layout index in the cycle (the previous one when `rev`).
pub open spec fn cycle_step(i: int, len: int, rev: bool) -> int {
    if rev {
        if i == 0 {
            len - 1
        } else {
            i - 1
        }
    } else {
        if i + 1 >= len {
            0
        } else {
            i + 1
        }
    }
}

/// The layout index `k` steps along the cycle from `i`.
pub open spec fn cycle_steps(i: int, len: int, rev: bool, k: nat) -> int
    decreases k,
{
    if k == 0 {
        i
    } else {
        cycle_step(cycle_steps(i, len, rev, (k - 1) as nat), len, rev)
    }
}

/// Whether the layout `k` steps along the cycle from `i` can be shown.
pub open spec fn enabled_at(layouts: Seq<PreviewSetting>, i: int, rev: bool, k: nat) -> bool {
    layouts[cycle_steps(i, layouts.len() as int, rev, k)].layout.max > 0
}

/// The first command that is not empty among the layouts from `from` on.
pub open spec fn first_command(layouts: Seq<PreviewSetting>, from: int) -> Seq<char>
    decreases layouts.len() - from,
{
    if from < 0 || from >= layouts.len() {
        Seq::empty()
    } else if layouts[from].command@.len() > 0 {
        layouts[from].command@
    } else {
        first_command(layouts, from + 1)
    }
}

/// Whether the pane is shown after re-deciding for a `width` x `height`
/// picker (see [`PreviewUI::reevaluate_show_condition`]).
pub open spec fn reevaluated_show(m: PreviewModel, width: u16, height: u16, no_hide: bool) -> bool {
    match m.config.show {
        ShowCondition::Free(x) => if m.enabled() {
            let show = along(m.current().layout.side, width, height) >= x;
            if no_hide && !show {
                m.show
            } else {
                show
            }
        } else {
            m.show
        },
        ShowCondition::Bool(b) => if no_hide && !b {
            m.show
        } else {
            b && has_room(m.config.layout@, width, height)
        },
    }
}

/// The number of steps, between 1 and the number of layouts, to the first
/// enabled layout along the cycle from `i`, if any.
pub open spec fn first_enabled(layouts: Seq<PreviewSetting>, i: int, rev: bool) -> Option<nat> {
    if exists|k: nat| 1 <= k <= layouts.len() && #[trigger] enabled_at(layouts, i, rev, k) {
        Some(
            choose|k: nat|
                1 <= k <= layouts.len() && #[trigger] enabled_at(layouts, i, rev, k) && forall|j: nat|
                    1 <= j < k ==> !#[trigger] enabled_at(layouts, i, rev, j),
        )
    } else {
        None
    }
}

/// The offset after scrolling up `n` lines through `total`: past the top it
/// stops at 0, or comes round from the end when `wrap`.
pub open spec fn scrolled_up(offset: nat, n: nat, total: nat, wrap: bool) -> nat {
    if offset >= n {
        (offset - n) as nat
    } else if wrap {
        sat_sub(total as int, n - offset) as nat
    } else {
        0
    }
}

/// The offset after scrolling down `n` lines through `total`: past the end
/// it stops at `total`, or comes round to 0 when `wrap`.
pub open spec fn scrolled_down(offset: nat, n: nat, total: nat, wrap: bool) -> nat {
    if offset + n > total {
        if wrap {
            0
        } else {
            total
        }
    } else {
        offset + n
    }
}

/// The offset that shows the last of `lines` lines in `height` rows below
/// `header` fixed lines.
pub open spec fn end_offset(lines: nat, header: nat, height: nat) -> nat {
    sat_sub(sat_sub(lines as int, min_of(header as int, height as int)), height as int) as nat
}

/// Offset, whether the target is reached, and jump after one jump
/// (see [`PreviewUI::jump`]); `end` is the offset at the end.
pub open spec fn jump_step(
    tail: bool,
    offset: usize,
    attained: bool,
    jump: (bool, usize),
    end: usize,
) -> (usize, bool, (bool, usize)) {
    if tail {
        if offset > 0 {
            (0, false, (false, offset))
        } else if !jump.0 {
            (0, true, (true, jump.1))
        } else {
            (jump.1, true, (false, 0))
        }
    } else {
        if jump == (false, 0usize) {
            (end, attained, (true, offset))
        } else if jump.0 && jump.1 != 0 {
            (0, false, (false, jump.1))
        } else {
            (jump.1, attained, (false, 0))
        }
    }
}

/// The rows line `i` of `lines` takes when wrapped at `width` columns; a
/// missing line counts as one row.
pub open spec fn rows_of(lines: Seq<Seq<Span>>, i: int, width: u16) -> nat {
    if 0 <= i < lines.len() && width > 0 {
        (((usize_sat(spans_width(lines[i]) as int) + width - 1) / (width as int)) % 65536) as nat
    } else {
        1
    }
}

/// The line to put at the top so that `target` stands `above` rows down:
/// the target moves up while the rows of the line it is on fit in what is
/// left of `above`.
pub open spec fn walked_up(lines: Seq<Seq<Span>>, width: u16, target: nat, above: nat) -> nat
    decreases target,
{
    if target == 0 || above == 0 {
        target
    } else {
        let prev = rows_of(lines, target as int, width);
        if prev > above {
            target
        } else {
            walked_up(lines, width, (target - 1) as nat, (above - prev) as nat)
        }
    }
}

/// Whether the walk of [`walked_up`] never measures a line at width 0.
pub open spec fn walk_defined(lines: Seq<Seq<Span>>, width: u16, target: nat, above: nat) -> bool
    decreases target,
{
    if target == 0 || above == 0 {
        true
    } else if target < lines.len() && width == 0 {
        false
    } else {
        let prev = rows_of(lines, target as int, width);
        prev > above || walk_defined(lines, width, (target - 1) as nat, (above - prev) as nat)
    }
}

/// The rows above a target line: the complement of the initial percentage
/// of the pane's height.
pub open spec fn rows_above(m: PreviewModel) -> nat {
    percent_of((100 - m.config.initial.percentage.value()) as nat, m.area.height as nat)
}

/// The line a target names among `len` lines: counted from the end when
/// negative (0 at the least).
pub open spec fn target_of(t: int, len: nat) -> nat {
    if t < 0 {
        sat_sub(len as int, -t) as nat
    } else {
        t as nat
    }
}

/// The initial offset, -1 when absent.
pub open spec fn initial_shift(m: PreviewModel) -> int {
    match m.config.initial.offset {
        Some(o) => o as int,
        None => -1,
    }
}

/// The pane after asking it to show line `target` of `lines`.
pub open spec fn targeted(m: PreviewModel, target: Option<isize>, lines: Seq<Seq<Span>>) -> PreviewModel {
    if m.config.initial.tail {
        m
    } else {
        match target {
            None => PreviewModel { target: None, offset: 0, ..m },
            Some(t) => {
                let idx = target_of(t + initial_shift(m), lines.len());
                if idx >= lines.len() {
                    PreviewModel {
                        target: Some(idx as usize),
                        attained_target: false,
                        offset: sat_sub(lines.len() as int, (m.area.height / 2) as int) as usize,
                        ..m
                    }
                } else {
                    PreviewModel {
                        target: Some(idx as usize),
                        attained_target: true,
                        offset: walked_up(lines, m.area.width, idx, rows_above(m)) as usize,
                        ..m
                    }
                }
            },
        }
    }
}

/// Whether asking for `target` among `lines` stays within `isize` and never
/// measures a line at width 0.
pub open spec fn target_defined(m: PreviewModel, target: Option<isize>, lines: Seq<Seq<Span>>) -> bool {
    m.config.initial.tail || match target {
        None => true,
        Some(t) => {
            &&& isize::MIN <= t + initial_shift(m) <= isize::MAX
            &&& target_of(t + initial_shift(m), lines.len()) < lines.len() ==> walk_defined(
                lines,
                m.area.width,
                target_of(t + initial_shift(m), lines.len()),
                rows_above(m),
            )
        },
    }
}

/// The lines of `lines` shown in `height` rows: the first `header` ones
/// (as many as fit), then, after skipping `offset` more, as many as fill
/// the rows left below the header.
pub open spec fn shown_lines<A>(lines: Seq<A>, header: nat, height: nat, offset: nat) -> Seq<A> {
    if height == 0 {
        Seq::empty()
    } else {
        let head = min_of(min_of(header as int, height as int), lines.len() as int);
        let start = min_of(head + offset, lines.len() as int);
        let room = if header < height {
            height - header
        } else {
            0
        };
        let end = min_of(start + room, lines.len() as int);
        lines.subrange(0, head) + lines.subrange(start, end)
    }
}

/// The offset that shows the last of `len` lines below the header, moved
/// up by a negative initial offset.
pub open spec fn tail_offset(len: nat, header: nat, height: nat, shift: Option<isize>) -> nat {
    let head = min_of(header as int, height as int);
    let o = sat_sub(sat_sub(len as int, head), sat_sub(height as int, head)) as nat;
    match shift {
        Some(s) => if s < 0 {
            sat_sub(o as int, -s) as nat
        } else {
            o
        },
        None => o,
    }
}

/// The pane once it has seen content of `len` lines: a shorter content
/// than last time scrolls back to the top and ends a jump.
pub open spec fn recounted(m: PreviewModel, len: nat) -> PreviewModel {
    let m1 = if len < m.last_count {
        PreviewModel { offset: 0, attained_target: false, jump: (false, 0), ..m }
    } else {
        m
    };
    PreviewModel { last_count: len as usize, ..m1 }
}

/// The content drawn: trimmed of blank lines at both ends when asked.
pub open spec fn drawn_text(m: PreviewModel, t: Seq<Seq<Span>>) -> Seq<Seq<Span>> {
    if m.config.trim_ends {
        trimmed_lines(t)
    } else {
        t
    }
}

/// The pane after drawing `t` (already trimmed), and the offset the lines
/// are shown from (see [`PreviewUI::make_preview`]).
pub open spec fn after_draw(m: PreviewModel, t: Seq<Seq<Span>>) -> (PreviewModel, nat) {
    let len = t.len();
    let m2 = recounted(m, len);
    let header = m.config.initial.header_lines as nat;
    let height = m.area.height as nat;
    if m2.config.initial.tail && !m2.attained_target {
        let o = tail_offset(len, header, height, m.config.initial.offset);
        if m2.offset != 0 {
            let moved = if m2.offset > o || m2.offset + o > len {
                sat_sub(m2.offset as int, sat_sub(len as int, o as int)) as nat
            } else {
                (m2.offset + o) as nat
            };
            (PreviewModel { offset: moved as usize, attained_target: true, ..m2 }, o)
        } else {
            (m2, o)
        }
    } else if m2.target is Some && !m2.attained_target && m2.target.unwrap() < len {
        (
            PreviewModel {
                offset: walked_up(t, m.area.width, m2.target.unwrap() as nat, rows_above(m)) as usize,
                attained_target: true,
                ..m2
            },
            m.offset as nat,
        )
    } else {
        (m2, m.offset as nat)
    }
}

/// Whether drawing `t` (already trimmed) stays within `usize` and never
/// measures a line at width 0.
pub open spec fn draw_defined(m: PreviewModel, t: Seq<Seq<Span>>) -> bool {
    let len = t.len();
    let m2 = recounted(m, len);
    let o = tail_offset(len, m.config.initial.header_lines as nat, m.area.height as nat, m.config.initial.offset);
    if m2.config.initial.tail && !m2.attained_target {
        m2.offset != 0 && m2.offset <= o ==> m2.offset + o <= usize::MAX
    } else if m2.target is Some && !m2.attained_target && m2.target.unwrap() < len {
        walk_defined(t, m.area.width, m2.target.unwrap() as nat, rows_above(m))
    } else {
        true
    }
}

/// The size of the pane along its axis: the size it was dragged to, else
/// its content area and border along the axis of the layout in use (the
/// left and right for a disabled layout).
pub open spec fn size_now(m: PreviewModel) -> int {
    match m.current_dimension {
        Some(d) => d as int,
        None => {
            let side = if m.enabled() {
                m.current().layout.side
            } else {
                Side::Right
            };
            if side.spec_is_vertical() {
                m.area.width + m.border().spec_width()
            } else {
                m.area.height + m.border().spec_height()
            }
        },
    }
}

/// Whether a pane on `side` comes before the rest: on the left or the top.
pub open spec fn comes_first(side: Side) -> bool {
    side == Side::Left || side == Side::Top
}

/// The axis a pane on `side` divides along.
pub open spec fn axis_of(side: Side) -> Direction {
    if side.spec_is_vertical() {
        Direction::Horizontal
    } else {
        Direction::Vertical
    }
}

/// The size rules dividing the preview of `size` cells from the rest.
pub open spec fn preview_rules(side: Side, size: u16) -> Seq<SizeRule> {
    if comes_first(side) {
        seq![SizeRule::Length(size), SizeRule::Min(0)]
    } else {
        seq![SizeRule::Min(0), SizeRule::Length(size)]
    }
}

/// The preview's part and the rest of `area` (see [`PreviewUI::split`]).
pub open spec fn split_parts(m: PreviewModel, area: Rect) -> (Rect, Rect) {
    if !m.enabled() {
        (Rect { x: 0, y: 0, width: 0, height: 0 }, area)
    } else {
        let l = m.current().layout;
        let total = if l.side.spec_is_vertical() {
            area.width
        } else {
            area.height
        };
        let border = if l.side.spec_is_vertical() {
            m.border().spec_width()
        } else {
            m.border().spec_height()
        };
        let size = preview_size(total as nat, l, border, m.current_dimension) as u16;
        let parts = solved_layout(area, axis_of(l.side), preview_rules(l.side, size));
        if comes_first(l.side) {
            (parts[0], parts[1])
        } else {
            (parts[1], parts[0])
        }
    }
}

/// The pane after taking the inside of its border in `area` as its content
/// area, and re-deciding whether it is shown when asked to on resize.
pub open spec fn dimensioned(m: PreviewModel, area: Rect) -> PreviewModel {
    let m1 = PreviewModel { area: m.border().spec_inner_of(area), ..m };
    if m1.config.reevaluate_show_on_resize {
        PreviewModel { show: reevaluated_show(m1, area.width, area.height, false), ..m1 }
    } else {
        m1
    }
}

/// The state of a preview pane.
pub struct PreviewUI {
    pub config: PreviewConfig,
    /// The content area.
    pub area: Rect,
    layout_idx: usize,
    show: bool,
    /// The size the pane was dragged or resized to, if any.
    pub current_dimension: Option<u16>,
    /// Rows and columns the wrapped content is scrolled by.
    pub scroll: [u16; 2],
    offset: usize,
    target: Option<usize>,
    attained_target: bool,
    /// Whether a jump is under way, and the offset to come back to.
    pub jump: (bool, usize),
    /// How many lines the content had when last drawn.
    pub last_count: usize,
}

/// What a preview pane holds, field for field.
pub struct PreviewModel {
    pub config: PreviewConfig,
    pub area: Rect,
    pub layout_idx: usize,
    pub show: bool,
    pub current_dimension: Option<u16>,
    pub scroll: [u16; 2],
    pub offset: usize,
    pub target: Option<usize>,
    pub attained_target: bool,
    pub jump: (bool, usize),
    pub last_count: usize,
}

impl View for PreviewUI {
    type V = PreviewModel;

    closed spec fn view(&self) -> PreviewModel {
        PreviewModel {
            config: self.config,
            area: self.area,
            layout_idx: self.layout_idx,
            show: self.show,
            current_dimension: self.current_dimension,
            scroll: self.scroll,
            offset: self.offset,
            target: self.target,
            attained_target: self.attained_target,
            jump: self.jump,
            last_count: self.last_count,
        }
    }
}

impl PreviewModel {
    /// The layout index points into the layouts.
    pub open spec fn wf(self) -> bool {
        self.layout_idx < self.config.layout@.len()
    }

    /// The layout in use.
    pub open spec fn current(self) -> PreviewSetting {
        self.config.layout@[self.layout_idx as int]
    }

    /// Whether the layout in use is enabled (a zero upper bound disables it).
    pub open spec fn enabled(self) -> bool {
        self.current().layout.max != 0
    }

    pub open spec fn visible(self) -> bool {
        self.enabled() && self.show
    }

    /// The border in use: the layout's own, else the pane's.
    pub open spec fn border(self) -> BorderSetting {
        if self.enabled() && self.current().border is Some {
            self.current().border.unwrap()
        } else {
            self.config.border
        }
    }

    /// The same pane with another offset, target position and jump.
    pub open spec fn scrolled(self, offset: usize, attained: bool, jump: (bool, usize)) -> PreviewModel {
        PreviewModel { offset, attained_target: attained, jump, ..self }
    }
}

impl PreviewUI {
    /// The pane for `config` in a picker of `ui_width` x `ui_height`: borders
    /// that name no sides face the results, an empty list of layouts gets one
    /// disabled layout, and the configured initial layout is selected when it
    /// exists.
    pub fn new(config: PreviewConfig, ui_size: [u16; 2]) -> (r: Self)
        ensures
            r@.wf(),
            config.layout@.len() > 0 ==> r@.config.layout@ == facing_settings(config.layout@),
            config.layout@.len() == 0 ==> r@.config.layout@.len() == 1
                && r@.config.layout@[0].layout.max == 0 && r@.config.layout@[0].layout.min == 30
                && r@.config.layout@[0].layout.side == Side::Right
                && r@.config.layout@[0].layout.percentage.value() == 60
                && r@.config.layout@[0].command@.len() == 0 && r@.config.layout@[0].border is None,
            (r@.config == PreviewConfig { layout: r@.config.layout, ..config }),
            r@.show == initial_show(config.show, facing_settings(config.layout@), ui_size@[0], ui_size@[1]),
            r@.layout_idx == if (config.initial_layout as nat) < r@.config.layout@.len() {
                config.initial_layout as usize
            } else {
                0
            },
            (r@.area == Rect { x: 0, y: 0, width: 0, height: 0 }),
            r@.current_dimension is None,
            r@.scroll@ == seq![0u16, 0u16],
            r@.offset == 0,
            r@.target is None,
            !r@.attained_target,
            r@.jump == (false, 0usize),
            r@.last_count == 0,
    {
        let ui_width = ui_size[0];
        let ui_height = ui_size[1];
        let PreviewConfig {
            border,
            layout,
            initial,
            initial_layout,
            show,
            scroll_wrap,
            wrap,
            reevaluate_show_on_resize,
            drag_width,
            trim_ends,
        } = config;
        let layouts = facing_layouts(layout);
        let show = match show {
            ShowCondition::Free(x) => {
                if layouts.len() > 0 {
                    let along = if let Side::Bottom | Side::Top = layouts[0].layout.side {
                        ui_height
                    } else {
                        ui_width
                    };
                    along >= x
                } else {
                    false
                }
            },
            ShowCondition::Bool(x) => x && room(&layouts, ui_width, ui_height),
        };
        let mut layouts = layouts;
        if layouts.len() == 0 {
            let mut s = PreviewSetting::default();
            s.layout.max = 0;
            layouts.push(s);
        }
        let config = PreviewConfig {
            border,
            layout: layouts,
            initial,
            initial_layout,
            show: config.show,
            scroll_wrap,
            wrap,
            reevaluate_show_on_resize,
            drag_width,
            trim_ends,
        };
        let mut ret = PreviewUI {
            config,
            layout_idx: 0,
            scroll: [0, 0],
            offset: 0,
            area: Rect::default(),
            target: None,
            attained_target: false,
            last_count: 0,
            jump: (false, 0),
            show,
            current_dimension: None,
        };
        ret.set_layout(initial_layout);
        ret
    }

    /// Switches to layout `idx` and drops any dragged size, when that layout
    /// exists; returns whether the layout changed.
    pub fn set_layout(&mut self, idx: u8) -> (r: bool)
        ensures
            (idx as nat) < old(self)@.config.layout@.len() ==> final(self)@ == (PreviewModel {
                layout_idx: idx as usize,
                current_dimension: None,
                ..old(self)@
            }) && r == (old(self)@.layout_idx != idx as usize),
            (idx as nat) >= old(self)@.config.layout@.len() ==> final(self)@ == old(self)@ && !r,
    {
        let idx = idx as usize;
        if idx < self.config.layout.len() {
            let changed = self.layout_idx != idx;
            self.layout_idx = idx;
            self.reinit();
            changed
        } else {
            false
        }
    }

    /// Re-decides whether the pane is shown for a `ui_width` x `ui_height`
    /// picker. With `no_hide`, a pane is never hidden by this.
    pub fn reevaluate_show_condition(&mut self, ui_size: [u16; 2], no_hide: bool)
        requires
            old(self)@.wf(),
        ensures
            final(self)@ == (PreviewModel { show: reevaluated_show(old(self)@, ui_size@[0], ui_size@[1], no_hide), ..old(self)@ }),
    {
        let ui_width = ui_size[0];
        let ui_height = ui_size[1];
        match self.config.show {
            ShowCondition::Free(x) => {
                let idx = self.layout_idx;
                if self.config.layout[idx].layout.max != 0 {
                    let along = if let Side::Bottom | Side::Top = self.config.layout[idx].layout.side {
                        ui_height
                    } else {
                        ui_width
                    };
                    let show = along >= x;
                    if no_hide && !show {
                        return;
                    }
                    self.show(show);
                }
            },
            ShowCondition::Bool(show) => {
                if no_hide && !show {
                    return;
                }
                let show = show && room(&self.config.layout, ui_width, ui_height);
                self.show(show);
            },
        }
    }

    /// The layout in use, unless it is disabled.
    pub fn setting(&self) -> (r: Option<&PreviewSetting>)
        requires
            self@.wf(),
        ensures
            r is Some == self@.enabled(),
            r is Some ==> *r.unwrap() == self@.current(),
    {
        let ret = &self.config.layout[self.layout_idx];
        if ret.layout.max != 0 {
            Some(ret)
        } else {
            None
        }
    }

    /// Whether the pane is drawn: its layout is enabled and it is shown.
    pub fn visible(&self) -> (r: bool)
        requires
            self@.wf(),
        ensures
            r == self@.visible(),
    {
        self.setting().is_some() && self.show
    }

    /// The command of the layout in use, empty when it is disabled.
    pub fn command(&self) -> (r: &str)
        requires
            self@.wf(),
        ensures
            r@ == if self@.enabled() {
                self@.current().command@
            } else {
                Seq::empty()
            },
    {
        match self.setting() {
            Some(x) => x.command.as_str(),
            None => {
                proof {
                    reveal_strlit("");
                }
                ""
            },
        }
    }

    /// The border in use: the layout's own, else the pane's.
    pub fn border(&self) -> (r: &BorderSetting)
        requires
            self@.wf(),
        ensures
            *r == self@.border(),
    {
        match self.setting() {
            Some(s) => match &s.border {
                Some(b) => b,
                None => &self.config.border,
            },
            None => &self.config.border,
        }
    }

    /// The command to run first: that of the layout in use, else the first
    /// layout command that is not empty, else the empty string.
    pub fn get_initial_command(&self) -> (r: &str)
        requires
            self@.wf(),
        ensures
            r@ == if self@.enabled() && self@.current().command@.len() > 0 {
                self@.current().command@
            } else {
                first_command(self@.config.layout@, 0)
            },
    {
        let x = self.command();
        if x.unicode_len() > 0 {
            return x;
        }
        let mut i: usize = 0;
        while i < self.config.layout.len()
            invariant
                0 <= i <= self.config.layout@.len(),
                first_command(self.config.layout@, 0) == first_command(self.config.layout@, i as int),
                !(self@.enabled() && self@.current().command@.len() > 0),
            decreases self.config.layout@.len() - i,
        {
            let cmd = self.config.layout[i].command.as_str();
            if cmd.unicode_len() > 0 {
                proof {
                    assert(cmd@ == self@.config.layout@[i as int].command@);
                    assert(first_command(self@.config.layout@, i as int) == cmd@);
                }
                return cmd;
            }
            i = i + 1;
        }
        proof {
            reveal_strlit("");
        }
        ""
    }

    /// Whether the layout in use puts the preview to the left or right.
    pub fn is_vertical(&self) -> (r: bool)
        requires
            self@.wf(),
        ensures
            r == (self@.enabled() && self@.current().layout.side.spec_is_vertical()),
    {
        match self.setting() {
            Some(s) => s.layout.side.is_vertical(),
            None => false,
        }
    }

    /// Moves to the next enabled layout (the previous one when `rev`),
    /// dropping any dragged size; with none, nothing changes.
    pub fn cycle_layout(&mut self, rev: bool)
        requires
            old(self)@.wf(),
        ensures
            final(self)@.wf(),
            match first_enabled(old(self)@.config.layout@, old(self)@.layout_idx as int, rev) {
                Some(k) => final(self)@ == (PreviewModel {
                    layout_idx: cycle_steps(
                        old(self)@.layout_idx as int,
                        old(self)@.config.layout@.len() as int,
                        rev,
                        k,
                    ) as usize,
                    current_dimension: None,
                    ..old(self)@
                }),
                None => final(self)@ == old(self)@,
            },
    {
        let len = self.config.layout.len();
        let ghost start = self.layout_idx as int;
        let ghost layouts = self.config.layout@;
        let ghost before = self@;
        let mut k: usize = 0;
        while k < len
            invariant
                len == layouts.len(),
                self.config.layout@ == layouts,
                self@ == (PreviewModel { layout_idx: self.layout_idx, ..before }),
                before == old(self)@,
                start == old(self)@.layout_idx,
                0 <= start < len,
                0 <= k <= len,
                self.layout_idx as int == cycle_steps(start, len as int, rev, k as nat),
                0 <= self.layout_idx < len,
                forall|j: nat| 1 <= j <= k ==> !enabled_at(layouts, start, rev, j),
            decreases len - k,
        {
            if rev {
                self.layout_idx = if self.layout_idx == 0 {
                    len - 1
                } else {
                    self.layout_idx - 1
                };
            } else {
                self.layout_idx = if self.layout_idx + 1 >= len {
                    0
                } else {
                    self.layout_idx + 1
                };
            }
            k = k + 1;
            if self.config.layout[self.layout_idx].layout.max > 0 {
                self.reinit();
                proof {
                    assert(enabled_at(layouts, start, rev, k as nat));
                    lemma_first_enabled_is(layouts, start, rev, k as nat);
                    lemma_cycle_in_range(start, len as int, rev, k as nat);
                    assert(self.layout_idx as int == cycle_steps(start, len as int, rev, k as nat));
                }
                return;
            }
        }
        proof {
            lemma_none_enabled(layouts, start, rev);
            lemma_full_cycle(start, len as int, rev);
        }
    }

    /// Shows or hides the pane; returns whether that changed anything.
    pub fn show(&mut self, show: bool) -> (r: bool)
        ensures
            final(self)@ == (PreviewModel { show, ..old(self)@ }),
            r == (old(self)@.show != show),
    {
        let changed = self.show != show;
        self.show = show;
        changed
    }

    /// Shows a hidden pane, hides a shown one.
    pub fn toggle_show(&mut self)
        ensures
            final(self)@ == (PreviewModel { show: !old(self)@.show, ..old(self)@ }),
    {
        self.show = !self.show;
    }

    /// Turns line wrapping on or off.
    pub fn wrap(&mut self, wrap: bool)
        ensures
            final(self)@ == (PreviewModel {
                config: PreviewConfig { wrap, ..old(self)@.config },
                ..old(self)@
            }),
    {
        self.config.wrap = wrap;
    }

    /// Whether lines are wrapped.
    pub fn is_wrap(&self) -> (r: bool)
        ensures
            r == self@.config.wrap,
    {
        self.config.wrap
    }

    /// The line shown first below the header lines: the header lines plus
    /// the lines scrolled past.
    pub fn offset(&self) -> (r: usize)
        requires
            self@.config.initial.header_lines + self@.offset <= usize::MAX,
        ensures
            r == self@.config.initial.header_lines + self@.offset,
    {
        self.config.initial.header_lines + self.offset
    }

    /// The line the content was asked to show.
    pub fn target_line(&self) -> (r: Option<usize>)
        ensures
            r == self@.target,
    {
        self.target
    }

    /// Scrolls up `n` of `total_lines` lines.
    pub fn up(&mut self, n: u16, total_lines: usize)
        ensures
            final(self)@ == (PreviewModel {
                offset: scrolled_up(
                    old(self)@.offset as nat,
                    n as nat,
                    total_lines as nat,
                    old(self)@.config.scroll_wrap,
                ) as usize,
                ..old(self)@
            }),
    {
        let n = n as usize;
        if self.offset >= n {
            self.offset = self.offset - n;
        } else if self.config.scroll_wrap {
            self.offset = total_lines.saturating_sub(n - self.offset);
        } else {
            self.offset = 0;
        }
    }

    /// Scrolls down `n` of `total_lines` lines.
    pub fn down(&mut self, n: u16, total_lines: usize)
        requires
            old(self)@.offset + n <= usize::MAX,
        ensures
            final(self)@ == (PreviewModel {
                offset: scrolled_down(
                    old(self)@.offset as nat,
                    n as nat,
                    total_lines as nat,
                    old(self)@.config.scroll_wrap,
                ) as usize,
                ..old(self)@
            }),
    {
        let n = n as usize;
        if self.offset + n > total_lines {
            if self.config.scroll_wrap {
                self.offset = 0;
            } else {
                self.offset = total_lines;
            }
        } else {
            self.offset = self.offset + n;
        }
    }

    /// Resets the wrapped content's scroll along one axis (the columns when
    /// `horizontal`). Only a zero `val` is accepted: any other value makes
    /// the clamp bounds cross.
    pub fn scroll(&mut self, horizontal: bool, val: i8)
        requires
            val == 0,
        ensures
            final(self)@ == (PreviewModel {
                scroll: if horizontal {
                    [old(self)@.scroll[0], 0]
                } else {
                    [0, old(self)@.scroll[1]]
                },
                ..old(self)@
            }),
    {
        if horizontal {
            self.scroll = [self.scroll[0], 0];
        } else {
            self.scroll = [0, self.scroll[1]];
        }
    }

    /// Asks the pane to show line `target` of `results` (counted from the
    /// end when negative), shifted by the initial offset; `None` forgets the
    /// target. A pane that follows the end ignores this.
    pub fn set_target(&mut self, target: Option<isize>, results: &StyledText)
        requires
            target_defined(old(self)@, target, results@),
        ensures
            final(self)@ == targeted(old(self)@, target, results@),
    {
        if self.config.initial.tail {
            return;
        }
        let line_count = results.lines.len();
        let t = match target {
            None => {
                self.target = None;
                self.offset = 0;
                return;
            },
            Some(t) => t,
        };
        let shift: isize = match self.config.initial.offset {
            Some(o) => o,
            None => -1,
        };
        let t = t + shift;
        let index = if t < 0 {
            let back = ((0 - (t + 1)) as usize) + 1;
            line_count.saturating_sub(back)
        } else {
            t as usize
        };
        self.target = Some(index);
        if index >= line_count {
            self.attained_target = false;
            self.offset = line_count.saturating_sub(self.area.height as usize / 2);
        } else {
            self.attained_target = true;
            self.offset = self.target_to_offset(index, results);
        }
    }

    /// Jumps to the end and back: a first jump goes to the end (to the
    /// start when following the end), the next ones come back to where the
    /// first one left. `line_count` is the number of lines of the content.
    pub fn jump(&mut self, line_count: usize)
        ensures
            ({
                let m = old(self)@;
                let (offset, attained, jump) = jump_step(
                    m.config.initial.tail,
                    m.offset,
                    m.attained_target,
                    m.jump,
                    end_offset(line_count as nat, m.config.initial.header_lines as nat, m.area.height as nat)
                        as usize,
                );
                final(self)@ == m.scrolled(offset, attained, jump)
            }),
    {
        if self.config.initial.tail {
            if self.offset > 0 {
                self.jump = (false, self.offset);
                self.reset_scroll();
            } else {
                if !self.jump.0 {
                    self.attained_target = true;
                    self.offset = 0;
                    self.jump = (true, self.jump.1);
                } else {
                    self.offset = self.jump.1;
                    self.attained_target = true;
                    self.jump = (false, 0);
                }
            }
        } else {
            if !self.jump.0 && self.jump.1 == 0 {
                self.jump = (true, self.offset);
                self.scroll_end(line_count);
            } else if self.jump.0 && self.jump.1 != 0 {
                self.jump = (false, self.jump.1);
                self.reset_scroll();
            } else {
                self.offset = self.jump.1;
                self.jump = (false, 0);
            }
        }
    }

    /// Scrolls back to the top.
    pub fn reset_scroll(&mut self)
        ensures
            final(self)@ == (PreviewModel { offset: 0, attained_target: false, ..old(self)@ }),
    {
        self.offset = 0;
        self.attained_target = false;
    }

    /// Scrolls so that the last of `line_count` lines is at the bottom.
    pub fn scroll_end(&mut self, line_count: usize)
        ensures
            final(self)@ == (PreviewModel {
                offset: end_offset(
                    line_count as nat,
                    old(self)@.config.initial.header_lines as nat,
                    old(self)@.area.height as nat,
                ) as usize,
                ..old(self)@
            }),
    {
        let height = self.area.height as usize;
        let header_count = if self.config.initial.header_lines <= height {
            self.config.initial.header_lines
        } else {
            height
        };
        let remaining_lines = line_count.saturating_sub(header_count);
        self.offset = remaining_lines.saturating_sub(height);
    }

    /// The line to scroll to so that line `target` of `results` stands the
    /// rows above it down the pane (see [`walked_up`]).
    fn target_to_offset(&self, target: usize, results: &StyledText) -> (r: usize)
        requires
            walk_defined(results@, self@.area.width, target as nat, rows_above(self@)),
        ensures
            r == walked_up(results@, self@.area.width, target as nat, rows_above(self@)),
    {
        let width = self.area.width;
        let mut lines_above = self.config.initial.percentage.complement().compute_clamped(
            self.area.height,
            0,
            0,
        );
        let ghost goal = walked_up(results@, width, target as nat, rows_above(self@));
        let mut target = target;
        let mut stop = false;
        while target > 0 && lines_above > 0 && !stop
            invariant
                width == self@.area.width,
                stop ==> target == goal,
                !stop ==> walked_up(results@, width, target as nat, lines_above as nat) == goal,
                !stop ==> walk_defined(results@, width, target as nat, lines_above as nat),
            decreases target + if stop {
                0int
            } else {
                1int
            },
        {
            let prev: u16 = if target < results.lines.len() {
                proof {
                    assert(results@[target as int] == line_view(results.lines@[target as int]@));
                }
                wrapped_line_height(&results.lines[target], width)
            } else {
                1
            };
            if prev > lines_above {
                stop = true;
            } else {
                target = target - 1;
                lines_above = lines_above - prev;
            }
        }
        target
    }

    /// Grows the pane by `n` (0 goes back to the layout's own size).
    pub fn expand(&mut self, n: u16)
        requires
            old(self)@.wf(),
            old(self)@.border().spec_width() <= u16::MAX,
            old(self)@.border().spec_height() <= u16::MAX,
            size_now(old(self)@) <= u16::MAX,
        ensures
            final(self)@ == (PreviewModel {
                current_dimension: if n == 0 {
                    None
                } else {
                    Some(min_of(size_now(old(self)@) + n, u16::MAX as int) as u16)
                },
                ..old(self)@
            }),
    {
        if n == 0 {
            self.current_dimension = None;
            return;
        }
        let current = self.current_size();
        self.current_dimension = Some(current.saturating_add(n));
    }

    /// Shrinks the pane by `n` (0 goes back to the layout's own size).
    pub fn shrink(&mut self, n: u16)
        requires
            old(self)@.wf(),
            old(self)@.border().spec_width() <= u16::MAX,
            old(self)@.border().spec_height() <= u16::MAX,
            size_now(old(self)@) <= u16::MAX,
        ensures
            final(self)@ == (PreviewModel {
                current_dimension: if n == 0 {
                    None
                } else {
                    Some(sat_sub(size_now(old(self)@), n as int) as u16)
                },
                ..old(self)@
            }),
    {
        if n == 0 {
            self.current_dimension = None;
            return;
        }
        let current = self.current_size();
        self.current_dimension = Some(current.saturating_sub(n));
    }

    /// The size of the pane along its axis (see [`size_now`]).
    fn current_size(&self) -> (r: u16)
        requires
            self@.wf(),
            self@.border().spec_width() <= u16::MAX,
            self@.border().spec_height() <= u16::MAX,
            size_now(self@) <= u16::MAX,
        ensures
            r == size_now(self@),
    {
        match self.current_dimension {
            Some(dim) => dim,
            None => {
                let side = match self.setting() {
                    Some(s) => s.layout.side,
                    None => Side::Right,
                };
                if side.is_vertical() {
                    self.area.width + self.border().width()
                } else {
                    self.area.height + self.border().height()
                }
            },
        }
    }

    /// Takes the area inside the pane's border as its content area, and
    /// re-decides whether it is shown when asked to on resize.
    pub fn update_dimensions(&mut self, area: &Rect)
        requires
            old(self)@.wf(),
            old(self)@.border().spec_width() <= u16::MAX,
            old(self)@.border().spec_height() <= u16::MAX,
        ensures
            final(self)@ == dimensioned(old(self)@, *area),
    {
        self.area = self.border().inner_of(*area);
        if self.config.reevaluate_show_on_resize {
            self.reevaluate_show_condition([area.width, area.height], false);
        }
    }

    /// The lines to draw of `results`: trimmed of blank lines at both ends
    /// when asked, the header lines first, then the lines from the scroll
    /// position on. Drawing also moves the scroll position: back to the top
    /// when the content got shorter, to the end when following it, or to
    /// the target line once it exists.
    pub fn make_preview(&mut self, results: StyledText) -> (r: StyledText)
        requires
            draw_defined(old(self)@, drawn_text(old(self)@, results@)),
        ensures
            ({
                let t = drawn_text(old(self)@, results@);
                let (m, offset) = after_draw(old(self)@, t);
                &&& final(self)@ == m
                &&& r@ == shown_lines(
                    t,
                    old(self)@.config.initial.header_lines as nat,
                    old(self)@.area.height as nat,
                    offset,
                )
            }),
    {
        let mut results = results;
        if self.config.trim_ends {
            trim_text_lines(&mut results);
        }
        let offset = self.settle(&results);
        let header_lines = self.config.initial.header_lines;
        let height = self.area.height as usize;
        let ghost t = results@;
        let ghost lines = results.lines@;
        let r = StyledText { lines: shown(results.lines, header_lines, height, offset) };
        proof {
            lemma_shown_view(lines, header_lines as nat, height as nat, offset as nat);
        }
        r
    }

    /// Moves the scroll position for content `results` (see [`after_draw`])
    /// and returns the offset to show the lines from.
    fn settle(&mut self, results: &StyledText) -> (offset: usize)
        requires
            draw_defined(old(self)@, results@),
        ensures
            final(self)@ == after_draw(old(self)@, results@).0,
            offset == after_draw(old(self)@, results@).1,
    {
        let rl = results.lines.len();
        let height = self.area.height as usize;
        let mut offset = self.offset;
        if rl < self.last_count {
            self.offset = 0;
            self.attained_target = false;
            self.jump = (false, 0);
        }
        self.last_count = rl;
        let header_lines = self.config.initial.header_lines;
        if self.config.initial.tail && !self.attained_target {
            let header_count = if header_lines <= height {
                header_lines
            } else {
                height
            };
            let remaining_lines = rl.saturating_sub(header_count);
            let remaining_space = height.saturating_sub(header_count);
            offset = remaining_lines.saturating_sub(remaining_space);
            if let Some(s) = self.config.initial.offset {
                if s < 0 {
                    let back = ((0 - (s + 1)) as usize) + 1;
                    offset = offset.saturating_sub(back);
                }
            }
            if self.offset != 0 {
                if self.offset > offset || self.offset + offset > rl {
                    self.offset = self.offset.saturating_sub(rl.saturating_sub(offset));
                } else {
                    self.offset = self.offset + offset;
                }
                self.attained_target = true;
            }
        } else if self.target.is_some() && !self.attained_target && self.target.unwrap() < rl {
            self.offset = self.target_to_offset(self.target.unwrap(), results);
            self.attained_target = true;
        }
        offset
    }

    /// Divides `area` into the preview and the rest: the preview takes its
    /// size (see [`preview_size`]) on its side, the rest what is left. With
    /// the layout disabled, the preview gets nothing.
    pub fn split(&self, area: Rect) -> (r: [Rect; 2])
        requires
            self@.wf(),
            self@.enabled() ==> self@.current().layout.min != i16::MIN && self@.current().layout.max
                != i16::MIN,
            self@.border().spec_width() <= u16::MAX,
            self@.border().spec_height() <= u16::MAX,
        ensures
            r@[0] == split_parts(self@, area).0,
            r@[1] == split_parts(self@, area).1,
            !self@.enabled() ==> r@[1] == area,
            self@.enabled() ==> part_of(area, axis_of(self@.current().layout.side), r@[0])
                && part_of(area, axis_of(self@.current().layout.side), r@[1]),
    {
        let setting = match self.setting() {
            Some(s) => s,
            None => {
                return [Rect::default(), area];
            },
        };
        let layout = &setting.layout;
        let horizontal = layout.side.is_vertical();
        let side_first = match layout.side {
            Side::Left | Side::Top => true,
            _ => false,
        };
        let total = if horizontal {
            area.width
        } else {
            area.height
        };
        let border_offset = if horizontal {
            self.border().width()
        } else {
            self.border().height()
        };
        let side_size = preview_side_size(total, layout, border_offset, self.current_dimension);
        let rules = if side_first {
            vec![SizeRule::Length(side_size), SizeRule::Min(0)]
        } else {
            vec![SizeRule::Min(0), SizeRule::Length(side_size)]
        };
        let direction = if horizontal {
            Direction::Horizontal
        } else {
            Direction::Vertical
        };
        proof {
            assert(rules@ =~= preview_rules(layout.side, side_size));
        }
        let chunks = solve_layout(area, direction, &rules);
        if side_first {
            [chunks[0], chunks[1]]
        } else {
            [chunks[1], chunks[0]]
        }
    }

    /// Drops any dragged size.
    pub fn reinit(&mut self)
        ensures
            final(self)@ == (PreviewModel { current_dimension: None, ..old(self)@ }),
    {
        self.current_dimension = None;
    }
}

/// `p` with its border made to face the results.
fn facing(p: PreviewSetting) -> (r: PreviewSetting)
    ensures
        r == facing_setting(p),
{
    let PreviewSetting { layout, command, border } = p;
    let border = match border {
        Some(b) => {
            if b.sides.is_none() && !b.is_empty() {
                let BorderSetting { sides: _, typed, colored, padding, title } = b;
                let sides = Some(BorderSides::only(layout.side.opposite()));
                Some(BorderSetting { sides, typed, colored, padding, title })
            } else {
                Some(b)
            }
        },
        None => None,
    };
    PreviewSetting { layout, command, border }
}

/// All layouts with their borders made to face the results.
fn facing_layouts(layouts: Vec<PreviewSetting>) -> (r: Vec<PreviewSetting>)
    ensures
        r@ == facing_settings(layouts@),
{
    let ghost orig = layouts@;
    let mut rest = layouts;
    let mut out: Vec<PreviewSetting> = Vec::new();
    while rest.len() > 0
        invariant
            out@.len() + rest@.len() == orig.len(),
            rest@ == orig.subrange(out@.len() as int, orig.len() as int),
            out@ == facing_settings(orig.subrange(0, out@.len() as int)),
        decreases rest@.len(),
    {
        let p = rest.remove(0);
        let ghost k = out@.len() as int;
        out.push(facing(p));
        proof {
            assert(out@ =~= facing_settings(orig.subrange(0, k + 1)));
            assert(rest@ =~= orig.subrange(k + 1, orig.len() as int));
        }
    }
    proof {
        assert(orig.subrange(0, orig.len() as int) =~= orig);
    }
    out
}

/// Whether the first layout leaves room for the preview (see [`has_room`]).
fn room(layouts: &Vec<PreviewSetting>, width: u16, height: u16) -> (r: bool)
    ensures
        r == has_room(layouts@, width, height),
{
    if layouts.len() == 0 {
        return false;
    }
    let l = &layouts[0].layout;
    let along = if let Side::Bottom | Side::Top = l.side {
        height
    } else {
        width
    };
    let min: u16 = if l.min > 0 {
        l.min as u16
    } else {
        0
    };
    along > 5 + min
}

proof fn lemma_cycle_in_range(i: int, len: int, rev: bool, k: nat)
    requires
        0 <= i < len,
    ensures
        0 <= cycle_steps(i, len, rev, k) < len,
    decreases k,
{
    if k > 0 {
        lemma_cycle_in_range(i, len, rev, (k - 1) as nat);
    }
}

proof fn lemma_first_enabled_is(layouts: Seq<PreviewSetting>, i: int, rev: bool, k: nat)
    requires
        0 <= i < layouts.len(),
        1 <= k <= layouts.len(),
        enabled_at(layouts, i, rev, k),
        forall|j: nat| 1 <= j < k ==> !enabled_at(layouts, i, rev, j),
    ensures
        first_enabled(layouts, i, rev) == Some(k),
{
    let w = choose|k: nat|
        1 <= k <= layouts.len() && #[trigger] enabled_at(layouts, i, rev, k) && forall|j: nat|
            1 <= j < k ==> !#[trigger] enabled_at(layouts, i, rev, j);
    assert(1 <= w <= layouts.len() && enabled_at(layouts, i, rev, w) && forall|j: nat|
        1 <= j < w ==> !#[trigger] enabled_at(layouts, i, rev, j));
    if w < k {
        assert(!enabled_at(layouts, i, rev, w));
    }
    if k < w {
        assert(!enabled_at(layouts, i, rev, k));
    }
}

proof fn lemma_first_enabled_exists(layouts: Seq<PreviewSetting>, i: int, rev: bool)
    requires
        exists|k: nat| 1 <= k <= layouts.len() && #[trigger] enabled_at(layouts, i, rev, k),
    ensures
        ({
            let k = first_enabled(layouts, i, rev).unwrap();
            &&& first_enabled(layouts, i, rev) is Some
            &&& 1 <= k <= layouts.len()
            &&& enabled_at(layouts, i, rev, k)
        }),
{
    let k0 = choose|k: nat| 1 <= k <= layouts.len() && #[trigger] enabled_at(layouts, i, rev, k);
    lemma_least_enabled(layouts, i, rev, k0);
}

/// Below any enabled step there is a least one.
proof fn lemma_least_enabled(layouts: Seq<PreviewSetting>, i: int, rev: bool, k0: nat)
    requires
        1 <= k0 <= layouts.len(),
        enabled_at(layouts, i, rev, k0),
    ensures
        exists|k: nat|
            1 <= k <= layouts.len() && #[trigger] enabled_at(layouts, i, rev, k) && forall|j: nat|
                1 <= j < k ==> !#[trigger] enabled_at(layouts, i, rev, j),
    decreases k0,
{
    if exists|j: nat| 1 <= j < k0 && #[trigger] enabled_at(layouts, i, rev, j) {
        let j = choose|j: nat| 1 <= j < k0 && #[trigger] enabled_at(layouts, i, rev, j);
        lemma_least_enabled(layouts, i, rev, j);
    } else {
        assert(forall|j: nat| 1 <= j < k0 ==> !#[trigger] enabled_at(layouts, i, rev, j));
    }
}

proof fn lemma_none_enabled(layouts: Seq<PreviewSetting>, i: int, rev: bool)
    requires
        forall|j: nat| 1 <= j <= layouts.len() ==> !enabled_at(layouts, i, rev, j),
    ensures
        first_enabled(layouts, i, rev) is None,
{
}

/// Stepping once per layout comes back to where it started.
proof fn lemma_full_cycle(i: int, len: int, rev: bool)
    requires
        0 <= i < len,
    ensures
        cycle_steps(i, len, rev, len as nat) == i,
{
    lemma_steps_closed(i, len, rev, len as nat);
}

/// Up to a full cycle, `k` steps forward land on `i + k` and `k` steps back
/// on `i - k`, wrapped around once.
proof fn lemma_steps_closed(i: int, len: int, rev: bool, k: nat)
    requires
        0 <= i < len,
        k <= len,
    ensures
        cycle_steps(i, len, rev, k) == if rev {
            if i - k >= 0 {
                i - k
            } else {
                i - k + len
            }
        } else {
            if i + k < len {
                i + k
            } else {
                i + k - len
            }
        },
    decreases k,
{
    if k > 0 {
        lemma_steps_closed(i, len, rev, (k - 1) as nat);
    }
}

/// The lines shown in `height` rows (see [`shown_lines`]).
fn shown(
    lines: Vec<Vec<StyledSpan>>,
    header_lines: usize,
    height: usize,
    offset: usize,
) -> (r: Vec<Vec<StyledSpan>>)
    ensures
        r@ == shown_lines(lines@, header_lines as nat, height as nat, offset as nat),
{
    if height == 0 {
        return Vec::new();
    }
    let mut lines = lines;
    let head = if header_lines <= height {
        header_lines
    } else {
        height
    };
    let head = if head <= lines.len() {
        head
    } else {
        lines.len()
    };
    let ghost all = lines@;
    let mut rest = lines.split_off(head);
    let skip = if offset <= rest.len() {
        offset
    } else {
        rest.len()
    };
    let mut body = rest.split_off(skip);
    let room = if header_lines < height {
        height - header_lines
    } else {
        0
    };
    body.truncate(room);
    lines.append(&mut body);
    proof {
        assert(lines@ =~= shown_lines(all, header_lines as nat, height as nat, offset as nat));
    }
    lines
}

/// Choosing the lines commutes with viewing them.
proof fn lemma_shown_view(lines: Seq<Vec<StyledSpan>>, header: nat, height: nat, offset: nat)
    ensures
        shown_lines(lines, header, height, offset).map_values(|l: Vec<StyledSpan>| line_view(l@))
            == shown_lines(lines.map_values(|l: Vec<StyledSpan>| line_view(l@)), header, height, offset),
{
    assert(shown_lines(lines, header, height, offset).map_values(|l: Vec<StyledSpan>| line_view(l@))
        =~= shown_lines(lines.map_values(|l: Vec<StyledSpan>| line_view(l@)), header, height, offset));
}

/// Scrolling down `n` lines and then up `n` lines comes back to the same
/// line, when the way down stays within the content.
pub proof fn law_down_then_up(offset: nat, n: nat, total: nat, wrap: bool)
    requires
        offset + n <= total,
    ensures
        scrolled_up(scrolled_down(offset, n, total, wrap), n, total, wrap) == offset,
{
}

/// Jumping comes back: from a pane with no jump under way, three jumps
/// return to the offset it was at (two when it was at the top), with no
/// jump under way again; this holds whether or not the pane follows the end.
pub proof fn law_jump_round_trip(tail: bool, offset: usize, attained: bool, end: usize)
    ensures
        ({
            let s1 = jump_step(tail, offset, attained, (false, 0), end);
            let s2 = jump_step(tail, s1.0, s1.1, s1.2, end);
            let s3 = jump_step(tail, s2.0, s2.1, s2.2, end);
            &&& offset != 0 ==> s3.0 == offset && s3.2 == (false, 0usize)
            &&& offset == 0 ==> s2.0 == offset && s2.2 == (false, 0usize)
        }),
{
}

/// Cycling lands on an enabled layout: when some layout along the cycle is
/// enabled, the one reached has a positive upper bound and is a valid index.
pub proof fn law_cycle_lands_on_enabled(layouts: Seq<PreviewSetting>, i: int, rev: bool)
    requires
        0 <= i < layouts.len(),
        first_enabled(layouts, i, rev) is Some,
    ensures
        ({
            let j = cycle_steps(i, layouts.len() as int, rev, first_enabled(layouts, i, rev).unwrap());
            0 <= j < layouts.len() && layouts[j].layout.max > 0
        }),
{
    let k = first_enabled(layouts, i, rev).unwrap();
    lemma_first_enabled_exists(layouts, i, rev);
    lemma_cycle_in_range(i, layouts.len() as int, rev, k);
}

/// Stepping through the cycle once per layout comes back to the layout it
/// started from, in either direction.
pub proof fn law_full_cycle_returns(i: int, len: int, rev: bool)
    requires
        0 <= i < len,
    ensures
        cycle_steps(i, len, rev, len as nat) == i,
{
    lemma_full_cycle(i, len, rev);
}

/// A pane shown under a size condition is never hidden when re-deciding
/// with `no_hide`.
pub proof fn law_no_hide_keeps_shown(m: PreviewModel, width: u16, height: u16)
    requires
        m.show,
        m.config.show is Free,
    ensures
        reevaluated_show(m, width, height, true),
{
}

/// The preview never draws more lines than it has rows, and the header
/// lines that fit come first.
pub proof fn law_shown_fits_height<A>(lines: Seq<A>, header: nat, height: nat, offset: nat)
    ensures
        shown_lines(lines, header, height, offset).len() <= height,
        height > 0 ==> shown_lines(lines, header, height, offset).subrange(
            0,
            min_of(min_of(header as int, height as int), lines.len() as int),
        ) == lines.subrange(0, min_of(min_of(header as int, height as int), lines.len() as int)),
{
    if height > 0 {
        let head = min_of(min_of(header as int, height as int), lines.len() as int);
        let shown = shown_lines(lines, header, height, offset);
        assert(shown.subrange(0, head) =~= lines.subrange(0, head));
    }
}

} // verus!
