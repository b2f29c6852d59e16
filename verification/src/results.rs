//! The results list: the cursor and scroll position, and the widths of its
//! columns.
use vstd::prelude::*;

use crate::collections::{HiddenColumns, HiddenView};
use crate::config::ResultsConfig;
use crate::render::{display_width, str_width, StyledText};
use crate::tui::{max_of, min_of, sat_sub};
use crate::display::same_widths;
use crate::worker::Status;

verus! {

/// The index of the last width that is not 0, if any.
pub open spec fn last_nonzero(ws: Seq<u16>) -> Option<int>
    decreases ws.len(),
{
    if ws.len() == 0 {
        None
    } else if ws.last() != 0 {
        Some(ws.len() - 1)
    } else {
        last_nonzero(ws.drop_last())
    }
}

/// The sum of `ws`.
pub open spec fn sum_of(ws: Seq<u16>) -> nat
    decreases ws.len(),
{
    if ws.len() == 0 {
        0
    } else {
        sum_of(ws.drop_last()) + ws.last() as nat
    }
}

/// The first shown column (of nonzero width) at or after position `i` of
/// `limits`, counting `n` shown columns before it, that is the `idx`-th.
pub open spec fn display_col(limits: Seq<u16>, i: int, n: int, idx: int) -> Option<int>
    decreases limits.len() - i,
{
    if i < 0 || i >= limits.len() {
        None
    } else if limits[i] > 0 {
        if n == idx {
            Some(i)
        } else {
            display_col(limits, i + 1, n + 1, idx)
        }
    } else {
        display_col(limits, i + 1, n, idx)
    }
}

/// The column whose gutter holds column `x`, from position `i` of `limits`
/// on, `pos` being where column `i` starts (see [`ResultsUI::get_gutter_col_idx`]).
pub open spec fn gutter_col(limits: Seq<u16>, spacing: int, i: int, pos: int, x: int) -> Option<int>
    decreases limits.len() - i,
{
    if i < 0 || i >= limits.len() {
        None
    } else {
        let end = pos + limits[i];
        if limits[i] > 0 {
            if end <= x < end + spacing {
                Some(i)
            } else {
                gutter_col(limits, spacing, i + 1, end + spacing, x)
            }
        } else {
            gutter_col(limits, spacing, i + 1, end, x)
        }
    }
}

/// Whether the sums of [`gutter_col`] stay within `u16`.
pub open spec fn gutter_fits(limits: Seq<u16>, spacing: int, i: int, pos: int, x: int) -> bool
    decreases limits.len() - i,
{
    if i < 0 || i >= limits.len() {
        true
    } else {
        let end = pos + limits[i];
        &&& end <= u16::MAX
        &&& if limits[i] > 0 {
            &&& end + spacing <= u16::MAX
            &&& (end <= x < end + spacing || gutter_fits(limits, spacing, i + 1, end + spacing, x))
        } else {
            gutter_fits(limits, spacing, i + 1, end, x)
        }
    }
}

/// The item under row `target` of the drawn rows, from row `k` on, `acc`
/// being where row `k` starts; separators (`u32::MAX`) are skipped.
pub open spec fn item_at(rows: Seq<(u32, u16)>, k: int, acc: int, target: int) -> Option<u32>
    decreases rows.len() - k,
{
    if k < 0 || k >= rows.len() {
        None
    } else if rows[k].0 != u32::MAX && acc <= target < acc + rows[k].1 {
        Some(rows[k].0)
    } else {
        item_at(rows, k + 1, acc + rows[k].1, target)
    }
}

/// Whether the sums of [`item_at`] stay within `u16`.
pub open spec fn item_fits(rows: Seq<(u32, u16)>, k: int, acc: int, target: int) -> bool
    decreases rows.len() - k,
{
    if k < 0 || k >= rows.len() {
        true
    } else {
        &&& acc + rows[k].1 <= u16::MAX
        &&& (rows[k].0 != u32::MAX && acc <= target < acc + rows[k].1) || item_fits(
            rows,
            k + 1,
            acc + rows[k].1,
            target,
        )
    }
}

/// A width moved toward its new value when the change reaches the threshold.
pub open spec fn thresholded(old: u16, new: u16, grow: u16, shrink: u16) -> u16 {
    if new > old {
        if new - old >= grow {
            new
        } else {
            old
        }
    } else if old > new && old - new >= shrink {
        new
    } else {
        old
    }
}

/// Whether some column appears (from 0) or, with `prune`, disappears (to 0).
pub open spec fn column_flips(old: Seq<u16>, new: Seq<u16>, prune: bool) -> bool {
    exists|i: int|
        0 <= i < old.len() && #[trigger] old[i] == old[i] && ((old[i] == 0 && new[i] > 0) || (prune
            && old[i] > 0 && new[i] == 0))
}

/// The widths after applying `new` to `old` with thresholds (see
/// [`ResultsUI::apply_width_thresholds`]).
pub open spec fn thresholds_applied(old: Seq<u16>, new: Seq<u16>, grow: u16, shrink: u16, prune: bool) -> Seq<u16> {
    if old.len() != new.len() || column_flips(old, new, prune) {
        new
    } else {
        Seq::new(old.len(), |i: int| thresholded(old[i], new[i], grow, shrink))
    }
}

/// The widest of the first `k` rows' widths in column `i` (0 for none).
pub open spec fn col_max(rows: Seq<(u32, Vec<StyledText>, Vec<u16>)>, i: int, k: nat) -> u16
    decreases k,
{
    if k == 0 {
        0
    } else {
        let rest = col_max(rows, i, (k - 1) as nat);
        let ws = rows[k - 1].2@;
        if 0 <= i < ws.len() && ws[i] > rest {
            ws[i]
        } else {
            rest
        }
    }
}

/// The widest content of each of `n` columns over `rows`.
pub open spec fn column_max(rows: Seq<(u32, Vec<StyledText>, Vec<u16>)>, n: nat) -> Seq<u16> {
    Seq::new(n, |i: int| col_max(rows, i, rows.len()))
}

/// Whether no row has widths for more than `n` columns.
pub open spec fn rows_within(rows: Seq<(u32, Vec<StyledText>, Vec<u16>)>, n: nat) -> bool {
    forall|k: int| 0 <= k < rows.len() ==> (#[trigger] rows[k]).2@.len() <= n
}

/// The widths raised to each shown column's least width, going through
/// the first `n` names (the least width only for columns with content).
pub open spec fn raise_all(
    buf: Seq<u16>,
    names: Seq<u16>,
    h: HiddenView,
    min_width: u16,
    from_cols: bool,
    n: nat,
) -> Seq<u16>
    decreases n,
{
    if n == 0 {
        buf
    } else {
        let b = raise_all(buf, names, h, min_width, from_cols, (n - 1) as nat);
        let i = (n - 1) as nat;
        if h.hidden(i) {
            b
        } else {
            let vi = h.visible_below(i) as int;
            let lower = if b[vi] > 0 {
                if from_cols {
                    names[i as int]
                } else {
                    min_width
                }
            } else {
                0
            };
            b.update(vi, max_of(b[vi] as int, lower as int) as u16)
        }
    }
}

/// The widths with the user's overrides in place.
pub open spec fn with_overrides(buf: Seq<u16>, overrides: Seq<u16>) -> Seq<u16> {
    Seq::new(buf.len(), |k: int| if k < overrides.len() && overrides[k] > 0 {
        overrides[k]
    } else {
        buf[k]
    })
}

/// The widths of the shown columns placed among all `h.len` columns, hidden
/// ones getting 0.
pub open spec fn expanded(buf: Seq<u16>, h: HiddenView) -> Seq<u16> {
    Seq::new(h.len, |idx: int| if h.hidden(idx as nat) {
        0
    } else {
        buf[h.visible_below(idx as nat) as int]
    })
}

/// `f` is `o` with the cursor moved to item `index` (at most the last):
/// the items shown scroll only when it is out of view, to the page that
/// shows the last items, or to start at it if earlier; the scroll within
/// the item is reset and the cursor enabled and marked as moved by a jump.
pub open spec fn cursor_jumped(o: ResultsUI, f: ResultsUI, index: u32) -> bool {
    let end = o.spec_end();
    let idx = min_of(index as int, end as int);
    let bottom = if idx < o.bottom || idx >= o.bottom + o.height {
        min_of(sat_sub(end + 1, o.height as int), idx)
    } else {
        o.bottom as int
    };
    &&& f.bottom == bottom
    &&& f.cursor == idx - bottom
    &&& f == (ResultsUI {
        bottom: f.bottom,
        cursor: f.cursor,
        hscroll: 0,
        vscroll: 0,
        cursor_disabled: false,
        cursor_moved: Some(true),
        ..o
    })
}

/// One step of the cursor up (`r`: whether it wrapped): up a row, or the
/// list up a row at the top row; at the first item it stays, or jumps to
/// the last when the list wraps. The scroll of the item is reset.
pub open spec fn prev_step(o: ResultsUI, f: ResultsUI, r: bool) -> bool {
    &&& !f.cursor_disabled
    &&& f.hscroll == 0 && f.vscroll == 0
    &&& o.cursor > 0 ==> f.cursor == o.cursor - 1 && f.bottom == o.bottom && !r
    &&& o.cursor == 0 && o.bottom > 0 ==> f.cursor == 0 && f.bottom == o.bottom - 1 && !r
    &&& o.cursor == 0 && o.bottom == 0 && !o.config.scroll_wrap ==> f.cursor == 0 && f.bottom == 0 && !r
    &&& o.cursor == 0 && o.bottom == 0 && o.config.scroll_wrap ==> r && f.cursor + f.bottom == o.spec_end()
        && f.cursor_moved == Some(true)
    &&& f.height == o.height && f.config == o.config
    &&& f.status == o.status
    &&& f.row_cache == o.row_cache
}

/// One step of the cursor down (`r`: whether it wrapped): down an item
/// before the last; at the last it stays, or jumps to the first when the
/// list wraps. The scroll of the item is reset.
pub open spec fn next_step(o: ResultsUI, f: ResultsUI, r: bool) -> bool {
    &&& !f.cursor_disabled
    &&& f.hscroll == 0 && f.vscroll == 0
    &&& o.cursor + o.bottom < o.spec_end() ==> f.cursor == min_of(o.cursor + 1, u16::MAX as int) && f.bottom
        == o.bottom && !r
    &&& o.cursor + o.bottom >= o.spec_end() && !o.config.scroll_wrap ==> f.cursor == o.cursor && f.bottom
        == o.bottom && !r
    &&& o.cursor + o.bottom >= o.spec_end() && o.config.scroll_wrap ==> r && f.cursor + f.bottom == 0
    &&& f.height == o.height && f.config == o.config
    &&& f.status == o.status
    &&& f.row_cache == o.row_cache
}

/// The results list.
pub struct ResultsUI {
    /// The cursor's row among the rows shown.
    pub cursor: u16,
    /// The index of the first item shown.
    pub bottom: u32,
    pub hscroll: i8,
    pub vscroll: u8,
    pub cursor_disabled: bool,
    /// Whether the cursor moved since the last draw, and whether by a jump.
    pub cursor_moved: Option<bool>,
    /// The rows available.
    pub height: u16,
    /// The columns available.
    pub width: u16,
    /// The widths of the columns drawn; the first includes the indentation.
    pub widths: Vec<u16>,
    /// The width limit of every column, 0 for columns not drawn.
    pub width_limits: Vec<u16>,
    /// The widths of the names of the columns.
    pub column_name_widths: Vec<u16>,
    /// The widths the shown columns would like.
    pub preferred_widths: Vec<u16>,
    /// Scratch widths.
    pub widths_buffer: Vec<u16>,
    /// The widest content of each shown column.
    pub max_widths: Vec<u16>,
    pub config: ResultsConfig,
    pub status: Status,
    /// The rows last built, then the rows built before (index, cells,
    /// widths of the shown columns).
    pub row_cache: Vec<Vec<(u32, Vec<StyledText>, Vec<u16>)>>,
    /// The drawn rows in order: item index (`u32::MAX` for separators) and height.
    pub row_data: Vec<(u32, u16)>,
}

impl ResultsUI {
    /// The two row caches are there.
    pub open spec fn wf(&self) -> bool {
        self.row_cache@.len() == 2 && self.config.hidden_columns.wf()
    }

    /// The rows last built.
    pub open spec fn rows(&self) -> Seq<(u32, Vec<StyledText>, Vec<u16>)> {
        self.row_cache@[0]@
    }

    /// The number of shown columns.
    pub open spec fn spec_vcols(&self) -> nat {
        (self.config.hidden_columns@.len - self.config.hidden_columns@.order.len()) as nat
    }

    /// The widest content of each shown column over the rows last built.
    pub open spec fn content_max(&self) -> Seq<u16> {
        column_max(self.rows(), self.spec_vcols())
    }

    /// The widest content of each shown column, raised to the least widths
    /// and replaced by the user's widths.
    pub open spec fn max_buffer(&self) -> Seq<u16> {
        with_overrides(
            raise_all(
                self.content_max(),
                self.column_name_widths@,
                self.config.hidden_columns@,
                self.config.min_width,
                self.config.min_width_from_cols,
                self.column_name_widths@.len(),
            ),
            self.config.width_overrides@,
        )
    }

    /// The indentation of every row: the width of the multi-select prefix.
    pub open spec fn spec_indentation(&self) -> nat {
        display_width(self.config.multi_prefix@)
    }

    /// The cells between drawn columns.
    pub open spec fn spec_column_spacing_width(&self) -> int {
        self.config.column_spacing.0 * match last_nonzero(self.widths@) {
            Some(p) => p % 65536,
            None => 0,
        }
    }

    /// The width left for the columns: the width less the indentation and
    /// the spacing.
    pub open spec fn spec_available_width(&self) -> u16 {
        sat_sub(
            sat_sub(self.width as int, (self.spec_indentation() % 65536) as int),
            self.spec_column_spacing_width(),
        ) as u16
    }

    /// The index of the item under the cursor.
    pub open spec fn spec_index(&self) -> int {
        if self.cursor_disabled {
            u32::MAX as int
        } else {
            self.cursor + self.bottom
        }
    }

    /// The index of the last item.
    pub open spec fn spec_end(&self) -> u32 {
        sat_sub(self.status.matched_count as int, 1) as u32
    }

    /// The rows kept around the cursor: the padding, at most half the height.
    pub open spec fn spec_scroll_padding(&self) -> u16 {
        min_of(self.config.scroll_padding as int, (self.height / 2) as int) as u16
    }

    /// Whether the list is drawn bottom to top.
    pub open spec fn spec_reverse(&self) -> bool {
        self.config.reverse == Some(true)
    }
}

impl ResultsUI {
    /// An empty list with `config`; its size is set later.
    pub fn new(config: ResultsConfig) -> (r: Self)
        ensures
            r.cursor == 0 && r.bottom == 0 && r.hscroll == 0 && r.vscroll == 0,
            !r.cursor_disabled && r.cursor_moved is None,
            r.height == 0 && r.width == 0,
            r.widths@.len() == 0 && r.width_limits@.len() == 0 && r.column_name_widths@.len() == 0,
            r.preferred_widths@.len() == 0 && r.widths_buffer@.len() == 0 && r.max_widths@.len() == 0,
            r.config == config,
            r.status.item_count == 0 && r.status.matched_count == 0 && !r.status.running && !r.status.changed,
            r.row_cache@.len() == 2 && r.row_cache@[0]@.len() == 0 && r.row_cache@[1]@.len() == 0,
            r.row_data@.len() == 0,
    {
        ResultsUI {
            cursor: 0,
            bottom: 0,
            hscroll: 0,
            vscroll: 0,
            cursor_disabled: false,
            cursor_moved: None,
            height: 0,
            width: 0,
            widths: Vec::new(),
            width_limits: Vec::new(),
            column_name_widths: Vec::new(),
            preferred_widths: Vec::new(),
            widths_buffer: Vec::new(),
            max_widths: Vec::new(),
            config,
            status: Status::default(),
            row_cache: vec![Vec::new(), Vec::new()],
            row_data: Vec::new(),
        }
    }
}

impl ResultsUI {
    /// The rows available.
    pub fn height(&self) -> (r: u16)
        ensures
            r == self.height,
    {
        self.height
    }

    /// The columns available.
    pub fn width(&self) -> (r: u16)
        ensures
            r == self.width,
    {
        self.width
    }

    /// Whether the list is drawn bottom to top.
    pub fn reverse(&self) -> (r: bool)
        ensures
            r == self.spec_reverse(),
    {
        match self.config.reverse {
            Some(b) => b,
            None => false,
        }
    }

    pub fn is_wrap(&self) -> (r: bool)
        ensures
            r == self.config.wrap,
    {
        self.config.wrap
    }

    /// Turns wrapping on or off, dropping the rows built when it changed.
    pub fn wrap(&mut self, wrap: bool)
        requires
            old(self).wf(),
        ensures
            final(self).wf(),
            final(self).config.wrap == wrap,
            old(self).config.wrap != wrap ==> final(self).rows().len() == 0,
            old(self).config.wrap == wrap ==> final(self).rows() == old(self).rows(),
    {
        if self.config.wrap != wrap {
            self.config.wrap = wrap;
            self.set_dirty();
        }
    }

    /// Drops the rows last built.
    pub fn set_dirty(&mut self)
        requires
            old(self).wf(),
        ensures
            final(self).wf(),
            final(self).rows().len() == 0,
            final(self).row_cache@[1] == old(self).row_cache@[1],
            *final(self) == (ResultsUI { row_cache: final(self).row_cache, ..*old(self) }),
    {
        self.row_cache.set(0, Vec::new());
    }

    /// The rows kept around the cursor.
    pub fn scroll_padding(&self) -> (r: u16)
        ensures
            r == self.spec_scroll_padding(),
    {
        let half = self.height / 2;
        if self.config.scroll_padding <= half {
            self.config.scroll_padding
        } else {
            half
        }
    }

    /// The index of the last item (0 without items).
    pub fn end(&self) -> (r: u32)
        ensures
            r == self.spec_end(),
    {
        self.status.matched_count.saturating_sub(1)
    }

    /// The index of the item under the cursor; `u32::MAX` when the cursor
    /// is disabled.
    pub fn index(&self) -> (r: u32)
        requires
            !self.cursor_disabled ==> self.cursor + self.bottom <= u32::MAX,
        ensures
            r == self.spec_index(),
    {
        if self.cursor_disabled {
            u32::MAX
        } else {
            self.cursor as u32 + self.bottom
        }
    }

    /// The item drawn at row `y` of the results, if any (rows count from
    /// the bottom when the list is reversed).
    pub fn get_index_of_row(&self, y: u16) -> (r: Option<u32>)
        requires
            item_fits(
                self.row_data@,
                0,
                0,
                if self.spec_reverse() {
                    sat_sub(sat_sub(self.height as int, y as int), 1)
                } else {
                    y as int
                },
            ),
        ensures
            r == item_at(
                self.row_data@,
                0,
                0,
                if self.spec_reverse() {
                    sat_sub(sat_sub(self.height as int, y as int), 1)
                } else {
                    y as int
                },
            ),
    {
        let target = if self.reverse() {
            self.height.saturating_sub(y).saturating_sub(1)
        } else {
            y
        };
        let ghost t = if self.spec_reverse() {
            sat_sub(sat_sub(self.height as int, y as int), 1)
        } else {
            y as int
        };
        proof {
            assert(target as int == t);
        }
        let mut acc: u16 = 0;
        let mut k: usize = 0;
        while k < self.row_data.len()
            invariant
                k <= self.row_data@.len(),
                target as int == t,
                t == (if self.spec_reverse() {
                    sat_sub(sat_sub(self.height as int, y as int), 1)
                } else {
                    y as int
                }),
                item_at(self.row_data@, 0, 0, target as int) == item_at(self.row_data@, k as int, acc as int, target as int),
                item_fits(self.row_data@, k as int, acc as int, target as int),
            decreases self.row_data@.len() - k,
        {
            let (idx, h) = self.row_data[k];
            if idx != u32::MAX && acc <= target && target < acc + h {
                proof {
                    assert(item_at(self.row_data@, k as int, acc as int, target as int) == Some(idx));
                }
                return Some(idx);
            }
            acc = acc + h;
            k = k + 1;
        }
        None
    }

    /// Records a cursor move; a jump is remembered until the next draw.
    fn set_cursor_changed(&mut self, jumped: bool)
        ensures
            final(self).cursor_moved == if jumped || old(self).cursor_moved != Some(true) {
                Some(jumped)
            } else {
                old(self).cursor_moved
            },
            *final(self) == (ResultsUI { cursor_moved: final(self).cursor_moved, ..*old(self) }),
    {
        if jumped || self.cursor_moved != Some(true) {
            self.cursor_moved = Some(jumped);
        }
    }

    /// Resets the scroll of the current item.
    pub fn reset_current_scroll(&mut self)
        ensures
            *final(self) == (ResultsUI { hscroll: 0, vscroll: 0, ..*old(self) }),
    {
        if self.hscroll != 0 || self.vscroll != 0 {
            self.hscroll = 0;
            self.vscroll = 0;
        }
    }

    /// Moves the cursor to item `index` (at most the last), scrolling so that
    /// it is in view: when it is outside, the first item shown becomes the
    /// one that shows the last items, or the item itself if earlier.
    pub fn cursor_jump(&mut self, index: u32)
        requires
            old(self).bottom + old(self).height <= u32::MAX,
        ensures
            cursor_jumped(*old(self), *final(self), index),
    {
        self.reset_current_scroll();
        self.cursor_disabled = false;
        self.set_cursor_changed(true);
        let end = self.end();
        let index = if index <= end {
            index
        } else {
            end
        };
        if index < self.bottom || index >= self.bottom + self.height as u32 {
            let first = (end + 1).saturating_sub(self.height as u32);
            self.bottom = if first <= index {
                first
            } else {
                index
            };
        }
        self.cursor = (index - self.bottom) as u16;
    }

    /// Moves the cursor up one item, scrolling when at the top row; at the
    /// first item it jumps to the last when the list wraps. Returns whether
    /// it wrapped.
    pub fn cursor_prev(&mut self) -> (r: bool)
        requires
            old(self).bottom + old(self).height <= u32::MAX,
        ensures
            prev_step(*old(self), *final(self), r),
    {
        self.cursor_disabled = false;
        self.reset_current_scroll();
        self.set_cursor_changed(false);
        if self.cursor > 0 {
            self.cursor = self.cursor - 1;
        } else if self.bottom > 0 {
            self.bottom = self.bottom - 1;
        } else if self.config.scroll_wrap {
            let end = self.end();
            self.cursor_jump(end);
            return true;
        }
        false
    }

    /// Moves the cursor down one item; at the last item it jumps to the
    /// first when the list wraps. Returns whether it wrapped.
    pub fn cursor_next(&mut self) -> (r: bool)
        requires
            old(self).cursor + old(self).bottom <= u32::MAX,
            old(self).bottom + old(self).height <= u32::MAX,
        ensures
            next_step(*old(self), *final(self), r),
    {
        self.reset_current_scroll();
        self.cursor_disabled = false;
        self.set_cursor_changed(false);
        if self.index() < self.end() {
            self.cursor = self.cursor.saturating_add(1);
        } else if self.config.scroll_wrap {
            self.cursor_jump(0);
            return true;
        }
        false
    }

    /// Scrolls the current item by `x` (0 resets): sideways when
    /// `horizontal`, else up by a negative and down by a positive amount
    /// through its lines; the rows built are dropped.
    pub fn current_scroll(&mut self, x: i8, horizontal: bool)
        requires
            old(self).wf(),
        ensures
            final(self).wf(),
            final(self).rows().len() == 0,
            horizontal ==> final(self).hscroll == (if x == 0 {
                0
            } else {
                max_of(min_of(old(self).hscroll + x, i8::MAX as int), i8::MIN as int)
            }) && final(self).vscroll == old(self).vscroll,
            !horizontal ==> final(self).vscroll == (if x == 0 {
                0
            } else if x < 0 {
                min_of(old(self).vscroll - x, u8::MAX as int)
            } else {
                sat_sub(old(self).vscroll as int, x as int)
            }) && final(self).hscroll == old(self).hscroll,
            final(self).cursor == old(self).cursor && final(self).bottom == old(self).bottom,
    {
        if horizontal {
            self.hscroll = if x == 0 {
                0
            } else {
                let sum = self.hscroll as i16 + x as i16;
                if sum > 127 {
                    127
                } else if sum < -128 {
                    -128
                } else {
                    sum as i8
                }
            };
        } else {
            self.vscroll = if x == 0 {
                0
            } else if x < 0 {
                let up: u8 = if x == i8::MIN {
                    128
                } else {
                    (0 - x) as u8
                };
                self.vscroll.saturating_add(up)
            } else {
                self.vscroll.saturating_sub(x as u8)
            };
        }
        self.set_dirty();
    }

    /// The width of the multi-select prefix, which indents every row.
    pub fn indentation(&self) -> (r: usize)
        ensures
            r == self.spec_indentation(),
    {
        str_width(self.config.multi_prefix.as_str())
    }

    /// The widths of the columns drawn.
    pub fn widths(&self) -> (r: &Vec<u16>)
        ensures
            r@ == self.widths@,
    {
        &self.widths
    }

    /// The width limit of every column.
    pub fn width_limits(&self) -> (r: &Vec<u16>)
        ensures
            r@ == self.width_limits@,
    {
        &self.width_limits
    }

    /// The cells between drawn columns: the spacing times the index of the
    /// last drawn column.
    pub fn column_spacing_width(&self) -> (r: u16)
        requires
            self.spec_column_spacing_width() <= u16::MAX,
        ensures
            r == self.spec_column_spacing_width(),
    {
        let mut pos: usize = 0;
        let mut found = false;
        let mut k = self.widths.len();
        proof {
            assert(self.widths@.take(k as int) =~= self.widths@);
        }
        while k > 0 && !found
            invariant
                k <= self.widths@.len(),
                !found ==> last_nonzero(self.widths@) == last_nonzero(self.widths@.take(k as int)),
                !found ==> pos == 0,
                found ==> last_nonzero(self.widths@) == Some(pos as int),
            decreases k, if found {
                0int
            } else {
                1int
            },
        {
            proof {
                assert(self.widths@.take(k as int).drop_last() =~= self.widths@.take(k - 1));
            }
            if self.widths[k - 1] != 0 {
                pos = k - 1;
                found = true;
            } else {
                k = k - 1;
            }
        }
        proof {
            if !found {
                assert(self.widths@.take(k as int) =~= Seq::<u16>::empty());
            }
        }
        let p = (pos % 65536) as u16;
        proof {
            let sp = self.config.column_spacing.0 as int;
            if found {
                assert(last_nonzero(self.widths@) == Some(pos as int));
                assert(self.spec_column_spacing_width() == sp * ((pos as int) % 65536));
            } else {
                assert(last_nonzero(self.widths@) is None);
                assert(self.spec_column_spacing_width() == sp * 0);
                assert(p == 0);
            }
            assert(sp * (p as int) == self.spec_column_spacing_width());
        }
        self.config.column_spacing.0 * p
    }

    /// The width left for the columns.
    pub fn available_width(&self) -> (r: u16)
        requires
            self.spec_column_spacing_width() <= u16::MAX,
        ensures
            r == self.spec_available_width(),
    {
        let ind = (self.indentation() % 65536) as u16;
        self.width.saturating_sub(ind).saturating_sub(self.column_spacing_width())
    }

    /// The `idx`-th column drawn (of nonzero width limit), as an index among
    /// all columns; none when there are fewer or the limits are unknown.
    pub fn get_col_by_display_index(&self, idx: usize) -> (r: Option<usize>)
        ensures
            r == match display_col(self.width_limits@, 0, 0, idx as int) {
                Some(i) => Some(i as usize),
                None => None::<usize>,
            },
    {
        let mut n: usize = 0;
        let mut i: usize = 0;
        while i < self.width_limits.len()
            invariant
                i <= self.width_limits@.len(),
                n <= i,
                display_col(self.width_limits@, 0, 0, idx as int) == display_col(
                    self.width_limits@,
                    i as int,
                    n as int,
                    idx as int,
                ),
            decreases self.width_limits@.len() - i,
        {
            if self.width_limits[i] > 0 {
                if n == idx {
                    return Some(i);
                }
                n = n + 1;
            }
            i = i + 1;
        }
        None
    }

    /// The column whose gutter (the spacing after it) holds column `x` of
    /// the results, if any; none without spacing.
    pub fn get_gutter_col_idx(&self, x: u16) -> (r: Option<usize>)
        requires
            self.config.column_spacing.0 > 0 ==> gutter_fits(
                self.width_limits@,
                self.config.column_spacing.0 as int,
                0,
                (self.spec_indentation() % 65536) as int,
                x as int,
            ),
        ensures
            r == if self.config.column_spacing.0 == 0 {
                None::<usize>
            } else {
                match gutter_col(
                    self.width_limits@,
                    self.config.column_spacing.0 as int,
                    0,
                    (self.spec_indentation() % 65536) as int,
                    x as int,
                ) {
                    Some(i) => Some(i as usize),
                    None => None::<usize>,
                }
            },
    {
        let mut pos = (self.indentation() % 65536) as u16;
        let spacing = self.config.column_spacing.0;
        if spacing == 0 {
            return None;
        }
        let ghost start = pos as int;
        proof {
            assert(start == (self.spec_indentation() % 65536) as int);
        }
        let mut i: usize = 0;
        while i < self.width_limits.len()
            invariant
                spacing == self.config.column_spacing.0,
                spacing != 0,
                start == (self.spec_indentation() % 65536) as int,
                i <= self.width_limits@.len(),
                gutter_col(self.width_limits@, spacing as int, 0, start, x as int) == gutter_col(
                    self.width_limits@,
                    spacing as int,
                    i as int,
                    pos as int,
                    x as int,
                ),
                gutter_fits(self.width_limits@, spacing as int, i as int, pos as int, x as int),
            decreases self.width_limits@.len() - i,
        {
            let width = self.width_limits[i];
            pos = pos + width;
            if width > 0 {
                if pos <= x && x < pos + spacing {
                    proof {
                        assert(gutter_col(self.width_limits@, spacing as int, 0, start, x as int) == Some(i as int));
                    }
                    return Some(i);
                }
                pos = pos + spacing;
            }
            i = i + 1;
        }
        None
    }

    /// The number of shown (not hidden) columns.
    pub fn vcols(&self) -> (r: usize)
        requires
            self.config.hidden_columns.wf(),
        ensures
            r == self.config.hidden_columns@.len - self.config.hidden_columns@.order.len(),
    {
        self.config.hidden_columns.visible_count()
    }

    /// The index among all columns of the `idx`-th shown column.
    pub fn expand_idx(&self, idx: usize) -> (r: usize)
        requires
            self.config.hidden_columns.wf(),
            idx + self.config.hidden_columns@.order.len() <= usize::MAX,
        ensures
            self.config.hidden_columns@.visible(r as nat),
            self.config.hidden_columns@.visible_below(r as nat) == idx,
    {
        self.config.hidden_columns.nth_gap(idx)
    }

    /// The index among the shown columns of column `idx`; none when hidden.
    pub fn shrink_idx(&self, idx: usize) -> (r: Option<usize>)
        requires
            self.config.hidden_columns.wf(),
        ensures
            r == if self.config.hidden_columns@.hidden(idx as nat) {
                None::<usize>
            } else {
                Some(self.config.hidden_columns@.visible_below(idx as nat) as usize)
            },
    {
        self.config.hidden_columns.gap_index(idx)
    }

    /// Applies `new` widths to `widths`: taken whole when the lengths differ or
    /// some column appears (or, with `immediate_prune`, disappears); else
    /// each width moves only when its change reaches the grow or shrink
    /// threshold. Returns whether anything changed.
    pub fn apply_width_thresholds(widths: &mut Vec<u16>, new: &Vec<u16>, thresholds: [u16; 2], immediate_prune: bool) -> (r: bool)
        ensures
            final(widths)@ == thresholds_applied(old(widths)@, new@, thresholds[0], thresholds[1], immediate_prune),
            r == (old(widths)@.len() != new@.len() || column_flips(old(widths)@, new@, immediate_prune)
                || final(widths)@ != old(widths)@),
    {
        let grow = thresholds[0];
        let shrink = thresholds[1];
        if widths.len() != new.len() {
            *widths = copy_widths(new);
            return true;
        }
        let mut k: usize = 0;
        let mut flips = false;
        while k < widths.len() && !flips
            invariant
                widths@.len() == new@.len(),
                k <= widths@.len(),
                !flips ==> forall|i: int| 0 <= i < k ==> !((widths@[i] == 0 && new@[i] > 0) || (immediate_prune && widths@[i] > 0 && new@[i] == 0)),
                flips ==> column_flips(widths@, new@, immediate_prune),
            decreases widths@.len() - k, if flips {
                0int
            } else {
                1int
            },
        {
            let o = widths[k];
            let n = new[k];
            if (o == 0 && n > 0) || (immediate_prune && o > 0 && n == 0) {
                flips = true;
                proof {
                    assert(widths@[k as int] == widths@[k as int]);
                }
            } else {
                k = k + 1;
            }
        }
        if flips {
            *widths = copy_widths(new);
            return true;
        }
        let ghost before = widths@;
        let mut changed = false;
        let mut i: usize = 0;
        while i < widths.len()
            invariant
                before.len() == new@.len(),
                widths@.len() == before.len(),
                i <= before.len(),
                forall|j: int| 0 <= j < i ==> widths@[j] == thresholded(before[j], new@[j], grow, shrink),
                forall|j: int| i <= j < before.len() ==> widths@[j] == before[j],
                changed == exists|j: int| 0 <= j < i && #[trigger] widths@[j] != before[j],
            decreases before.len() - i,
        {
            let o = widths[i];
            let n = new[i];
            let ghost was = widths@;
            let ghost was_changed = changed;
            if n > o {
                if n - o >= grow {
                    widths.set(i, n);
                    changed = true;
                }
            } else if o > n && o - n >= shrink {
                widths.set(i, n);
                changed = true;
            }
            proof {
                if widths@[i as int] != before[i as int] {
                    assert(changed);
                }
                if changed && !was_changed {
                    assert(widths@[i as int] != before[i as int]);
                }
                if was_changed {
                    let j = choose|j: int| 0 <= j < i && #[trigger] was[j] != before[j];
                    assert(widths@[j] == was[j]);
                    assert(exists|j: int| 0 <= j < i + 1 && #[trigger] widths@[j] != before[j]);
                }
                if exists|j: int| 0 <= j < i + 1 && #[trigger] widths@[j] != before[j] {
                    let j = choose|j: int| 0 <= j < i + 1 && #[trigger] widths@[j] != before[j];
                    if j < i {
                        assert(was[j] == widths@[j]);
                    }
                }
            }
            i = i + 1;
        }
        proof {
            assert(!column_flips(before, new@, immediate_prune));
            assert(widths@ =~= thresholds_applied(before, new@, grow, shrink, immediate_prune));
            if changed {
                let j = choose|j: int| 0 <= j < i && #[trigger] widths@[j] != before[j];
                assert(widths@[j] != before[j]);
            } else {
                assert(widths@ =~= before);
            }
        }
        changed
    }
}

/// A copy of `ws`.
fn copy_widths(ws: &Vec<u16>) -> (r: Vec<u16>)
    ensures
        r@ == ws@,
{
    let mut r: Vec<u16> = Vec::new();
    let mut i: usize = 0;
    while i < ws.len()
        invariant
            i <= ws@.len(),
            r@ == ws@.take(i as int),
        decreases ws@.len() - i,
    {
        r.push(ws[i]);
        proof {
            assert(r@ =~= ws@.take(i + 1));
        }
        i = i + 1;
    }
    proof {
        assert(ws@.take(i as int) =~= ws@);
    }
    r
}

/// Visible columns below `a` are no more than below `b` for `a <= b`.
pub proof fn lemma_below_mono(h: HiddenView, a: nat, b: nat)
    requires
        a <= b,
    ensures
        h.visible_below(a) <= h.visible_below(b),
    decreases b - a,
{
    if a < b {
        lemma_below_mono(h, a, (b - 1) as nat);
    }
}

/// There are at most `n` visible columns below `n`.
pub proof fn lemma_below_at_most(h: HiddenView, n: nat)
    ensures
        h.visible_below(n) <= n,
    decreases n,
{
    if n > 0 {
        lemma_below_at_most(h, (n - 1) as nat);
    }
}

impl ResultsUI {
    /// Computes the widest content of each shown column from the rows last
    /// built, unless it is known already.
    pub(crate) fn prepare_max_widths(&mut self)
        requires
            old(self).wf(),
            rows_within(old(self).rows(), (old(self).config.hidden_columns@.len - old(self).config.hidden_columns@.order.len()) as nat),
        ensures
            final(self).max_widths@ == if old(self).max_widths@.len() > 0 {
                old(self).max_widths@
            } else {
                column_max(old(self).rows(), (old(self).config.hidden_columns@.len - old(self).config.hidden_columns@.order.len()) as nat)
            },
            *final(self) == (ResultsUI { max_widths: final(self).max_widths, ..*old(self) }),
    {
        if self.max_widths.len() > 0 {
            return;
        }
        let n = self.vcols();
        let ghost rows = self.rows();
        let mut mw: Vec<u16> = Vec::new();
        let mut j: usize = 0;
        while j < n
            invariant
                j <= n,
                mw@.len() == j,
                forall|i: int| 0 <= i < j ==> mw@[i] == 0,
            decreases n - j,
        {
            mw.push(0);
            j = j + 1;
        }
        proof {
            assert(mw@ =~= Seq::new(n as nat, |i: int| col_max(rows, i, 0)));
        }
        let cache = &self.row_cache[0];
        let mut k: usize = 0;
        while k < cache.len()
            invariant
                cache@ == rows,
                rows_within(rows, n as nat),
                k <= rows.len(),
                mw@ == Seq::new(n as nat, |i: int| col_max(rows, i, k as nat)),
            decreases rows.len() - k,
        {
            let ws = &cache[k].2;
            let mut i: usize = 0;
            while i < ws.len()
                invariant
                    cache@ == rows,
                    ws@ == rows[k as int].2@,
                    ws@.len() <= n,
                    k < rows.len(),
                    i <= ws@.len(),
                    mw@.len() == n,
                    forall|c: int| 0 <= c < n ==> mw@[c] == if c < i {
                        col_max(rows, c, (k + 1) as nat)
                    } else {
                        col_max(rows, c, k as nat)
                    },
                decreases ws@.len() - i,
            {
                if ws[i] > mw[i] {
                    mw.set(i, ws[i]);
                }
                i = i + 1;
            }
            proof {
                assert forall|c: int| 0 <= c < n implies mw@[c] == col_max(rows, c, (k + 1) as nat) by {
                    if c >= ws@.len() {
                        assert(col_max(rows, c, (k + 1) as nat) == col_max(rows, c, k as nat));
                    }
                }
                assert(mw@ =~= Seq::new(n as nat, |i: int| col_max(rows, i, (k + 1) as nat)));
            }
            k = k + 1;
        }
        self.max_widths = mw;
    }

    /// Places the widths of the shown columns among all columns, hidden
    /// ones getting 0.
    pub(crate) fn expand_width_limits_in_buffer(&mut self)
        requires
            old(self).config.hidden_columns.wf(),
            old(self).widths_buffer@.len() >= old(self).config.hidden_columns@.len - old(self).config.hidden_columns@.order.len(),
        ensures
            final(self).widths_buffer@ == expanded(old(self).widths_buffer@, old(self).config.hidden_columns@),
            *final(self) == (ResultsUI { widths_buffer: final(self).widths_buffer, ..*old(self) }),
    {
        let n = self.config.hidden_columns.mask_len();
        let ghost h = self.config.hidden_columns@;
        let visible = self.config.hidden_columns.visible_count();
        let mut new_limits: Vec<u16> = Vec::new();
        let mut i: usize = 0;
        let mut idx: usize = 0;
        while idx < n
            invariant
                h == self.config.hidden_columns@,
                self.config.hidden_columns.wf(),
                n == h.len,
                visible == h.visible_below(h.len),
                self.widths_buffer@.len() >= visible,
                idx <= n,
                i == h.visible_below(idx as nat),
                new_limits@ == expanded(self.widths_buffer@, h).take(idx as int),
            decreases n - idx,
        {
            if self.config.hidden_columns.contains(idx) {
                new_limits.push(0);
            } else {
                proof {
                    lemma_below_mono(h, (idx + 1) as nat, h.len);
                }
                new_limits.push(self.widths_buffer[i]);
                i = i + 1;
            }
            proof {
                assert(new_limits@ =~= expanded(self.widths_buffer@, h).take(idx + 1));
            }
            idx = idx + 1;
        }
        proof {
            assert(expanded(self.widths_buffer@, h).take(n as int) =~= expanded(self.widths_buffer@, h));
        }
        self.widths_buffer = new_limits;
    }

    /// Changes the user's width for column `col` by `expand` from its
    /// current limit (widening to at least the least width), and drops the
    /// limits so that they are computed again; nothing happens when the
    /// limits are not known, the column is hidden, or narrowing would go
    /// below the least width.
    pub fn resize_col(&mut self, expand: i16, col: usize)
        requires
            old(self).config.hidden_columns.wf(),
            col < old(self).width_limits@.len() && !old(self).config.hidden_columns@.hidden(col as nat)
                ==> old(self).config.hidden_columns@.visible_below(col as nat) < old(self).config.width_overrides@.len(),
        ensures
            ({
                let o = old(self);
                let cur = o.width_limits@[col as int] as int;
                let amount = if expand < 0 {
                    -expand
                } else {
                    expand as int
                };
                let new = if expand > 0 {
                    max_of(min_of(cur + amount, u16::MAX as int), o.config.min_width as int)
                } else {
                    sat_sub(cur, amount)
                };
                if col >= o.width_limits@.len() || o.config.hidden_columns@.hidden(col as nat) || new
                    < o.config.min_width {
                    *final(self) == *o
                } else {
                    &&& final(self).config.width_overrides@ == o.config.width_overrides@.update(
                        o.config.hidden_columns@.visible_below(col as nat) as int,
                        new as u16,
                    )
                    &&& final(self).width_limits@.len() == 0
                    &&& *final(self) == (ResultsUI {
                        config: ResultsConfig { width_overrides: final(self).config.width_overrides, ..o.config },
                        width_limits: final(self).width_limits,
                        ..*o
                    })
                }
            }),
    {
        let v_idx = self.shrink_idx(col);
        proof {
            lemma_below_at_most(self.config.hidden_columns@, col as nat);
        }
        if self.width_limits.len() <= col || v_idx.is_none() {
            return;
        }
        let v_idx = v_idx.unwrap();
        let current = self.width_limits[col];
        let amount: u16 = if expand < 0 {
            if expand == i16::MIN {
                32768
            } else {
                (0 - expand) as u16
            }
        } else {
            expand as u16
        };
        let new = if expand > 0 {
            let grown = current.saturating_add(amount);
            if grown >= self.config.min_width {
                grown
            } else {
                self.config.min_width
            }
        } else {
            current.saturating_sub(amount)
        };
        let ghost o = *old(self);
        proof {
            let cur = o.width_limits@[col as int] as int;
            let amt = if expand < 0 {
                -expand
            } else {
                expand as int
            };
            assert(amount as int == amt);
        }
        if new < self.config.min_width {
            return;
        }
        self.config.width_overrides.set(v_idx, new);
        self.width_limits = Vec::new();
        proof {
            let cur = o.width_limits@[col as int] as int;
            let amt = if expand < 0 {
                -expand
            } else {
                expand as int
            };
            assert(amount as int == amt);
            assert(new as int == if expand > 0 {
                max_of(min_of(cur + amt, u16::MAX as int), o.config.min_width as int)
            } else {
                sat_sub(cur, amt)
            });
            assert(v_idx as int == o.config.hidden_columns@.visible_below(col as nat));
        }
    }
}

/// The sum of a prefix grows by the next width.
proof fn lemma_sum_of_prefix(s: Seq<u16>, k: int)
    requires
        0 < k <= s.len(),
    ensures
        sum_of(s.take(k)) == sum_of(s.take(k - 1)) + s[k - 1],
        sum_of(s.take(k)) <= sum_of(s),
    decreases s.len() - k,
{
    assert(s.take(k).drop_last() =~= s.take(k - 1));
    if k < s.len() {
        lemma_sum_of_prefix(s, k + 1);
    } else {
        assert(s.take(k) =~= s);
    }
}

/// The sum of `ws`.
pub(crate) fn sum_widths(ws: &Vec<u16>) -> (r: u16)
    requires
        sum_of(ws@) <= u16::MAX,
    ensures
        r == sum_of(ws@),
{
    let mut sum: u16 = 0;
    let mut i: usize = 0;
    while i < ws.len()
        invariant
            i <= ws@.len(),
            sum == sum_of(ws@.take(i as int)),
            sum_of(ws@) <= u16::MAX,
        decreases ws@.len() - i,
    {
        proof {
            lemma_sum_of_prefix(ws@, i + 1);
        }
        sum = sum + ws[i];
        i = i + 1;
    }
    proof {
        assert(ws@.take(i as int) =~= ws@);
    }
    sum
}

impl ResultsUI {
    /// Tries the widest content of each shown column as its width (raised to
    /// the least width, and the user's widths in place): nothing is done
    /// (`None`) without rows or with stacked columns, or when those are the
    /// preferred widths already; else they are kept as the widths to use
    /// (`Some(true)`) when they fit in the available width, and dropped
    /// (`Some(false)`) when not.
    pub fn try_apply_max_widths_into_width_buffer(&mut self) -> (r: Option<bool>)
        requires
            old(self).wf(),
            rows_within(old(self).rows(), old(self).spec_vcols()),
            old(self).spec_column_spacing_width() <= u16::MAX,
            old(self).config.hidden_columns@.visible_below(old(self).column_name_widths@.len())
                <= old(self).spec_vcols(),
            !(old(self).rows().len() == 0 || old(self).config.stacked_columns) && old(self).preferred_widths@
                != old(self).content_max() ==> sum_of(old(self).max_buffer()) <= u16::MAX,
        ensures
            ({
                let o = old(self);
                if o.rows().len() == 0 || o.config.stacked_columns {
                    &&& r is None
                    &&& final(self).widths_buffer@.len() == 0
                    &&& *final(self) == (ResultsUI { widths_buffer: final(self).widths_buffer, ..*o })
                } else {
                    &&& final(self).max_widths@ == o.content_max()
                    &&& if o.preferred_widths@ == o.content_max() {
                        &&& r is None
                        &&& *final(self) == (ResultsUI { max_widths: final(self).max_widths, ..*o })
                    } else if sum_of(o.max_buffer()) > o.spec_available_width() {
                        &&& r == Some(false)
                        &&& final(self).widths_buffer@.len() == 0
                        &&& *final(self) == (ResultsUI {
                            max_widths: final(self).max_widths,
                            widths_buffer: final(self).widths_buffer,
                            ..*o
                        })
                    } else {
                        &&& r == Some(true)
                        &&& final(self).widths_buffer@ == o.max_buffer()
                        &&& final(self).preferred_widths@ == o.content_max()
                        &&& *final(self) == (ResultsUI {
                            max_widths: final(self).max_widths,
                            widths_buffer: final(self).widths_buffer,
                            preferred_widths: final(self).preferred_widths,
                            ..*o
                        })
                    }
                }
            }),
    {
        if self.row_cache[0].len() == 0 || self.config.stacked_columns {
            self.widths_buffer = Vec::new();
            return None;
        }
        self.max_widths = Vec::new();
        self.prepare_max_widths();
        if same_widths(&self.preferred_widths, &self.max_widths) {
            return None;
        }
        let ghost h = self.config.hidden_columns@;
        let ghost names = self.column_name_widths@;
        let ghost mx = self.max_widths@;
        let min_width = self.config.min_width;
        let from_cols = self.config.min_width_from_cols;
        let mut buf = copy_widths(&self.max_widths);
        let mut vi: usize = 0;
        let mut i: usize = 0;
        while i < self.column_name_widths.len()
            invariant
                h == self.config.hidden_columns@,
                self.config.hidden_columns.wf(),
                names == self.column_name_widths@,
                mx.len() == self.spec_vcols(),
                h.visible_below(names.len()) <= mx.len(),
                min_width == self.config.min_width,
                from_cols == self.config.min_width_from_cols,
                i <= names.len(),
                vi == h.visible_below(i as nat),
                buf@ == raise_all(mx, names, h, min_width, from_cols, i as nat),
                buf@.len() == mx.len(),
            decreases names.len() - i,
        {
            if !self.config.hidden_columns.contains(i) {
                proof {
                    lemma_below_mono(h, (i + 1) as nat, names.len());
                    assert(h.visible_below((i + 1) as nat) == vi + 1);
                }
                let name_w = self.column_name_widths[i];
                let cur = buf[vi];
                let lower: u16 = if cur > 0 {
                    if from_cols {
                        name_w
                    } else {
                        min_width
                    }
                } else {
                    0
                };
                if lower > cur {
                    buf.set(vi, lower);
                }
                proof {
                    assert(buf@ =~= raise_all(mx, names, h, min_width, from_cols, (i + 1) as nat));
                    assert(vi < buf.len());
                }
                vi = vi + 1;
            }
            i = i + 1;
        }
        let ghost raised = buf@;
        let mut k: usize = 0;
        while k < buf.len() && k < self.config.width_overrides.len()
            invariant
                buf@.len() == raised.len(),
                k <= raised.len(),
                forall|j: int| 0 <= j < k ==> buf@[j] == (if j < self.config.width_overrides@.len()
                    && self.config.width_overrides@[j] > 0 {
                    self.config.width_overrides@[j]
                } else {
                    raised[j]
                }),
                forall|j: int| k <= j < raised.len() ==> buf@[j] == raised[j],
            decreases raised.len() - k,
        {
            let o = self.config.width_overrides[k];
            if o > 0 {
                buf.set(k, o);
            }
            k = k + 1;
        }
        proof {
            assert(buf@ =~= with_overrides(raised, self.config.width_overrides@));
        }
        let sum = sum_widths(&buf);
        self.widths_buffer = buf;
        if sum > self.available_width() {
            self.widths_buffer = Vec::new();
            Some(false)
        } else {
            self.preferred_widths = copy_widths(&self.max_widths);
            Some(true)
        }
    }
}

/// The columns after hiding each of `idx` in turn.
pub open spec fn hidden_in_turn(h: HiddenView, idx: Seq<usize>) -> HiddenView
    decreases idx.len(),
{
    if idx.len() == 0 {
        h
    } else {
        hidden_in_turn(h, idx.drop_last()).with_hidden(idx.last() as nat)
    }
}

impl ResultsUI {
    /// Tracks one column per name, all shown, each with the width of its
    /// name (in bytes).
    pub fn init(&mut self, names: &Vec<String>)
        requires
            old(self).config.hidden_columns.wf(),
            names@.len() <= 64,
        ensures
            final(self).config.hidden_columns.wf(),
            final(self).config.hidden_columns@.len == names@.len(),
            final(self).config.hidden_columns@.order.len() == 0,
            final(self).column_name_widths@ == Seq::new(
                names@.len(),
                |i: int| (vstd::utf8::encode_utf8(names@[i]@).len() % 65536) as u16,
            ),
            *final(self) == (ResultsUI {
                column_name_widths: final(self).column_name_widths,
                config: ResultsConfig { hidden_columns: final(self).config.hidden_columns, ..old(self).config },
                ..*old(self)
            }),
    {
        self.config.hidden_columns = HiddenColumns::new_with_size(names.len());
        let mut ws: Vec<u16> = Vec::new();
        let mut i: usize = 0;
        while i < names.len()
            invariant
                i <= names@.len(),
                ws@ == Seq::new(
                    names@.len(),
                    |j: int| (vstd::utf8::encode_utf8(names@[j]@).len() % 65536) as u16,
                ).take(i as int),
            decreases names@.len() - i,
        {
            let name = names[i].as_str();
            let n = name.as_bytes().len();
            proof {
                assert(name@ == names@[i as int]@);
                assert(n == vstd::utf8::encode_utf8(names@[i as int]@).len());
            }
            ws.push((n % 65536) as u16);
            proof {
                assert(ws@ =~= Seq::new(
                    names@.len(),
                    |j: int| (vstd::utf8::encode_utf8(names@[j]@).len() % 65536) as u16,
                ).take(i + 1));
            }
            i = i + 1;
        }
        proof {
            assert(Seq::new(
                names@.len(),
                |j: int| (vstd::utf8::encode_utf8(names@[j]@).len() % 65536) as u16,
            ).take(i as int) =~= Seq::new(
                names@.len(),
                |j: int| (vstd::utf8::encode_utf8(names@[j]@).len() % 65536) as u16,
            ));
        }
        self.column_name_widths = ws;
    }

    /// The hidden columns.
    pub fn hidden_cols(&self) -> (r: &HiddenColumns)
        ensures
            *r == self.config.hidden_columns,
    {
        &self.config.hidden_columns
    }

    /// Hides each of `hidden_columns` in turn.
    pub fn set_hidden_columns(&mut self, hidden_columns: Vec<usize>)
        requires
            old(self).config.hidden_columns.wf(),
        ensures
            final(self).config.hidden_columns.wf(),
            final(self).config.hidden_columns@ == hidden_in_turn(old(self).config.hidden_columns@, hidden_columns@),
            *final(self) == (ResultsUI {
                config: ResultsConfig { hidden_columns: final(self).config.hidden_columns, ..old(self).config },
                ..*old(self)
            }),
    {
        let mut k: usize = 0;
        while k < hidden_columns.len()
            invariant
                k <= hidden_columns@.len(),
                self.config.hidden_columns.wf(),
                self.config.hidden_columns@ == hidden_in_turn(
                    old(self).config.hidden_columns@,
                    hidden_columns@.take(k as int),
                ),
                *self == (ResultsUI {
                    config: ResultsConfig { hidden_columns: self.config.hidden_columns, ..old(self).config },
                    ..*old(self)
                }),
            decreases hidden_columns@.len() - k,
        {
            proof {
                assert(hidden_columns@.take(k + 1).drop_last() =~= hidden_columns@.take(k as int));
            }
            self.config.hidden_columns.set(hidden_columns[k]);
            k = k + 1;
        }
        proof {
            assert(hidden_columns@.take(k as int) =~= hidden_columns@);
        }
    }

    /// The width the results take: the border, and the whole width with
    /// stacked columns, else the drawn widths and the spacing between them.
    pub fn table_width(&self) -> (r: u16)
        requires
            self.config.border.spec_width() + if self.config.stacked_columns {
                self.width as int
            } else {
                sum_of(self.widths@) + self.spec_column_spacing_width()
            } <= u16::MAX,
        ensures
            r == self.config.border.spec_width() + if self.config.stacked_columns {
                self.width as int
            } else {
                sum_of(self.widths@) + self.spec_column_spacing_width()
            },
    {
        let b = self.config.border.width();
        if self.config.stacked_columns {
            b + self.width
        } else {
            b + (sum_widths(&self.widths) + self.column_spacing_width())
        }
    }
}


/// A step down and then a step up come back to the same item, and so do a
/// step up and then a step down, away from the ends of the list; at the
/// last item a step down on a wrapping list lands on the first, and at
/// the first a step up lands on the last.
pub proof fn law_next_and_prev_undo_each_other(o: ResultsUI, m: ResultsUI, f: ResultsUI, r1: bool, r2: bool)
    ensures
        (next_step(o, m, r1) && prev_step(m, f, r2) && o.cursor + o.bottom < o.spec_end() && o.cursor
            < u16::MAX) ==> f.cursor + f.bottom == o.cursor + o.bottom && !r1 && !r2,
        (prev_step(o, m, r1) && next_step(m, f, r2) && (o.cursor > 0 || o.bottom > 0) && o.cursor + o.bottom
            <= o.spec_end()) ==> f.cursor + f.bottom == o.cursor + o.bottom && !r1 && !r2,
        (next_step(o, m, r1) && o.cursor + o.bottom >= o.spec_end() && o.config.scroll_wrap) ==> r1 && m.cursor
            + m.bottom == 0,
        (prev_step(o, m, r1) && o.cursor == 0 && o.bottom == 0 && o.config.scroll_wrap) ==> r1 && m.cursor
            + m.bottom == o.spec_end(),
{
}

/// A jump lands on the item asked for (the last one when asked past it),
/// and that item is in view: the cursor is on one of the rows.
pub proof fn law_jump_lands_in_view(o: ResultsUI, f: ResultsUI, index: u32)
    requires
        cursor_jumped(o, f, index),
    ensures
        f.cursor + f.bottom == min_of(index as int, o.spec_end() as int),
        o.height > 0 ==> f.cursor < o.height,
        f.height == o.height && f.status == o.status && !f.cursor_disabled,
{
}

} // verus!
