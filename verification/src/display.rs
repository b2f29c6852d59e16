//! Headers and footers: content shown as a table above or below the
//! results, with clickable regions.
use vstd::prelude::*;

use crate::config::{DisplayConfig, Padding, RowConnectionStyle, StringOrVec};
use crate::render::{line_view, plain_style, spans_width_of, StyledSpan, StyledText};
use crate::ui::{find_interaction, interaction_at, regions_view};
use crate::strings::split;
use crate::text::{
    copy_text, line_cols, lines_of, wrap_line, wrap_text_static, wrapped_line, wrapped_lines, Span,
};
use crate::tui::{max_of, sat_sub};

verus! {

/// Text as lines of spans.
pub type TextView = Seq<Seq<Span>>;

/// A string as plain text, one line per piece between newlines.
pub open spec fn raw_text(s: Seq<char>) -> TextView {
    split(s, '\n').map_values(|p: Seq<char>| seq![(p, plain_style())])
}

/// The texts of the configured content: none, one, or one per string.
pub open spec fn content_texts(content: Option<StringOrVec>) -> Seq<TextView> {
    match content {
        Some(StringOrVec::String(s)) => seq![raw_text(s@)],
        Some(StringOrVec::Vec(v)) => v@.map_values(|s: String| raw_text(s@)),
        None => Seq::empty(),
    }
}

/// Where a region starting at column `k` goes among regions sorted by
/// start: after all those starting at or before `k`.
pub open spec fn insert_pos(s: Seq<(u16, String)>, k: u16) -> nat
    decreases s.len(),
{
    if s.len() == 0 {
        0
    } else if s.last().0 <= k {
        s.len()
    } else {
        insert_pos(s.drop_last(), k)
    }
}

/// The regions sorted by start, regions with the same start keeping their
/// order.
pub open spec fn sorted_by_start(s: Seq<(u16, String)>) -> Seq<(u16, String)>
    decreases s.len(),
{
    if s.len() == 0 {
        s
    } else {
        let rest = sorted_by_start(s.drop_last());
        rest.insert(insert_pos(rest, s.last().0) as int, s.last())
    }
}

/// The width of column `i`, 0 past the end.
pub open spec fn width_at(widths: Seq<u16>, i: int) -> u16 {
    if 0 <= i < widths.len() {
        widths[i]
    } else {
        0
    }
}

/// Whether column `i` is shown: all are when no widths are known.
pub open spec fn shown_col(widths: Seq<u16>, i: int) -> bool {
    widths.len() == 0 || width_at(widths, i) > 0
}

/// `t` wrapped at `w` columns, unchanged for 0.
pub open spec fn wrapped_text(t: TextView, w: nat) -> TextView {
    if w == 0 {
        t
    } else {
        wrapped_lines(t, w)
    }
}

/// The tallest of the first `n` shown cells, in rows (0 for none).
pub open spec fn cells_height(cells: Seq<TextView>, widths: Seq<u16>, n: nat) -> nat
    decreases n,
{
    if n == 0 {
        0
    } else {
        let h = if shown_col(widths, n - 1) {
            cells[n - 1].len() % 65536
        } else {
            0
        };
        max_of(cells_height(cells, widths, (n - 1) as nat) as int, h as int) as nat
    }
}

/// What a display holds, field for field.
pub struct DisplayModel {
    /// The width inside the border.
    pub width: u16,
    pub heights: Seq<u16>,
    pub text: Seq<TextView>,
    /// Header rows of lines.
    pub lines: Seq<Seq<Seq<Span>>>,
    pub show: bool,
    pub config: DisplayConfig,
    pub dirty: bool,
    pub table: Seq<Seq<TextView>>,
    /// The results' indentation, column spacing and column widths.
    pub widths: (u16, u16, Seq<u16>),
}

impl DisplayModel {
    /// Whether the content is one column.
    pub open spec fn single(self) -> bool {
        self.text.len() == 1
    }

    /// The width column `i` wraps at: its width when wrapping, else 0.
    pub open spec fn wrap_width(self, i: int) -> nat {
        if self.config.wrap {
            width_at(self.widths.2, i) as nat
        } else {
            0
        }
    }

    /// The cells of the content row.
    pub open spec fn content_row(self) -> Seq<TextView> {
        if self.single() {
            seq![wrapped_text(self.text[0], if self.config.wrap { self.width as nat } else { 0 })]
        } else {
            Seq::new(self.text.len(), |i: int| wrapped_text(self.text[i], self.wrap_width(i)))
        }
    }

    /// The rows of the content row.
    pub open spec fn content_height(self) -> u16 {
        if self.single() {
            (self.content_row()[0].len() % 65536) as u16
        } else {
            max_of(cells_height(self.content_row(), self.widths.2, self.text.len()) as int, 1) as u16
        }
    }

    /// The cells of a header row.
    pub open spec fn header_row(self, row: Seq<Seq<Span>>) -> Seq<TextView> {
        Seq::new(row.len(), |i: int| wrapped_line(row[i], self.wrap_width(i)))
    }

    /// The rows of a header row.
    pub open spec fn header_height(self, row: Seq<Seq<Span>>) -> u16 {
        max_of(cells_height(self.header_row(row), self.widths.2, row.len()) as int, 1) as u16
    }

    /// The table: the content row, if any, then the header rows.
    pub open spec fn built_table(self) -> Seq<Seq<TextView>> {
        let c = if self.text.len() > 0 {
            seq![self.content_row()]
        } else {
            Seq::empty()
        };
        c + self.lines.map_values(|row: Seq<Seq<Span>>| self.header_row(row))
    }

    /// The rows each row of the table takes.
    pub open spec fn built_heights(self) -> Seq<u16> {
        let c = if self.text.len() > 0 {
            seq![self.content_height()]
        } else {
            Seq::empty()
        };
        c + self.lines.map_values(|row: Seq<Seq<Span>>| self.header_height(row))
    }

    /// The table has a row per content and header row, the content row a
    /// cell per column of content (one for single content).
    pub open spec fn wf(self) -> bool {
        &&& self.table.len() == (if self.text.len() > 0 {
            1int
        } else {
            0
        }) + self.lines.len()
        &&& self.text.len() > 0 ==> self.table[0].len() == self.text.len()
    }

    /// The display with its table built again.
    pub open spec fn rebuilt(self) -> DisplayModel {
        DisplayModel { table: self.built_table(), heights: self.built_heights(), ..self }
    }

    /// The sum of the row heights.
    pub open spec fn rows_height(self) -> nat {
        sum_u16(self.heights)
    }
}

/// The sum of `s`.
pub open spec fn sum_u16(s: Seq<u16>) -> nat
    decreases s.len(),
{
    if s.len() == 0 {
        0
    } else {
        sum_u16(s.drop_last()) + s.last() as nat
    }
}

/// The columns of the lines of `t`, each cut to `u16`, added up.
pub open spec fn text_cols(t: TextView) -> nat
    decreases t.len(),
{
    if t.len() == 0 {
        0
    } else {
        text_cols(t.drop_last()) + line_cols(t.last())
    }
}

/// The row `y` rows down falls in, from row `r` on, and how far into it.
pub open spec fn row_under(heights: Seq<u16>, r: int, y: int) -> Option<(int, int)>
    decreases heights.len() - r,
{
    if r < 0 || r >= heights.len() {
        None
    } else if y < heights[r] {
        Some((r, y))
    } else {
        row_under(heights, r + 1, y - heights[r])
    }
}

impl DisplayModel {
    /// Whether table row `row` is the content row.
    pub open spec fn content_row_at(self, row: int) -> bool {
        row == 0 && self.text.len() > 0
    }

    /// The full width of cell `i` of table row `row`, before wrapping.
    pub open spec fn raw_col_width(self, row: int, i: int) -> nat {
        if self.content_row_at(row) {
            if 0 <= i < self.text.len() {
                text_cols(self.text[i])
            } else {
                0
            }
        } else {
            let li = if self.text.len() == 0 {
                row
            } else {
                row - 1
            };
            if 0 <= li < self.lines.len() && 0 <= i < self.lines[li].len() {
                line_cols(self.lines[li][i])
            } else {
                0
            }
        }
    }

    /// Whether the full width of cell `i` of row `row` adds up within `u16`.
    pub open spec fn raw_col_fits(self, row: int, i: int) -> bool {
        self.content_row_at(row) && 0 <= i < self.text.len() ==> text_cols(self.text[i]) <= u16::MAX
    }

    /// The number of cells in table row `row`.
    pub open spec fn num_cols(self, row: int) -> int {
        if 0 <= row < self.table.len() {
            self.table[row].len() as int
        } else {
            0
        }
    }

    /// Where the content starts: past the border's left side, or indented
    /// like the results.
    pub open spec fn left_offset(self) -> int {
        if self.config.match_indent {
            (if self.config.border.spec_sides().left {
                1int
            } else {
                0
            }) + sat_sub(self.widths.0 as int, self.config.border.spec_left() as int)
        } else {
            self.config.border.spec_left() as int
        }
    }

    /// Looks for the cell under column `cx` from cell `i` on, `cur` being where
    /// the next shown cell starts and `raw` the full widths of the cells
    /// passed; gives the full widths before the cell, the column into it,
    /// and its width.
    pub open spec fn col_scan(self, row: int, cx: int, i: int, cur: int, raw: int, first: bool) -> Option<(int, int, int)>
        decreases self.num_cols(row) - i,
    {
        if i < 0 || i >= self.num_cols(row) {
            None
        } else {
            let w = width_at(self.widths.2, i) as int;
            let rw = self.raw_col_width(row, i) as int;
            if w == 0 {
                self.col_scan(row, cx, i + 1, cur, raw + rw, first)
            } else {
                let start = if first {
                    cur
                } else {
                    cur + self.widths.1
                };
                if cx < start + w {
                    Some((raw, sat_sub(cx, start), w))
                } else {
                    self.col_scan(row, cx, i + 1, start + w, raw + rw, false)
                }
            }
        }
    }

    /// Whether the sums of [`DisplayModel::col_scan`] stay within `u16`.
    pub open spec fn scan_fits(self, row: int, cx: int, i: int, cur: int, raw: int, first: bool) -> bool
        decreases self.num_cols(row) - i,
    {
        if i < 0 || i >= self.num_cols(row) {
            true
        } else {
            let w = width_at(self.widths.2, i) as int;
            let rw = self.raw_col_width(row, i) as int;
            &&& self.raw_col_fits(row, i)
            &&& if w == 0 {
                raw + rw <= u16::MAX && self.scan_fits(row, cx, i + 1, cur, raw + rw, first)
            } else {
                let start = if first {
                    cur
                } else {
                    cur + self.widths.1
                };
                &&& start + w <= u16::MAX
                &&& cx < start + w || (raw + rw <= u16::MAX && self.scan_fits(
                    row,
                    cx,
                    i + 1,
                    start + w,
                    raw + rw,
                    false,
                ))
            }
        }
    }

    /// The row and position in its regions of a click at `(x, y)`, if any
    /// (see [`DisplayUI::get_interaction`]).
    pub open spec fn interaction_target(self, x: u16, y: u16) -> Option<(int, int)> {
        if !self.show || self.config.interactions@.len() == 0 || self.heights.len() == 0 {
            None
        } else if y < self.config.border.spec_top() {
            None
        } else {
            match row_under(self.heights, 0, y - self.config.border.spec_top()) {
                None => None,
                Some(found) => {
                    let row = found.0;
                    let sy = found.1;
                    if !(row < self.config.interactions@.len() && self.config.interactions@[row]@.len() > 0) {
                        None
                    } else if x < self.left_offset() {
                        None
                    } else {
                        let cx = x - self.left_offset();
                        if self.content_row_at(row) && self.single() {
                            let cw = if self.config.wrap && self.width > 0 {
                                self.width as int
                            } else {
                                0
                            };
                            Some((row, if cw > 0 {
                                sy * cw + cx
                            } else {
                                cx
                            }))
                        } else if self.num_cols(row) == 0 {
                            None
                        } else {
                            match self.col_scan(row, cx, 0, 0, 0, true) {
                                Some(t) => Some((row, t.0 + sy * t.2 + t.1)),
                                None => None,
                            }
                        }
                    }
                }
            }
        }
    }

    /// Whether every sum [`DisplayModel::interaction_target`] makes stays
    /// within `u16`.
    pub open spec fn interaction_fits(self, x: u16, y: u16) -> bool {
        if !self.show || self.config.interactions@.len() == 0 || self.heights.len() == 0 {
            true
        } else {
            &&& self.config.border.spec_top() <= u16::MAX
            &&& y >= self.config.border.spec_top() ==> match row_under(
                self.heights,
                0,
                y - self.config.border.spec_top(),
            ) {
                None => true,
                Some(found) => {
                    let row = found.0;
                    let sy = found.1;
                    row < self.config.interactions@.len() && self.config.interactions@[row]@.len() > 0 ==> {
                        &&& self.config.border.spec_left() <= u16::MAX
                        &&& self.left_offset() <= u16::MAX
                        &&& x >= self.left_offset() ==> {
                            let cx = x - self.left_offset();
                            if self.content_row_at(row) && self.single() {
                                self.config.wrap && self.width > 0 ==> sy * self.width + cx <= u16::MAX
                            } else {
                                &&& self.scan_fits(row, cx, 0, 0, 0, true)
                                &&& match self.col_scan(row, cx, 0, 0, 0, true) {
                                    Some(t) => t.0 + sy * t.2 + t.1 <= u16::MAX,
                                    None => true,
                                }
                            }
                        }
                    }
                },
            }
        }
    }
}

/// The cells among the first `n` of `row` whose column has a width.
pub open spec fn kept_cells(row: Seq<TextView>, widths: Seq<u16>, n: nat) -> Seq<TextView>
    decreases n,
{
    if n == 0 {
        Seq::empty()
    } else {
        let rest = kept_cells(row, widths, (n - 1) as nat);
        if width_at(widths, n - 1) > 0 {
            rest.push(row[n - 1])
        } else {
            rest
        }
    }
}

/// The widths among the first `n` that are not 0.
pub open spec fn kept_widths(widths: Seq<u16>, n: nat) -> Seq<u16>
    decreases n,
{
    if n == 0 {
        Seq::empty()
    } else {
        let rest = kept_widths(widths, (n - 1) as nat);
        if widths[n - 1] > 0 {
            rest.push(widths[n - 1])
        } else {
            rest
        }
    }
}

/// A row of a display's table, ready to draw.
pub struct DisplayRow {
    pub cells: Vec<StyledText>,
    pub height: u16,
    /// Whether the display's style is laid on each cell.
    pub cell_styled: bool,
    /// Whether the display's style is laid on the whole row.
    pub row_styled: bool,
}

/// A display's table, ready to draw.
pub struct DisplayTable {
    pub rows: Vec<DisplayRow>,
    /// The widths of the columns shown; none for one column over the full width.
    pub widths: Option<Vec<u16>>,
    pub column_spacing: u16,
    /// The left padding inside the border, when it follows the results' indentation.
    pub padding_left: Option<u16>,
    /// Whether the display's style is laid on the whole table.
    pub styled: bool,
}

impl DisplayModel {
    /// The display after taking in the results' widths `rw`: its table is
    /// built again when it changed or was marked dirty.
    pub open spec fn refreshed(self, rw: (u16, u16, Seq<u16>)) -> DisplayModel {
        if self.dirty || self.widths != rw {
            (DisplayModel { widths: rw, dirty: false, ..self }).rebuilt()
        } else {
            self
        }
    }

    /// Whether the display's style is laid on each cell rather than the table.
    pub open spec fn disjoint(self) -> bool {
        self.config.row_connection == RowConnectionStyle::Disjoint
    }

    /// Whether the one column spans the full width: single content and
    /// header rows of one cell.
    pub open spec fn full_width_columns(self) -> bool {
        self.single() && forall|i: int| 0 <= i < self.lines.len() ==> #[trigger] self.lines[i].len() == 1
    }

    /// The padding of the full-width row: the border's, the left one
    /// following the results' indentation when asked.
    pub open spec fn full_width_padding(self) -> Padding {
        let b = self.config.border;
        let left = if self.config.match_indent {
            sat_sub(self.widths.0 as int, b.spec_left() as int) as u16
        } else {
            b.spec_left() as u16
        };
        let top = b.spec_top() as u16;
        Padding {
            left,
            top,
            right: sat_sub(b.spec_width() as int, left as int) as u16,
            bottom: (b.spec_height() - top) as u16,
        }
    }

    /// Whether `t` is the table drawn.
    pub open spec fn drawn_table(self, t: DisplayTable) -> bool {
        &&& t.rows@.len() == self.table.len()
        &&& forall|i: int| 0 <= i < self.table.len() ==> self.drawn_row(i, #[trigger] t.rows@[i])
        &&& self.full_width_columns() ==> t.widths is None
        &&& !self.full_width_columns() ==> (t.widths matches Some(w) && w@ == kept_widths(
            self.widths.2,
            self.widths.2.len(),
        ))
        &&& t.column_spacing == self.widths.1
        &&& t.padding_left == if self.config.match_indent {
            Some(sat_sub(self.widths.0 as int, self.config.border.spec_left() as int) as u16)
        } else {
            None
        }
        &&& t.styled == !self.disjoint()
    }

    /// Whether row `r` of the table is drawn as `row`.
    pub open spec fn drawn_row(self, r: int, row: DisplayRow) -> bool {
        let content = self.content_row_at(r);
        &&& row.height == (if 0 <= r < self.heights.len() {
            self.heights[r]
        } else {
            1
        })
        &&& if content && self.single() {
            &&& texts_view(row.cells@) == seq![self.table[r][0]]
            &&& !row.cell_styled
            &&& row.row_styled
        } else {
            &&& texts_view(row.cells@) == kept_cells(self.table[r], self.widths.2, self.table[r].len())
            &&& row.cell_styled == self.disjoint()
            &&& row.row_styled == (content || self.disjoint())
        }
    }
}

/// A header or footer: its content and header rows, wrapped into a table.
pub struct DisplayUI {
    width: u16,
    heights: Vec<u16>,
    text: Vec<StyledText>,
    lines: Vec<Vec<Vec<StyledSpan>>>,
    pub show: bool,
    pub config: DisplayConfig,
    dirty: bool,
    table: Vec<Vec<StyledText>>,
    cached_result_widths: (u16, u16, Vec<u16>),
}

pub open spec fn texts_view(v: Seq<StyledText>) -> Seq<TextView> {
    v.map_values(|t: StyledText| t@)
}

pub open spec fn rows_view(v: Seq<Vec<Vec<StyledSpan>>>) -> Seq<Seq<Seq<Span>>> {
    v.map_values(|row: Vec<Vec<StyledSpan>>| lines_of(row@))
}

pub open spec fn table_view(v: Seq<Vec<StyledText>>) -> Seq<Seq<TextView>> {
    v.map_values(|row: Vec<StyledText>| texts_view(row@))
}

impl View for DisplayUI {
    type V = DisplayModel;

    closed spec fn view(&self) -> DisplayModel {
        DisplayModel {
            width: self.width,
            heights: self.heights@,
            text: texts_view(self.text@),
            lines: rows_view(self.lines@),
            show: self.show,
            config: self.config,
            dirty: self.dirty,
            table: table_view(self.table@),
            widths: (self.cached_result_widths.0, self.cached_result_widths.1, self.cached_result_widths.2@),
        }
    }
}

impl Default for DisplayUI {
    fn default() -> (r: Self)
        ensures
            r@.wf(),
            r@.width == 0,
            r@.heights.len() == 0,
            r@.text.len() == 0,
            r@.lines.len() == 0,
            !r@.show,
            !r@.dirty,
            r@.table.len() == 0,
            r@.widths == (0u16, 0u16, Seq::<u16>::empty()),
            r@.config.match_indent && !r@.config.wrap && r@.config.content is None,
            r@.config.interactions@.len() == 0 && r@.config.header_lines == 0,
            r@.config.border.sides is None && !r@.config.border.typed && !r@.config.border.colored,
            r@.config.border.title@.len() == 0,
    {
        let r = DisplayUI {
            width: 0,
            heights: Vec::new(),
            text: Vec::new(),
            lines: Vec::new(),
            show: false,
            config: DisplayConfig::default(),
            dirty: false,
            table: Vec::new(),
            cached_result_widths: (0, 0, Vec::new()),
        };
        proof {
            assert(r@.widths.2 =~= Seq::<u16>::empty());
        }
        r
    }
}

impl DisplayUI {
    /// The width of column `i` of the results, 0 past the end.
    fn result_width(&self, i: usize) -> (r: u16)
        ensures
            r == width_at(self@.widths.2, i as int),
    {
        if i < self.cached_result_widths.2.len() {
            self.cached_result_widths.2[i]
        } else {
            0
        }
    }

    /// The cells of the content row and its height.
    fn content_cells(&self) -> (r: (Vec<StyledText>, u16))
        requires
            self@.text.len() > 0,
        ensures
            texts_view(r.0@) == self@.content_row(),
            r.1 == self@.content_height(),
    {
        let ghost m = self@;
        if self.text.len() == 1 {
            let w = if self.config.wrap {
                self.width
            } else {
                0
            };
            let (t, _) = wrap_text_static(&self.text[0], w);
            let h = (t.lines.len() % 65536) as u16;
            let cells = vec![t];
            proof {
                assert(texts_view(cells@) =~= m.content_row());
            }
            return (cells, h);
        }
        let widths_empty = self.cached_result_widths.2.len() == 0;
        let mut row_height: u16 = 0;
        let mut cells: Vec<StyledText> = Vec::new();
        let mut i: usize = 0;
        while i < self.text.len()
            invariant
                m == self@,
                !m.single(),
                widths_empty == (m.widths.2.len() == 0),
                i <= self.text@.len(),
                texts_view(cells@) == m.content_row().take(i as int),
                row_height == cells_height(m.content_row(), m.widths.2, i as nat),
            decreases self.text@.len() - i,
        {
            let cw = self.result_width(i);
            let w = if self.config.wrap {
                cw
            } else {
                0
            };
            let (wrapped, _) = wrap_text_static(&self.text[i], w);
            if widths_empty || cw > 0 {
                let h = (wrapped.lines.len() % 65536) as u16;
                if h > row_height {
                    row_height = h;
                }
            }
            proof {
                assert(m.text[i as int] == self.text@[i as int]@);
                assert(wrapped@ == m.content_row()[i as int]);
            }
            let ghost before = cells@;
            cells.push(wrapped);
            proof {
                assert(texts_view(cells@) =~= texts_view(before).push(wrapped@));
                assert(texts_view(cells@) =~= m.content_row().take(i + 1));
            }
            i = i + 1;
        }
        proof {
            assert(m.content_row().take(i as int) =~= m.content_row());
        }
        let h = if row_height > 1 {
            row_height
        } else {
            1
        };
        (cells, h)
    }

    /// The cells of a header row and its height.
    fn header_cells(&self, row: &Vec<Vec<StyledSpan>>) -> (r: (Vec<StyledText>, u16))
        ensures
            texts_view(r.0@) == self@.header_row(lines_of(row@)),
            r.1 == self@.header_height(lines_of(row@)),
    {
        let ghost m = self@;
        let ghost lv = lines_of(row@);
        let widths_empty = self.cached_result_widths.2.len() == 0;
        let mut row_height: u16 = 0;
        let mut cells: Vec<StyledText> = Vec::new();
        let mut i: usize = 0;
        while i < row.len()
            invariant
                m == self@,
                lv == lines_of(row@),
                widths_empty == (m.widths.2.len() == 0),
                i <= row@.len(),
                texts_view(cells@) == m.header_row(lv).take(i as int),
                row_height == cells_height(m.header_row(lv), m.widths.2, i as nat),
            decreases row@.len() - i,
        {
            let cw = self.result_width(i);
            let w = if self.config.wrap {
                cw
            } else {
                0
            };
            let wrapped = wrap_line(&row[i], w);
            if widths_empty || cw > 0 {
                let h = (wrapped.len() % 65536) as u16;
                if h > row_height {
                    row_height = h;
                }
            }
            let t = StyledText { lines: wrapped };
            proof {
                assert(t@ =~= lines_of(t.lines@));
                assert(lv[i as int] == line_view(row@[i as int]@));
                assert(t@ == m.header_row(lv)[i as int]);
            }
            let ghost before = cells@;
            cells.push(t);
            proof {
                assert(texts_view(cells@) =~= texts_view(before).push(t@));
                assert(texts_view(cells@) =~= m.header_row(lv).take(i + 1));
            }
            i = i + 1;
        }
        proof {
            assert(m.header_row(lv).take(i as int) =~= m.header_row(lv));
        }
        let h = if row_height > 1 {
            row_height
        } else {
            1
        };
        (cells, h)
    }

    /// Builds the table again from the content and the header rows.
    pub fn update_table(&mut self)
        ensures
            final(self)@ == old(self)@.rebuilt(),
            final(self)@.wf(),
    {
        let ghost m = self@;
        proof {
            law_built_table_shape(m);
        }
        if self.text.len() == 0 && self.lines.len() == 0 {
            self.heights = Vec::new();
            self.table = Vec::new();
            proof {
                assert(self@.table =~= m.built_table());
                assert(self@.heights =~= m.built_heights());
            }
            return;
        }
        let mut table_rows: Vec<Vec<StyledText>> = Vec::new();
        let mut heights: Vec<u16> = Vec::new();
        if self.text.len() > 0 {
            let (cells, h) = self.content_cells();
            table_rows.push(cells);
            heights.push(h);
        }
        let ghost c = table_view(table_rows@);
        let ghost ch = heights@;
        let mut r: usize = 0;
        while r < self.lines.len()
            invariant
                m == self@,
                r <= self.lines@.len(),
                c == (if m.text.len() > 0 {
                    seq![m.content_row()]
                } else {
                    Seq::empty()
                }),
                ch == (if m.text.len() > 0 {
                    seq![m.content_height()]
                } else {
                    Seq::empty()
                }),
                table_view(table_rows@) == c + m.lines.take(r as int).map_values(
                    |row: Seq<Seq<Span>>| m.header_row(row),
                ),
                heights@ == ch + m.lines.take(r as int).map_values(
                    |row: Seq<Seq<Span>>| m.header_height(row),
                ),
            decreases self.lines@.len() - r,
        {
            let (cells, h) = self.header_cells(&self.lines[r]);
            proof {
                assert(m.lines[r as int] == lines_of(self.lines@[r as int]@));
            }
            let ghost before = table_rows@;
            table_rows.push(cells);
            heights.push(h);
            proof {
                assert(table_view(table_rows@) =~= table_view(before).push(texts_view(cells@)));
                assert(m.lines.take(r + 1).map_values(|row: Seq<Seq<Span>>| m.header_row(row))
                    =~= m.lines.take(r as int).map_values(|row: Seq<Seq<Span>>| m.header_row(row)).push(
                    m.header_row(m.lines[r as int]),
                ));
                assert(m.lines.take(r + 1).map_values(|row: Seq<Seq<Span>>| m.header_height(row))
                    =~= m.lines.take(r as int).map_values(|row: Seq<Seq<Span>>| m.header_height(row)).push(
                    m.header_height(m.lines[r as int]),
                ));
                assert(table_view(table_rows@) =~= c + m.lines.take(r + 1).map_values(
                    |row: Seq<Seq<Span>>| m.header_row(row),
                ));
                assert(heights@ =~= ch + m.lines.take(r + 1).map_values(
                    |row: Seq<Seq<Span>>| m.header_height(row),
                ));
            }
            r = r + 1;
        }
        proof {
            assert(m.lines.take(r as int) =~= m.lines);
        }
        self.table = table_rows;
        self.heights = heights;
    }
}

/// `row` sorted by start, regions with the same start keeping their order
/// (see [`sorted_by_start`]).
fn sort_regions(row: Vec<(u16, String)>) -> (r: Vec<(u16, String)>)
    ensures
        r@ == sorted_by_start(row@),
{
    let ghost orig = row@;
    let mut rest = row;
    let mut out: Vec<(u16, String)> = Vec::new();
    while rest.len() > 0
        invariant
            out@.len() + rest@.len() == orig.len(),
            rest@ == orig.subrange(orig.len() - rest@.len(), orig.len() as int),
            out@ == sorted_by_start(orig.take(orig.len() - rest@.len())),
        decreases rest@.len(),
    {
        let ghost k = orig.len() - rest@.len();
        let e = rest.remove(0);
        let mut pos = out.len();
        proof {
            assert(out@.take(out@.len() as int) =~= out@);
        }
        while pos > 0 && out[pos - 1].0 > e.0
            invariant
                pos <= out@.len(),
                insert_pos(out@, e.0) == insert_pos(out@.take(pos as int), e.0),
            decreases pos,
        {
            proof {
                assert(out@.take(pos as int).drop_last() =~= out@.take(pos - 1));
            }
            pos = pos - 1;
        }
        proof {
            assert(orig.take(k + 1).drop_last() =~= orig.take(k));
            assert(orig.take(k + 1).last() == e);
            if pos > 0 {
                assert(out@.take(pos as int).last() == out@[pos - 1]);
            }
            assert(out@.take(out@.len() as int) =~= out@);
        }
        out.insert(pos, e);
        proof {
            assert(rest@ =~= orig.subrange(orig.len() - rest@.len(), orig.len() as int));
        }
    }
    proof {
        assert(orig.take(orig.len() as int) =~= orig);
    }
    out
}

/// Each row of regions sorted by start.
fn sort_rows(rows: Vec<Vec<(u16, String)>>) -> (r: Vec<Vec<(u16, String)>>)
    ensures
        r@.len() == rows@.len(),
        forall|i: int| 0 <= i < r@.len() ==> (#[trigger] r@[i])@ == sorted_by_start(rows@[i]@),
{
    let ghost orig = rows@;
    let mut rest = rows;
    let mut out: Vec<Vec<(u16, String)>> = Vec::new();
    while rest.len() > 0
        invariant
            out@.len() + rest@.len() == orig.len(),
            rest@ == orig.subrange(out@.len() as int, orig.len() as int),
            forall|i: int| 0 <= i < out@.len() ==> (#[trigger] out@[i])@ == sorted_by_start(orig[i]@),
        decreases rest@.len(),
    {
        let row = rest.remove(0);
        out.push(sort_regions(row));
        proof {
            assert(rest@ =~= orig.subrange(out@.len() as int, orig.len() as int));
        }
    }
    out
}

/// The texts of the configured content.
fn make_texts(content: &Option<StringOrVec>) -> (r: Vec<StyledText>)
    ensures
        texts_view(r@) == content_texts(*content),
{
    match content {
        Some(StringOrVec::String(s)) => {
            let t = StyledText::raw(s.as_str());
            proof {
                assert(t@ =~= raw_text(s@));
            }
            let r = vec![t];
            proof {
                assert(texts_view(r@) =~= content_texts(*content));
            }
            r
        },
        Some(StringOrVec::Vec(v)) => {
            let mut r: Vec<StyledText> = Vec::new();
            let mut i: usize = 0;
            while i < v.len()
                invariant
                    i <= v@.len(),
                    texts_view(r@) == v@.take(i as int).map_values(|s: String| raw_text(s@)),
                decreases v@.len() - i,
            {
                let t = StyledText::raw(v[i].as_str());
                proof {
                    assert(t@ =~= raw_text(v@[i as int]@));
                }
                let ghost before = r@;
                r.push(t);
                proof {
                    assert(texts_view(r@) =~= texts_view(before).push(t@));
                    assert(texts_view(r@) =~= v@.take(i + 1).map_values(|s: String| raw_text(s@)));
                }
                i = i + 1;
            }
            proof {
                assert(v@.take(i as int) =~= v@);
            }
            r
        },
        None => {
            let r: Vec<StyledText> = Vec::new();
            proof {
                assert(texts_view(r@) =~= content_texts(*content));
            }
            r
        },
    }
}

impl DisplayUI {
    /// A display of `config`, its content taken in (see [`DisplayUI::init`]).
    pub fn new(config: DisplayConfig) -> (r: Self)
        ensures
            r@.wf(),
            ({
                let m = DisplayModel {
                    width: 0,
                    heights: Seq::empty(),
                    text: content_texts(config.content),
                    lines: Seq::empty(),
                    show: config.content is Some || config.header_lines > 0,
                    config: DisplayConfig { interactions: r@.config.interactions, ..config },
                    dirty: true,
                    table: Seq::empty(),
                    widths: (0, 0, Seq::empty()),
                };
                &&& r@ == m.rebuilt()
                &&& r@.config.interactions@.len() == config.interactions@.len()
                &&& forall|i: int|
                    0 <= i < config.interactions@.len() ==> (#[trigger] r@.config.interactions@[i])@
                        == sorted_by_start(config.interactions@[i]@)
            }),
    {
        let mut ret = DisplayUI {
            width: 0,
            heights: Vec::new(),
            text: Vec::new(),
            lines: Vec::new(),
            show: false,
            config,
            dirty: false,
            table: Vec::new(),
            cached_result_widths: (0, 0, Vec::new()),
        };
        proof {
            assert(ret@.widths.2 =~= Seq::<u16>::empty());
            assert(ret@.lines =~= Seq::<Seq<Seq<Span>>>::empty());
            assert(ret@.heights =~= Seq::<u16>::empty());
            assert(ret@.table =~= Seq::<Seq<TextView>>::empty());
            assert(ret@.text =~= Seq::<TextView>::empty());
        }
        ret.init();
        ret
    }

    /// Takes in the content again from the settings: the texts of the
    /// content, each row of regions sorted by start, shown when there is
    /// content or header lines; then builds the table.
    pub fn init(&mut self)
        ensures
            final(self)@.wf(),
            ({
                let m = DisplayModel {
                    text: content_texts(old(self)@.config.content),
                    show: old(self)@.config.content is Some || old(self)@.config.header_lines > 0,
                    dirty: true,
                    config: DisplayConfig { interactions: final(self)@.config.interactions, ..old(self)@.config },
                    ..old(self)@
                };
                &&& final(self)@ == m.rebuilt()
                &&& final(self)@.config.interactions@.len() == old(self)@.config.interactions@.len()
                &&& forall|i: int|
                    0 <= i < old(self)@.config.interactions@.len() ==> (
                    #[trigger] final(self)@.config.interactions@[i])@ == sorted_by_start(
                        old(self)@.config.interactions@[i]@,
                    )
            }),
    {
        let text = make_texts(&self.config.content);
        let mut rows: Vec<Vec<(u16, String)>> = Vec::new();
        std::mem::swap(&mut rows, &mut self.config.interactions);
        self.config.interactions = sort_rows(rows);
        self.text = text;
        self.show = self.config.content.is_some() || self.config.header_lines > 0;
        self.dirty = true;
        self.update_table();
    }

    /// Sets the width the display has, less its border; builds the table
    /// again when that changed.
    pub fn update_width(&mut self, width: u16)
        requires
            old(self)@.config.border.spec_width() <= u16::MAX,
        ensures
            old(self)@.wf() ==> final(self)@.wf(),
            ({
                let w = (if width >= old(self)@.config.border.spec_width() {
                    width - old(self)@.config.border.spec_width()
                } else {
                    0
                }) as u16;
                final(self)@ == if w != old(self)@.width {
                    (DisplayModel { width: w, dirty: true, ..old(self)@ }).rebuilt()
                } else {
                    old(self)@
                }
            }),
    {
        let border_w = self.config.border.width();
        let new_w = width.saturating_sub(border_w);
        if self.width != new_w {
            self.width = new_w;
            self.dirty = true;
            self.update_table();
        }
    }

    /// Turns wrapping on or off; builds the table again when that changed.
    pub fn wrap(&mut self, wrap: bool)
        ensures
            old(self)@.wf() ==> final(self)@.wf(),
            final(self)@ == if wrap != old(self)@.config.wrap {
                (DisplayModel {
                    config: DisplayConfig { wrap, ..old(self)@.config },
                    dirty: true,
                    ..old(self)@
                }).rebuilt()
            } else {
                old(self)@
            },
    {
        if self.config.wrap != wrap {
            self.config.wrap = wrap;
            self.dirty = true;
            self.update_table();
        }
    }

    pub fn is_wrap(&self) -> (r: bool)
        ensures
            r == self@.config.wrap,
    {
        self.config.wrap
    }

    /// The rows the display takes: its rows and its border, none when hidden.
    pub fn height(&self) -> (r: u16)
        requires
            self@.show ==> self@.rows_height() + self@.config.border.spec_height() <= u16::MAX,
        ensures
            r == if self@.show {
                self@.rows_height() + self@.config.border.spec_height()
            } else {
                0
            },
    {
        if !self.show {
            return 0;
        }
        let mut height: u16 = 0;
        let mut i: usize = 0;
        let ghost hs = self@.heights;
        while i < self.heights.len()
            invariant
                hs == self@.heights,
                hs == self.heights@,
                i <= hs.len(),
                height == sum_u16(hs.take(i as int)),
                sum_u16(hs) <= u16::MAX,
            decreases hs.len() - i,
        {
            proof {
                assert(hs.take(i + 1).drop_last() =~= hs.take(i as int));
                lemma_sum_prefix(hs, i + 1);
            }
            height = height + self.heights[i];
            i = i + 1;
        }
        proof {
            assert(hs.take(i as int) =~= hs);
        }
        height + self.config.border.height()
    }

    /// Shows `text` as the only column.
    pub fn set(&mut self, text: StyledText)
        ensures
            final(self)@.wf(),
            final(self)@ == (DisplayModel { text: seq![text@], show: true, dirty: true, ..old(self)@ }).rebuilt(),
    {
        self.text = vec![text];
        self.show = true;
        self.dirty = true;
        proof {
            assert(texts_view(self.text@) =~= seq![text@]);
        }
        self.update_table();
    }

    /// Adds `text` as a column and shows the display.
    pub fn push(&mut self, text: StyledText)
        ensures
            final(self)@.wf(),
            final(self)@ == (DisplayModel {
                text: old(self)@.text.push(text@),
                show: true,
                dirty: true,
                ..old(self)@
            }).rebuilt(),
    {
        let ghost before = self.text@;
        self.text.push(text);
        self.show = true;
        self.dirty = true;
        proof {
            assert(texts_view(self.text@) =~= texts_view(before).push(text@));
        }
        self.update_table();
    }

    /// Drops the content, and the header rows unless `keep_header`; the
    /// display hides unless header rows stay.
    pub fn clear(&mut self, keep_header: bool)
        ensures
            final(self)@.wf(),
            ({
                let lines = if keep_header {
                    old(self)@.lines
                } else {
                    Seq::empty()
                };
                let show = if !keep_header || old(self)@.lines.len() == 0 {
                    false
                } else {
                    old(self)@.show
                };
                final(self)@ == (DisplayModel {
                    lines,
                    show,
                    text: Seq::empty(),
                    dirty: true,
                    ..old(self)@
                }).rebuilt()
            }),
    {
        if !keep_header {
            self.lines = Vec::new();
            self.show = false;
        } else if self.lines.len() == 0 {
            self.show = false;
        }
        self.text = Vec::new();
        self.dirty = true;
        proof {
            assert(texts_view(self.text@) =~= Seq::<TextView>::empty());
            if !keep_header {
                assert(rows_view(self.lines@) =~= Seq::<Seq<Seq<Span>>>::empty());
            }
        }
        self.update_table();
    }

    /// Whether the content is one column.
    pub fn is_single_column(&self) -> (r: bool)
        ensures
            r == self@.single(),
    {
        self.text.len() == 1
    }

    /// Sets the header rows and shows the display.
    pub fn header_table(&mut self, table: Vec<Vec<Vec<StyledSpan>>>)
        ensures
            final(self)@.wf(),
            final(self)@ == (DisplayModel {
                lines: rows_view(table@),
                show: true,
                dirty: true,
                ..old(self)@
            }).rebuilt(),
    {
        self.lines = table;
        self.show = true;
        self.dirty = true;
        self.update_table();
    }

    /// The rows each row of the table takes.
    pub fn heights(&self) -> (r: &Vec<u16>)
        ensures
            r@ == self@.heights,
    {
        &self.heights
    }

    /// The table: per row, one text per cell.
    pub fn table(&self) -> (r: &Vec<Vec<StyledText>>)
        ensures
            table_view(r@) == self@.table,
    {
        &self.table
    }
}

/// The columns of the lines of `t`, each cut to `u16`, added up.
fn text_cols_of(t: &StyledText) -> (r: u16)
    requires
        text_cols(t@) <= u16::MAX,
    ensures
        r == text_cols(t@),
{
    let ghost v = t@;
    let mut sum: u16 = 0;
    let mut k: usize = 0;
    while k < t.lines.len()
        invariant
            v == t@,
            k <= v.len(),
            sum == text_cols(v.take(k as int)),
            text_cols(v) <= u16::MAX,
        decreases v.len() - k,
    {
        proof {
            lemma_text_cols_prefix(v, k + 1);
            assert(v[k as int] == line_view(t.lines@[k as int]@));
        }
        let w = spans_width_of(&t.lines[k]);
        let c = (w % 65536) as u16;
        sum = sum + c;
        k = k + 1;
    }
    proof {
        assert(v.take(k as int) =~= v);
    }
    sum
}

proof fn lemma_text_cols_prefix(t: TextView, k: int)
    requires
        0 < k <= t.len(),
    ensures
        text_cols(t.take(k)) == text_cols(t.take(k - 1)) + line_cols(t[k - 1]),
        text_cols(t.take(k)) <= text_cols(t),
    decreases t.len() - k,
{
    assert(t.take(k).drop_last() =~= t.take(k - 1));
    if k < t.len() {
        lemma_text_cols_prefix(t, k + 1);
    } else {
        assert(t.take(k) =~= t);
    }
}

impl DisplayUI {
    /// The full width of cell `i` of table row `row`, before wrapping.
    fn raw_col_width(&self, row: usize, i: usize, content_row: bool) -> (r: u16)
        requires
            self@.raw_col_fits(row as int, i as int),
            content_row == self@.content_row_at(row as int),
        ensures
            r == self@.raw_col_width(row as int, i as int),
    {
        if content_row {
            if i < self.text.len() {
                text_cols_of(&self.text[i])
            } else {
                0
            }
        } else {
            let li = if self.text.len() == 0 {
                row
            } else {
                row - 1
            };
            if li < self.lines.len() && i < self.lines[li].len() {
                proof {
                    assert(self@.lines[li as int][i as int] == line_view(self.lines@[li as int]@[i as int]@));
                }
                let w = spans_width_of(&self.lines[li][i]);
                (w % 65536) as u16
            } else {
                0
            }
        }
    }

    /// The action of the region under a click at `(x, y)`: the row is found
    /// from the row heights below the border's top; the position in the
    /// row's regions counts the full widths of the cells before the one
    /// clicked, its wrapped lines above, and the column into it.
    pub fn get_interaction(&self, x: u16, y: u16) -> (r: Option<String>)
        requires
            self@.interaction_fits(x, y),
        ensures
            match self@.interaction_target(x, y) {
                Some(t) => match interaction_at(regions_view(self@.config.interactions@[t.0]@), t.1 as nat) {
                    Some(a) => r matches Some(s) && s@ == a,
                    None => r is None,
                },
                None => r is None,
            },
    {
        let ghost m = self@;
        if !self.show || self.config.interactions.len() == 0 || self.heights.len() == 0 {
            return None;
        }
        let border_top = self.config.border.top();
        if y < border_top {
            return None;
        }
        let content_y = y - border_top;
        let mut remaining_y = content_y;
        let mut target: Option<(usize, u16)> = None;
        let mut r: usize = 0;
        while r < self.heights.len() && target.is_none()
            invariant
                m == self@,
                r <= m.heights.len(),
                target is None ==> row_under(m.heights, 0, content_y as int) == row_under(
                    m.heights,
                    r as int,
                    remaining_y as int,
                ),
                target matches Some(t) ==> row_under(m.heights, 0, content_y as int) == Some(
                    (t.0 as int, t.1 as int),
                ),
            decreases m.heights.len() - r, if target is None {
                1int
            } else {
                0int
            },
        {
            let h = self.heights[r];
            if remaining_y < h {
                target = Some((r, remaining_y));
            } else {
                remaining_y = remaining_y - h;
                r = r + 1;
            }
        }
        let (row, sy) = match target {
            Some(t) => t,
            None => {
                return None;
            },
        };
        if !(row < self.config.interactions.len() && self.config.interactions[row].len() > 0) {
            return None;
        }
        let left_offset: u16 = if self.config.match_indent {
            let side: u16 = if self.config.border.sides().left {
                1
            } else {
                0
            };
            side + self.cached_result_widths.0.saturating_sub(self.config.border.left())
        } else {
            self.config.border.left()
        };
        if x < left_offset {
            return None;
        }
        let cx = x - left_offset;
        let content_row = row == 0 && self.text.len() > 0;
        let pos: u16 = if content_row && self.text.len() == 1 {
            let cw = if self.config.wrap && self.width > 0 {
                self.width
            } else {
                0
            };
            if cw > 0 {
                sy * cw + cx
            } else {
                cx
            }
        } else {
            let num_cols = if row < self.table.len() {
                self.table[row].len()
            } else {
                0
            };
            if num_cols == 0 {
                return None;
            }
            let spacing = self.cached_result_widths.1;
            let mut cur: u16 = 0;
            let mut raw: u16 = 0;
            let mut first = true;
            let mut found: Option<(u16, u16, u16)> = None;
            let mut i: usize = 0;
            while i < num_cols && found.is_none()
                invariant
                    m == self@,
                    num_cols == m.num_cols(row as int),
                    spacing == m.widths.1,
                    content_row == m.content_row_at(row as int),
                    i <= num_cols,
                    found is None ==> m.col_scan(row as int, cx as int, 0, 0, 0, true) == m.col_scan(
                        row as int,
                        cx as int,
                        i as int,
                        cur as int,
                        raw as int,
                        first,
                    ) && m.scan_fits(row as int, cx as int, i as int, cur as int, raw as int, first),
                    found matches Some(t) ==> m.col_scan(row as int, cx as int, 0, 0, 0, true) == Some(
                        (t.0 as int, t.1 as int, t.2 as int),
                    ),
                decreases num_cols - i, if found is None {
                    1int
                } else {
                    0int
                },
            {
                let col_w = self.result_width(i);
                let raw_w = self.raw_col_width(row, i, content_row);
                if col_w == 0 {
                    raw = raw + raw_w;
                    i = i + 1;
                } else {
                    if !first {
                        cur = cur + spacing;
                    }
                    first = false;
                    let start = cur;
                    let end = start + col_w;
                    if cx < end {
                        found = Some((raw, cx.saturating_sub(start), col_w));
                    } else {
                        cur = end;
                        raw = raw + raw_w;
                        i = i + 1;
                    }
                }
            }
            match found {
                Some(t) => t.0 + sy * t.2 + t.1,
                None => {
                    return None;
                },
            }
        };
        find_interaction(&self.config.interactions[row], pos)
    }
}

impl DisplayUI {
    /// The row drawn for table row `r`.
    fn draw_row(&self, r: usize) -> (row: DisplayRow)
        requires
            r < self@.table.len(),
            self@.wf(),
        ensures
            self@.drawn_row(r as int, row),
    {
        let ghost m = self@;
        let height = if r < self.heights.len() {
            self.heights[r]
        } else {
            1
        };
        let content = r == 0 && self.text.len() > 0;
        let row_cells = &self.table[r];
        proof {
            assert(texts_view(row_cells@) == m.table[r as int]);
        }
        if content && self.text.len() == 1 {
            let cells = vec![copy_text(&row_cells[0])];
            proof {
                assert(texts_view(cells@) =~= seq![m.table[r as int][0]]);
            }
            return DisplayRow { cells, height, cell_styled: false, row_styled: true };
        }
        let disjoint = matches!(self.config.row_connection, RowConnectionStyle::Disjoint);
        let mut cells: Vec<StyledText> = Vec::new();
        let mut i: usize = 0;
        while i < row_cells.len()
            invariant
                m == self@,
                texts_view(row_cells@) == m.table[r as int],
                i <= row_cells@.len(),
                texts_view(cells@) == kept_cells(m.table[r as int], m.widths.2, i as nat),
            decreases row_cells@.len() - i,
        {
            if self.result_width(i) > 0 {
                let c = copy_text(&row_cells[i]);
                let ghost before = cells@;
                cells.push(c);
                proof {
                    assert(texts_view(cells@) =~= texts_view(before).push(c@));
                }
            }
            i = i + 1;
        }
        DisplayRow { cells, height, cell_styled: disjoint, row_styled: content || disjoint }
    }

    /// Takes in the results' indentation, column spacing and widths, building
    /// the table again when they changed or the display was marked dirty;
    /// then gives the table to draw (none without content or header rows),
    /// and, for single content, the row drawn over the full width.
    pub fn make_display(&mut self, result_widths: (u16, u16, Vec<u16>)) -> (r: (
        Option<DisplayTable>,
        Option<(StyledText, Padding)>,
    ))
        requires
            old(self)@.wf(),
            old(self)@.config.border.spec_width() <= u16::MAX,
            old(self)@.config.border.spec_height() <= u16::MAX,
        ensures
            final(self)@.wf(),
            ({
                let rw = (result_widths.0, result_widths.1, result_widths.2@);
                let m = old(self)@.refreshed(rw);
                &&& final(self)@ == m
                &&& (m.text.len() == 0 && m.lines.len() == 0) ==> r.0 is None && r.1 is None
                &&& !(m.text.len() == 0 && m.lines.len() == 0) ==> (r.0 matches Some(t) && m.drawn_table(t))
                &&& !(m.text.len() == 0 && m.lines.len() == 0) ==> (r.1 is Some <==> (m.single()))
                &&& r.1 matches Some(p) ==> p.0@ == m.text[0] && p.1 == m.full_width_padding()
            }),
    {
        let changed = self.dirty || self.cached_result_widths.0 != result_widths.0
            || self.cached_result_widths.1 != result_widths.1 || !same_widths(
            &self.cached_result_widths.2,
            &result_widths.2,
        );
        if changed {
            self.cached_result_widths = result_widths;
            self.dirty = false;
            self.update_table();
        }
        let ghost m = self@;
        proof {
            law_built_table_shape(old(self)@);
        }
        if self.text.len() == 0 && self.lines.len() == 0 {
            return (None, None);
        }
        let mut rows: Vec<DisplayRow> = Vec::new();
        let mut r: usize = 0;
        while r < self.table.len()
            invariant
                m == self@,
                m.table.len() == self.table@.len(),
                m.wf(),
                r <= self.table@.len(),
                rows@.len() == r,
                forall|i: int| 0 <= i < r ==> m.drawn_row(i, #[trigger] rows@[i]),
            decreases self.table@.len() - r,
        {
            rows.push(self.draw_row(r));
            r = r + 1;
        }
        let full = self.text.len() == 1 && all_single_cells(&self.lines);
        let widths = if full {
            None
        } else {
            Some(positive_widths(&self.cached_result_widths.2))
        };
        let padding_left = if self.config.match_indent {
            Some(self.cached_result_widths.0.saturating_sub(self.config.border.left()))
        } else {
            None
        };
        let table = DisplayTable {
            rows,
            widths,
            column_spacing: self.cached_result_widths.1,
            padding_left,
            styled: !matches!(self.config.row_connection, RowConnectionStyle::Disjoint),
        };
        let paragraph = if self.text.len() == 1 {
            Some(self.make_full_width_row(self.cached_result_widths.0))
        } else {
            None
        };
        (Some(table), paragraph)
    }

    /// The single content over the full width of the display, with the
    /// padding that keeps it inside the border, indented like the results
    /// when asked.
    pub fn make_full_width_row(&self, result_indentation: u16) -> (r: (StyledText, Padding))
        requires
            self@.text.len() > 0,
            self@.config.border.spec_width() <= u16::MAX,
            self@.config.border.spec_height() <= u16::MAX,
        ensures
            r.0@ == self@.text[0],
            r.1 == (DisplayModel { widths: (result_indentation, self@.widths.1, self@.widths.2), ..self@ }).full_width_padding(),
    {
        let left = if self.config.match_indent {
            result_indentation.saturating_sub(self.config.border.left())
        } else {
            self.config.border.left()
        };
        let top = self.config.border.top();
        let right = self.config.border.width().saturating_sub(left);
        let bottom = self.config.border.height() - top;
        (copy_text(&self.text[0]), Padding { left, top, right, bottom })
    }
}

/// Whether `a` and `b` hold the same widths.
pub(crate) fn same_widths(a: &Vec<u16>, b: &Vec<u16>) -> (r: bool)
    ensures
        r == (a@ == b@),
{
    if a.len() != b.len() {
        return false;
    }
    let mut i: usize = 0;
    while i < a.len()
        invariant
            a@.len() == b@.len(),
            i <= a@.len(),
            forall|j: int| 0 <= j < i ==> a@[j] == b@[j],
        decreases a@.len() - i,
    {
        if a[i] != b[i] {
            return false;
        }
        i = i + 1;
    }
    proof {
        assert(a@ =~= b@);
    }
    true
}

/// Whether every header row has one cell.
fn all_single_cells(lines: &Vec<Vec<Vec<StyledSpan>>>) -> (r: bool)
    ensures
        r == forall|i: int| 0 <= i < rows_view(lines@).len() ==> #[trigger] rows_view(lines@)[i].len() == 1,
{
    let mut i: usize = 0;
    while i < lines.len()
        invariant
            i <= lines@.len(),
            forall|j: int| 0 <= j < i ==> #[trigger] rows_view(lines@)[j].len() == 1,
        decreases lines@.len() - i,
    {
        if lines[i].len() != 1 {
            proof {
                assert(rows_view(lines@)[i as int].len() != 1);
            }
            return false;
        }
        i = i + 1;
    }
    true
}

/// The widths that are not 0, in order.
fn positive_widths(widths: &Vec<u16>) -> (r: Vec<u16>)
    ensures
        r@ == kept_widths(widths@, widths@.len()),
{
    let mut r: Vec<u16> = Vec::new();
    let mut i: usize = 0;
    while i < widths.len()
        invariant
            i <= widths@.len(),
            r@ == kept_widths(widths@, i as nat),
        decreases widths@.len() - i,
    {
        if widths[i] > 0 {
            r.push(widths[i]);
        }
        i = i + 1;
    }
    r
}

/// The sum of a prefix grows by the next element.
proof fn lemma_sum_prefix(s: Seq<u16>, k: int)
    requires
        0 < k <= s.len(),
    ensures
        sum_u16(s.take(k)) == sum_u16(s.take(k - 1)) + s[k - 1],
        sum_u16(s.take(k)) <= sum_u16(s),
    decreases s.len() - k,
{
    assert(s.take(k).drop_last() =~= s.take(k - 1));
    if k < s.len() {
        lemma_sum_prefix(s, k + 1);
    } else {
        assert(s.take(k) =~= s);
    }
}

/// Regions sorted by start are in order of their starts.
pub proof fn law_sorted_by_start_is_sorted(s: Seq<(u16, String)>)
    ensures
        forall|i: int, j: int|
            0 <= i < j < sorted_by_start(s).len() ==> (#[trigger] sorted_by_start(s)[i]).0
                <= (#[trigger] sorted_by_start(s)[j]).0,
        sorted_by_start(s).len() == s.len(),
    decreases s.len(),
{
    if s.len() > 0 {
        let rest = sorted_by_start(s.drop_last());
        law_sorted_by_start_is_sorted(s.drop_last());
        let k = s.last().0;
        let p = insert_pos(rest, k);
        lemma_insert_pos(rest, k);
        let r = rest.insert(p as int, s.last());
        assert forall|i: int, j: int| 0 <= i < j < r.len() implies r[i].0 <= r[j].0 by {
            if j < p {
                assert(r[i] == rest[i] && r[j] == rest[j]);
            } else if j == p {
                assert(r[i] == rest[i]);
            } else if i == p {
                assert(r[j] == rest[j - 1]);
            } else if i < p {
                assert(r[i] == rest[i] && r[j] == rest[j - 1]);
            } else {
                assert(r[i] == rest[i - 1] && r[j] == rest[j - 1]);
            }
        }
    }
}

/// Where a start goes among sorted regions: the ones before start at or
/// before it, the ones after later.
proof fn lemma_insert_pos(s: Seq<(u16, String)>, k: u16)
    requires
        forall|i: int, j: int| 0 <= i < j < s.len() ==> (#[trigger] s[i]).0 <= (#[trigger] s[j]).0,
    ensures
        insert_pos(s, k) <= s.len(),
        forall|i: int| 0 <= i < insert_pos(s, k) ==> (#[trigger] s[i]).0 <= k,
        forall|i: int| insert_pos(s, k) <= i < s.len() ==> (#[trigger] s[i]).0 > k,
    decreases s.len(),
{
    if s.len() > 0 {
        if s.last().0 <= k {
            assert forall|i: int| 0 <= i < s.len() implies (#[trigger] s[i]).0 <= k by {
                if i < s.len() - 1 {
                    assert(s[i].0 <= s[s.len() - 1].0);
                }
            }
        } else {
            let d = s.drop_last();
            assert forall|i: int, j: int| 0 <= i < j < d.len() implies (#[trigger] d[i]).0
                <= (#[trigger] d[j]).0 by {
                assert(d[i] == s[i] && d[j] == s[j]);
            }
            lemma_insert_pos(d, k);
            assert forall|i: int| 0 <= i < insert_pos(s, k) implies (#[trigger] s[i]).0 <= k by {
                assert(d[i] == s[i]);
            }
            assert forall|i: int| insert_pos(s, k) <= i < s.len() implies (#[trigger] s[i]).0 > k by {
                if i < s.len() - 1 {
                    assert(d[i] == s[i]);
                }
            }
        }
    }
}

/// Building the table again changes nothing more: the table depends only
/// on the content, the header rows, the width and the settings.
pub proof fn law_rebuild_is_idempotent(m: DisplayModel)
    ensures
        m.rebuilt().rebuilt() == m.rebuilt(),
{
    let r = m.rebuilt();
    assert(r.content_row() =~= m.content_row());
    assert forall|row: Seq<Seq<Span>>| #[trigger] r.header_row(row) == m.header_row(row) by {
        assert(r.header_row(row) =~= m.header_row(row));
    }
    assert(r.built_table() =~= m.built_table());
    assert(r.built_heights() =~= m.built_heights());
}

/// A built table has one row for the content, if any, and one per header
/// row, and the content row one cell per column of content.
pub proof fn law_built_table_shape(m: DisplayModel)
    ensures
        m.rebuilt().wf(),
{
}

/// A hidden display, or a click above its border's top, finds no action.
pub proof fn law_no_action_outside(m: DisplayModel, x: u16, y: u16)
    requires
        !m.show || y < m.config.border.spec_top(),
    ensures
        m.interaction_target(x, y) is None,
{
}

} // verus!
