//! Configuration values.
use vstd::prelude::*;

use vstd::string::{StrSliceExecFns, StringExecFns};

use crate::collections::HiddenColumns;
use crate::render::{CellColor, CellStyle, ITALIC};
use crate::strings::string_push;
use crate::tui::{max_of, min_of, sat_sub};
use crate::ui::Rect;
use crate::utils::Percentage;

verus! {

/// How the inline viewport makes room below the cursor.
#[derive(Debug, Clone, Copy, PartialEq, Eq)]
pub enum ScrollStrategy {
    /// Always scroll until the requested height fits.
    Aggressive,
    /// Only scroll when less than the minimum fits; then scroll to the request.
    Lazy,
    /// Only scroll up to the minimum.
    Compact,
    /// Like `Aggressive`, but use every row below the cursor.
    Expansive,
}


/// Settings of how input is fed to the worker.
#[derive(Debug, Clone, PartialEq)]
pub struct StartConfig {
    pub input_separator: Option<char>,
    pub output_separator: Option<String>,
    /// Format string to print accepted items as.
    pub output_template: Option<String>,
    /// Default command to execute when stdin is not being read.
    pub command: String,
    pub sync: bool,
}

impl Default for StartConfig {
    fn default() -> (r: Self)
        ensures
            r.input_separator is None,
            r.output_separator is None,
            r.output_template is None,
            r.command@.len() == 0,
            !r.sync,
    {
        StartConfig {
            input_separator: None,
            output_separator: None,
            output_template: None,
            command: String::new(),
            sync: false,
        }
    }
}

/// Exit conditions of the render loop.
#[derive(Debug, Clone, Copy, PartialEq, Eq)]
pub struct ExitConfig {
    /// Exit automatically if there is only one match.
    pub select_1: bool,
    /// Allow returning without any items selected.
    pub allow_empty: bool,
    /// Abort if no items.
    pub abort_empty: bool,
}

impl Default for ExitConfig {
    fn default() -> (r: Self)
        ensures
            !r.select_1 && !r.allow_empty && !r.abort_empty,
    {
        ExitConfig { select_1: false, allow_empty: false, abort_empty: false }
    }
}

/// Terminal settings.
#[derive(Debug, Clone, PartialEq)]
pub struct TerminalConfig {
    pub stream: IoStream,
    pub restore_fullscreen: bool,
    pub redraw_on_resize: bool,
    pub extended_keys: bool,
    /// Delay given to the terminal before resizing after entering and exiting, in milliseconds.
    pub sleep_ms: u64,
    /// `None` for fullscreen.
    pub layout: Option<TerminalLayoutSettings>,
    pub clear_on_exit: bool,
}

impl Default for TerminalConfig {
    fn default() -> (r: Self)
        ensures
            r.stream == IoStream::BufferedStderr,
            r.restore_fullscreen,
            !r.redraw_on_resize,
            r.sleep_ms == 0,
            r.layout is None,
            r.extended_keys,
            r.clear_on_exit,
    {
        TerminalConfig {
            stream: IoStream::BufferedStderr,
            restore_fullscreen: true,
            redraw_on_resize: false,
            sleep_ms: 0,
            layout: None,
            extended_keys: true,
            clear_on_exit: true,
        }
    }
}

#[derive(Debug, Clone, Copy, PartialEq, Eq)]
pub struct TerminalSettings {}

/// Where output goes.
#[derive(Debug, Clone, Copy, PartialEq, Eq)]
pub enum IoStream {
    Stdout,
    BufferedStderr,
    /// Capture all output into a buffer (for tests).
    Test,
}

impl Default for IoStream {
    fn default() -> (r: Self)
        ensures
            r == IoStream::BufferedStderr,
    {
        IoStream::BufferedStderr
    }
}

/// Size of an overlay: percentages of the ui area (width, height), bounds
/// (`0` = none) and where it sits vertically.
#[derive(Debug, Clone, Copy, PartialEq)]
pub struct OverlayLayoutSettings {
    /// w, h
    pub percentage: [Percentage; 2],
    /// w, h
    pub min: [u16; 2],
    /// w, h
    pub max: [u16; 2],
    /// Vertical position: below 50% moves the overlay up from the center,
    /// above 50% moves it down.
    pub y_offset: Percentage,
}

impl Default for OverlayLayoutSettings {
    fn default() -> (r: Self)
        ensures
            r.percentage[0].value() == 60,
            r.percentage[1].value() == 30,
            r.min[0] == 10 && r.min[1] == 5,
            r.max[0] == 200 && r.max[1] == 30,
            r.y_offset.value() == 50,
    {
        OverlayLayoutSettings {
            percentage: [Percentage::new(60), Percentage::new(30)],
            min: [10, 5],
            max: [200, 30],
            y_offset: Percentage::new(50),
        }
    }
}

#[derive(Debug, Clone, Copy, PartialEq, Eq, Structural)]
pub enum RowConnectionStyle {
    Disjoint,
    Capped,
    Full,
}

impl Default for RowConnectionStyle {
    fn default() -> (r: Self)
        ensures
            r == RowConnectionStyle::Disjoint,
    {
        RowConnectionStyle::Disjoint
    }
}

/// Determines the initial scroll offset of the preview window.
#[derive(Debug, Clone, PartialEq)]
pub struct PreviewScrollSetting {
    /// Extract the initial display index `n` of the preview window from this column.
    pub index: Option<String>,
    /// For adjusting the initial scroll index.
    pub offset: isize,
    /// How far from the bottom of the preview window the scroll offset should appear.
    pub percentage: Percentage,
    /// Keep the top N lines as the fixed header so that they are always visible.
    pub header_lines: usize,
}

impl Default for PreviewScrollSetting {
    fn default() -> (r: Self)
        ensures
            r.index is None,
            r.offset == 0,
            r.percentage.value() == 100,
            r.header_lines == 0,
    {
        PreviewScrollSetting {
            index: None,
            offset: 0,
            percentage: Percentage::default(),
            header_lines: 0,
        }
    }
}

/// A template string.
#[derive(Debug, Clone, PartialEq)]
pub struct FormatString(pub String);

impl Default for FormatString {
    fn default() -> (r: Self)
        ensures
            r.0@.len() == 0,
    {
        FormatString(String::new())
    }
}

impl FormatString {
    pub fn as_str(&self) -> (r: &str)
        ensures
            r@ == self.0@,
    {
        self.0.as_str()
    }
}

/// How many rows the inline viewport takes.
#[derive(Debug, Clone, Copy, PartialEq)]
pub struct TerminalLayoutSettings {
    /// Percentage of total rows to occupy.
    pub percentage: Percentage,
    pub min: u16,
    /// 0 for terminal height cap
    pub max: u16,
}

impl Default for TerminalLayoutSettings {
    fn default() -> (r: Self)
        ensures
            r.percentage.value() == 50,
            r.min == 10,
            r.max == 120,
    {
        TerminalLayoutSettings { percentage: Percentage::new(50), min: 10, max: 120 }
    }
}

#[derive(Debug, Clone, Copy, PartialEq, Eq, Structural)]
pub enum Side {
    Top,
    Bottom,
    Left,
    Right,
}

impl Default for Side {
    fn default() -> (r: Self)
        ensures
            r == Side::Right,
    {
        Side::Right
    }
}

impl Side {
    /// The side across from this one.
    pub open spec fn spec_opposite(self) -> Side {
        match self {
            Side::Top => Side::Bottom,
            Side::Bottom => Side::Top,
            Side::Left => Side::Right,
            Side::Right => Side::Left,
        }
    }

    /// The side across from this one.
    pub fn opposite(self) -> (r: Side)
        ensures
            r == self.spec_opposite(),
    {
        match self {
            Side::Top => Side::Bottom,
            Side::Bottom => Side::Top,
            Side::Left => Side::Right,
            Side::Right => Side::Left,
        }
    }

    /// Whether a pane on this side is divided from the rest by a vertical
    /// line: the left and right sides.
    pub open spec fn spec_is_vertical(self) -> bool {
        self == Side::Left || self == Side::Right
    }

    /// Whether a pane on this side is divided from the rest by a vertical line.
    pub fn is_vertical(self) -> (r: bool)
        ensures
            r == self.spec_is_vertical(),
    {
        match self {
            Side::Left | Side::Right => true,
            _ => false,
        }
    }
}

/// The sides of a box that carry a line.
#[derive(Debug, Clone, Copy, PartialEq, Eq, Structural)]
pub struct BorderSides {
    pub top: bool,
    pub right: bool,
    pub bottom: bool,
    pub left: bool,
}

impl BorderSides {
    pub open spec fn is_none(self) -> bool {
        !self.top && !self.right && !self.bottom && !self.left
    }

    pub open spec fn spec_all() -> BorderSides {
        BorderSides { top: true, right: true, bottom: true, left: true }
    }

    pub open spec fn spec_none() -> BorderSides {
        BorderSides { top: false, right: false, bottom: false, left: false }
    }

    /// The one side `side`.
    pub open spec fn spec_only(side: Side) -> BorderSides {
        BorderSides {
            top: side == Side::Top,
            right: side == Side::Right,
            bottom: side == Side::Bottom,
            left: side == Side::Left,
        }
    }

    /// All four sides.
    pub fn all() -> (r: BorderSides)
        ensures
            r == Self::spec_all(),
    {
        BorderSides { top: true, right: true, bottom: true, left: true }
    }

    /// No side.
    pub fn none() -> (r: BorderSides)
        ensures
            r == Self::spec_none(),
    {
        BorderSides { top: false, right: false, bottom: false, left: false }
    }

    /// The one side `side`.
    pub fn only(side: Side) -> (r: BorderSides)
        ensures
            r == Self::spec_only(side),
    {
        BorderSides {
            top: side == Side::Top,
            right: side == Side::Right,
            bottom: side == Side::Bottom,
            left: side == Side::Left,
        }
    }
}

/// Blank cells kept inside a border, per side.
#[derive(Debug, Clone, Copy, PartialEq, Eq, Structural)]
pub struct Padding {
    pub top: u16,
    pub right: u16,
    pub bottom: u16,
    pub left: u16,
}

impl Default for Padding {
    fn default() -> (r: Self)
        ensures
            r.top == 0 && r.right == 0 && r.bottom == 0 && r.left == 0,
    {
        Padding { top: 0, right: 0, bottom: 0, left: 0 }
    }
}

/// What the layout reads of a border: the sides drawn, whether a line
/// type and a line color other than the defaults are set, the padding and
/// the title.
#[derive(Debug, Clone, PartialEq)]
pub struct BorderSetting {
    /// The sides asked for; when absent, all sides if a padding, a line
    /// type or a line color is given, else none.
    pub sides: Option<BorderSides>,
    /// Whether a line type other than the default is set.
    pub typed: bool,
    /// Whether a line color other than the default is set.
    pub colored: bool,
    pub padding: Padding,
    pub title: String,
}

impl Default for BorderSetting {
    fn default() -> (r: Self)
        ensures
            r.sides is None,
            !r.typed && !r.colored,
            r.padding == (Padding { top: 0, right: 0, bottom: 0, left: 0 }),
            r.title@.len() == 0,
    {
        BorderSetting { sides: None, typed: false, colored: false, padding: Padding::default(), title: String::new() }
    }
}

impl BorderSetting {
    /// Whether some padding is given.
    pub open spec fn padded(&self) -> bool {
        self.padding != (Padding { top: 0, right: 0, bottom: 0, left: 0 })
    }

    /// The sides drawn: those asked for; when none are named, all sides if
    /// a padding, a line type or a line color is given, else none.
    pub open spec fn spec_sides(&self) -> BorderSides {
        match self.sides {
            Some(s) => s,
            None => if self.typed || self.colored || self.padded() {
                BorderSides::spec_all()
            } else {
                BorderSides::spec_none()
            },
        }
    }

    /// Whether no line is drawn.
    pub open spec fn spec_is_empty(&self) -> bool {
        self.spec_sides().is_none()
    }

    /// 1 where a line is drawn, else 0.
    pub open spec fn line(&self) -> nat {
        if self.spec_is_empty() {
            0
        } else {
            1
        }
    }

    /// 1 where a title stands without a line to hold it, else 0.
    pub open spec fn title_row(&self) -> nat {
        if self.title@.len() > 0 && self.spec_is_empty() {
            1
        } else {
            0
        }
    }

    /// Rows taken: two lines, the top and bottom padding and a title row.
    pub open spec fn spec_height(&self) -> nat {
        (2 * self.line() + self.padding.top + self.padding.bottom + self.title_row()) as nat
    }

    /// Columns taken: two lines and the left and right padding.
    pub open spec fn spec_width(&self) -> nat {
        (2 * self.line() + self.padding.left + self.padding.right) as nat
    }

    /// Columns taken on the left.
    pub open spec fn spec_left(&self) -> nat {
        (self.line() + self.padding.left) as nat
    }

    /// Rows taken on the top.
    pub open spec fn spec_top(&self) -> nat {
        (self.line() + self.padding.top + self.title_row()) as nat
    }

    /// The sides drawn.
    pub fn sides(&self) -> (r: BorderSides)
        ensures
            r == self.spec_sides(),
    {
        match self.sides {
            Some(s) => s,
            None => if self.typed || self.colored || self.padding.top != 0 || self.padding.right != 0 || self.padding.bottom != 0
                || self.padding.left != 0 {
                BorderSides::all()
            } else {
                BorderSides::none()
            },
        }
    }

    /// Whether no line is drawn.
    pub fn is_empty(&self) -> (r: bool)
        ensures
            r == self.spec_is_empty(),
    {
        let s = self.sides();
        !s.top && !s.right && !s.bottom && !s.left
    }

    fn line_count(&self) -> (r: u16)
        ensures
            r == self.line(),
    {
        if self.is_empty() {
            0
        } else {
            1
        }
    }

    /// Rows the border takes.
    pub fn height(&self) -> (r: u16)
        requires
            self.spec_height() <= u16::MAX,
        ensures
            r == self.spec_height(),
    {
        let line = self.line_count();
        let title: u16 = if self.title.unicode_len() > 0 {
            1
        } else {
            0
        };
        2 * line + (self.padding.top + self.padding.bottom) + title.saturating_sub(line)
    }

    /// Columns the border takes.
    pub fn width(&self) -> (r: u16)
        requires
            self.spec_width() <= u16::MAX,
        ensures
            r == self.spec_width(),
    {
        2 * self.line_count() + (self.padding.left + self.padding.right)
    }

    /// Columns the border takes on the left.
    pub fn left(&self) -> (r: u16)
        requires
            self.spec_left() <= u16::MAX,
        ensures
            r == self.spec_left(),
    {
        self.line_count() + self.padding.left
    }

    /// Rows the border takes on the top.
    pub fn top(&self) -> (r: u16)
        requires
            self.spec_top() <= u16::MAX,
        ensures
            r == self.spec_top(),
    {
        let line = self.line_count();
        let title: u16 = if self.title.unicode_len() > 0 {
            1
        } else {
            0
        };
        line + self.padding.top + title.saturating_sub(line)
    }
}

impl BorderSetting {
    /// The area inside the border: moved right and down by the border's left
    /// and top thickness, and narrowed and lowered by its total thickness
    /// (each staying within `u16`).
    pub open spec fn spec_inner_of(&self, area: Rect) -> Rect {
        Rect {
            x: min_of(area.x + self.spec_left(), u16::MAX as int) as u16,
            y: min_of(area.y + self.spec_top(), u16::MAX as int) as u16,
            width: sat_sub(area.width as int, self.spec_width() as int) as u16,
            height: sat_sub(area.height as int, self.spec_height() as int) as u16,
        }
    }

    /// The area inside the border.
    pub fn inner_of(&self, area: Rect) -> (r: Rect)
        requires
            self.spec_height() <= u16::MAX,
            self.spec_width() <= u16::MAX,
        ensures
            r == self.spec_inner_of(area),
    {
        Rect {
            x: area.x.saturating_add(self.left()),
            y: area.y.saturating_add(self.top()),
            width: area.width.saturating_sub(self.width()),
            height: area.height.saturating_sub(self.height()),
        }
    }
}

/// A preview layout with its command, and the border that replaces the
/// preview's default one while it is in use.
#[derive(Debug, Clone, PartialEq)]
pub struct PreviewSetting {
    pub layout: PreviewLayout,
    pub command: String,
    pub border: Option<BorderSetting>,
}

impl Default for PreviewSetting {
    fn default() -> (r: Self)
        ensures
            r.layout.side == Side::Right,
            r.layout.percentage.value() == 60,
            r.layout.min == 30,
            r.layout.max == 120,
            r.command@.len() == 0,
            r.border is None,
    {
        PreviewSetting { layout: PreviewLayout::default(), command: String::new(), border: None }
    }
}

/// The borders around the whole interface and around the picker.
#[derive(Debug, Clone, PartialEq)]
pub struct UiConfig {
    /// The border around the picker pane.
    pub border: BorderSetting,
    /// The border around everything.
    pub outer_border: BorderSetting,
    pub tick_rate: u8,
}

impl Default for UiConfig {
    fn default() -> (r: Self)
        ensures
            r.border.sides is None && !r.border.typed && !r.border.colored && r.border.title@.len() == 0,
            r.border.padding == (Padding { top: 0, right: 0, bottom: 0, left: 0 }),
            r.outer_border.sides is None && !r.outer_border.typed && !r.outer_border.colored && r.outer_border.title@.len() == 0,
            r.outer_border.padding == (Padding { top: 0, right: 0, bottom: 0, left: 0 }),
            r.tick_rate == 60,
    {
        UiConfig { border: BorderSetting::default(), outer_border: BorderSetting::default(), tick_rate: 60 }
    }
}

/// A single string or a list of them.
#[derive(Debug, Clone, PartialEq)]
pub enum StringOrVec {
    String(String),
    Vec(Vec<String>),
}

impl Default for StringOrVec {
    fn default() -> (r: Self)
        ensures
            r matches StringOrVec::String(s) && s@.len() == 0,
    {
        StringOrVec::String(String::new())
    }
}

/// The settings of a display (header or footer).
#[derive(Debug, Clone, PartialEq)]
pub struct DisplayConfig {
    pub border: BorderSetting,
    /// The style under the content.
    pub style: CellStyle,
    /// Whether the content is indented like the results.
    pub match_indent: bool,
    pub wrap: bool,
    pub content: Option<StringOrVec>,
    /// How far the row styles reach across the width.
    pub row_connection: RowConnectionStyle,
    /// How many lines are read from the input for the header.
    pub header_lines: usize,
    /// Per row: the column from which each action applies, and the action.
    pub interactions: Vec<Vec<(u16, String)>>,
}

impl Default for DisplayConfig {
    fn default() -> (r: Self)
        ensures
            r.border.sides is None && !r.border.typed && !r.border.colored && r.border.title@.len() == 0,
            r.border.padding == (Padding { top: 0, right: 0, bottom: 0, left: 0 }),
            r.style == (CellStyle {
                fg: Some(CellColor::Green),
                bg: None,
                underline_color: None,
                add_modifier: ITALIC,
                sub_modifier: 0,
            }),
            r.match_indent,
            !r.wrap,
            r.content is None,
            r.row_connection == RowConnectionStyle::Disjoint,
            r.header_lines == 0,
            r.interactions@.len() == 0,
    {
        DisplayConfig {
            border: BorderSetting::default(),
            style: CellStyle {
                fg: Some(CellColor::Green),
                bg: None,
                underline_color: None,
                add_modifier: ITALIC,
                sub_modifier: 0,
            },
            match_indent: true,
            wrap: false,
            content: None,
            row_connection: RowConnectionStyle::Disjoint,
            header_lines: 0,
            interactions: Vec::new(),
        }
    }
}

/// A count of cells, 1 by default.
#[derive(Debug, Clone, Copy, PartialEq, Eq, Structural)]
pub struct Count(pub u16);

impl Default for Count {
    fn default() -> (r: Self)
        ensures
            r.0 == 1,
    {
        Count(1)
    }
}

/// The settings of the results that their layout reads.
#[derive(Debug, Clone, PartialEq)]
pub struct ResultsConfig {
    pub border: BorderSetting,
    /// The prefix of selected items; its width indents every row.
    pub multi_prefix: String,
    /// Whether to cycle to top after scrolling to the bottom and vice versa.
    pub scroll_wrap: bool,
    /// Rows kept in view around the cursor.
    pub scroll_padding: u16,
    pub reverse: Option<bool>,
    pub wrap: bool,
    /// Cells between columns.
    pub column_spacing: Count,
    /// Whether the last column takes the width left over.
    pub right_align_last: bool,
    /// Whether the columns are stacked instead of side by side.
    pub stacked_columns: bool,
    pub hidden_columns: HiddenColumns,
    /// Widths set by the user per shown column; 0 for none.
    pub width_overrides: Vec<u16>,
    /// The least width of a column with content.
    pub min_width: u16,
    /// Whether a column's least width is the width of its name instead.
    pub min_width_from_cols: bool,
    /// How much a column must grow and shrink before its width changes.
    pub resize_col_thresholds: [u16; 2],
}

impl Default for ResultsConfig {
    fn default() -> (r: Self)
        ensures
            r.border.sides is None && !r.border.typed && !r.border.colored && r.border.title@.len() == 0,
            r.border.padding == (Padding { top: 0, right: 0, bottom: 0, left: 0 }),
            r.multi_prefix@ == seq!['\u{258c}', ' '],
            r.scroll_wrap,
            r.scroll_padding == 2,
            r.reverse is None,
            !r.wrap,
            r.column_spacing == Count(1),
            !r.right_align_last,
            !r.stacked_columns,
            r.hidden_columns.wf() && r.hidden_columns@.len == 3 && r.hidden_columns@.order.len() == 0,
            r.width_overrides@.len() == 0,
            r.min_width == 1,
            !r.min_width_from_cols,
            r.resize_col_thresholds == [1u16, 1u16],
    {
        let mut prefix = String::new();
        string_push(&mut prefix, '\u{258c}');
        string_push(&mut prefix, ' ');
        proof {
            assert(prefix@ =~= seq!['\u{258c}', ' ']);
        }
        ResultsConfig {
            border: BorderSetting::default(),
            multi_prefix: prefix,
            scroll_wrap: true,
            scroll_padding: 2,
            reverse: None,
            wrap: false,
            column_spacing: Count::default(),
            right_align_last: false,
            stacked_columns: false,
            hidden_columns: HiddenColumns::default(),
            width_overrides: Vec::new(),
            min_width: 1,
            min_width_from_cols: false,
            resize_col_thresholds: [1, 1],
        }
    }
}

/// When the preview is shown.
#[derive(Debug, Clone, Copy, PartialEq, Eq)]
pub enum ShowCondition {
    /// Shown while the picker is at least this large along the preview's axis.
    Free(u16),
    /// Shown or hidden, where there is room for it.
    Bool(bool),
}

impl Default for ShowCondition {
    fn default() -> (r: Self)
        ensures
            r == ShowCondition::Bool(false),
    {
        ShowCondition::Bool(false)
    }
}

/// Where the preview starts scrolled to.
#[derive(Debug, Clone, Copy, PartialEq)]
pub struct PreviewInitialSetting {
    /// Follow the end of the output.
    pub tail: bool,
    /// Added to a target line; an absent value counts as -1.
    pub offset: Option<isize>,
    /// Lines at the top that stay in view.
    pub header_lines: usize,
    /// How far from the bottom of the preview the target line should appear.
    pub percentage: Percentage,
}

impl Default for PreviewInitialSetting {
    fn default() -> (r: Self)
        ensures
            !r.tail,
            r.offset is None,
            r.header_lines == 0,
            r.percentage.value() == 100,
    {
        PreviewInitialSetting { tail: false, offset: None, header_lines: 0, percentage: Percentage::default() }
    }
}

/// The preview pane's settings.
#[derive(Debug, Clone, PartialEq)]
pub struct PreviewConfig {
    pub border: BorderSetting,
    pub layout: Vec<PreviewSetting>,
    pub initial: PreviewInitialSetting,
    /// The layout in use at start.
    pub initial_layout: u8,
    pub show: ShowCondition,
    /// Whether to cycle to top after scrolling to the bottom and vice versa.
    pub scroll_wrap: bool,
    pub wrap: bool,
    pub reevaluate_show_on_resize: bool,
    pub drag_width: Option<u16>,
    pub trim_ends: bool,
}

impl Default for PreviewConfig {
    fn default() -> (r: Self)
        ensures
            r.border.sides is None,
            !r.border.typed && !r.border.colored,
            r.border.padding == (Padding { top: 0, right: 0, bottom: 0, left: 2 }),
            r.border.title@.len() == 0,
            r.layout@.len() == 0,
            !r.initial.tail,
            r.initial.offset is None,
            r.initial.header_lines == 0,
            r.initial.percentage.value() == 100,
            r.initial_layout == 0,
            r.show == ShowCondition::Bool(false),
            r.scroll_wrap,
            !r.wrap,
            !r.reevaluate_show_on_resize,
            r.drag_width is None,
            !r.trim_ends,
    {
        let mut border = BorderSetting::default();
        border.padding.left = 2;
        PreviewConfig {
            border,
            layout: Vec::new(),
            initial: PreviewInitialSetting::default(),
            initial_layout: 0,
            show: ShowCondition::default(),
            scroll_wrap: true,
            wrap: false,
            reevaluate_show_on_resize: false,
            drag_width: None,
            trim_ends: false,
        }
    }
}

#[derive(Debug, Clone, Copy, PartialEq)]
pub struct PreviewLayout {
    pub side: Side,
    /// Percentage of total rows/columns to occupy.
    pub percentage: Percentage,
    pub min: i16,
    pub max: i16,
}

impl Default for PreviewLayout {
    fn default() -> (r: Self)
        ensures
            r.side == Side::Right,
            r.percentage.value() == 60,
            r.min == 30,
            r.max == 120,
    {
        PreviewLayout { side: Side::Right, percentage: Percentage::new(60), min: 30, max: 120 }
    }
}

#[derive(Debug, Clone, Copy, PartialEq, Eq)]
pub enum CursorSetting {
    NoCursor,
    Default,
}

impl Default for CursorSetting {
    fn default() -> (r: Self)
        ensures
            r == CursorSetting::Default,
    {
        CursorSetting::Default
    }
}

/// A column: its name, whether it takes part in matching, and whether it is hidden.
#[derive(Debug, Clone, PartialEq)]
pub struct ColumnSetting {
    pub filter: bool,
    pub hidden: bool,
    pub name: String,
}

impl Default for ColumnSetting {
    fn default() -> (r: Self)
        ensures
            !r.filter && !r.hidden && r.name@.len() == 0,
    {
        ColumnSetting { filter: false, hidden: false, name: String::new() }
    }
}

impl ColumnSetting {
    /// A column given by its name only: filtered and shown.
    pub fn from_name(name: String) -> (r: Self)
        ensures
            r.filter && !r.hidden && r.name == name,
    {
        ColumnSetting { filter: true, hidden: false, name }
    }
}

/// The three matcher flags that can be configured.
#[derive(Debug, Clone, Copy, PartialEq, Eq)]
pub struct NucleoMatcherConfig {
    /// Whether to normalize latin script characters to ASCII.
    pub normalize: bool,
    /// Whether to ignore casing.
    pub ignore_case: bool,
    /// Whether to prefer matches near the start.
    pub prefer_prefix: bool,
}

/// `nucleo::Config::DEFAULT`, its three public flags (normalize,
/// ignore_case, prefer_prefix): the source sets them to true, true and false.
#[verifier::external_body]
fn nucleo_default_flags() -> (r: (bool, bool, bool))
    ensures
        r == (true, true, false),
{
    let c = nucleo::Config::DEFAULT;
    (c.normalize, c.ignore_case, c.prefer_prefix)
}

impl Default for NucleoMatcherConfig {
    /// The matcher's own defaults.
    fn default() -> (r: Self)
        ensures
            r.normalize && r.ignore_case && !r.prefer_prefix,
    {
        let (normalize, ignore_case, prefer_prefix) = nucleo_default_flags();
        NucleoMatcherConfig { normalize, ignore_case, prefer_prefix }
    }
}

impl NucleoMatcherConfig {
    /// The defaults, with each given flag overriding its default.
    pub fn from_options(
        normalize: Option<bool>,
        ignore_case: Option<bool>,
        prefer_prefix: Option<bool>,
    ) -> (r: Self)
        ensures
            r.normalize == match normalize {
                Some(b) => b,
                None => true,
            },
            r.ignore_case == match ignore_case {
                Some(b) => b,
                None => true,
            },
            r.prefer_prefix == match prefer_prefix {
                Some(b) => b,
                None => false,
            },
    {
        let mut config = NucleoMatcherConfig::default();
        if let Some(norm) = normalize {
            config.normalize = norm;
        }
        if let Some(ic) = ignore_case {
            config.ignore_case = ic;
        }
        if let Some(pp) = prefer_prefix {
            config.prefer_prefix = pp;
        }
        config
    }
}

/// A value given as a single character is widened with a trailing space;
/// any other string is kept.
pub fn deserialize_string_or_char_as_double_width(v: &str) -> (r: String)
    ensures
        r@ == if v@.len() == 1 {
            seq![v@[0], ' ']
        } else {
            v@
        },
{
    if v.unicode_len() == 1 {
        let mut s = String::new();
        string_push(&mut s, v.get_char(0));
        string_push(&mut s, ' ');
        proof {
            assert(s@ =~= seq![v@[0], ' ']);
        }
        s
    } else {
        String::from_str(v)
    }
}

/// `"auto"` stands for no value; any other string is kept for parsing.
pub fn deserialize_option_auto(value: Option<String>) -> (r: Option<String>)
    ensures
        r == match value {
            Some(s) => if s@ == "auto"@ {
                None
            } else {
                Some(s)
            },
            None => None::<String>,
        },
{
    match value {
        Some(s) => {
            let auto = String::from_str("auto");
            if s == auto {
                None
            } else {
                Some(s)
            }
        },
        None => None,
    }
}

/// Upper bound on the number of columns parsed from a line.
pub const MAX_SPLITS: usize = 10;

/// How many columns to generate when none are named: between 1 and [`MAX_SPLITS`].
pub fn max_cols(max_columns: usize) -> (r: usize)
    ensures
        r == max_of(min_of(max_columns as int, MAX_SPLITS as int), 1),
{
    let m = if max_columns <= MAX_SPLITS {
        max_columns
    } else {
        MAX_SPLITS
    };
    if m >= 1 {
        m
    } else {
        1
    }
}

} // verus!
