//! Style values that layout reads: `display`, positioning, floats, text and
//! flex/grid alignment keywords, with the predicates layout asks of them.

use vstd::prelude::*;

verus! {

/// CSS `display` outer type. `NoBox` is `display: none`.
#[derive(Debug, Clone, Copy, PartialEq, Eq, Structural)]
pub enum DisplayOuter {
    Block,
    Inline,
    NoBox,
}

/// CSS `display` inner type.
#[derive(Debug, Clone, Copy, PartialEq, Eq, Structural)]
pub enum DisplayInner {
    Flow,
    FlowRoot,
    Flex,
    Grid,
    Table,
    TableRowGroup,
    TableRow,
    TableCell,
    TableColumn,
    TableColumnGroup,
    TableCaption,
    TableHeaderGroup,
    TableFooterGroup,
}

/// Resolved `display` value.
#[derive(Debug, Clone, Copy, PartialEq, Eq, Structural)]
pub struct Display {
    pub outer: DisplayOuter,
    pub inner: DisplayInner,
}

/// The inner display types that start a new block formatting context.
pub open spec fn inner_establishes_bfc(inner: DisplayInner) -> bool {
    inner == DisplayInner::FlowRoot || inner == DisplayInner::Flex || inner == DisplayInner::Grid
        || inner == DisplayInner::Table
}

/// The inner display types that are part of a table.
pub open spec fn inner_is_table_part(inner: DisplayInner) -> bool {
    inner != DisplayInner::Flow && inner != DisplayInner::FlowRoot && inner != DisplayInner::Flex
        && inner != DisplayInner::Grid
}

impl Display {
    pub fn block() -> (r: Display)
        ensures r == (Display { outer: DisplayOuter::Block, inner: DisplayInner::Flow }),
    {
        Display { outer: DisplayOuter::Block, inner: DisplayInner::Flow }
    }

    pub fn inline() -> (r: Display)
        ensures r == (Display { outer: DisplayOuter::Inline, inner: DisplayInner::Flow }),
    {
        Display { outer: DisplayOuter::Inline, inner: DisplayInner::Flow }
    }

    pub fn inline_block() -> (r: Display)
        ensures r == (Display { outer: DisplayOuter::Inline, inner: DisplayInner::FlowRoot }),
    {
        Display { outer: DisplayOuter::Inline, inner: DisplayInner::FlowRoot }
    }

    pub fn flex() -> (r: Display)
        ensures r == (Display { outer: DisplayOuter::Block, inner: DisplayInner::Flex }),
    {
        Display { outer: DisplayOuter::Block, inner: DisplayInner::Flex }
    }

    pub fn inline_flex() -> (r: Display)
        ensures r == (Display { outer: DisplayOuter::Inline, inner: DisplayInner::Flex }),
    {
        Display { outer: DisplayOuter::Inline, inner: DisplayInner::Flex }
    }

    pub fn grid() -> (r: Display)
        ensures r == (Display { outer: DisplayOuter::Block, inner: DisplayInner::Grid }),
    {
        Display { outer: DisplayOuter::Block, inner: DisplayInner::Grid }
    }

    pub fn inline_grid() -> (r: Display)
        ensures r == (Display { outer: DisplayOuter::Inline, inner: DisplayInner::Grid }),
    {
        Display { outer: DisplayOuter::Inline, inner: DisplayInner::Grid }
    }

    pub fn table() -> (r: Display)
        ensures r == (Display { outer: DisplayOuter::Block, inner: DisplayInner::Table }),
    {
        Display { outer: DisplayOuter::Block, inner: DisplayInner::Table }
    }

    pub fn table_row() -> (r: Display)
        ensures r == (Display { outer: DisplayOuter::Block, inner: DisplayInner::TableRow }),
    {
        Display { outer: DisplayOuter::Block, inner: DisplayInner::TableRow }
    }

    pub fn table_cell() -> (r: Display)
        ensures r == (Display { outer: DisplayOuter::Block, inner: DisplayInner::TableCell }),
    {
        Display { outer: DisplayOuter::Block, inner: DisplayInner::TableCell }
    }

    pub fn table_row_group() -> (r: Display)
        ensures r == (Display { outer: DisplayOuter::Block, inner: DisplayInner::TableRowGroup }),
    {
        Display { outer: DisplayOuter::Block, inner: DisplayInner::TableRowGroup }
    }

    pub fn table_column() -> (r: Display)
        ensures r == (Display { outer: DisplayOuter::Block, inner: DisplayInner::TableColumn }),
    {
        Display { outer: DisplayOuter::Block, inner: DisplayInner::TableColumn }
    }

    pub fn table_column_group() -> (r: Display)
        ensures
            r == (Display { outer: DisplayOuter::Block, inner: DisplayInner::TableColumnGroup }),
    {
        Display { outer: DisplayOuter::Block, inner: DisplayInner::TableColumnGroup }
    }

    pub fn table_caption() -> (r: Display)
        ensures r == (Display { outer: DisplayOuter::Block, inner: DisplayInner::TableCaption }),
    {
        Display { outer: DisplayOuter::Block, inner: DisplayInner::TableCaption }
    }

    pub fn table_header_group() -> (r: Display)
        ensures
            r == (Display { outer: DisplayOuter::Block, inner: DisplayInner::TableHeaderGroup }),
    {
        Display { outer: DisplayOuter::Block, inner: DisplayInner::TableHeaderGroup }
    }

    pub fn table_footer_group() -> (r: Display)
        ensures
            r == (Display { outer: DisplayOuter::Block, inner: DisplayInner::TableFooterGroup }),
    {
        Display { outer: DisplayOuter::Block, inner: DisplayInner::TableFooterGroup }
    }

    /// `display: none`.
    pub fn none() -> (r: Display)
        ensures r == (Display { outer: DisplayOuter::NoBox, inner: DisplayInner::Flow }),
    {
        Display { outer: DisplayOuter::NoBox, inner: DisplayInner::Flow }
    }

    pub fn flow_root() -> (r: Display)
        ensures r == (Display { outer: DisplayOuter::Block, inner: DisplayInner::FlowRoot }),
    {
        Display { outer: DisplayOuter::Block, inner: DisplayInner::FlowRoot }
    }

    pub fn is_none(&self) -> (r: bool)
        ensures r == (self.outer == DisplayOuter::NoBox),
    {
        self.outer == DisplayOuter::NoBox
    }

    pub fn is_block_level(&self) -> (r: bool)
        ensures r == (self.outer == DisplayOuter::Block),
    {
        self.outer == DisplayOuter::Block
    }

    pub fn is_inline_level(&self) -> (r: bool)
        ensures r == (self.outer == DisplayOuter::Inline),
    {
        self.outer == DisplayOuter::Inline
    }

    pub fn establishes_bfc(&self) -> (r: bool)
        ensures r == inner_establishes_bfc(self.inner),
    {
        match self.inner {
            DisplayInner::FlowRoot | DisplayInner::Flex | DisplayInner::Grid
            | DisplayInner::Table => true,
            _ => false,
        }
    }

    pub fn is_table_part(&self) -> (r: bool)
        ensures r == inner_is_table_part(self.inner),
    {
        match self.inner {
            DisplayInner::Table | DisplayInner::TableRow | DisplayInner::TableCell
            | DisplayInner::TableRowGroup | DisplayInner::TableColumn
            | DisplayInner::TableColumnGroup | DisplayInner::TableCaption
            | DisplayInner::TableHeaderGroup | DisplayInner::TableFooterGroup => true,
            _ => false,
        }
    }
}

impl Default for Display {
    fn default() -> (r: Display)
        ensures r == (Display { outer: DisplayOuter::Inline, inner: DisplayInner::Flow }),
    {
        Display::inline()
    }
}

/// CSS `position` property.
#[derive(Debug, Clone, Copy, PartialEq, Eq, Structural, Default)]
pub enum Position {
    #[default]
    Static,
    Relative,
    Absolute,
    Fixed,
    Sticky,
}

impl Position {
    pub fn is_positioned(&self) -> (r: bool)
        ensures r == (*self != Position::Static),
    {
        !matches!(self, Position::Static)
    }

    pub fn is_absolutely_positioned(&self) -> (r: bool)
        ensures r == (*self == Position::Absolute || *self == Position::Fixed),
    {
        matches!(self, Position::Absolute | Position::Fixed)
    }

    pub fn is_in_flow(&self) -> (r: bool)
        ensures
            r == (*self == Position::Static || *self == Position::Relative || *self
                == Position::Sticky),
    {
        matches!(self, Position::Static | Position::Relative | Position::Sticky)
    }
}

/// CSS `box-sizing` property.
#[derive(Debug, Clone, Copy, PartialEq, Eq, Structural, Default)]
pub enum BoxSizing {
    #[default]
    ContentBox,
    BorderBox,
}

/// CSS `float` property. `NoFloat` is `float: none`.
#[derive(Debug, Clone, Copy, PartialEq, Eq, Structural, Default)]
pub enum Float {
    #[default]
    NoFloat,
    Left,
    Right,
}

/// CSS `clear` property. `NoClear` is `clear: none`.
#[derive(Debug, Clone, Copy, PartialEq, Eq, Structural, Default)]
pub enum Clear {
    #[default]
    NoClear,
    Left,
    Right,
    Both,
}

/// CSS `overflow` property (per axis).
#[derive(Debug, Clone, Copy, PartialEq, Eq, Structural, Default)]
pub enum Overflow {
    #[default]
    Visible,
    Hidden,
    Scroll,
    Auto,
}

/// CSS `text-align` property.
#[derive(Debug, Clone, Copy, PartialEq, Eq, Structural, Default)]
pub enum TextAlign {
    #[default]
    Left,
    Right,
    Center,
    Justify,
}

/// CSS `white-space` property.
#[derive(Debug, Clone, Copy, PartialEq, Eq, Structural, Default)]
pub enum WhiteSpace {
    #[default]
    Normal,
    Nowrap,
    Pre,
    PreWrap,
    PreLine,
}

impl WhiteSpace {
    pub fn preserves_newlines(&self) -> (r: bool)
        ensures
            r == (*self == WhiteSpace::Pre || *self == WhiteSpace::PreWrap || *self
                == WhiteSpace::PreLine),
    {
        matches!(self, WhiteSpace::Pre | WhiteSpace::PreWrap | WhiteSpace::PreLine)
    }

    pub fn collapses_spaces(&self) -> (r: bool)
        ensures
            r == (*self == WhiteSpace::Normal || *self == WhiteSpace::Nowrap || *self
                == WhiteSpace::PreLine),
    {
        matches!(self, WhiteSpace::Normal | WhiteSpace::Nowrap | WhiteSpace::PreLine)
    }

    pub fn wraps(&self) -> (r: bool)
        ensures
            r == (*self == WhiteSpace::Normal || *self == WhiteSpace::PreWrap || *self
                == WhiteSpace::PreLine),
    {
        matches!(self, WhiteSpace::Normal | WhiteSpace::PreWrap | WhiteSpace::PreLine)
    }
}

/// CSS `flex-direction`.
#[derive(Debug, Clone, Copy, PartialEq, Eq, Structural, Default)]
pub enum FlexDirection {
    #[default]
    Row,
    RowReverse,
    Column,
    ColumnReverse,
}

impl FlexDirection {
    pub fn is_row(&self) -> (r: bool)
        ensures r == (*self == FlexDirection::Row || *self == FlexDirection::RowReverse),
    {
        matches!(self, FlexDirection::Row | FlexDirection::RowReverse)
    }

    pub fn is_column(&self) -> (r: bool)
        ensures r == (*self == FlexDirection::Column || *self == FlexDirection::ColumnReverse),
    {
        !self.is_row()
    }

    pub fn is_reverse(&self) -> (r: bool)
        ensures
            r == (*self == FlexDirection::RowReverse || *self == FlexDirection::ColumnReverse),
    {
        matches!(self, FlexDirection::RowReverse | FlexDirection::ColumnReverse)
    }
}

/// CSS `flex-wrap`.
#[derive(Debug, Clone, Copy, PartialEq, Eq, Structural, Default)]
pub enum FlexWrap {
    #[default]
    Nowrap,
    Wrap,
    WrapReverse,
}

/// CSS `align-items`.
#[derive(Debug, Clone, Copy, PartialEq, Eq, Structural, Default)]
pub enum AlignItems {
    #[default]
    Stretch,
    FlexStart,
    FlexEnd,
    Center,
    Baseline,
    Start,
    End,
}

/// CSS `align-self`.
#[derive(Debug, Clone, Copy, PartialEq, Eq, Structural, Default)]
pub enum AlignSelf {
    #[default]
    Auto,
    Stretch,
    FlexStart,
    FlexEnd,
    Center,
    Baseline,
    Start,
    End,
}

/// CSS `justify-content`.
#[derive(Debug, Clone, Copy, PartialEq, Eq, Structural, Default)]
pub enum JustifyContent {
    #[default]
    FlexStart,
    FlexEnd,
    Center,
    SpaceBetween,
    SpaceAround,
    SpaceEvenly,
    Start,
    End,
}

/// CSS `align-content`.
#[derive(Debug, Clone, Copy, PartialEq, Eq, Structural, Default)]
pub enum AlignContent {
    #[default]
    Stretch,
    FlexStart,
    FlexEnd,
    Center,
    SpaceBetween,
    SpaceAround,
    SpaceEvenly,
    Start,
    End,
}

/// Grid auto-flow direction.
#[derive(Debug, Clone, Copy, PartialEq, Eq, Structural, Default)]
pub enum GridAutoFlow {
    #[default]
    Row,
    Column,
    RowDense,
    ColumnDense,
}

/// Grid placement value for a single edge.
#[derive(Debug, Clone, PartialEq, Default)]
pub enum GridPlacement {
    #[default]
    Auto,
    Line(i32),
    Span(u32),
    Named(String),
}

/// A grid-line value as plain values.
pub enum PlacementView {
    Auto,
    Line(i32),
    Span(u32),
    Named(Seq<char>),
}

impl GridPlacement {
    pub open spec fn view(&self) -> PlacementView {
        match self {
            GridPlacement::Auto => PlacementView::Auto,
            GridPlacement::Line(n) => PlacementView::Line(*n),
            GridPlacement::Span(n) => PlacementView::Span(*n),
            GridPlacement::Named(s) => PlacementView::Named(s@),
        }
    }
}

/// CSS `table-layout`.
#[derive(Debug, Clone, Copy, PartialEq, Eq, Structural, Default)]
pub enum TableLayout {
    #[default]
    Auto,
    Fixed,
}

/// CSS `border-collapse`.
#[derive(Debug, Clone, Copy, PartialEq, Eq, Structural, Default)]
pub enum BorderCollapse {
    #[default]
    Separate,
    Collapse,
}

/// CSS `caption-side`.
#[derive(Debug, Clone, Copy, PartialEq, Eq, Structural, Default)]
pub enum CaptionSide {
    #[default]
    Top,
    Bottom,
}

/// The alignment a flex item gets: its own `align-self`, or the container's
/// `align-items` when that is `auto`.
pub open spec fn spec_effective_align(container: AlignItems, item: AlignSelf) -> AlignItems {
    match item {
        AlignSelf::Auto => container,
        AlignSelf::Stretch => AlignItems::Stretch,
        AlignSelf::FlexStart => AlignItems::FlexStart,
        AlignSelf::FlexEnd => AlignItems::FlexEnd,
        AlignSelf::Center => AlignItems::Center,
        AlignSelf::Baseline => AlignItems::Baseline,
        AlignSelf::Start => AlignItems::Start,
        AlignSelf::End => AlignItems::End,
    }
}

/// The alignment a flex item gets (flex layout).
pub fn effective_align(container: AlignItems, item: AlignSelf) -> (r: AlignItems)
    ensures r == spec_effective_align(container, item),
{
    match item {
        AlignSelf::Auto => container,
        AlignSelf::Stretch => AlignItems::Stretch,
        AlignSelf::FlexStart => AlignItems::FlexStart,
        AlignSelf::FlexEnd => AlignItems::FlexEnd,
        AlignSelf::Center => AlignItems::Center,
        AlignSelf::Baseline => AlignItems::Baseline,
        AlignSelf::Start => AlignItems::Start,
        AlignSelf::End => AlignItems::End,
    }
}

/// The alignment a grid item gets: like flex, except that the flex-relative
/// keywords `flex-start`/`flex-end` become `start`/`end`.
pub fn effective_align_items(container: AlignItems, item: AlignSelf) -> (r: AlignItems)
    ensures
        r == (match item {
            AlignSelf::FlexStart => AlignItems::Start,
            AlignSelf::FlexEnd => AlignItems::End,
            _ => spec_effective_align(container, item),
        }),
{
    match item {
        AlignSelf::Auto => container,
        AlignSelf::Stretch => AlignItems::Stretch,
        AlignSelf::FlexStart | AlignSelf::Start => AlignItems::Start,
        AlignSelf::FlexEnd | AlignSelf::End => AlignItems::End,
        AlignSelf::Center => AlignItems::Center,
        AlignSelf::Baseline => AlignItems::Baseline,
    }
}

/// The zero-based grid track index that a placement names: a line number
/// `n` (1-based in CSS) gives `max(n - 1, 0)`; `span`, `auto` and named lines
/// give no explicit index.
pub fn resolve_grid_line(placement: &GridPlacement) -> (r: Option<i32>)
    requires
        placement matches GridPlacement::Line(n) ==> n > i32::MIN,
    ensures
        r == (match placement {
            GridPlacement::Line(n) => Some(if n - 1 > 0 { (n - 1) as i32 } else { 0i32 }),
            _ => None,
        }),
{
    match placement {
        GridPlacement::Line(n) => {
            if *n > 1 {
                Some(*n - 1)
            } else {
                Some(0)
            }
        },
        GridPlacement::Span(_) => None,
        GridPlacement::Auto => None,
        GridPlacement::Named(_) => None,
    }
}

/// The kind of a layout fragment.
#[derive(Debug, Clone, Copy, PartialEq, Eq, Structural)]
pub enum FragmentKind {
    /// A block-level box.
    Box,
    /// An anonymous block box.
    AnonymousBox,
    /// A line box (produced by an inline formatting context).
    LineBox,
    /// A text run within a line box.
    TextRun,
}

} // verus!
