//! What a CSS declaration sets: each property's keywords read into the
//! style values they name, the integer and grid-line values, the track
//! tokens of a grid template, and, for the properties whose values are
//! lengths or numbers, which fields they set and the text to read them from.

use vstd::prelude::*;
use crate::style::{
    Display, DisplayOuter, DisplayInner, Position, Float, Clear, BoxSizing, Overflow, TextAlign,
    FlexDirection, FlexWrap, AlignItems, AlignSelf, AlignContent, JustifyContent, GridAutoFlow,
    GridPlacement, PlacementView, TableLayout, BorderCollapse, CaptionSide,
};
use crate::text::{
    chars_of, chars_eq, lit, str_eq, string_of, trim, trim_bounds, words, split_whitespace_chars,
    u32_of, i32_of, parse_u32, parse_i32, balanced, count_in, lemma_count_step, lemma_count_bound,
    matches_at,
};

verus! {

/// The value of the first entry named `key`; `default` when there is none.
pub open spec fn keyword<T>(table: Seq<(Seq<char>, T)>, key: Seq<char>, default: T) -> T
    decreases table.len(),
{
    if table.len() == 0 {
        default
    } else if table[0].0 == key {
        table[0].1
    } else {
        keyword(table.drop_first(), key, default)
    }
}

/// Look `key` up in a table of keywords.
fn lookup_keyword<T: Copy>(table: &Vec<(&str, T)>, key: &Vec<char>, default: T) -> (r: T)
    ensures
        r == keyword(table@.map_values(|e: (&str, T)| (e.0@, e.1)), key@, default),
{
    let ghost views = table@.map_values(|e: (&str, T)| (e.0@, e.1));
    let mut i: usize = 0;
    assert(views.subrange(0, views.len() as int) =~= views);
    while i < table.len()
        invariant
            i <= table.len(),
            views == table@.map_values(|e: (&str, T)| (e.0@, e.1)),
            keyword(views, key@, default) == keyword(views.subrange(i as int, views.len() as int), key@, default),
        decreases table.len() - i,
    {
        let ghost rest = views.subrange(i as int, views.len() as int);
        assert(rest[0] == views[i as int]);
        assert(rest.drop_first() =~= views.subrange(i + 1, views.len() as int));
        let name = chars_of(table[i].0);
        assert(views[i as int] == (table@[i as int].0@, table@[i as int].1));
        if chars_eq(&name, key) {
            return table[i].1;
        }
        i += 1;
    }
    assert(views.subrange(i as int, views.len() as int) =~= Seq::<(Seq<char>, T)>::empty());
    default
}

/// The trimmed characters of a value.
fn trimmed_chars(value: &str) -> (r: Vec<char>)
    ensures
        r@ == trim(value@),
{
    let v = chars_of(value);
    let (a, b) = trim_bounds(&v, 0, v.len());
    assert(v@.subrange(0, v@.len() as int) =~= v@);
    crate::text::sub_chars(&v, a, b)
}

/// The keywords of `display`.
pub open spec fn display_keywords() -> Seq<(Seq<char>, Display)> {
    seq![
        ("block"@, Display { outer: DisplayOuter::Block, inner: DisplayInner::Flow }),
        ("inline"@, Display { outer: DisplayOuter::Inline, inner: DisplayInner::Flow }),
        ("inline-block"@, Display { outer: DisplayOuter::Inline, inner: DisplayInner::FlowRoot }),
        ("flex"@, Display { outer: DisplayOuter::Block, inner: DisplayInner::Flex }),
        ("inline-flex"@, Display { outer: DisplayOuter::Inline, inner: DisplayInner::Flex }),
        ("grid"@, Display { outer: DisplayOuter::Block, inner: DisplayInner::Grid }),
        ("inline-grid"@, Display { outer: DisplayOuter::Inline, inner: DisplayInner::Grid }),
        ("table"@, Display { outer: DisplayOuter::Block, inner: DisplayInner::Table }),
        ("table-row"@, Display { outer: DisplayOuter::Block, inner: DisplayInner::TableRow }),
        ("table-cell"@, Display { outer: DisplayOuter::Block, inner: DisplayInner::TableCell }),
        ("table-row-group"@, Display { outer: DisplayOuter::Block, inner: DisplayInner::TableRowGroup }),
        ("table-column"@, Display { outer: DisplayOuter::Block, inner: DisplayInner::TableColumn }),
        ("table-column-group"@, Display { outer: DisplayOuter::Block, inner: DisplayInner::TableColumnGroup }),
        ("table-caption"@, Display { outer: DisplayOuter::Block, inner: DisplayInner::TableCaption }),
        ("table-header-group"@, Display { outer: DisplayOuter::Block, inner: DisplayInner::TableHeaderGroup }),
        ("table-footer-group"@, Display { outer: DisplayOuter::Block, inner: DisplayInner::TableFooterGroup }),
        ("flow-root"@, Display { outer: DisplayOuter::Block, inner: DisplayInner::FlowRoot }),
        ("none"@, Display { outer: DisplayOuter::NoBox, inner: DisplayInner::Flow }),
    ]
}

/// The value of `display` (trimmed; inline for any other value).
pub open spec fn display_of(v: Seq<char>) -> Display {
    keyword(display_keywords(), trim(v), Display { outer: DisplayOuter::Inline, inner: DisplayInner::Flow })
}

/// Read `display`.
pub fn parse_display(value: &str) -> (r: Display)
    ensures
        r == display_of(value@),
{
    let key = trimmed_chars(value);
    let table: Vec<(&str, Display)> = vec![
        ("block", Display::block()),
        ("inline", Display::inline()),
        ("inline-block", Display::inline_block()),
        ("flex", Display::flex()),
        ("inline-flex", Display::inline_flex()),
        ("grid", Display::grid()),
        ("inline-grid", Display::inline_grid()),
        ("table", Display::table()),
        ("table-row", Display::table_row()),
        ("table-cell", Display::table_cell()),
        ("table-row-group", Display::table_row_group()),
        ("table-column", Display::table_column()),
        ("table-column-group", Display::table_column_group()),
        ("table-caption", Display::table_caption()),
        ("table-header-group", Display::table_header_group()),
        ("table-footer-group", Display::table_footer_group()),
        ("flow-root", Display::flow_root()),
        ("none", Display::none()),
    ];
    assert(table@.map_values(|e: (&str, Display)| (e.0@, e.1)) =~= display_keywords());
    lookup_keyword(&table, &key, Display::inline())
}

/// The keywords of `position`.
pub open spec fn position_keywords() -> Seq<(Seq<char>, Position)> {
    seq![
        ("static"@, Position::Static),
        ("relative"@, Position::Relative),
        ("absolute"@, Position::Absolute),
        ("fixed"@, Position::Fixed),
        ("sticky"@, Position::Sticky),
    ]
}

/// The value of `position` (static for any other value).
pub open spec fn position_of(v: Seq<char>) -> Position {
    keyword(position_keywords(), v, Position::Static)
}

/// Read `position`.
pub fn parse_position(value: &str) -> (r: Position)
    ensures
        r == position_of(value@),
{
    let key = chars_of(value);
    let table: Vec<(&str, Position)> = vec![
        ("static", Position::Static),
        ("relative", Position::Relative),
        ("absolute", Position::Absolute),
        ("fixed", Position::Fixed),
        ("sticky", Position::Sticky),
    ];
    assert(table@.map_values(|e: (&str, Position)| (e.0@, e.1)) =~= position_keywords());
    lookup_keyword(&table, &key, Position::Static)
}

/// The keywords of `float`.
pub open spec fn float_keywords() -> Seq<(Seq<char>, Float)> {
    seq![
        ("left"@, Float::Left),
        ("right"@, Float::Right),
        ("none"@, Float::NoFloat),
    ]
}

/// The value of `float` (none for any other value).
pub open spec fn float_of(v: Seq<char>) -> Float {
    keyword(float_keywords(), v, Float::NoFloat)
}

/// Read `float`.
pub fn parse_float(value: &str) -> (r: Float)
    ensures
        r == float_of(value@),
{
    let key = chars_of(value);
    let table: Vec<(&str, Float)> = vec![
        ("left", Float::Left),
        ("right", Float::Right),
        ("none", Float::NoFloat),
    ];
    assert(table@.map_values(|e: (&str, Float)| (e.0@, e.1)) =~= float_keywords());
    lookup_keyword(&table, &key, Float::NoFloat)
}

/// The keywords of `clear`.
pub open spec fn clear_keywords() -> Seq<(Seq<char>, Clear)> {
    seq![
        ("left"@, Clear::Left),
        ("right"@, Clear::Right),
        ("both"@, Clear::Both),
        ("none"@, Clear::NoClear),
    ]
}

/// The value of `clear` (none for any other value).
pub open spec fn clear_of(v: Seq<char>) -> Clear {
    keyword(clear_keywords(), v, Clear::NoClear)
}

/// Read `clear`.
pub fn parse_clear(value: &str) -> (r: Clear)
    ensures
        r == clear_of(value@),
{
    let key = chars_of(value);
    let table: Vec<(&str, Clear)> = vec![
        ("left", Clear::Left),
        ("right", Clear::Right),
        ("both", Clear::Both),
        ("none", Clear::NoClear),
    ];
    assert(table@.map_values(|e: (&str, Clear)| (e.0@, e.1)) =~= clear_keywords());
    lookup_keyword(&table, &key, Clear::NoClear)
}

/// The keywords of `box-sizing`.
pub open spec fn box_sizing_keywords() -> Seq<(Seq<char>, BoxSizing)> {
    seq![
        ("border-box"@, BoxSizing::BorderBox),
        ("content-box"@, BoxSizing::ContentBox),
    ]
}

/// The value of `box-sizing` (content-box for any other value).
pub open spec fn box_sizing_of(v: Seq<char>) -> BoxSizing {
    keyword(box_sizing_keywords(), v, BoxSizing::ContentBox)
}

/// Read `box-sizing`.
pub fn parse_box_sizing(value: &str) -> (r: BoxSizing)
    ensures
        r == box_sizing_of(value@),
{
    let key = chars_of(value);
    let table: Vec<(&str, BoxSizing)> = vec![
        ("border-box", BoxSizing::BorderBox),
        ("content-box", BoxSizing::ContentBox),
    ];
    assert(table@.map_values(|e: (&str, BoxSizing)| (e.0@, e.1)) =~= box_sizing_keywords());
    lookup_keyword(&table, &key, BoxSizing::ContentBox)
}

/// The keywords of `overflow`.
pub open spec fn overflow_keywords() -> Seq<(Seq<char>, Overflow)> {
    seq![
        ("visible"@, Overflow::Visible),
        ("hidden"@, Overflow::Hidden),
        ("scroll"@, Overflow::Scroll),
        ("auto"@, Overflow::Auto),
    ]
}

/// The value of `overflow` (trimmed; visible for any other value).
pub open spec fn overflow_of(v: Seq<char>) -> Overflow {
    keyword(overflow_keywords(), trim(v), Overflow::Visible)
}

/// Read `overflow`.
pub fn parse_overflow(value: &str) -> (r: Overflow)
    ensures
        r == overflow_of(value@),
{
    let key = trimmed_chars(value);
    let table: Vec<(&str, Overflow)> = vec![
        ("visible", Overflow::Visible),
        ("hidden", Overflow::Hidden),
        ("scroll", Overflow::Scroll),
        ("auto", Overflow::Auto),
    ];
    assert(table@.map_values(|e: (&str, Overflow)| (e.0@, e.1)) =~= overflow_keywords());
    lookup_keyword(&table, &key, Overflow::Visible)
}

/// The keywords of `text-align`.
pub open spec fn text_align_keywords() -> Seq<(Seq<char>, TextAlign)> {
    seq![
        ("left"@, TextAlign::Left),
        ("right"@, TextAlign::Right),
        ("center"@, TextAlign::Center),
        ("justify"@, TextAlign::Justify),
    ]
}

/// The value of `text-align` (left for any other value).
pub open spec fn text_align_of(v: Seq<char>) -> TextAlign {
    keyword(text_align_keywords(), v, TextAlign::Left)
}

/// Read `text-align`.
pub fn parse_text_align(value: &str) -> (r: TextAlign)
    ensures
        r == text_align_of(value@),
{
    let key = chars_of(value);
    let table: Vec<(&str, TextAlign)> = vec![
        ("left", TextAlign::Left),
        ("right", TextAlign::Right),
        ("center", TextAlign::Center),
        ("justify", TextAlign::Justify),
    ];
    assert(table@.map_values(|e: (&str, TextAlign)| (e.0@, e.1)) =~= text_align_keywords());
    lookup_keyword(&table, &key, TextAlign::Left)
}

/// The keywords of `flex-direction`.
pub open spec fn flex_direction_keywords() -> Seq<(Seq<char>, FlexDirection)> {
    seq![
        ("row"@, FlexDirection::Row),
        ("row-reverse"@, FlexDirection::RowReverse),
        ("column"@, FlexDirection::Column),
        ("column-reverse"@, FlexDirection::ColumnReverse),
    ]
}

/// The value of `flex-direction` (row for any other value).
pub open spec fn flex_direction_of(v: Seq<char>) -> FlexDirection {
    keyword(flex_direction_keywords(), v, FlexDirection::Row)
}

/// Read `flex-direction`.
pub fn parse_flex_direction(value: &str) -> (r: FlexDirection)
    ensures
        r == flex_direction_of(value@),
{
    let key = chars_of(value);
    let table: Vec<(&str, FlexDirection)> = vec![
        ("row", FlexDirection::Row),
        ("row-reverse", FlexDirection::RowReverse),
        ("column", FlexDirection::Column),
        ("column-reverse", FlexDirection::ColumnReverse),
    ];
    assert(table@.map_values(|e: (&str, FlexDirection)| (e.0@, e.1)) =~= flex_direction_keywords());
    lookup_keyword(&table, &key, FlexDirection::Row)
}

/// The keywords of `flex-wrap`.
pub open spec fn flex_wrap_keywords() -> Seq<(Seq<char>, FlexWrap)> {
    seq![
        ("nowrap"@, FlexWrap::Nowrap),
        ("wrap"@, FlexWrap::Wrap),
        ("wrap-reverse"@, FlexWrap::WrapReverse),
    ]
}

/// The value of `flex-wrap` (nowrap for any other value).
pub open spec fn flex_wrap_of(v: Seq<char>) -> FlexWrap {
    keyword(flex_wrap_keywords(), v, FlexWrap::Nowrap)
}

/// Read `flex-wrap`.
pub fn parse_flex_wrap(value: &str) -> (r: FlexWrap)
    ensures
        r == flex_wrap_of(value@),
{
    let key = chars_of(value);
    let table: Vec<(&str, FlexWrap)> = vec![
        ("nowrap", FlexWrap::Nowrap),
        ("wrap", FlexWrap::Wrap),
        ("wrap-reverse", FlexWrap::WrapReverse),
    ];
    assert(table@.map_values(|e: (&str, FlexWrap)| (e.0@, e.1)) =~= flex_wrap_keywords());
    lookup_keyword(&table, &key, FlexWrap::Nowrap)
}

/// The keywords of `align-items`.
pub open spec fn align_items_keywords() -> Seq<(Seq<char>, AlignItems)> {
    seq![
        ("stretch"@, AlignItems::Stretch),
        ("flex-start"@, AlignItems::FlexStart),
        ("start"@, AlignItems::FlexStart),
        ("flex-end"@, AlignItems::FlexEnd),
        ("end"@, AlignItems::FlexEnd),
        ("center"@, AlignItems::Center),
        ("baseline"@, AlignItems::Baseline),
    ]
}

/// The value of `align-items` (trimmed; stretch for any other value).
pub open spec fn align_items_of(v: Seq<char>) -> AlignItems {
    keyword(align_items_keywords(), trim(v), AlignItems::Stretch)
}

/// Read `align-items`.
pub fn parse_align_items(value: &str) -> (r: AlignItems)
    ensures
        r == align_items_of(value@),
{
    let key = trimmed_chars(value);
    let table: Vec<(&str, AlignItems)> = vec![
        ("stretch", AlignItems::Stretch),
        ("flex-start", AlignItems::FlexStart),
        ("start", AlignItems::FlexStart),
        ("flex-end", AlignItems::FlexEnd),
        ("end", AlignItems::FlexEnd),
        ("center", AlignItems::Center),
        ("baseline", AlignItems::Baseline),
    ];
    assert(table@.map_values(|e: (&str, AlignItems)| (e.0@, e.1)) =~= align_items_keywords());
    lookup_keyword(&table, &key, AlignItems::Stretch)
}

/// The keywords of `align-self`.
pub open spec fn align_self_keywords() -> Seq<(Seq<char>, AlignSelf)> {
    seq![
        ("auto"@, AlignSelf::Auto),
        ("stretch"@, AlignSelf::Stretch),
        ("flex-start"@, AlignSelf::FlexStart),
        ("start"@, AlignSelf::FlexStart),
        ("flex-end"@, AlignSelf::FlexEnd),
        ("end"@, AlignSelf::FlexEnd),
        ("center"@, AlignSelf::Center),
        ("baseline"@, AlignSelf::Baseline),
    ]
}

/// The value of `align-self` (trimmed; auto for any other value).
pub open spec fn align_self_of(v: Seq<char>) -> AlignSelf {
    keyword(align_self_keywords(), trim(v), AlignSelf::Auto)
}

/// Read `align-self`.
pub fn parse_align_self(value: &str) -> (r: AlignSelf)
    ensures
        r == align_self_of(value@),
{
    let key = trimmed_chars(value);
    let table: Vec<(&str, AlignSelf)> = vec![
        ("auto", AlignSelf::Auto),
        ("stretch", AlignSelf::Stretch),
        ("flex-start", AlignSelf::FlexStart),
        ("start", AlignSelf::FlexStart),
        ("flex-end", AlignSelf::FlexEnd),
        ("end", AlignSelf::FlexEnd),
        ("center", AlignSelf::Center),
        ("baseline", AlignSelf::Baseline),
    ];
    assert(table@.map_values(|e: (&str, AlignSelf)| (e.0@, e.1)) =~= align_self_keywords());
    lookup_keyword(&table, &key, AlignSelf::Auto)
}

/// The keywords of `align-content`.
pub open spec fn align_content_keywords() -> Seq<(Seq<char>, AlignContent)> {
    seq![
        ("stretch"@, AlignContent::Stretch),
        ("flex-start"@, AlignContent::FlexStart),
        ("start"@, AlignContent::FlexStart),
        ("flex-end"@, AlignContent::FlexEnd),
        ("end"@, AlignContent::FlexEnd),
        ("center"@, AlignContent::Center),
        ("space-between"@, AlignContent::SpaceBetween),
        ("space-around"@, AlignContent::SpaceAround),
        ("space-evenly"@, AlignContent::SpaceEvenly),
    ]
}

/// The value of `align-content` (trimmed; stretch for any other value).
pub open spec fn align_content_of(v: Seq<char>) -> AlignContent {
    keyword(align_content_keywords(), trim(v), AlignContent::Stretch)
}

/// Read `align-content`.
pub fn parse_align_content(value: &str) -> (r: AlignContent)
    ensures
        r == align_content_of(value@),
{
    let key = trimmed_chars(value);
    let table: Vec<(&str, AlignContent)> = vec![
        ("stretch", AlignContent::Stretch),
        ("flex-start", AlignContent::FlexStart),
        ("start", AlignContent::FlexStart),
        ("flex-end", AlignContent::FlexEnd),
        ("end", AlignContent::FlexEnd),
        ("center", AlignContent::Center),
        ("space-between", AlignContent::SpaceBetween),
        ("space-around", AlignContent::SpaceAround),
        ("space-evenly", AlignContent::SpaceEvenly),
    ];
    assert(table@.map_values(|e: (&str, AlignContent)| (e.0@, e.1)) =~= align_content_keywords());
    lookup_keyword(&table, &key, AlignContent::Stretch)
}

/// The keywords of `justify-content`.
pub open spec fn justify_content_keywords() -> Seq<(Seq<char>, JustifyContent)> {
    seq![
        ("flex-start"@, JustifyContent::FlexStart),
        ("start"@, JustifyContent::FlexStart),
        ("flex-end"@, JustifyContent::FlexEnd),
        ("end"@, JustifyContent::FlexEnd),
        ("center"@, JustifyContent::Center),
        ("space-between"@, JustifyContent::SpaceBetween),
        ("space-around"@, JustifyContent::SpaceAround),
        ("space-evenly"@, JustifyContent::SpaceEvenly),
    ]
}

/// The value of `justify-content` (trimmed; flex-start for any other value).
pub open spec fn justify_content_of(v: Seq<char>) -> JustifyContent {
    keyword(justify_content_keywords(), trim(v), JustifyContent::FlexStart)
}

/// Read `justify-content`.
pub fn parse_justify_content(value: &str) -> (r: JustifyContent)
    ensures
        r == justify_content_of(value@),
{
    let key = trimmed_chars(value);
    let table: Vec<(&str, JustifyContent)> = vec![
        ("flex-start", JustifyContent::FlexStart),
        ("start", JustifyContent::FlexStart),
        ("flex-end", JustifyContent::FlexEnd),
        ("end", JustifyContent::FlexEnd),
        ("center", JustifyContent::Center),
        ("space-between", JustifyContent::SpaceBetween),
        ("space-around", JustifyContent::SpaceAround),
        ("space-evenly", JustifyContent::SpaceEvenly),
    ];
    assert(table@.map_values(|e: (&str, JustifyContent)| (e.0@, e.1)) =~= justify_content_keywords());
    lookup_keyword(&table, &key, JustifyContent::FlexStart)
}

/// The keywords of `grid-auto-flow`.
pub open spec fn grid_auto_flow_keywords() -> Seq<(Seq<char>, GridAutoFlow)> {
    seq![
        ("row"@, GridAutoFlow::Row),
        ("column"@, GridAutoFlow::Column),
        ("row dense"@, GridAutoFlow::RowDense),
        ("column dense"@, GridAutoFlow::ColumnDense),
    ]
}

/// The value of `grid-auto-flow` (row for any other value).
pub open spec fn grid_auto_flow_of(v: Seq<char>) -> GridAutoFlow {
    keyword(grid_auto_flow_keywords(), v, GridAutoFlow::Row)
}

/// Read `grid-auto-flow`.
pub fn parse_grid_auto_flow(value: &str) -> (r: GridAutoFlow)
    ensures
        r == grid_auto_flow_of(value@),
{
    let key = chars_of(value);
    let table: Vec<(&str, GridAutoFlow)> = vec![
        ("row", GridAutoFlow::Row),
        ("column", GridAutoFlow::Column),
        ("row dense", GridAutoFlow::RowDense),
        ("column dense", GridAutoFlow::ColumnDense),
    ];
    assert(table@.map_values(|e: (&str, GridAutoFlow)| (e.0@, e.1)) =~= grid_auto_flow_keywords());
    lookup_keyword(&table, &key, GridAutoFlow::Row)
}

/// The keywords of `table-layout`.
pub open spec fn table_layout_keywords() -> Seq<(Seq<char>, TableLayout)> {
    seq![
        ("fixed"@, TableLayout::Fixed),
        ("auto"@, TableLayout::Auto),
    ]
}

/// The value of `table-layout` (auto for any other value).
pub open spec fn table_layout_of(v: Seq<char>) -> TableLayout {
    keyword(table_layout_keywords(), v, TableLayout::Auto)
}

/// Read `table-layout`.
pub fn parse_table_layout(value: &str) -> (r: TableLayout)
    ensures
        r == table_layout_of(value@),
{
    let key = chars_of(value);
    let table: Vec<(&str, TableLayout)> = vec![
        ("fixed", TableLayout::Fixed),
        ("auto", TableLayout::Auto),
    ];
    assert(table@.map_values(|e: (&str, TableLayout)| (e.0@, e.1)) =~= table_layout_keywords());
    lookup_keyword(&table, &key, TableLayout::Auto)
}

/// The keywords of `border-collapse`.
pub open spec fn border_collapse_keywords() -> Seq<(Seq<char>, BorderCollapse)> {
    seq![
        ("collapse"@, BorderCollapse::Collapse),
        ("separate"@, BorderCollapse::Separate),
    ]
}

/// The value of `border-collapse` (separate for any other value).
pub open spec fn border_collapse_of(v: Seq<char>) -> BorderCollapse {
    keyword(border_collapse_keywords(), v, BorderCollapse::Separate)
}

/// Read `border-collapse`.
pub fn parse_border_collapse(value: &str) -> (r: BorderCollapse)
    ensures
        r == border_collapse_of(value@),
{
    let key = chars_of(value);
    let table: Vec<(&str, BorderCollapse)> = vec![
        ("collapse", BorderCollapse::Collapse),
        ("separate", BorderCollapse::Separate),
    ];
    assert(table@.map_values(|e: (&str, BorderCollapse)| (e.0@, e.1)) =~= border_collapse_keywords());
    lookup_keyword(&table, &key, BorderCollapse::Separate)
}

/// The keywords of `caption-side`.
pub open spec fn caption_side_keywords() -> Seq<(Seq<char>, CaptionSide)> {
    seq![
        ("top"@, CaptionSide::Top),
        ("bottom"@, CaptionSide::Bottom),
    ]
}

/// The value of `caption-side` (top for any other value).
pub open spec fn caption_side_of(v: Seq<char>) -> CaptionSide {
    keyword(caption_side_keywords(), v, CaptionSide::Top)
}

/// Read `caption-side`.
pub fn parse_caption_side(value: &str) -> (r: CaptionSide)
    ensures
        r == caption_side_of(value@),
{
    let key = chars_of(value);
    let table: Vec<(&str, CaptionSide)> = vec![
        ("top", CaptionSide::Top),
        ("bottom", CaptionSide::Bottom),
    ];
    assert(table@.map_values(|e: (&str, CaptionSide)| (e.0@, e.1)) =~= caption_side_keywords());
    lookup_keyword(&table, &key, CaptionSide::Top)
}

/// A property whose value is a length or a number, read from its text.
#[derive(Debug, Clone, Copy, PartialEq, Eq, Structural)]
pub enum NumericProperty {
    Width,
    Height,
    MinWidth,
    MinHeight,
    MaxWidth,
    MaxHeight,
    MarginTop,
    MarginRight,
    MarginBottom,
    MarginLeft,
    PaddingTop,
    PaddingRight,
    PaddingBottom,
    PaddingLeft,
    BorderWidth,
    BorderTopWidth,
    BorderRightWidth,
    BorderBottomWidth,
    BorderLeftWidth,
    Top,
    Right,
    Bottom,
    Left,
    LineHeight,
    FlexGrow,
    FlexShrink,
    FlexBasis,
    RowGap,
    ColumnGap,
    BorderSpacing,
}

/// A property whose value is read word by word.
#[derive(Debug, Clone, Copy, PartialEq, Eq, Structural)]
pub enum ShorthandProperty {
    Margin,
    Padding,
    Border,
    Flex,
    Gap,
}

/// Which grid line a `grid-row-*` or `grid-column-*` property sets.
#[derive(Debug, Clone, Copy, PartialEq, Eq, Structural)]
pub enum GridLineField {
    RowStart,
    RowEnd,
    ColumnStart,
    ColumnEnd,
}

/// The properties whose value is a length or a number.
pub open spec fn numeric_property_names() -> Seq<(Seq<char>, Option<NumericProperty>)> {
    seq![
        ("width"@, Some(NumericProperty::Width)),
        ("height"@, Some(NumericProperty::Height)),
        ("min-width"@, Some(NumericProperty::MinWidth)),
        ("min-height"@, Some(NumericProperty::MinHeight)),
        ("max-width"@, Some(NumericProperty::MaxWidth)),
        ("max-height"@, Some(NumericProperty::MaxHeight)),
        ("margin-top"@, Some(NumericProperty::MarginTop)),
        ("margin-right"@, Some(NumericProperty::MarginRight)),
        ("margin-bottom"@, Some(NumericProperty::MarginBottom)),
        ("margin-left"@, Some(NumericProperty::MarginLeft)),
        ("padding-top"@, Some(NumericProperty::PaddingTop)),
        ("padding-right"@, Some(NumericProperty::PaddingRight)),
        ("padding-bottom"@, Some(NumericProperty::PaddingBottom)),
        ("padding-left"@, Some(NumericProperty::PaddingLeft)),
        ("border-width"@, Some(NumericProperty::BorderWidth)),
        ("border-top-width"@, Some(NumericProperty::BorderTopWidth)),
        ("border-right-width"@, Some(NumericProperty::BorderRightWidth)),
        ("border-bottom-width"@, Some(NumericProperty::BorderBottomWidth)),
        ("border-left-width"@, Some(NumericProperty::BorderLeftWidth)),
        ("top"@, Some(NumericProperty::Top)),
        ("right"@, Some(NumericProperty::Right)),
        ("bottom"@, Some(NumericProperty::Bottom)),
        ("left"@, Some(NumericProperty::Left)),
        ("line-height"@, Some(NumericProperty::LineHeight)),
        ("flex-grow"@, Some(NumericProperty::FlexGrow)),
        ("flex-shrink"@, Some(NumericProperty::FlexShrink)),
        ("flex-basis"@, Some(NumericProperty::FlexBasis)),
        ("row-gap"@, Some(NumericProperty::RowGap)),
        ("grid-row-gap"@, Some(NumericProperty::RowGap)),
        ("column-gap"@, Some(NumericProperty::ColumnGap)),
        ("grid-column-gap"@, Some(NumericProperty::ColumnGap)),
        ("border-spacing"@, Some(NumericProperty::BorderSpacing)),
    ]
}

pub open spec fn numeric_property_of(p: Seq<char>) -> Option<NumericProperty> {
    keyword(numeric_property_names(), p, None)
}

fn numeric_property(property: &Vec<char>) -> (r: Option<NumericProperty>)
    ensures
        r == numeric_property_of(property@),
{
    let table: Vec<(&str, Option<NumericProperty>)> = vec![
        ("width", Some(NumericProperty::Width)),
        ("height", Some(NumericProperty::Height)),
        ("min-width", Some(NumericProperty::MinWidth)),
        ("min-height", Some(NumericProperty::MinHeight)),
        ("max-width", Some(NumericProperty::MaxWidth)),
        ("max-height", Some(NumericProperty::MaxHeight)),
        ("margin-top", Some(NumericProperty::MarginTop)),
        ("margin-right", Some(NumericProperty::MarginRight)),
        ("margin-bottom", Some(NumericProperty::MarginBottom)),
        ("margin-left", Some(NumericProperty::MarginLeft)),
        ("padding-top", Some(NumericProperty::PaddingTop)),
        ("padding-right", Some(NumericProperty::PaddingRight)),
        ("padding-bottom", Some(NumericProperty::PaddingBottom)),
        ("padding-left", Some(NumericProperty::PaddingLeft)),
        ("border-width", Some(NumericProperty::BorderWidth)),
        ("border-top-width", Some(NumericProperty::BorderTopWidth)),
        ("border-right-width", Some(NumericProperty::BorderRightWidth)),
        ("border-bottom-width", Some(NumericProperty::BorderBottomWidth)),
        ("border-left-width", Some(NumericProperty::BorderLeftWidth)),
        ("top", Some(NumericProperty::Top)),
        ("right", Some(NumericProperty::Right)),
        ("bottom", Some(NumericProperty::Bottom)),
        ("left", Some(NumericProperty::Left)),
        ("line-height", Some(NumericProperty::LineHeight)),
        ("flex-grow", Some(NumericProperty::FlexGrow)),
        ("flex-shrink", Some(NumericProperty::FlexShrink)),
        ("flex-basis", Some(NumericProperty::FlexBasis)),
        ("row-gap", Some(NumericProperty::RowGap)),
        ("grid-row-gap", Some(NumericProperty::RowGap)),
        ("column-gap", Some(NumericProperty::ColumnGap)),
        ("grid-column-gap", Some(NumericProperty::ColumnGap)),
        ("border-spacing", Some(NumericProperty::BorderSpacing)),
    ];
    assert(table@.map_values(|e: (&str, Option<NumericProperty>)| (e.0@, e.1)) =~= numeric_property_names());
    lookup_keyword(&table, property, None)
}

/// The properties whose value is read word by word.
pub open spec fn shorthand_property_names() -> Seq<(Seq<char>, Option<ShorthandProperty>)> {
    seq![
        ("margin"@, Some(ShorthandProperty::Margin)),
        ("padding"@, Some(ShorthandProperty::Padding)),
        ("border"@, Some(ShorthandProperty::Border)),
        ("flex"@, Some(ShorthandProperty::Flex)),
        ("gap"@, Some(ShorthandProperty::Gap)),
        ("grid-gap"@, Some(ShorthandProperty::Gap)),
    ]
}

pub open spec fn shorthand_property_of(p: Seq<char>) -> Option<ShorthandProperty> {
    keyword(shorthand_property_names(), p, None)
}

fn shorthand_property(property: &Vec<char>) -> (r: Option<ShorthandProperty>)
    ensures
        r == shorthand_property_of(property@),
{
    let table: Vec<(&str, Option<ShorthandProperty>)> = vec![
        ("margin", Some(ShorthandProperty::Margin)),
        ("padding", Some(ShorthandProperty::Padding)),
        ("border", Some(ShorthandProperty::Border)),
        ("flex", Some(ShorthandProperty::Flex)),
        ("gap", Some(ShorthandProperty::Gap)),
        ("grid-gap", Some(ShorthandProperty::Gap)),
    ];
    assert(table@.map_values(|e: (&str, Option<ShorthandProperty>)| (e.0@, e.1)) =~= shorthand_property_names());
    lookup_keyword(&table, property, None)
}

/// The grid-line properties.
pub open spec fn grid_line_field_names() -> Seq<(Seq<char>, Option<GridLineField>)> {
    seq![
        ("grid-row-start"@, Some(GridLineField::RowStart)),
        ("grid-row-end"@, Some(GridLineField::RowEnd)),
        ("grid-column-start"@, Some(GridLineField::ColumnStart)),
        ("grid-column-end"@, Some(GridLineField::ColumnEnd)),
    ]
}

pub open spec fn grid_line_field_of(p: Seq<char>) -> Option<GridLineField> {
    keyword(grid_line_field_names(), p, None)
}

fn grid_line_field(property: &Vec<char>) -> (r: Option<GridLineField>)
    ensures
        r == grid_line_field_of(property@),
{
    let table: Vec<(&str, Option<GridLineField>)> = vec![
        ("grid-row-start", Some(GridLineField::RowStart)),
        ("grid-row-end", Some(GridLineField::RowEnd)),
        ("grid-column-start", Some(GridLineField::ColumnStart)),
        ("grid-column-end", Some(GridLineField::ColumnEnd)),
    ];
    assert(table@.map_values(|e: (&str, Option<GridLineField>)| (e.0@, e.1)) =~= grid_line_field_names());
    lookup_keyword(&table, property, None)
}

/// `s` starts with `p`.
pub open spec fn starts_with(s: Seq<char>, p: Seq<char>) -> bool {
    p.len() <= s.len() && s.subrange(0, p.len() as int) == p
}

/// The value of a grid-line property: `auto`; `span` and a count; a line
/// number; else a line name (all of the trimmed value).
pub open spec fn placement_of(v: Seq<char>) -> PlacementView {
    let t = trim(v);
    if t == "auto"@ {
        PlacementView::Auto
    } else if starts_with(t, "span "@) && u32_of(trim(t.subrange("span "@.len() as int, t.len() as int))) is Some {
        PlacementView::Span(u32_of(trim(t.subrange("span "@.len() as int, t.len() as int)))->0)
    } else if i32_of(t) is Some {
        PlacementView::Line(i32_of(t)->0)
    } else {
        PlacementView::Named(t)
    }
}

/// Read the value of a grid-line property.
pub fn parse_grid_placement(value: &str) -> (r: GridPlacement)
    ensures
        r@ == placement_of(value@),
{
    let t = trimmed_chars(value);
    if chars_eq(&t, &lit("auto")) {
        return GridPlacement::Auto;
    }
    let span = lit("span ");
    if matches_at(&t, &span, 0) {
        let (a, b) = trim_bounds(&t, span.len(), t.len());
        let inner = crate::text::sub_chars(&t, a, b);
        if let Some(n) = parse_u32(&inner) {
            return GridPlacement::Span(n);
        }
    }
    if let Some(n) = parse_i32(&t) {
        return GridPlacement::Line(n);
    }
    assert(t@.subrange(0, t@.len() as int) =~= t@);
    GridPlacement::Named(string_of(&t, 0, t.len()))
}

/// A token of a track list, trimmed, unless it is blank.
pub open spec fn emit_token(p: Seq<char>) -> Seq<Seq<char>> {
    if trim(p).len() > 0 {
        seq![trim(p)]
    } else {
        Seq::empty()
    }
}

/// The tokens of a track list from the token that starts at `lo`, the
/// scan being at `i`: tokens end at spaces outside parentheses.
pub open spec fn track_tokens_from(s: Seq<char>, lo: int, i: int) -> Seq<Seq<char>>
    decreases s.len() - i,
{
    if lo < 0 || i < lo || i > s.len() {
        Seq::empty()
    } else if i == s.len() {
        emit_token(s.subrange(lo, i))
    } else if s[i] == ' ' && balanced(s, 0, i) {
        emit_token(s.subrange(lo, i)) + track_tokens_from(s, i + 1, i + 1)
    } else {
        track_tokens_from(s, lo, i + 1)
    }
}

/// The tokens of a track list (`1fr minmax(10px, 1fr) auto`), trimmed,
/// blank ones dropped.
pub open spec fn track_tokens(v: Seq<char>) -> Seq<Seq<char>> {
    track_tokens_from(v, 0, 0)
}

/// Split a track list into its tokens.
pub fn split_track_tokens(value: &str) -> (r: Vec<String>)
    ensures
        r@.map_values(|t: String| t@) == track_tokens(value@),
{
    let s = chars_of(value);
    let mut out: Vec<String> = Vec::new();
    let mut lo: usize = 0;
    let mut i: usize = 0;
    let mut opens: usize = 0;
    let mut closes: usize = 0;
    assert(out@.map_values(|t: String| t@) + track_tokens_from(s@, 0, 0) =~= track_tokens(s@));
    while i < s.len()
        invariant
            s@ == value@,
            lo <= i <= s.len(),
            opens == count_in(s@, '(', 0, i as int),
            closes == count_in(s@, ')', 0, i as int),
            out@.map_values(|t: String| t@) + track_tokens_from(s@, lo as int, i as int) == track_tokens(s@),
        decreases s.len() - i,
    {
        proof {
            lemma_count_step(s@, '(', 0, i as int);
            lemma_count_step(s@, ')', 0, i as int);
            lemma_count_bound(s@, '(', 0, i as int);
            lemma_count_bound(s@, ')', 0, i as int);
        }
        let c = s[i];
        if c == ' ' && opens == closes {
            let ghost before = out@.map_values(|t: String| t@);
            let (a, b) = trim_bounds(&s, lo, i);
            if a < b {
                out.push(string_of(&s, a, b));
            }
            proof {
                assert(out@.map_values(|t: String| t@) =~= before + emit_token(s@.subrange(lo as int, i as int)));
            }
            lo = i + 1;
        } else if c == '(' {
            opens += 1;
        } else if c == ')' {
            closes += 1;
        }
        i += 1;
    }
    let ghost before = out@.map_values(|t: String| t@);
    let (a, b) = trim_bounds(&s, lo, s.len());
    if a < b {
        out.push(string_of(&s, a, b));
    }
    proof {
        assert(out@.map_values(|t: String| t@) =~= before + emit_token(s@.subrange(lo as int, s.len() as int)));
    }
    out
}

/// What a declaration sets.
#[derive(Debug)]
pub enum PropertyUpdate {
    Display(Display),
    Position(Position),
    Float(Float),
    Clear(Clear),
    BoxSizing(BoxSizing),
    /// `overflow-x` (when `x`) and `overflow-y` (when `y`).
    Overflow { x: bool, y: bool, value: Overflow },
    TextAlign(TextAlign),
    FlexDirection(FlexDirection),
    FlexWrap(FlexWrap),
    AlignItems(AlignItems),
    AlignSelf(AlignSelf),
    AlignContent(AlignContent),
    JustifyContent(JustifyContent),
    Order(i32),
    /// The track tokens of `grid-template-rows` (when `rows`) or
    /// `grid-template-columns`.
    GridTemplate { rows: bool, tokens: Vec<String> },
    GridLine { field: GridLineField, placement: GridPlacement },
    GridAutoFlow(GridAutoFlow),
    TableLayout(TableLayout),
    BorderCollapse(BorderCollapse),
    CaptionSide(CaptionSide),
    /// A length or number property, with the text to read its value from.
    Numeric { property: NumericProperty, value: String },
    /// A shorthand, with the words of its value.
    Shorthand { property: ShorthandProperty, parts: Vec<String> },
    /// An unknown property.
    Ignored,
}

/// What a declaration sets, as plain values.
pub enum UpdateView {
    Display(Display),
    Position(Position),
    Float(Float),
    Clear(Clear),
    BoxSizing(BoxSizing),
    Overflow(bool, bool, Overflow),
    TextAlign(TextAlign),
    FlexDirection(FlexDirection),
    FlexWrap(FlexWrap),
    AlignItems(AlignItems),
    AlignSelf(AlignSelf),
    AlignContent(AlignContent),
    JustifyContent(JustifyContent),
    Order(i32),
    GridTemplate(bool, Seq<Seq<char>>),
    GridLine(GridLineField, PlacementView),
    GridAutoFlow(GridAutoFlow),
    TableLayout(TableLayout),
    BorderCollapse(BorderCollapse),
    CaptionSide(CaptionSide),
    Numeric(NumericProperty, Seq<char>),
    Shorthand(ShorthandProperty, Seq<Seq<char>>),
    Ignored,
}

impl PropertyUpdate {
    pub open spec fn view(&self) -> UpdateView {
        match self {
            PropertyUpdate::Display(d) => UpdateView::Display(*d),
            PropertyUpdate::Position(v) => UpdateView::Position(*v),
            PropertyUpdate::Float(v) => UpdateView::Float(*v),
            PropertyUpdate::Clear(v) => UpdateView::Clear(*v),
            PropertyUpdate::BoxSizing(v) => UpdateView::BoxSizing(*v),
            PropertyUpdate::Overflow { x, y, value } => UpdateView::Overflow(*x, *y, *value),
            PropertyUpdate::TextAlign(v) => UpdateView::TextAlign(*v),
            PropertyUpdate::FlexDirection(v) => UpdateView::FlexDirection(*v),
            PropertyUpdate::FlexWrap(v) => UpdateView::FlexWrap(*v),
            PropertyUpdate::AlignItems(v) => UpdateView::AlignItems(*v),
            PropertyUpdate::AlignSelf(v) => UpdateView::AlignSelf(*v),
            PropertyUpdate::AlignContent(v) => UpdateView::AlignContent(*v),
            PropertyUpdate::JustifyContent(v) => UpdateView::JustifyContent(*v),
            PropertyUpdate::Order(n) => UpdateView::Order(*n),
            PropertyUpdate::GridTemplate { rows, tokens } => UpdateView::GridTemplate(
                *rows,
                tokens@.map_values(|t: String| t@),
            ),
            PropertyUpdate::GridLine { field, placement } => UpdateView::GridLine(*field, placement@),
            PropertyUpdate::GridAutoFlow(v) => UpdateView::GridAutoFlow(*v),
            PropertyUpdate::TableLayout(v) => UpdateView::TableLayout(*v),
            PropertyUpdate::BorderCollapse(v) => UpdateView::BorderCollapse(*v),
            PropertyUpdate::CaptionSide(v) => UpdateView::CaptionSide(*v),
            PropertyUpdate::Numeric { property, value } => UpdateView::Numeric(*property, value@),
            PropertyUpdate::Shorthand { property, parts } => UpdateView::Shorthand(
                *property,
                parts@.map_values(|t: String| t@),
            ),
            PropertyUpdate::Ignored => UpdateView::Ignored,
        }
    }
}

/// What declaring `p: v` sets.
pub open spec fn update_of(p: Seq<char>, v: Seq<char>) -> UpdateView {
    if p == "display"@ {
        UpdateView::Display(display_of(v))
    } else if p == "position"@ {
        UpdateView::Position(position_of(v))
    } else if p == "float"@ {
        UpdateView::Float(float_of(v))
    } else if p == "clear"@ {
        UpdateView::Clear(clear_of(v))
    } else if p == "box-sizing"@ {
        UpdateView::BoxSizing(box_sizing_of(v))
    } else if p == "overflow"@ {
        UpdateView::Overflow(true, true, overflow_of(v))
    } else if p == "overflow-x"@ {
        UpdateView::Overflow(true, false, overflow_of(v))
    } else if p == "overflow-y"@ {
        UpdateView::Overflow(false, true, overflow_of(v))
    } else if p == "text-align"@ {
        UpdateView::TextAlign(text_align_of(v))
    } else if p == "flex-direction"@ {
        UpdateView::FlexDirection(flex_direction_of(v))
    } else if p == "flex-wrap"@ {
        UpdateView::FlexWrap(flex_wrap_of(v))
    } else if p == "align-items"@ {
        UpdateView::AlignItems(align_items_of(v))
    } else if p == "align-self"@ {
        UpdateView::AlignSelf(align_self_of(v))
    } else if p == "align-content"@ {
        UpdateView::AlignContent(align_content_of(v))
    } else if p == "justify-content"@ {
        UpdateView::JustifyContent(justify_content_of(v))
    } else if p == "order"@ {
        UpdateView::Order(
            match i32_of(v) {
                Some(n) => n,
                None => 0,
            },
        )
    } else if p == "grid-template-columns"@ {
        UpdateView::GridTemplate(false, track_tokens(v))
    } else if p == "grid-template-rows"@ {
        UpdateView::GridTemplate(true, track_tokens(v))
    } else if p == "grid-auto-flow"@ {
        UpdateView::GridAutoFlow(grid_auto_flow_of(v))
    } else if p == "table-layout"@ {
        UpdateView::TableLayout(table_layout_of(v))
    } else if p == "border-collapse"@ {
        UpdateView::BorderCollapse(border_collapse_of(v))
    } else if p == "caption-side"@ {
        UpdateView::CaptionSide(caption_side_of(v))
    } else {
        match grid_line_field_of(p) {
            Some(f) => UpdateView::GridLine(f, placement_of(v)),
            None => match numeric_property_of(p) {
                Some(np) => UpdateView::Numeric(np, v),
                None => match shorthand_property_of(p) {
                    Some(sp) => UpdateView::Shorthand(sp, words(v)),
                    None => UpdateView::Ignored,
                },
            },
        }
    }
}

/// Strings from character vectors.
fn strings_of(ws: Vec<Vec<char>>) -> (r: Vec<String>)
    ensures
        r@.map_values(|t: String| t@) == ws@.map_values(|w: Vec<char>| w@),
{
    let mut out: Vec<String> = Vec::new();
    let mut i: usize = 0;
    while i < ws.len()
        invariant
            i <= ws.len(),
            out@.len() == i,
            out@.map_values(|t: String| t@) == ws@.map_values(|w: Vec<char>| w@).take(i as int),
        decreases ws.len() - i,
    {
        let ghost before = out@;
        out.push(string_of(&ws[i], 0, ws[i].len()));
        proof {
            assert(ws@[i as int]@.subrange(0, ws@[i as int]@.len() as int) =~= ws@[i as int]@);
            assert forall|j: int| 0 <= j < i implies out@[j] == before[j] by {}
            assert(before.map_values(|t: String| t@) =~= ws@.map_values(|w: Vec<char>| w@).take(i as int));
            assert(out@.map_values(|t: String| t@) =~= ws@.map_values(|w: Vec<char>| w@).take(i + 1));
        }
        i += 1;
    }
    assert(ws@.map_values(|w: Vec<char>| w@).take(ws.len() as int) =~= ws@.map_values(|w: Vec<char>| w@));
    out
}

/// A table lists `key`.
pub open spec fn table_has<T>(table: Seq<(Seq<char>, T)>, key: Seq<char>) -> bool {
    exists|i: int| 0 <= i < table.len() && (#[trigger] table[i]).0 == key
}

/// A key that the table does not list gets the default.
pub proof fn lemma_keyword_default<T>(table: Seq<(Seq<char>, T)>, key: Seq<char>, default: T)
    requires
        !table_has(table, key),
    ensures
        keyword(table, key, default) == default,
    decreases table.len(),
{
    if table.len() > 0 {
        assert(table[0].0 != key);
        assert forall|i: int| 0 <= i < table.drop_first().len() implies (#[trigger] table.drop_first()[i]).0 != key by {
            assert(table.drop_first()[i] == table[i + 1]);
        }
        lemma_keyword_default(table.drop_first(), key, default);
    }
}

/// The property names that a declaration acts on by name alone.
pub open spec fn single_property_names() -> Seq<Seq<char>> {
    seq![
        "display"@, "position"@, "float"@, "clear"@, "box-sizing"@, "overflow"@, "overflow-x"@,
        "overflow-y"@, "text-align"@, "flex-direction"@, "flex-wrap"@, "align-items"@,
        "align-self"@, "align-content"@, "justify-content"@, "order"@,
        "grid-template-columns"@, "grid-template-rows"@, "grid-auto-flow"@, "table-layout"@,
        "border-collapse"@, "caption-side"@,
    ]
}

/// Every property name that a declaration acts on (compared exactly, case
/// included).
pub open spec fn known_property(p: Seq<char>) -> bool {
    ||| single_property_names().contains(p)
    ||| table_has(grid_line_field_names(), p)
    ||| table_has(numeric_property_names(), p)
    ||| table_has(shorthand_property_names(), p)
}

/// A declaration of a property outside the known names, whatever its
/// value, is ignored: it changes nothing.
pub proof fn law_unknown_property_ignored(p: Seq<char>, v: Seq<char>)
    requires
        !known_property(p),
    ensures
        update_of(p, v) == UpdateView::Ignored,
{
    assert forall|i: int| 0 <= i < single_property_names().len() implies single_property_names()[i] != p by {
        assert(single_property_names().contains(single_property_names()[i]));
    }
    lemma_keyword_default(grid_line_field_names(), p, None);
    lemma_keyword_default(numeric_property_names(), p, None);
    lemma_keyword_default(shorthand_property_names(), p, None);
}

/// What declaring `property: value` sets.
pub fn classify_property(property: &str, value: &str) -> (r: PropertyUpdate)
    ensures
        r@ == update_of(property@, value@),
{
    if str_eq(property, "display") {
        PropertyUpdate::Display(parse_display(value))
    } else if str_eq(property, "position") {
        PropertyUpdate::Position(parse_position(value))
    } else if str_eq(property, "float") {
        PropertyUpdate::Float(parse_float(value))
    } else if str_eq(property, "clear") {
        PropertyUpdate::Clear(parse_clear(value))
    } else if str_eq(property, "box-sizing") {
        PropertyUpdate::BoxSizing(parse_box_sizing(value))
    } else if str_eq(property, "overflow") {
        PropertyUpdate::Overflow { x: true, y: true, value: parse_overflow(value) }
    } else if str_eq(property, "overflow-x") {
        PropertyUpdate::Overflow { x: true, y: false, value: parse_overflow(value) }
    } else if str_eq(property, "overflow-y") {
        PropertyUpdate::Overflow { x: false, y: true, value: parse_overflow(value) }
    } else if str_eq(property, "text-align") {
        PropertyUpdate::TextAlign(parse_text_align(value))
    } else if str_eq(property, "flex-direction") {
        PropertyUpdate::FlexDirection(parse_flex_direction(value))
    } else if str_eq(property, "flex-wrap") {
        PropertyUpdate::FlexWrap(parse_flex_wrap(value))
    } else if str_eq(property, "align-items") {
        PropertyUpdate::AlignItems(parse_align_items(value))
    } else if str_eq(property, "align-self") {
        PropertyUpdate::AlignSelf(parse_align_self(value))
    } else if str_eq(property, "align-content") {
        PropertyUpdate::AlignContent(parse_align_content(value))
    } else if str_eq(property, "justify-content") {
        PropertyUpdate::JustifyContent(parse_justify_content(value))
    } else if str_eq(property, "order") {
        let v = chars_of(value);
        PropertyUpdate::Order(
            match parse_i32(&v) {
                Some(n) => n,
                None => 0,
            },
        )
    } else if str_eq(property, "grid-template-columns") {
        PropertyUpdate::GridTemplate { rows: false, tokens: split_track_tokens(value) }
    } else if str_eq(property, "grid-template-rows") {
        PropertyUpdate::GridTemplate { rows: true, tokens: split_track_tokens(value) }
    } else if str_eq(property, "grid-auto-flow") {
        PropertyUpdate::GridAutoFlow(parse_grid_auto_flow(value))
    } else if str_eq(property, "table-layout") {
        PropertyUpdate::TableLayout(parse_table_layout(value))
    } else if str_eq(property, "border-collapse") {
        PropertyUpdate::BorderCollapse(parse_border_collapse(value))
    } else if str_eq(property, "caption-side") {
        PropertyUpdate::CaptionSide(parse_caption_side(value))
    } else {
        let p = chars_of(property);
        match grid_line_field(&p) {
            Some(field) => PropertyUpdate::GridLine { field, placement: parse_grid_placement(value) },
            None => match numeric_property(&p) {
                Some(np) => PropertyUpdate::Numeric { property: np, value: value.to_owned() },
                None => match shorthand_property(&p) {
                    Some(sp) => {
                        let v = chars_of(value);
                        let parts = strings_of(split_whitespace_chars(&v));
                        PropertyUpdate::Shorthand { property: sp, parts }
                    },
                    None => PropertyUpdate::Ignored,
                },
            },
        }
    }
}

/// Which of a shorthand's values sets each edge (top, right, bottom,
/// left): one value sets all four; two set top and bottom, then right and
/// left; three set top, right and left, then bottom; four set each edge in
/// turn; any other count sets none of them.
pub fn shorthand_edge_indices(count: usize) -> (r: Option<(usize, usize, usize, usize)>)
    ensures
        r == (if count == 1 {
            Some((0usize, 0usize, 0usize, 0usize))
        } else if count == 2 {
            Some((0usize, 1usize, 0usize, 1usize))
        } else if count == 3 {
            Some((0usize, 1usize, 2usize, 1usize))
        } else if count == 4 {
            Some((0usize, 1usize, 2usize, 3usize))
        } else {
            None
        }),
{
    match count {
        1 => Some((0, 0, 0, 0)),
        2 => Some((0, 1, 0, 1)),
        3 => Some((0, 1, 2, 1)),
        4 => Some((0, 1, 2, 3)),
        _ => None,
    }
}

/// A track token as plain values.
pub enum TrackView {
    Fr(Seq<char>),
    Percent(Seq<char>),
    Px(Seq<char>),
    Auto,
    MinContent,
    MaxContent,
    MinMax(Box<TrackView>, Box<TrackView>),
    FitContent(Seq<char>),
    Number(Seq<char>),
}

/// How a track token sizes its track; numbers are left as text.
#[derive(Debug)]
pub enum TrackToken {
    /// `<n>fr`, with the text of `n`.
    Fr(String),
    /// `<n>%`, with the text of `n`.
    Percent(String),
    /// `<n>px`, with the text of `n`.
    Px(String),
    Auto,
    MinContent,
    MaxContent,
    MinMax(Box<TrackToken>, Box<TrackToken>),
    /// `fit-content(<v>)`, with the text of `v`.
    FitContent(String),
    /// Any other token, read as a number of pixels.
    Number(String),
}

impl TrackToken {
    pub open spec fn view(&self) -> TrackView
        decreases self,
    {
        match self {
            TrackToken::Fr(t) => TrackView::Fr(t@),
            TrackToken::Percent(t) => TrackView::Percent(t@),
            TrackToken::Px(t) => TrackView::Px(t@),
            TrackToken::Auto => TrackView::Auto,
            TrackToken::MinContent => TrackView::MinContent,
            TrackToken::MaxContent => TrackView::MaxContent,
            TrackToken::MinMax(a, b) => TrackView::MinMax(Box::new(a.view()), Box::new(b.view())),
            TrackToken::FitContent(t) => TrackView::FitContent(t@),
            TrackToken::Number(t) => TrackView::Number(t@),
        }
    }
}

/// `s` ends with `p`.
pub open spec fn ends_with(s: Seq<char>, p: Seq<char>) -> bool {
    p.len() <= s.len() && s.subrange(s.len() - p.len(), s.len() as int) == p
}

/// The token is read by its suffix (`fr`, `%` or `px`).
pub open spec fn has_unit(t: Seq<char>) -> bool {
    ends_with(t, "fr"@) || ends_with(t, "%"@) || ends_with(t, "px"@)
}

/// The text between the parentheses of a `minmax(...)` token.
pub open spec fn minmax_inner(t: Seq<char>) -> Seq<char> {
    t.subrange("minmax("@.len() as int, t.len() - 1)
}

/// How a track token sizes its track: by its unit suffix; as a keyword;
/// `minmax(a, b)` split at its first comma (auto without one);
/// `fit-content(v)`; else as a number.
pub open spec fn track_of(t: Seq<char>) -> TrackView
    decreases t.len(),
{
    if ends_with(t, "fr"@) {
        TrackView::Fr(t.subrange(0, t.len() - 2))
    } else if ends_with(t, "%"@) {
        TrackView::Percent(t.subrange(0, t.len() - 1))
    } else if ends_with(t, "px"@) {
        TrackView::Px(t.subrange(0, t.len() - 2))
    } else if t == "auto"@ {
        TrackView::Auto
    } else if t == "min-content"@ {
        TrackView::MinContent
    } else if t == "max-content"@ {
        TrackView::MaxContent
    } else if starts_with(t, "minmax("@) && t.len() > "minmax("@.len() {
        let inner = minmax_inner(t);
        match crate::text::find_from(inner, seq![','], 0) {
            Some(c) => if 0 <= c < inner.len() {
                let a = trim(inner.subrange(0, c));
                let b = trim(inner.subrange(c + 1, inner.len() as int));
                proof {
                    crate::text::lemma_trim_len(inner.subrange(0, c));
                    crate::text::lemma_trim_len(inner.subrange(c + 1, inner.len() as int));
                }
                TrackView::MinMax(Box::new(track_of(a)), Box::new(track_of(b)))
            } else {
                TrackView::Auto
            },
            None => TrackView::Auto,
        }
    } else if starts_with(t, "fit-content("@) {
        TrackView::FitContent(t.subrange("fit-content("@.len() as int, t.len() - 1))
    } else {
        TrackView::Number(t)
    }
}

/// The token can be read: a `minmax(` or `fit-content(` token has
/// something after its opening parenthesis and ends in an ASCII character
/// (where the last character is cut off), and the parts of a `minmax` can
/// be read too.
pub open spec fn track_ok(t: Seq<char>) -> bool
    decreases t.len(),
{
    if has_unit(t) || t == "auto"@ || t == "min-content"@ || t == "max-content"@ {
        true
    } else if starts_with(t, "minmax("@) {
        t.len() > "minmax("@.len() && (t.last() as u32) < 0x80 && {
            let inner = minmax_inner(t);
            match crate::text::find_from(inner, seq![','], 0) {
                Some(c) => if 0 <= c < inner.len() {
                    proof {
                        crate::text::lemma_trim_len(inner.subrange(0, c));
                        crate::text::lemma_trim_len(inner.subrange(c + 1, inner.len() as int));
                    }
                    track_ok(trim(inner.subrange(0, c))) && track_ok(trim(inner.subrange(c + 1, inner.len() as int)))
                } else {
                    true
                },
                None => true,
            }
        }
    } else if starts_with(t, "fit-content("@) {
        t.len() > "fit-content("@.len() && (t.last() as u32) < 0x80
    } else {
        true
    }
}

/// Whether `s` ends with the literal `p`.
fn ends_with_lit(s: &Vec<char>, p: &str) -> (r: bool)
    ensures
        r == ends_with(s@, p@),
{
    let pv = lit(p);
    if pv.len() > s.len() {
        return false;
    }
    matches_at(s, &pv, s.len() - pv.len())
}

/// Whether a track token can be read.
pub fn track_token_ok(token: &str) -> (r: bool)
    ensures
        r == track_ok(token@),
{
    let t = chars_of(token);
    track_chars_ok(&t)
}

fn track_chars_ok(t: &Vec<char>) -> (r: bool)
    ensures
        r == track_ok(t@),
    decreases t@.len(),
{
    if ends_with_lit(t, "fr") || ends_with_lit(t, "%") || ends_with_lit(t, "px") || chars_eq(t, &lit("auto"))
        || chars_eq(t, &lit("min-content")) || chars_eq(t, &lit("max-content")) {
        return true;
    }
    let mm = lit("minmax(");
    let fc = lit("fit-content(");
    if matches_at(t, &mm, 0) {
        if t.len() <= mm.len() || (t[t.len() - 1] as u32) >= 0x80 {
            return false;
        }
        let inner = crate::text::sub_chars(t, mm.len(), t.len() - 1);
        let comma = vec![','];
        assert(comma@ =~= seq![',']);
        match crate::text::find(&inner, &comma, 0) {
            Some(c) => {
                let (a0, a1) = trim_bounds(&inner, 0, c);
                let (b0, b1) = trim_bounds(&inner, c + 1, inner.len());
                let a = crate::text::sub_chars(&inner, a0, a1);
                let b = crate::text::sub_chars(&inner, b0, b1);
                proof {
                    crate::text::lemma_trim_len(inner@.subrange(0, c as int));
                    crate::text::lemma_trim_len(inner@.subrange(c + 1, inner@.len() as int));
                }
                track_chars_ok(&a) && track_chars_ok(&b)
            },
            None => true,
        }
    } else if matches_at(t, &fc, 0) {
        t.len() > fc.len() && (t[t.len() - 1] as u32) < 0x80
    } else {
        true
    }
}

/// Read a track token.
pub fn parse_track_sizing(token: &str) -> (r: TrackToken)
    requires
        track_ok(token@),
    ensures
        r@ == track_of(token@),
{
    let t = chars_of(token);
    track_token_of(&t)
}

fn track_token_of(t: &Vec<char>) -> (r: TrackToken)
    requires
        track_ok(t@),
    ensures
        r@ == track_of(t@),
    decreases t@.len(),
{
    proof {
        reveal_strlit("fr");
        reveal_strlit("%");
        reveal_strlit("px");
    }
    if ends_with_lit(t, "fr") {
        return TrackToken::Fr(string_of(t, 0, t.len() - 2));
    }
    if ends_with_lit(t, "%") {
        return TrackToken::Percent(string_of(t, 0, t.len() - 1));
    }
    if ends_with_lit(t, "px") {
        return TrackToken::Px(string_of(t, 0, t.len() - 2));
    }
    if chars_eq(t, &lit("auto")) {
        return TrackToken::Auto;
    }
    if chars_eq(t, &lit("min-content")) {
        return TrackToken::MinContent;
    }
    if chars_eq(t, &lit("max-content")) {
        return TrackToken::MaxContent;
    }
    let mm = lit("minmax(");
    let fc = lit("fit-content(");
    if matches_at(t, &mm, 0) && t.len() > mm.len() {
        let inner = crate::text::sub_chars(t, mm.len(), t.len() - 1);
        let comma = vec![','];
        assert(comma@ =~= seq![',']);
        return match crate::text::find(&inner, &comma, 0) {
            Some(c) => {
                let (a0, a1) = trim_bounds(&inner, 0, c);
                let (b0, b1) = trim_bounds(&inner, c + 1, inner.len());
                let a = crate::text::sub_chars(&inner, a0, a1);
                let b = crate::text::sub_chars(&inner, b0, b1);
                proof {
                    crate::text::lemma_trim_len(inner@.subrange(0, c as int));
                    crate::text::lemma_trim_len(inner@.subrange(c + 1, inner@.len() as int));
                }
                TrackToken::MinMax(Box::new(track_token_of(&a)), Box::new(track_token_of(&b)))
            },
            None => TrackToken::Auto,
        };
    }
    if matches_at(t, &fc, 0) {
        return TrackToken::FitContent(string_of(t, fc.len(), t.len() - 1));
    }
    assert(t@.subrange(0, t@.len() as int) =~= t@);
    TrackToken::Number(string_of(t, 0, t.len()))
}

} // verus!
