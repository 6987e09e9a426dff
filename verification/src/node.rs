//! The nodes of a UI tree, and the mathematical tree they stand for.
use crate::float::{is_layout_length, LayoutPx};
use crate::utf16::{law_lengths_add_up, lemma_prefix_is_boundary, len8};
use vstd::prelude::*;
use vstd::utf8::{encode_utf8, is_char_boundary};

verus! {

/// A color without alpha.
pub type Rgb = (u8, u8, u8);

/// A color with alpha.
pub type Rgba = (u8, u8, u8, u8);

/// Four sides in the order top, right, bottom, left, in pixels.
pub type Sides = (i32, i32, i32, i32);

/// A box shadow, in pixels.
#[derive(Clone, Copy, PartialEq, Eq, Debug)]
pub struct Shadow {
    pub x: i32,
    pub y: i32,
    pub blur: i32,
    pub spread: i32,
    pub color: Rgba,
}

/// One styled run of a text node. `start` and `len` are byte offsets into the
/// UTF-8 content; a style field counts only where its bit is set in `flags`.
#[derive(Clone, Copy, PartialEq, Eq, Debug)]
pub struct TextRunSpec {
    pub start: usize,
    pub len: usize,
    pub flags: i32,
    pub color: Rgba,
    pub weight: i32,
    pub background: Rgba,
}

/// Everything a div carries besides its texts and its children.
#[derive(Clone, Copy, PartialEq, Eq, Debug)]
pub struct DivStyle {
    pub width: LayoutPx,
    pub height: LayoutPx,
    pub bg: Option<Rgb>,
    pub flex: bool,
    pub flex_col: bool,
    pub center: bool,
    pub gap: LayoutPx,
    pub rounded: LayoutPx,
    pub padding: LayoutPx,
    pub border_width: LayoutPx,
    pub border_color: Option<Rgb>,
    /// Background with alpha; takes precedence over `bg`.
    pub bg_color: Option<Rgba>,
    pub margin: Option<Sides>,
    /// Minimum width and height in pixels; a negative one means auto.
    pub min_size: Option<(i32, i32)>,
    /// Maximum width and height in pixels; a negative one means auto.
    pub max_size: Option<(i32, i32)>,
    /// Grow and shrink factors in thousandths, and the basis in pixels, where
    /// a negative one means auto.
    pub flex_item: Option<(i32, i32, i32)>,
    /// Ids of the alignment and of the distribution.
    pub align: Option<(i32, i32)>,
    /// Ids of the horizontal and vertical overflow modes.
    pub overflow: Option<(i32, i32)>,
    /// Opacity in thousandths.
    pub opacity: Option<i32>,
    pub shadow: Option<Shadow>,
    pub cursor: Option<i32>,
    pub position: Option<i32>,
    /// Inset in pixels; a negative side means auto.
    pub inset: Option<Sides>,
    /// Padding by side; takes precedence over `padding`.
    pub padding_sides: Option<Sides>,
    pub text_size: Option<i32>,
    pub text_color: Option<Rgba>,
    /// Font weight, between 100 and 900.
    pub font_weight: Option<i32>,
    /// Line height in thousandths of a pixel.
    pub line_height: Option<i32>,
    pub text_align: Option<i32>,
    pub whitespace: Option<i32>,
    pub on_click: Option<i32>,
    pub focusable: Option<bool>,
    pub tab_index: Option<isize>,
    pub tab_stop: Option<bool>,
    /// Id under which the scroll position is reported.
    pub scroll_id: Option<i32>,
}

/// One change to a style, as a setter command asks for it.
#[derive(Clone, Copy, PartialEq, Eq, Debug)]
pub enum StyleChange {
    Size { width: LayoutPx, height: LayoutPx },
    Bg { rgb: Rgb },
    Flex { column: bool },
    Center,
    Gap { gap: LayoutPx },
    Rounded { radius: LayoutPx },
    OnClick { click_id: i32 },
    Padding { padding: LayoutPx },
    Border { width: LayoutPx, rgb: Rgb },
    BgColor { rgba: Rgba },
    Margin { sides: Sides },
    MinSize { w: i32, h: i32 },
    MaxSize { w: i32, h: i32 },
    FlexItem { grow: i32, shrink: i32, basis: i32 },
    Align { items: i32, justify: i32 },
    Overflow { x: i32, y: i32 },
    Opacity { thousandths: i32 },
    Shadow { shadow: Shadow },
    Cursor { kind: i32 },
    Position { mode: i32 },
    Inset { sides: Sides },
    PaddingSides { sides: Sides },
    TextSize { size: i32 },
    TextColor { rgba: Rgba },
    FontWeight { weight: i32 },
    LineHeight { thousandths: i32 },
    TextAlign { id: i32 },
    Whitespace { id: i32 },
    Focusable { on: bool },
    TabIndex { index: i32 },
    TabStop { on: bool },
    ScrollId { scroll_id: i32 },
}

/// A font weight brought into the range 100 to 900.
pub open spec fn clamped_weight(weight: i32) -> i32 {
    if weight < 100 {
        100
    } else if weight > 900 {
        900
    } else {
        weight
    }
}

/// Brings a font weight into the range 100 to 900.
pub fn clamp_weight(weight: i32) -> (clamped: i32)
    ensures
        clamped == clamped_weight(weight),
        100 <= clamped <= 900,
{
    if weight < 100 {
        100
    } else if weight > 900 {
        900
    } else {
        weight
    }
}

/// The style of a fresh div.
pub open spec fn plain_style() -> DivStyle {
    DivStyle {
        width: LayoutPx { bits: 0 },
        height: LayoutPx { bits: 0 },
        bg: None,
        flex: false,
        flex_col: false,
        center: false,
        gap: LayoutPx { bits: 0 },
        rounded: LayoutPx { bits: 0 },
        padding: LayoutPx { bits: 0 },
        border_width: LayoutPx { bits: 0 },
        border_color: None,
        bg_color: None,
        margin: None,
        min_size: None,
        max_size: None,
        flex_item: None,
        align: None,
        overflow: None,
        opacity: None,
        shadow: None,
        cursor: None,
        position: None,
        inset: None,
        padding_sides: None,
        text_size: None,
        text_color: None,
        font_weight: None,
        line_height: None,
        text_align: None,
        whitespace: None,
        on_click: None,
        focusable: None,
        tab_index: None,
        tab_stop: None,
        scroll_id: None,
    }
}

/// The style after a change.
pub open spec fn style_after(style: DivStyle, change: StyleChange) -> DivStyle {
    match change {
        StyleChange::Size { width, height } => DivStyle { width, height, ..style },
        StyleChange::Bg { rgb } => DivStyle { bg: Some(rgb), ..style },
        StyleChange::Flex { column } => DivStyle { flex: true, flex_col: column, ..style },
        StyleChange::Center => DivStyle { center: true, ..style },
        StyleChange::Gap { gap } => DivStyle { gap, ..style },
        StyleChange::Rounded { radius } => DivStyle { rounded: radius, ..style },
        StyleChange::OnClick { click_id } => DivStyle { on_click: Some(click_id), ..style },
        StyleChange::Padding { padding } => DivStyle { padding, ..style },
        StyleChange::Border { width, rgb } => DivStyle {
            border_width: width,
            border_color: Some(rgb),
            ..style
        },
        StyleChange::BgColor { rgba } => DivStyle { bg_color: Some(rgba), ..style },
        StyleChange::Margin { sides } => DivStyle { margin: Some(sides), ..style },
        StyleChange::MinSize { w, h } => DivStyle {
            min_size: Some((w, h)),
            ..style
        },
        StyleChange::MaxSize { w, h } => DivStyle {
            max_size: Some((w, h)),
            ..style
        },
        StyleChange::FlexItem { grow, shrink, basis } => DivStyle {
            flex_item: Some((grow, shrink, basis)),
            ..style
        },
        StyleChange::Align { items, justify } => DivStyle { align: Some((items, justify)), ..style },
        StyleChange::Overflow { x, y } => DivStyle { overflow: Some((x, y)), ..style },
        StyleChange::Opacity { thousandths } => DivStyle { opacity: Some(thousandths), ..style },
        StyleChange::Shadow { shadow } => DivStyle { shadow: Some(shadow), ..style },
        StyleChange::Cursor { kind } => DivStyle { cursor: Some(kind), ..style },
        StyleChange::Position { mode } => DivStyle { position: Some(mode), ..style },
        StyleChange::Inset { sides } => DivStyle { inset: Some(sides), ..style },
        StyleChange::PaddingSides { sides } => DivStyle { padding_sides: Some(sides), ..style },
        StyleChange::TextSize { size } => DivStyle { text_size: Some(size), ..style },
        StyleChange::TextColor { rgba } => DivStyle { text_color: Some(rgba), ..style },
        StyleChange::FontWeight { weight } => DivStyle {
            font_weight: Some(clamped_weight(weight)),
            ..style
        },
        StyleChange::LineHeight { thousandths } => DivStyle {
            line_height: if thousandths < 0 {
                None
            } else {
                Some(thousandths)
            },
            ..style
        },
        StyleChange::TextAlign { id } => DivStyle { text_align: Some(id), ..style },
        StyleChange::Whitespace { id } => DivStyle { whitespace: Some(id), ..style },
        StyleChange::Focusable { on } => DivStyle { focusable: Some(on), ..style },
        StyleChange::TabIndex { index } => DivStyle { tab_index: Some(index as isize), ..style },
        StyleChange::TabStop { on } => DivStyle { tab_stop: Some(on), ..style },
        StyleChange::ScrollId { scroll_id } => DivStyle { scroll_id: Some(scroll_id), ..style },
    }
}

/// The lengths a change brings are layout lengths.
pub open spec fn change_is_sound(change: StyleChange) -> bool {
    match change {
        StyleChange::Size { width, height } => is_layout_length(width) && is_layout_length(height),
        StyleChange::Gap { gap } => is_layout_length(gap),
        StyleChange::Rounded { radius } => is_layout_length(radius),
        StyleChange::Padding { padding } => is_layout_length(padding),
        StyleChange::Border { width, .. } => is_layout_length(width),
        _ => true,
    }
}

/// The lengths of a style are layout lengths and its font weight is in range.
pub open spec fn style_is_sound(style: DivStyle) -> bool {
    &&& is_layout_length(style.width)
    &&& is_layout_length(style.height)
    &&& is_layout_length(style.gap)
    &&& is_layout_length(style.rounded)
    &&& is_layout_length(style.padding)
    &&& is_layout_length(style.border_width)
    &&& style.font_weight matches Some(weight) ==> 100 <= weight <= 900
    &&& style.line_height matches Some(height) ==> height >= 0
}

/// Sound changes keep a style sound.
pub proof fn law_changes_keep_styles_sound(style: DivStyle, change: StyleChange)
    requires
        style_is_sound(style),
        change_is_sound(change),
    ensures
        style_is_sound(style_after(style, change)),
{
}

/// A setter leaves every field alone that it does not name, whatever was set
/// before.
pub proof fn law_setter_keeps_other_fields(style: DivStyle, change: StyleChange)
    ensures
        !(change is Size) ==> {
            &&& style_after(style, change).width == style.width
            &&& style_after(style, change).height == style.height
        },
        !(change is Bg) ==> style_after(style, change).bg == style.bg,
        !(change is Flex) ==> {
            &&& style_after(style, change).flex == style.flex
            &&& style_after(style, change).flex_col == style.flex_col
        },
        !(change is Center) ==> style_after(style, change).center == style.center,
        !(change is Gap) ==> style_after(style, change).gap == style.gap,
        !(change is Rounded) ==> style_after(style, change).rounded == style.rounded,
        !(change is OnClick) ==> style_after(style, change).on_click == style.on_click,
        !(change is Padding) ==> style_after(style, change).padding == style.padding,
        !(change is Border) ==> {
            &&& style_after(style, change).border_width == style.border_width
            &&& style_after(style, change).border_color == style.border_color
        },
        !(change is BgColor) ==> style_after(style, change).bg_color == style.bg_color,
        !(change is Margin) ==> style_after(style, change).margin == style.margin,
        !(change is MinSize) ==> style_after(style, change).min_size == style.min_size,
        !(change is MaxSize) ==> style_after(style, change).max_size == style.max_size,
        !(change is FlexItem) ==> style_after(style, change).flex_item == style.flex_item,
        !(change is Align) ==> style_after(style, change).align == style.align,
        !(change is Overflow) ==> style_after(style, change).overflow == style.overflow,
        !(change is Opacity) ==> style_after(style, change).opacity == style.opacity,
        !(change is Shadow) ==> style_after(style, change).shadow == style.shadow,
        !(change is Cursor) ==> style_after(style, change).cursor == style.cursor,
        !(change is Position) ==> style_after(style, change).position == style.position,
        !(change is Inset) ==> style_after(style, change).inset == style.inset,
        !(change is PaddingSides) ==> style_after(style, change).padding_sides == style.padding_sides,
        !(change is TextSize) ==> style_after(style, change).text_size == style.text_size,
        !(change is TextColor) ==> style_after(style, change).text_color == style.text_color,
        !(change is FontWeight) ==> style_after(style, change).font_weight == style.font_weight,
        !(change is LineHeight) ==> style_after(style, change).line_height == style.line_height,
        !(change is TextAlign) ==> style_after(style, change).text_align == style.text_align,
        !(change is Whitespace) ==> style_after(style, change).whitespace == style.whitespace,
        !(change is Focusable) ==> style_after(style, change).focusable == style.focusable,
        !(change is TabIndex) ==> style_after(style, change).tab_index == style.tab_index,
        !(change is TabStop) ==> style_after(style, change).tab_stop == style.tab_stop,
        !(change is ScrollId) ==> style_after(style, change).scroll_id == style.scroll_id,
{
}

/// A setter brings the value it was given, whatever stood there before. A font
/// weight is brought into its range, and a line height that is negative is none.
pub proof fn law_setter_brings_its_value(style: DivStyle, change: StyleChange)
    ensures
        change matches StyleChange::Size { width, height } ==> {
            &&& style_after(style, change).width == width
            &&& style_after(style, change).height == height
        },
        change matches StyleChange::Bg { rgb } ==> style_after(style, change).bg == Some(rgb),
        change matches StyleChange::Flex { column } ==> {
            &&& style_after(style, change).flex
            &&& style_after(style, change).flex_col == column
        },
        change is Center ==> style_after(style, change).center,
        change matches StyleChange::Gap { gap } ==> style_after(style, change).gap == gap,
        change matches StyleChange::Rounded { radius } ==> style_after(style, change).rounded == radius,
        change matches StyleChange::OnClick { click_id } ==> style_after(style, change).on_click == Some(click_id),
        change matches StyleChange::Padding { padding } ==> style_after(style, change).padding == padding,
        change matches StyleChange::Border { width, rgb } ==> {
            &&& style_after(style, change).border_width == width
            &&& style_after(style, change).border_color == Some(rgb)
        },
        change matches StyleChange::BgColor { rgba } ==> style_after(style, change).bg_color == Some(rgba),
        change matches StyleChange::Margin { sides } ==> style_after(style, change).margin == Some(sides),
        change matches StyleChange::MinSize { w, h } ==> style_after(style, change).min_size == Some((w, h)),
        change matches StyleChange::MaxSize { w, h } ==> style_after(style, change).max_size == Some((w, h)),
        change matches StyleChange::FlexItem { grow, shrink, basis } ==> style_after(style, change).flex_item == Some((grow, shrink, basis)),
        change matches StyleChange::Align { items, justify } ==> style_after(style, change).align == Some((items, justify)),
        change matches StyleChange::Overflow { x, y } ==> style_after(style, change).overflow == Some((x, y)),
        change matches StyleChange::Opacity { thousandths } ==> style_after(style, change).opacity == Some(thousandths),
        change matches StyleChange::Shadow { shadow } ==> style_after(style, change).shadow == Some(shadow),
        change matches StyleChange::Cursor { kind } ==> style_after(style, change).cursor == Some(kind),
        change matches StyleChange::Position { mode } ==> style_after(style, change).position == Some(mode),
        change matches StyleChange::Inset { sides } ==> style_after(style, change).inset == Some(sides),
        change matches StyleChange::PaddingSides { sides } ==> style_after(style, change).padding_sides == Some(sides),
        change matches StyleChange::TextSize { size } ==> style_after(style, change).text_size == Some(size),
        change matches StyleChange::TextColor { rgba } ==> style_after(style, change).text_color == Some(rgba),
        change matches StyleChange::FontWeight { weight } ==> {
            let shown = style_after(style, change).font_weight;
            &&& shown is Some
            &&& 100 <= shown->0 <= 900
            &&& 100 <= weight <= 900 ==> shown->0 == weight
            &&& weight < 100 ==> shown->0 == 100
            &&& weight > 900 ==> shown->0 == 900
        },
        change matches StyleChange::LineHeight { thousandths } ==> {
            let shown = style_after(style, change).line_height;
            &&& shown is Some <==> thousandths >= 0
            &&& shown is Some ==> shown->0 == thousandths
        },
        change matches StyleChange::TextAlign { id } ==> style_after(style, change).text_align == Some(id),
        change matches StyleChange::Whitespace { id } ==> style_after(style, change).whitespace == Some(id),
        change matches StyleChange::Focusable { on } ==> style_after(style, change).focusable == Some(on),
        change matches StyleChange::TabIndex { index } ==> {
            &&& style_after(style, change).tab_index is Some
            &&& style_after(style, change).tab_index->0 == index
        },
        change matches StyleChange::TabStop { on } ==> style_after(style, change).tab_stop == Some(on),
        change matches StyleChange::ScrollId { scroll_id } ==> style_after(style, change).scroll_id == Some(scroll_id),
{
}

/// Do two changes come from the same setter?
pub open spec fn same_setter(a: StyleChange, b: StyleChange) -> bool {
    match (a, b) {
        (StyleChange::Size { .. }, StyleChange::Size { .. }) => true,
        (StyleChange::Bg { .. }, StyleChange::Bg { .. }) => true,
        (StyleChange::Flex { .. }, StyleChange::Flex { .. }) => true,
        (StyleChange::Center, StyleChange::Center) => true,
        (StyleChange::Gap { .. }, StyleChange::Gap { .. }) => true,
        (StyleChange::Rounded { .. }, StyleChange::Rounded { .. }) => true,
        (StyleChange::OnClick { .. }, StyleChange::OnClick { .. }) => true,
        (StyleChange::Padding { .. }, StyleChange::Padding { .. }) => true,
        (StyleChange::Border { .. }, StyleChange::Border { .. }) => true,
        (StyleChange::BgColor { .. }, StyleChange::BgColor { .. }) => true,
        (StyleChange::Margin { .. }, StyleChange::Margin { .. }) => true,
        (StyleChange::MinSize { .. }, StyleChange::MinSize { .. }) => true,
        (StyleChange::MaxSize { .. }, StyleChange::MaxSize { .. }) => true,
        (StyleChange::FlexItem { .. }, StyleChange::FlexItem { .. }) => true,
        (StyleChange::Align { .. }, StyleChange::Align { .. }) => true,
        (StyleChange::Overflow { .. }, StyleChange::Overflow { .. }) => true,
        (StyleChange::Opacity { .. }, StyleChange::Opacity { .. }) => true,
        (StyleChange::Shadow { .. }, StyleChange::Shadow { .. }) => true,
        (StyleChange::Cursor { .. }, StyleChange::Cursor { .. }) => true,
        (StyleChange::Position { .. }, StyleChange::Position { .. }) => true,
        (StyleChange::Inset { .. }, StyleChange::Inset { .. }) => true,
        (StyleChange::PaddingSides { .. }, StyleChange::PaddingSides { .. }) => true,
        (StyleChange::TextSize { .. }, StyleChange::TextSize { .. }) => true,
        (StyleChange::TextColor { .. }, StyleChange::TextColor { .. }) => true,
        (StyleChange::FontWeight { .. }, StyleChange::FontWeight { .. }) => true,
        (StyleChange::LineHeight { .. }, StyleChange::LineHeight { .. }) => true,
        (StyleChange::TextAlign { .. }, StyleChange::TextAlign { .. }) => true,
        (StyleChange::Whitespace { .. }, StyleChange::Whitespace { .. }) => true,
        (StyleChange::Focusable { .. }, StyleChange::Focusable { .. }) => true,
        (StyleChange::TabIndex { .. }, StyleChange::TabIndex { .. }) => true,
        (StyleChange::TabStop { .. }, StyleChange::TabStop { .. }) => true,
        (StyleChange::ScrollId { .. }, StyleChange::ScrollId { .. }) => true,
        _ => false,
    }
}

/// Setters of different fields may come in any order.
pub proof fn law_setters_commute(style: DivStyle, a: StyleChange, b: StyleChange)
    requires
        !same_setter(a, b),
    ensures
        style_after(style_after(style, a), b) == style_after(style_after(style, b), a),
{
    law_setter_keeps_other_fields(style, a);
    law_setter_keeps_other_fields(style, b);
    law_setter_keeps_other_fields(style_after(style, a), b);
    law_setter_keeps_other_fields(style_after(style, b), a);
}

/// Of two changes by the same setter the later counts, as if the earlier had not
/// been.
pub proof fn law_last_setter_counts(style: DivStyle, a: StyleChange, b: StyleChange)
    requires
        same_setter(a, b),
    ensures
        style_after(style_after(style, a), b) == style_after(style, b),
{
}

impl DivStyle {
    /// The style of a fresh div.
    pub fn plain() -> (style: DivStyle)
        ensures
            style == plain_style(),
            style_is_sound(style),
    {
        let zero = LayoutPx::zero();
        DivStyle {
            width: zero,
            height: zero,
            bg: None,
            flex: false,
            flex_col: false,
            center: false,
            gap: zero,
            rounded: zero,
            padding: zero,
            border_width: zero,
            border_color: None,
            bg_color: None,
            margin: None,
            min_size: None,
            max_size: None,
            flex_item: None,
            align: None,
            overflow: None,
            opacity: None,
            shadow: None,
            cursor: None,
            position: None,
            inset: None,
            padding_sides: None,
            text_size: None,
            text_color: None,
            font_weight: None,
            line_height: None,
            text_align: None,
            whitespace: None,
            on_click: None,
            focusable: None,
            tab_index: None,
            tab_stop: None,
            scroll_id: None,
        }
    }

    /// Makes one change.
    pub fn apply(&mut self, change: StyleChange)
        ensures
            *final(self) == style_after(*old(self), change),
    {
        match change {
            StyleChange::Size { width, height } => {
                self.width = width;
                self.height = height;
            },
            StyleChange::Bg { rgb } => self.bg = Some(rgb),
            StyleChange::Flex { column } => {
                self.flex = true;
                self.flex_col = column;
            },
            StyleChange::Center => self.center = true,
            StyleChange::Gap { gap } => self.gap = gap,
            StyleChange::Rounded { radius } => self.rounded = radius,
            StyleChange::OnClick { click_id } => self.on_click = Some(click_id),
            StyleChange::Padding { padding } => self.padding = padding,
            StyleChange::Border { width, rgb } => {
                self.border_width = width;
                self.border_color = Some(rgb);
            },
            StyleChange::BgColor { rgba } => self.bg_color = Some(rgba),
            StyleChange::Margin { sides } => self.margin = Some(sides),
            StyleChange::MinSize { w, h } => self.min_size = Some((w, h)),
            StyleChange::MaxSize { w, h } => self.max_size = Some((w, h)),
            StyleChange::FlexItem { grow, shrink, basis } => {
                self.flex_item = Some((grow, shrink, basis))
            },
            StyleChange::Align { items, justify } => self.align = Some((items, justify)),
            StyleChange::Overflow { x, y } => self.overflow = Some((x, y)),
            StyleChange::Opacity { thousandths } => self.opacity = Some(thousandths),
            StyleChange::Shadow { shadow } => self.shadow = Some(shadow),
            StyleChange::Cursor { kind } => self.cursor = Some(kind),
            StyleChange::Position { mode } => self.position = Some(mode),
            StyleChange::Inset { sides } => self.inset = Some(sides),
            StyleChange::PaddingSides { sides } => self.padding_sides = Some(sides),
            StyleChange::TextSize { size } => self.text_size = Some(size),
            StyleChange::TextColor { rgba } => self.text_color = Some(rgba),
            StyleChange::FontWeight { weight } => self.font_weight = Some(clamp_weight(weight)),
            StyleChange::LineHeight { thousandths } => {
                self.line_height = if thousandths < 0 {
                    None
                } else {
                    Some(thousandths)
                }
            },
            StyleChange::TextAlign { id } => self.text_align = Some(id),
            StyleChange::Whitespace { id } => self.whitespace = Some(id),
            StyleChange::Focusable { on } => self.focusable = Some(on),
            StyleChange::TabIndex { index } => self.tab_index = Some(index as isize),
            StyleChange::TabStop { on } => self.tab_stop = Some(on),
            StyleChange::ScrollId { scroll_id } => self.scroll_id = Some(scroll_id),
        }
    }
}

/// A container.
#[derive(PartialEq, Debug)]
pub struct DivNode {
    pub style: DivStyle,
    pub font_family: Option<String>,
    /// Stable identity, unique within a committed tree.
    pub key: Option<String>,
    pub children: Vec<UiNode>,
}

/// What makes a text a row: its layout can be asked for under a key, and a caret
/// may stand in it.
#[derive(PartialEq, Debug)]
pub struct TextRow {
    pub key: String,
    /// The byte offset of the caret, where there is one.
    pub caret: Option<u32>,
    pub color: Rgb,
    pub blink: bool,
}

/// What a row says.
#[verifier::ext_equal]
pub struct RowSpec {
    pub key: Seq<char>,
    pub caret: Option<u32>,
    pub color: Rgb,
    pub blink: bool,
}

impl View for TextRow {
    type V = RowSpec;

    open spec fn view(&self) -> RowSpec {
        RowSpec { key: self.key@, caret: self.caret, color: self.color, blink: self.blink }
    }
}

/// What an optional row says.
pub open spec fn row_of(row: Option<TextRow>) -> Option<RowSpec> {
    match row {
        Some(row) => Some(row@),
        None => None,
    }
}

/// A piece of text. Its runs are sorted by start and do not overlap.
#[derive(PartialEq, Debug)]
pub struct TextNode {
    pub content: String,
    pub color: Rgb,
    pub size: LayoutPx,
    pub runs: Vec<TextRunSpec>,
    pub row: Option<TextRow>,
}

/// The place of an editable text. What it holds lives outside the tree.
#[derive(PartialEq, Debug)]
pub struct InputNode {
    pub input_id: i32,
    pub placeholder: String,
}

/// A node of the tree that is drawn.
#[derive(PartialEq, Debug)]
pub enum UiNode {
    Div(DivNode),
    Text(TextNode),
    TextInput(InputNode),
}

/// The mathematical tree that a node stands for.
#[verifier::ext_equal]
pub enum Tree {
    Div {
        style: DivStyle,
        font_family: Option<Seq<char>>,
        key: Option<Seq<char>>,
        children: Seq<Tree>,
    },
    Text {
        content: Seq<char>,
        color: Rgb,
        size: LayoutPx,
        runs: Seq<TextRunSpec>,
        row: Option<RowSpec>,
    },
    Input { input_id: i32, placeholder: Seq<char> },
}

/// The characters of an optional text.
pub open spec fn text_of(text: Option<String>) -> Option<Seq<char>> {
    match text {
        Some(text) => Some(text@),
        None => None,
    }
}

/// The tree that a node stands for.
pub open spec fn tree_of(node: UiNode) -> Tree
    decreases node,
{
    match node {
        UiNode::Div(div) => Tree::Div {
            style: div.style,
            font_family: text_of(div.font_family),
            key: text_of(div.key),
            children: Seq::new(
                div.children@.len(),
                |i: int|
                    if 0 <= i < div.children@.len() {
                        tree_of(div.children@[i])
                    } else {
                        arbitrary()
                    },
            ),
        },
        UiNode::Text(text) => Tree::Text {
            content: text.content@,
            color: text.color,
            size: text.size,
            runs: text.runs@,
            row: row_of(text.row),
        },
        UiNode::TextInput(input) => Tree::Input {
            input_id: input.input_id,
            placeholder: input.placeholder@,
        },
    }
}

/// The trees of a sequence of nodes.
pub open spec fn trees_of(nodes: Seq<UiNode>) -> Seq<Tree> {
    Seq::new(nodes.len(), |i: int| tree_of(nodes[i]))
}

impl View for UiNode {
    type V = Tree;

    open spec fn view(&self) -> Tree {
        tree_of(*self)
    }
}

impl View for DivNode {
    type V = Tree;

    open spec fn view(&self) -> Tree {
        Tree::Div {
            style: self.style,
            font_family: text_of(self.font_family),
            key: text_of(self.key),
            children: trees_of(self.children@),
        }
    }
}

impl View for TextNode {
    type V = Tree;

    open spec fn view(&self) -> Tree {
        Tree::Text {
            content: self.content@,
            color: self.color,
            size: self.size,
            runs: self.runs@,
            row: row_of(self.row),
        }
    }
}

/// The tree of a node is the tree of what it holds.
pub broadcast proof fn lemma_div_tree(div: DivNode)
    ensures
        #[trigger] tree_of(UiNode::Div(div)) == div@,
{
    let tree = tree_of(UiNode::Div(div));
    assert(tree->Div_children =~= trees_of(div.children@));
}

/// The tree of a text node.
pub broadcast proof fn lemma_text_tree(text: TextNode)
    ensures
        #[trigger] tree_of(UiNode::Text(text)) == text@,
{
}

/// A run lies within its text and starts and ends between characters.
pub open spec fn run_fits(run: TextRunSpec, content: Seq<char>) -> bool {
    let bytes = encode_utf8(content);
    &&& run.start + run.len <= usize::MAX
    &&& run.start + run.len <= bytes.len()
    &&& is_char_boundary(bytes, run.start as int)
    &&& is_char_boundary(bytes, run.start + run.len)
}

/// Runs that lie within their text, in order and without overlap.
pub open spec fn runs_are_sound(runs: Seq<TextRunSpec>, content: Seq<char>) -> bool {
    &&& forall|i: int| 0 <= i < runs.len() ==> #[trigger] run_fits(runs[i], content)
    &&& forall|i: int, j: int|
        #![trigger runs[i], runs[j]]
        0 <= i < j < runs.len() ==> runs[i].start + runs[i].len <= runs[j].start
}

/// Does a run lie within a text, and start and end between characters?
pub fn fits_in(run: &TextRunSpec, content: &str) -> (fits: bool)
    ensures
        fits == run_fits(*run, content@),
{
    let total: usize = content.as_bytes().len();
    if run.len > total || run.start > total - run.len {
        return false;
    }
    content.is_char_boundary(run.start) && content.is_char_boundary(run.start + run.len)
}

/// The runs that fit a text, in order.
pub open spec fn fitting_runs(runs: Seq<TextRunSpec>, content: Seq<char>) -> Seq<TextRunSpec>
    decreases runs.len(),
{
    if runs.len() == 0 {
        Seq::empty()
    } else {
        let earlier = fitting_runs(runs.drop_last(), content);
        if run_fits(runs.last(), content) {
            earlier.push(runs.last())
        } else {
            earlier
        }
    }
}

/// What is left of sound runs once another text stands there is sound for that
/// text; and nothing is lost where all of them fit it.
pub proof fn law_fitting_runs_are_sound(
    runs: Seq<TextRunSpec>,
    before: Seq<char>,
    content: Seq<char>,
)
    requires
        runs_are_sound(runs, before),
    ensures
        runs_are_sound(fitting_runs(runs, content), content),
        runs_are_sound(runs, content) ==> fitting_runs(runs, content) == runs,
{
    lemma_fitting_runs(runs, content);
    if runs_are_sound(runs, content) {
        lemma_all_runs_fit(runs, content);
    }
}

proof fn lemma_fitting_runs(runs: Seq<TextRunSpec>, content: Seq<char>)
    requires
        forall|i: int, j: int|
            #![trigger runs[i], runs[j]]
            0 <= i < j < runs.len() ==> runs[i].start + runs[i].len <= runs[j].start,
    ensures
        runs_are_sound(fitting_runs(runs, content), content),
        forall|i: int|
            #![trigger fitting_runs(runs, content)[i]]
            0 <= i < fitting_runs(runs, content).len() ==> exists|j: int|
                0 <= j < runs.len() && fitting_runs(runs, content)[i] == #[trigger] runs[j],
    decreases runs.len(),
{
    if runs.len() > 0 {
        let fewer = runs.drop_last();
        let last = runs.last();
        lemma_fitting_runs(fewer, content);
        let earlier = fitting_runs(fewer, content);
        let kept = fitting_runs(runs, content);
        assert forall|i: int| #![trigger kept[i]] 0 <= i < kept.len() implies exists|j: int|
            0 <= j < runs.len() && kept[i] == #[trigger] runs[j] by {
            if i < earlier.len() {
                assert(kept[i] == earlier[i]);
                let j = choose|j: int| 0 <= j < fewer.len() && earlier[i] == #[trigger] fewer[j];
                assert(runs[j] == fewer[j]);
            } else {
                assert(runs[runs.len() - 1] == last);
            }
        }
        assert forall|i: int| 0 <= i < kept.len() implies #[trigger] run_fits(kept[i], content) by {
            if i < earlier.len() {
                assert(run_fits(earlier[i], content));
            }
        }
        assert forall|i: int, j: int|
            #![trigger kept[i], kept[j]]
            0 <= i < j < kept.len() implies kept[i].start + kept[i].len <= kept[j].start by {
            if j < earlier.len() {
                assert(earlier[i].start + earlier[i].len <= earlier[j].start);
            } else {
                let k = choose|k: int| 0 <= k < fewer.len() && earlier[i] == #[trigger] fewer[k];
                assert(runs[k] == fewer[k]);
                assert(runs[k].start + runs[k].len <= runs[runs.len() - 1].start);
            }
        }
    }
}

proof fn lemma_all_runs_fit(runs: Seq<TextRunSpec>, content: Seq<char>)
    requires
        forall|i: int| 0 <= i < runs.len() ==> #[trigger] run_fits(runs[i], content),
    ensures
        fitting_runs(runs, content) == runs,
    decreases runs.len(),
{
    if runs.len() > 0 {
        let fewer = runs.drop_last();
        assert forall|i: int| 0 <= i < fewer.len() implies #[trigger] run_fits(
            fewer[i],
            content,
        ) by {
            assert(run_fits(runs[i], content));
        }
        lemma_all_runs_fit(fewer, content);
        assert(run_fits(runs[runs.len() - 1], content));
        assert(fewer.push(runs.last()) =~= runs);
    } else {
        assert(fitting_runs(runs, content) =~= runs);
    }
}

/// Keeps the runs that fit a text.
pub fn keep_fitting(runs: &Vec<TextRunSpec>, content: &str) -> (kept: Vec<TextRunSpec>)
    ensures
        kept@ == fitting_runs(runs@, content@),
{
    let mut kept: Vec<TextRunSpec> = Vec::new();
    let mut i: usize = 0;
    assert(runs@.take(0) =~= Seq::empty());
    while i < runs.len()
        invariant
            i <= runs@.len(),
            kept@ == fitting_runs(runs@.take(i as int), content@),
        decreases runs@.len() - i,
    {
        let ghost upto = runs@.take(i + 1);
        assert(upto.drop_last() =~= runs@.take(i as int));
        assert(upto.last() == runs@[i as int]);
        let run: TextRunSpec = runs[i];
        if fits_in(&run, content) {
            kept.push(run);
        }
        i = i + 1;
    }
    assert(runs@.take(i as int) =~= runs@);
    kept
}

/// Every length of the tree is a layout length, every font weight is in range
/// and every text has sound runs.
pub open spec fn tree_is_sound(tree: Tree) -> bool
    decreases tree,
{
    match tree {
        Tree::Div { style, children, .. } => {
            &&& style_is_sound(style)
            &&& forall|i: int|
                0 <= i < children.len() ==> tree_is_sound(#[trigger] children[i])
        },
        Tree::Text { content, size, runs, .. } => {
            &&& is_layout_length(size)
            &&& runs_are_sound(runs, content)
        },
        Tree::Input { .. } => true,
    }
}

/// Every run of the tree ends at an offset that memory can have.
pub open spec fn spans_fit(tree: Tree) -> bool
    decreases tree,
{
    match tree {
        Tree::Div { children, .. } => forall|i: int|
            0 <= i < children.len() ==> spans_fit(#[trigger] children[i]),
        Tree::Text { runs, .. } => forall|i: int|
            #![trigger runs[i]]
            0 <= i < runs.len() ==> runs[i].start + runs[i].len <= usize::MAX,
        Tree::Input { .. } => true,
    }
}

/// The runs of a sound tree end where memory can have an offset.
pub proof fn law_sound_spans_fit(tree: Tree)
    requires
        tree_is_sound(tree),
    ensures
        spans_fit(tree),
    decreases tree,
{
    match tree {
        Tree::Div { children, .. } => {
            assert forall|i: int| 0 <= i < children.len() implies spans_fit(
                #[trigger] children[i],
            ) by {
                lemma_sound_child(tree, i);
                law_sound_spans_fit(children[i]);
            }
        },
        Tree::Text { content, runs, .. } => {
            assert forall|i: int|
                #![trigger runs[i]]
                0 <= i < runs.len() implies runs[i].start + runs[i].len <= usize::MAX by {
                assert(run_fits(runs[i], content));
            }
        },
        _ => {},
    }
}

/// A child of a sound div is sound.
pub proof fn lemma_sound_child(tree: Tree, i: int)
    requires
        tree is Div,
        tree_is_sound(tree),
        0 <= i < tree->Div_children.len(),
    ensures
        tree_is_sound(tree->Div_children[i]),
{
    match tree {
        Tree::Div { style, children, .. } => {
            assert(style_is_sound(style));
            assert(tree_is_sound(children[i]));
        },
        _ => {},
    }
}

/// A div is sound exactly where its style and its children are.
pub proof fn lemma_sound_div(
    style: DivStyle,
    font_family: Option<Seq<char>>,
    key: Option<Seq<char>>,
    children: Seq<Tree>,
)
    ensures
        tree_is_sound(Tree::Div { style, font_family, key, children }) <==> {
            &&& style_is_sound(style)
            &&& forall|i: int| 0 <= i < children.len() ==> tree_is_sound(#[trigger] children[i])
        },
{
    let tree = Tree::Div { style, font_family, key, children };
    if tree_is_sound(tree) {
        assert forall|i: int| 0 <= i < children.len() implies tree_is_sound(
            #[trigger] children[i],
        ) by {
            lemma_sound_child(tree, i);
        }
    }
}

/// A run over whole characters fits its text: over those that stand behind others
/// and before the rest.
pub proof fn law_runs_over_characters_fit(
    before: Seq<char>,
    over: Seq<char>,
    after: Seq<char>,
    run: TextRunSpec,
)
    requires
        run.start == len8(before),
        run.len == len8(over),
        run.start + run.len <= usize::MAX,
    ensures
        run_fits(run, before + over + after),
{
    let content = before + over + after;
    let (from, to) = (before.len() as int, (before + over).len() as int);
    assert(content.take(from) =~= before);
    assert(content.take(to) =~= before + over);
    lemma_prefix_is_boundary(content, from);
    lemma_prefix_is_boundary(content, to);
    law_lengths_add_up(before, over, 'a');
    law_lengths_add_up(before + over, after, 'a');
}

/// A run that fits is kept and one that does not is dropped, whichever runs stand
/// around it; those that are kept stay in order.
pub proof fn law_runs_are_kept_where_they_fit(
    earlier: Seq<TextRunSpec>,
    run: TextRunSpec,
    later: Seq<TextRunSpec>,
    content: Seq<char>,
)
    ensures
        fitting_runs(earlier + seq![run] + later, content) == if run_fits(run, content) {
            fitting_runs(earlier, content).push(run) + fitting_runs(later, content)
        } else {
            fitting_runs(earlier, content) + fitting_runs(later, content)
        },
    decreases later.len(),
{
    let runs = earlier + seq![run] + later;
    if later.len() == 0 {
        assert(runs.drop_last() =~= earlier);
        assert(runs.last() == run);
    } else {
        law_runs_are_kept_where_they_fit(earlier, run, later.drop_last(), content);
        assert(runs.drop_last() =~= earlier + seq![run] + later.drop_last());
        assert(runs.last() == later.last());
    }
    assert(fitting_runs(runs, content) =~= if run_fits(run, content) {
        fitting_runs(earlier, content).push(run) + fitting_runs(later, content)
    } else {
        fitting_runs(earlier, content) + fitting_runs(later, content)
    });
}

/// A weight within the range is taken as it is, and one outside becomes the nearer
/// end.
pub proof fn law_weights_are_clamped(weight: i32)
    ensures
        100 <= clamped_weight(weight) <= 900,
        100 <= weight <= 900 ==> clamped_weight(weight) == weight,
        weight < 100 ==> clamped_weight(weight) == 100,
        weight > 900 ==> clamped_weight(weight) == 900,
{
}

} // verus!
