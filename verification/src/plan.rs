//! The style of a box: what the declared style of a div means to the engine that
//! lays it out.
use crate::float::{above_zero, is_layout_length, numeric, units, LayoutPx};
use crate::node::{
    plain_style, style_after, DivStyle, Rgb, Rgba, Shadow, Sides, StyleChange,
};
use crate::style::{
    align_items, cursor_style, justify_content, length_of, map_align_items, map_cursor,
    map_justify_content, map_overflow, map_position, map_text_align, map_whitespace, overflow_mode,
    pack_rgb, pack_rgba, position_mode, px_or_auto, rgb_word, rgba_word, text_align, white_space,
    AlignItems, CursorStyle, JustifyContent, Length, Overflow, Position, TextAlign, WhiteSpace,
};
use vstd::prelude::*;

verus! {

/// A background, packed.
#[derive(Clone, Copy, PartialEq, Eq, Debug)]
pub enum Background {
    Opaque(u32),
    WithAlpha(u32),
}

/// The padding of a box.
#[derive(Clone, Copy, PartialEq, Eq, Debug)]
pub enum Padding {
    Uniform(LayoutPx),
    BySide(Sides),
}

/// The border of a box, with its packed color where it has one of its own.
#[derive(Clone, Copy, PartialEq, Eq, Debug)]
pub struct Border {
    pub width: LayoutPx,
    pub color: Option<u32>,
}

/// How a box takes part in its container. Grow and shrink are in thousandths.
#[derive(Clone, Copy, PartialEq, Eq, Debug)]
pub struct FlexItem {
    pub grow: i32,
    pub shrink: i32,
    pub basis: Length,
}

/// A box shadow with its packed color.
#[derive(Clone, Copy, PartialEq, Eq, Debug)]
pub struct BoxShadow {
    pub x: i32,
    pub y: i32,
    pub blur: i32,
    pub spread: i32,
    pub color: u32,
}

/// Where the sides of a placed box are.
#[derive(Clone, Copy, PartialEq, Eq, Debug)]
pub struct Inset {
    pub top: Length,
    pub right: Length,
    pub bottom: Length,
    pub left: Length,
}

/// What a box changes of the text inside it, besides the font family.
#[derive(Clone, Copy, PartialEq, Eq, Debug)]
pub struct TextStyle {
    pub size: Option<i32>,
    /// Packed color with alpha.
    pub color: Option<u32>,
    pub weight: Option<i32>,
    /// Line height in thousandths of a pixel.
    pub line_height: Option<i32>,
    pub align: Option<TextAlign>,
    pub white_space: Option<WhiteSpace>,
}

/// The style of one box as the engine takes it.
#[derive(Clone, Copy, PartialEq, Eq, Debug)]
pub struct BoxStyle {
    /// Takes all the space there is.
    pub fills: bool,
    pub size: Option<(LayoutPx, LayoutPx)>,
    pub background: Option<Background>,
    pub flex: bool,
    pub flex_column: bool,
    pub center: bool,
    pub gap: Option<LayoutPx>,
    pub rounded: Option<LayoutPx>,
    pub padding: Option<Padding>,
    pub border: Option<Border>,
    pub margin: Option<Sides>,
    pub min_width: Option<i32>,
    pub min_height: Option<i32>,
    pub max_width: Option<i32>,
    pub max_height: Option<i32>,
    pub flex_item: Option<FlexItem>,
    pub align_items: Option<AlignItems>,
    pub justify_content: Option<JustifyContent>,
    pub overflow_x: Option<Overflow>,
    pub overflow_y: Option<Overflow>,
    /// Opacity in thousandths.
    pub opacity: Option<i32>,
    pub shadow: Option<BoxShadow>,
    pub position: Option<Position>,
    pub inset: Option<Inset>,
    /// Superseded by the pointer where the box can be clicked.
    pub cursor: Option<CursorStyle>,
    pub text: TextStyle,
}

/// A length that only counts where it is positive.
pub open spec fn if_positive(length: LayoutPx) -> Option<LayoutPx> {
    if above_zero(length.bits) {
        Some(length)
    } else {
        None
    }
}

/// A size that only counts where it is not negative.
pub open spec fn if_set(size: i32) -> Option<i32> {
    if size >= 0 {
        Some(size)
    } else {
        None
    }
}

/// The packed form of an optional color with alpha.
pub open spec fn packed(rgba: Option<Rgba>) -> Option<u32> {
    match rgba {
        Some(rgba) => Some(rgba_word(rgba)),
        None => None,
    }
}

/// The background: the color with alpha before the one without.
pub open spec fn background_of(style: DivStyle) -> Option<Background> {
    match (style.bg_color, style.bg) {
        (Some(rgba), _) => Some(Background::WithAlpha(rgba_word(rgba))),
        (None, Some(rgb)) => Some(Background::Opaque(rgb_word(rgb))),
        (None, None) => None,
    }
}

/// The padding: by side before uniform, which counts where it is positive.
pub open spec fn padding_of(style: DivStyle) -> Option<Padding> {
    match style.padding_sides {
        Some(sides) => Some(Padding::BySide(sides)),
        None => if above_zero(style.padding.bits) {
            Some(Padding::Uniform(style.padding))
        } else {
            None
        },
    }
}

/// The border, where its width is positive.
pub open spec fn border_of(style: DivStyle) -> Option<Border> {
    if above_zero(style.border_width.bits) {
        Some(
            Border {
                width: style.border_width,
                color: match style.border_color {
                    Some(rgb) => Some(rgb_word(rgb)),
                    None => None,
                },
            },
        )
    } else {
        None
    }
}

/// The size, where both of its parts are positive.
pub open spec fn size_of(style: DivStyle) -> Option<(LayoutPx, LayoutPx)> {
    if above_zero(style.width.bits) && above_zero(style.height.bits) {
        Some((style.width, style.height))
    } else {
        None
    }
}

/// How the box takes part in its container.
pub open spec fn flex_item_of(style: DivStyle) -> Option<FlexItem> {
    match style.flex_item {
        Some((grow, shrink, basis)) => Some(FlexItem { grow, shrink, basis: length_of(basis) }),
        None => None,
    }
}

/// The shadow with its color packed.
pub open spec fn shadow_of(style: DivStyle) -> Option<BoxShadow> {
    match style.shadow {
        Some(shadow) => Some(
            BoxShadow {
                x: shadow.x,
                y: shadow.y,
                blur: shadow.blur,
                spread: shadow.spread,
                color: rgba_word(shadow.color),
            },
        ),
        None => None,
    }
}

/// The inset, where negative sides are found by the layout.
pub open spec fn inset_of(style: DivStyle) -> Option<Inset> {
    match style.inset {
        Some((top, right, bottom, left)) => Some(
            Inset {
                top: length_of(top),
                right: length_of(right),
                bottom: length_of(bottom),
                left: length_of(left),
            },
        ),
        None => None,
    }
}

/// What the box changes of the text inside it.
pub open spec fn text_style_of(style: DivStyle) -> TextStyle {
    TextStyle {
        size: style.text_size,
        color: packed(style.text_color),
        weight: style.font_weight,
        line_height: style.line_height,
        align: match style.text_align {
            Some(id) => text_align(id),
            None => None,
        },
        white_space: match style.whitespace {
            Some(id) => white_space(id),
            None => None,
        },
    }
}

/// The style of a box as the engine takes it.
pub open spec fn box_style(style: DivStyle, fills: bool) -> BoxStyle {
    BoxStyle {
        fills,
        size: size_of(style),
        background: background_of(style),
        flex: style.flex,
        flex_column: style.flex && style.flex_col,
        center: style.center,
        gap: if_positive(style.gap),
        rounded: if_positive(style.rounded),
        padding: padding_of(style),
        border: border_of(style),
        margin: style.margin,
        min_width: match style.min_size {
            Some((w, _)) => if_set(w),
            None => None,
        },
        min_height: match style.min_size {
            Some((_, h)) => if_set(h),
            None => None,
        },
        max_width: match style.max_size {
            Some((w, _)) => if_set(w),
            None => None,
        },
        max_height: match style.max_size {
            Some((_, h)) => if_set(h),
            None => None,
        },
        flex_item: flex_item_of(style),
        align_items: match style.align {
            Some((items, _)) => align_items(items),
            None => None,
        },
        justify_content: match style.align {
            Some((_, justify)) => justify_content(justify),
            None => None,
        },
        overflow_x: match style.overflow {
            Some((x, _)) => overflow_mode(x),
            None => None,
        },
        overflow_y: match style.overflow {
            Some((_, y)) => overflow_mode(y),
            None => None,
        },
        opacity: style.opacity,
        shadow: shadow_of(style),
        position: match style.position {
            Some(mode) => position_mode(mode),
            None => None,
        },
        inset: inset_of(style),
        cursor: match style.cursor {
            Some(kind) => cursor_style(kind),
            None => None,
        },
        text: text_style_of(style),
    }
}

fn set_size(size: i32) -> (set: Option<i32>)
    ensures
        set == if_set(size),
{
    if size >= 0 {
        Some(size)
    } else {
        None
    }
}

fn positive_length(length: LayoutPx) -> (set: Option<LayoutPx>)
    ensures
        set == if_positive(length),
{
    if length.is_positive() {
        Some(length)
    } else {
        None
    }
}

fn plan_background(style: &DivStyle) -> (background: Option<Background>)
    ensures
        background == background_of(*style),
{
    if let Some(rgba) = style.bg_color {
        Some(Background::WithAlpha(pack_rgba(rgba)))
    } else if let Some(rgb) = style.bg {
        Some(Background::Opaque(pack_rgb(rgb)))
    } else {
        None
    }
}

fn plan_padding(style: &DivStyle) -> (padding: Option<Padding>)
    ensures
        padding == padding_of(*style),
{
    if let Some(sides) = style.padding_sides {
        Some(Padding::BySide(sides))
    } else if style.padding.is_positive() {
        Some(Padding::Uniform(style.padding))
    } else {
        None
    }
}

fn plan_border(style: &DivStyle) -> (border: Option<Border>)
    ensures
        border == border_of(*style),
{
    if style.border_width.is_positive() {
        let color = match style.border_color {
            Some(rgb) => Some(pack_rgb(rgb)),
            None => None,
        };
        Some(Border { width: style.border_width, color })
    } else {
        None
    }
}

fn plan_shadow(style: &DivStyle) -> (shadow: Option<BoxShadow>)
    ensures
        shadow == shadow_of(*style),
{
    match style.shadow {
        Some(shadow) => Some(
            BoxShadow {
                x: shadow.x,
                y: shadow.y,
                blur: shadow.blur,
                spread: shadow.spread,
                color: pack_rgba(shadow.color),
            },
        ),
        None => None,
    }
}

fn plan_inset(style: &DivStyle) -> (inset: Option<Inset>)
    ensures
        inset == inset_of(*style),
{
    match style.inset {
        Some((top, right, bottom, left)) => Some(
            Inset {
                top: px_or_auto(top),
                right: px_or_auto(right),
                bottom: px_or_auto(bottom),
                left: px_or_auto(left),
            },
        ),
        None => None,
    }
}

fn plan_text_style(style: &DivStyle) -> (text: TextStyle)
    ensures
        text == text_style_of(*style),
{
    let color = match style.text_color {
        Some(rgba) => Some(pack_rgba(rgba)),
        None => None,
    };
    let align = match style.text_align {
        Some(id) => map_text_align(id),
        None => None,
    };
    let white_space = match style.whitespace {
        Some(id) => map_whitespace(id),
        None => None,
    };
    TextStyle {
        size: style.text_size,
        color,
        weight: style.font_weight,
        line_height: style.line_height,
        align,
        white_space,
    }
}

/// Makes the style decisions of one box.
pub fn plan_box_style(style: &DivStyle, fills: bool) -> (planned: BoxStyle)
    ensures
        planned == box_style(*style, fills),
{
    let size = if style.width.is_positive() && style.height.is_positive() {
        Some((style.width, style.height))
    } else {
        None
    };
    let (min_width, min_height) = match style.min_size {
        Some((w, h)) => (set_size(w), set_size(h)),
        None => (None, None),
    };
    let (max_width, max_height) = match style.max_size {
        Some((w, h)) => (set_size(w), set_size(h)),
        None => (None, None),
    };
    let flex_item = match style.flex_item {
        Some((grow, shrink, basis)) => Some(FlexItem { grow, shrink, basis: px_or_auto(basis) }),
        None => None,
    };
    let (align_items, justify_content) = match style.align {
        Some((items, justify)) => (map_align_items(items), map_justify_content(justify)),
        None => (None, None),
    };
    let (overflow_x, overflow_y) = match style.overflow {
        Some((x, y)) => (map_overflow(x), map_overflow(y)),
        None => (None, None),
    };
    let position = match style.position {
        Some(mode) => map_position(mode),
        None => None,
    };
    let cursor = match style.cursor {
        Some(kind) => map_cursor(kind),
        None => None,
    };
    BoxStyle {
        fills,
        size,
        background: plan_background(style),
        flex: style.flex,
        flex_column: style.flex && style.flex_col,
        center: style.center,
        gap: positive_length(style.gap),
        rounded: positive_length(style.rounded),
        padding: plan_padding(style),
        border: plan_border(style),
        margin: style.margin,
        min_width,
        min_height,
        max_width,
        max_height,
        flex_item,
        align_items,
        justify_content,
        overflow_x,
        overflow_y,
        opacity: style.opacity,
        shadow: plan_shadow(style),
        position,
        inset: plan_inset(style),
        cursor,
        text: plan_text_style(style),
    }
}

/// A fresh div asks the engine for nothing.
pub proof fn law_plain_div_asks_for_nothing(fills: bool)
    ensures
        ({
            let plain = box_style(plain_style(), fills);
            &&& plain.fills == fills
            &&& !plain.flex && !plain.flex_column && !plain.center
            &&& plain.size is None && plain.background is None && plain.gap is None
            &&& plain.rounded is None && plain.padding is None && plain.border is None
            &&& plain.margin is None && plain.min_width is None && plain.min_height is None
            &&& plain.max_width is None && plain.max_height is None && plain.flex_item is None
            &&& plain.align_items is None && plain.justify_content is None
            &&& plain.overflow_x is None && plain.overflow_y is None && plain.opacity is None
            &&& plain.shadow is None && plain.position is None && plain.inset is None
            &&& plain.cursor is None && plain.text.size is None && plain.text.color is None
            &&& plain.text.weight is None && plain.text.line_height is None
            &&& plain.text.align is None && plain.text.white_space is None
        }),
{
    assert(units(0) == 0);
}

/// A setter changes of the box that is drawn only what it is about, whatever was
/// set before.
pub proof fn law_setter_shows_nowhere_else(style: DivStyle, change: StyleChange, fills: bool)
    ensures
        ({
            let before = box_style(style, fills);
            let after = box_style(style_after(style, change), fills);
            &&& before.fills == fills
            &&& after.fills == fills
            &&& !(change is Size) ==> after.size == before.size
            &&& !(change is Bg) && !(change is BgColor) ==> after.background == before.background
            &&& !(change is Flex) ==> {
                &&& after.flex == before.flex
                &&& after.flex_column == before.flex_column
            }
            &&& !(change is Center) ==> after.center == before.center
            &&& !(change is Gap) ==> after.gap == before.gap
            &&& !(change is Rounded) ==> after.rounded == before.rounded
            &&& !(change is Padding) && !(change is PaddingSides) ==> after.padding == before.padding
            &&& !(change is Border) ==> after.border == before.border
            &&& !(change is Margin) ==> after.margin == before.margin
            &&& !(change is MinSize) ==> {
                &&& after.min_width == before.min_width
                &&& after.min_height == before.min_height
            }
            &&& !(change is MaxSize) ==> {
                &&& after.max_width == before.max_width
                &&& after.max_height == before.max_height
            }
            &&& !(change is FlexItem) ==> after.flex_item == before.flex_item
            &&& !(change is Align) ==> {
                &&& after.align_items == before.align_items
                &&& after.justify_content == before.justify_content
            }
            &&& !(change is Overflow) ==> {
                &&& after.overflow_x == before.overflow_x
                &&& after.overflow_y == before.overflow_y
            }
            &&& !(change is Opacity) ==> after.opacity == before.opacity
            &&& !(change is Shadow) ==> after.shadow == before.shadow
            &&& !(change is Position) ==> after.position == before.position
            &&& !(change is Inset) ==> after.inset == before.inset
            &&& !(change is Cursor) ==> after.cursor == before.cursor
            &&& !(change is TextSize) ==> after.text.size == before.text.size
            &&& !(change is TextColor) ==> after.text.color == before.text.color
            &&& !(change is FontWeight) ==> after.text.weight == before.text.weight
            &&& !(change is LineHeight) ==> after.text.line_height == before.text.line_height
            &&& !(change is TextAlign) ==> after.text.align == before.text.align
            &&& !(change is Whitespace) ==> after.text.white_space == before.text.white_space
        }),
{
}

/// A box is a column exactly where its div was last set to be one, and only
/// divs that were set to lay out their children in a line are rows or columns.
pub proof fn law_flex_direction_is_drawn(style: DivStyle, column: bool, fills: bool)
    ensures
        ({
            let drawn = box_style(style_after(style, StyleChange::Flex { column }), fills);
            &&& drawn.flex
            &&& drawn.flex_column <==> column
        }),
        box_style(style, fills).flex_column <==> style.flex && style.flex_col,
        box_style(style, fills).flex <==> style.flex,
        box_style(style_after(style, StyleChange::Center), fills).center,
        box_style(style, fills).center <==> style.center,
{
}

/// Lengths are drawn as they were set where they are positive, and not at all
/// where they are not; a size needs both of its parts.
pub proof fn law_lengths_are_drawn(style: DivStyle, a: LayoutPx, b: LayoutPx, rgb: Rgb, fills: bool)
    requires
        is_layout_length(a),
        is_layout_length(b),
    ensures
        ({
            let drawn = box_style(
                style_after(style, StyleChange::Size { width: a, height: b }),
                fills,
            );
            if numeric(a.bits) > 0 && numeric(b.bits) > 0 {
                drawn.size == Some((a, b))
            } else {
                drawn.size is None
            }
        }),
        ({
            let drawn = box_style(style_after(style, StyleChange::Gap { gap: a }), fills);
            if numeric(a.bits) > 0 {
                drawn.gap == Some(a)
            } else {
                drawn.gap is None
            }
        }),
        ({
            let drawn = box_style(style_after(style, StyleChange::Rounded { radius: a }), fills);
            if numeric(a.bits) > 0 {
                drawn.rounded == Some(a)
            } else {
                drawn.rounded is None
            }
        }),
        ({
            let drawn = box_style(style_after(style, StyleChange::Border { width: a, rgb }), fills);
            &&& drawn.border is Some <==> numeric(a.bits) > 0
            &&& drawn.border matches Some(border) ==> {
                &&& border.width == a
                &&& border.color is Some
                &&& border.color->0 == 0x1_0000 * rgb.0 + 0x100 * rgb.1 + rgb.2
            }
        }),
        ({
            let drawn = box_style(style_after(style, StyleChange::Padding { padding: a }), fills);
            style.padding_sides is None ==> if numeric(a.bits) > 0 {
                drawn.padding == Some(Padding::Uniform(a))
            } else {
                drawn.padding is None
            }
        }),
{
}

/// Where padding is given by side, that is what is drawn, whether the uniform
/// padding comes before it or behind it.
pub proof fn law_padding_by_side_counts(
    style: DivStyle,
    sides: Sides,
    padding: LayoutPx,
    fills: bool,
)
    ensures
        ({
            let by_side = StyleChange::PaddingSides { sides };
            let uniform = StyleChange::Padding { padding };
            let first = style_after(style_after(style, by_side), uniform);
            let last = style_after(style_after(style, uniform), by_side);
            &&& box_style(first, fills).padding == Some(Padding::BySide(sides))
            &&& box_style(last, fills).padding == Some(Padding::BySide(sides))
        }),
{
}

/// Colors are drawn with their parts in their places. A background with alpha is
/// drawn in place of one without, whichever comes first.
pub proof fn law_colors_are_drawn(style: DivStyle, rgba: Rgba, rgb: Rgb, fills: bool)
    ensures
        ({
            let plain = StyleChange::Bg { rgb };
            let clear = StyleChange::BgColor { rgba };
            let word = 0x100_0000 * rgba.0 + 0x1_0000 * rgba.1 + 0x100 * rgba.2 + rgba.3;
            let one = box_style(style_after(style_after(style, plain), clear), fills);
            let other = box_style(style_after(style_after(style, clear), plain), fills);
            &&& one.background matches Some(Background::WithAlpha(drawn)) && drawn == word
            &&& other.background matches Some(Background::WithAlpha(drawn)) && drawn == word
            &&& style.bg_color is None ==> {
                let only = box_style(style_after(style, plain), fills);
                &&& only.background matches Some(Background::Opaque(drawn))
                &&& drawn == 0x1_0000 * rgb.0 + 0x100 * rgb.1 + rgb.2
            }
        }),
        ({
            let drawn = box_style(style_after(style, StyleChange::TextColor { rgba }), fills);
            &&& drawn.text.color is Some
            &&& drawn.text.color->0 == 0x100_0000 * rgba.0 + 0x1_0000 * rgba.1 + 0x100 * rgba.2
                + rgba.3
        }),
{
}

/// Is a length automatic exactly where it was given as negative, and else as
/// many pixels as were given?
pub open spec fn auto_if_negative(length: Length, value: i32) -> bool {
    match length {
        Length::Auto => value < 0,
        Length::Pixels(pixels) => value >= 0 && pixels == value,
    }
}

/// Bounds, factors and sides are drawn as they were given, each in its place;
/// negative ones are left to the layout.
pub proof fn law_sides_are_drawn(style: DivStyle, sides: Sides, shadow: Shadow, fills: bool)
    ensures
        box_style(style_after(style, StyleChange::Margin { sides }), fills).margin == Some(sides),
        ({
            let (w, h) = (sides.0, sides.1);
            let least = box_style(style_after(style, StyleChange::MinSize { w, h }), fills);
            let most = box_style(style_after(style, StyleChange::MaxSize { w, h }), fills);
            &&& least.min_width is Some <==> w >= 0
            &&& w >= 0 ==> least.min_width->0 == w
            &&& least.min_height is Some <==> h >= 0
            &&& h >= 0 ==> least.min_height->0 == h
            &&& most.max_width is Some <==> w >= 0
            &&& w >= 0 ==> most.max_width->0 == w
            &&& most.max_height is Some <==> h >= 0
            &&& h >= 0 ==> most.max_height->0 == h
        }),
        ({
            let (grow, shrink, basis) = (sides.0, sides.1, sides.2);
            let change = StyleChange::FlexItem { grow, shrink, basis };
            let drawn = box_style(style_after(style, change), fills).flex_item;
            &&& drawn is Some
            &&& drawn->0.grow == grow
            &&& drawn->0.shrink == shrink
            &&& auto_if_negative(drawn->0.basis, basis)
        }),
        ({
            let drawn = box_style(style_after(style, StyleChange::Inset { sides }), fills).inset;
            &&& drawn is Some
            &&& auto_if_negative(drawn->0.top, sides.0)
            &&& auto_if_negative(drawn->0.right, sides.1)
            &&& auto_if_negative(drawn->0.bottom, sides.2)
            &&& auto_if_negative(drawn->0.left, sides.3)
        }),
        ({
            let drawn = box_style(style_after(style, StyleChange::Shadow { shadow }), fills).shadow;
            let color = shadow.color;
            &&& drawn is Some
            &&& drawn->0.x == shadow.x
            &&& drawn->0.y == shadow.y
            &&& drawn->0.blur == shadow.blur
            &&& drawn->0.spread == shadow.spread
            &&& drawn->0.color == 0x100_0000 * color.0 + 0x1_0000 * color.1 + 0x100 * color.2
                + color.3
        }),
{
}

/// Numbers and ids of a style are drawn as they were given, each for its own
/// property.
pub proof fn law_ids_are_drawn(style: DivStyle, a: i32, b: i32, fills: bool)
    ensures
        ({
            let drawn = box_style(
                style_after(style, StyleChange::Align { items: a, justify: b }),
                fills,
            );
            &&& drawn.align_items == align_items(a)
            &&& drawn.justify_content == justify_content(b)
        }),
        ({
            let drawn = box_style(style_after(style, StyleChange::Overflow { x: a, y: b }), fills);
            &&& drawn.overflow_x == overflow_mode(a)
            &&& drawn.overflow_y == overflow_mode(b)
        }),
        box_style(style_after(style, StyleChange::Opacity { thousandths: a }), fills).opacity
            == Some(a),
        box_style(style_after(style, StyleChange::Cursor { kind: a }), fills).cursor
            == cursor_style(a),
        box_style(style_after(style, StyleChange::Position { mode: a }), fills).position
            == position_mode(a),
        ({
            let text = box_style(style_after(style, StyleChange::TextSize { size: a }), fills).text;
            text.size == Some(a)
        }),
        ({
            let change = StyleChange::FontWeight { weight: a };
            let text = box_style(style_after(style, change), fills).text;
            &&& text.weight is Some
            &&& 100 <= text.weight->0 <= 900
            &&& 100 <= a <= 900 ==> text.weight->0 == a
        }),
        ({
            let change = StyleChange::LineHeight { thousandths: a };
            let text = box_style(style_after(style, change), fills).text;
            &&& text.line_height is Some <==> a >= 0
            &&& a >= 0 ==> text.line_height->0 == a
        }),
        box_style(style_after(style, StyleChange::TextAlign { id: a }), fills).text.align
            == text_align(a),
        box_style(style_after(style, StyleChange::Whitespace { id: a }), fills).text.white_space
            == white_space(a),
{
}

} // verus!
