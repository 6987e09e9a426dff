//! What style ids, colors and run flags mean to the layout engine.
use crate::abi::{
    ALIGN_CENTER, ALIGN_END, ALIGN_START, ALIGN_STRETCH, CURSOR_ARROW, CURSOR_COL_RESIZE,
    CURSOR_CROSSHAIR, CURSOR_EW_RESIZE, CURSOR_GRAB, CURSOR_GRABBING, CURSOR_NONE,
    CURSOR_NOT_ALLOWED, CURSOR_NS_RESIZE, CURSOR_POINTER, CURSOR_ROW_RESIZE, CURSOR_TEXT,
    JUSTIFY_CENTER, JUSTIFY_END, JUSTIFY_SPACE_AROUND, JUSTIFY_SPACE_BETWEEN, JUSTIFY_START,
    OVERFLOW_HIDDEN, OVERFLOW_SCROLL, OVERFLOW_VISIBLE, POSITION_ABSOLUTE, POSITION_RELATIVE,
    RUN_STYLE_BACKGROUND, RUN_STYLE_COLOR, RUN_STYLE_ITALIC, RUN_STYLE_STRIKETHROUGH,
    RUN_STYLE_UNDERLINE, RUN_STYLE_WEIGHT, TEXT_ALIGN_CENTER, TEXT_ALIGN_JUSTIFY, TEXT_ALIGN_LEFT,
    TEXT_ALIGN_RIGHT, WHITESPACE_NORMAL, WHITESPACE_NOWRAP, WHITESPACE_PRE, WHITESPACE_PRE_WRAP,
};
use crate::node::{clamp_weight, clamped_weight, Rgb, Rgba, TextRunSpec};
use vstd::prelude::*;

verus! {

/// Alignment of children across the main axis.
#[derive(Clone, Copy, PartialEq, Eq, Structural, Debug)]
pub enum AlignItems {
    Start,
    Center,
    End,
    Stretch,
}

/// Distribution of children along the main axis.
#[derive(Clone, Copy, PartialEq, Eq, Structural, Debug)]
pub enum JustifyContent {
    Start,
    Center,
    End,
    SpaceBetween,
    SpaceAround,
}

/// What happens to content that is larger than its container.
#[derive(Clone, Copy, PartialEq, Eq, Structural, Debug)]
pub enum Overflow {
    Visible,
    Hidden,
    Scroll,
}

/// Shape of the mouse cursor.
#[derive(Clone, Copy, PartialEq, Eq, Structural, Debug)]
pub enum CursorStyle {
    Arrow,
    PointingHand,
    IBeam,
    Crosshair,
    OpenHand,
    ClosedHand,
    OperationNotAllowed,
    ResizeLeftRight,
    ResizeUpDown,
    ResizeColumn,
    ResizeRow,
    Hidden,
}

/// Horizontal alignment of text.
#[derive(Clone, Copy, PartialEq, Eq, Structural, Debug)]
pub enum TextAlign {
    Left,
    Center,
    Right,
}

/// Does text wrap?
#[derive(Clone, Copy, PartialEq, Eq, Structural, Debug)]
pub enum WhiteSpace {
    Normal,
    Nowrap,
}

/// How a box is placed.
#[derive(Clone, Copy, PartialEq, Eq, Structural, Debug)]
pub enum Position {
    Relative,
    Absolute,
}

/// A length in pixels, or one that the layout finds.
#[derive(Clone, Copy, PartialEq, Eq, Structural, Debug)]
pub enum Length {
    Pixels(i32),
    Auto,
}

/// A negative length stands for one that the layout finds.
pub open spec fn length_of(value: i32) -> Length {
    if value >= 0 {
        Length::Pixels(value)
    } else {
        Length::Auto
    }
}

/// Reads a length in which a negative value means automatic.
pub fn px_or_auto(value: i32) -> (length: Length)
    ensures
        length == length_of(value),
{
    if value >= 0 {
        Length::Pixels(value)
    } else {
        Length::Auto
    }
}

/// The alignment of an id; the default id and unknown ones leave it unset.
pub open spec fn align_items(id: i32) -> Option<AlignItems> {
    if id == ALIGN_START {
        Some(AlignItems::Start)
    } else if id == ALIGN_CENTER {
        Some(AlignItems::Center)
    } else if id == ALIGN_END {
        Some(AlignItems::End)
    } else if id == ALIGN_STRETCH {
        Some(AlignItems::Stretch)
    } else {
        None
    }
}

/// Finds the alignment of an id.
pub fn map_align_items(id: i32) -> (found: Option<AlignItems>)
    ensures
        found == align_items(id),
{
    match id {
        ALIGN_START => Some(AlignItems::Start),
        ALIGN_CENTER => Some(AlignItems::Center),
        ALIGN_END => Some(AlignItems::End),
        ALIGN_STRETCH => Some(AlignItems::Stretch),
        _ => None,
    }
}

/// The distribution of an id; the default id and unknown ones leave it unset.
pub open spec fn justify_content(id: i32) -> Option<JustifyContent> {
    if id == JUSTIFY_START {
        Some(JustifyContent::Start)
    } else if id == JUSTIFY_CENTER {
        Some(JustifyContent::Center)
    } else if id == JUSTIFY_END {
        Some(JustifyContent::End)
    } else if id == JUSTIFY_SPACE_BETWEEN {
        Some(JustifyContent::SpaceBetween)
    } else if id == JUSTIFY_SPACE_AROUND {
        Some(JustifyContent::SpaceAround)
    } else {
        None
    }
}

/// Finds the distribution of an id.
pub fn map_justify_content(id: i32) -> (found: Option<JustifyContent>)
    ensures
        found == justify_content(id),
{
    match id {
        JUSTIFY_START => Some(JustifyContent::Start),
        JUSTIFY_CENTER => Some(JustifyContent::Center),
        JUSTIFY_END => Some(JustifyContent::End),
        JUSTIFY_SPACE_BETWEEN => Some(JustifyContent::SpaceBetween),
        JUSTIFY_SPACE_AROUND => Some(JustifyContent::SpaceAround),
        _ => None,
    }
}

/// The overflow mode of an id; unknown ids leave it unset.
pub open spec fn overflow_mode(id: i32) -> Option<Overflow> {
    if id == OVERFLOW_VISIBLE {
        Some(Overflow::Visible)
    } else if id == OVERFLOW_HIDDEN {
        Some(Overflow::Hidden)
    } else if id == OVERFLOW_SCROLL {
        Some(Overflow::Scroll)
    } else {
        None
    }
}

/// Finds the overflow mode of an id.
pub fn map_overflow(id: i32) -> (found: Option<Overflow>)
    ensures
        found == overflow_mode(id),
{
    match id {
        OVERFLOW_VISIBLE => Some(Overflow::Visible),
        OVERFLOW_HIDDEN => Some(Overflow::Hidden),
        OVERFLOW_SCROLL => Some(Overflow::Scroll),
        _ => None,
    }
}

/// The cursor of an id; unknown ids leave it unset.
pub open spec fn cursor_style(id: i32) -> Option<CursorStyle> {
    if id == CURSOR_ARROW {
        Some(CursorStyle::Arrow)
    } else if id == CURSOR_POINTER {
        Some(CursorStyle::PointingHand)
    } else if id == CURSOR_TEXT {
        Some(CursorStyle::IBeam)
    } else if id == CURSOR_CROSSHAIR {
        Some(CursorStyle::Crosshair)
    } else if id == CURSOR_GRAB {
        Some(CursorStyle::OpenHand)
    } else if id == CURSOR_GRABBING {
        Some(CursorStyle::ClosedHand)
    } else if id == CURSOR_NOT_ALLOWED {
        Some(CursorStyle::OperationNotAllowed)
    } else if id == CURSOR_EW_RESIZE {
        Some(CursorStyle::ResizeLeftRight)
    } else if id == CURSOR_NS_RESIZE {
        Some(CursorStyle::ResizeUpDown)
    } else if id == CURSOR_COL_RESIZE {
        Some(CursorStyle::ResizeColumn)
    } else if id == CURSOR_ROW_RESIZE {
        Some(CursorStyle::ResizeRow)
    } else if id == CURSOR_NONE {
        Some(CursorStyle::Hidden)
    } else {
        None
    }
}

/// Finds the cursor of an id.
pub fn map_cursor(id: i32) -> (found: Option<CursorStyle>)
    ensures
        found == cursor_style(id),
{
    match id {
        CURSOR_ARROW => Some(CursorStyle::Arrow),
        CURSOR_POINTER => Some(CursorStyle::PointingHand),
        CURSOR_TEXT => Some(CursorStyle::IBeam),
        CURSOR_CROSSHAIR => Some(CursorStyle::Crosshair),
        CURSOR_GRAB => Some(CursorStyle::OpenHand),
        CURSOR_GRABBING => Some(CursorStyle::ClosedHand),
        CURSOR_NOT_ALLOWED => Some(CursorStyle::OperationNotAllowed),
        CURSOR_EW_RESIZE => Some(CursorStyle::ResizeLeftRight),
        CURSOR_NS_RESIZE => Some(CursorStyle::ResizeUpDown),
        CURSOR_COL_RESIZE => Some(CursorStyle::ResizeColumn),
        CURSOR_ROW_RESIZE => Some(CursorStyle::ResizeRow),
        CURSOR_NONE => Some(CursorStyle::Hidden),
        _ => None,
    }
}

/// The text alignment of an id. The engine does not justify: that id falls
/// back to the left. The default id and unknown ones leave it unset.
pub open spec fn text_align(id: i32) -> Option<TextAlign> {
    if id == TEXT_ALIGN_LEFT || id == TEXT_ALIGN_JUSTIFY {
        Some(TextAlign::Left)
    } else if id == TEXT_ALIGN_CENTER {
        Some(TextAlign::Center)
    } else if id == TEXT_ALIGN_RIGHT {
        Some(TextAlign::Right)
    } else {
        None
    }
}

/// Finds the text alignment of an id.
pub fn map_text_align(id: i32) -> (found: Option<TextAlign>)
    ensures
        found == text_align(id),
{
    match id {
        TEXT_ALIGN_LEFT => Some(TextAlign::Left),
        TEXT_ALIGN_CENTER => Some(TextAlign::Center),
        TEXT_ALIGN_RIGHT => Some(TextAlign::Right),
        TEXT_ALIGN_JUSTIFY => Some(TextAlign::Left),
        _ => None,
    }
}

/// The wrapping of an id. The engine only knows whether text wraps. The default
/// id and unknown ones leave it unset.
pub open spec fn white_space(id: i32) -> Option<WhiteSpace> {
    if id == WHITESPACE_NORMAL || id == WHITESPACE_PRE_WRAP {
        Some(WhiteSpace::Normal)
    } else if id == WHITESPACE_NOWRAP || id == WHITESPACE_PRE {
        Some(WhiteSpace::Nowrap)
    } else {
        None
    }
}

/// Finds the wrapping of an id.
pub fn map_whitespace(id: i32) -> (found: Option<WhiteSpace>)
    ensures
        found == white_space(id),
{
    match id {
        WHITESPACE_NORMAL => Some(WhiteSpace::Normal),
        WHITESPACE_NOWRAP => Some(WhiteSpace::Nowrap),
        WHITESPACE_PRE => Some(WhiteSpace::Nowrap),
        WHITESPACE_PRE_WRAP => Some(WhiteSpace::Normal),
        _ => None,
    }
}

/// The placement of an id; unknown ids leave it unset.
pub open spec fn position_mode(id: i32) -> Option<Position> {
    if id == POSITION_ABSOLUTE {
        Some(Position::Absolute)
    } else if id == POSITION_RELATIVE {
        Some(Position::Relative)
    } else {
        None
    }
}

/// Finds the placement of an id.
pub fn map_position(id: i32) -> (found: Option<Position>)
    ensures
        found == position_mode(id),
{
    match id {
        POSITION_ABSOLUTE => Some(Position::Absolute),
        POSITION_RELATIVE => Some(Position::Relative),
        _ => None,
    }
}

/// A color in one word: red in bits 16 to 23, green in 8 to 15, blue in 0 to 7.
pub open spec fn rgb_word(rgb: Rgb) -> u32 {
    (0x1_0000 * rgb.0 + 0x100 * rgb.1 + rgb.2) as u32
}

/// Packs a color.
pub fn pack_rgb(rgb: Rgb) -> (word: u32)
    ensures
        word == rgb_word(rgb),
{
    0x1_0000 * (rgb.0 as u32) + 0x100 * (rgb.1 as u32) + rgb.2 as u32
}

/// A color with alpha in one word: red in the top byte, alpha in the lowest.
pub open spec fn rgba_word(rgba: Rgba) -> u32 {
    (0x100_0000 * rgba.0 + 0x1_0000 * rgba.1 + 0x100 * rgba.2 + rgba.3) as u32
}

/// Packs a color with alpha.
pub fn pack_rgba(rgba: Rgba) -> (word: u32)
    ensures
        word == rgba_word(rgba),
{
    0x100_0000 * (rgba.0 as u32) + 0x1_0000 * (rgba.1 as u32) + 0x100 * (rgba.2 as u32) + rgba.3 as u32
}

/// The four parts of a packed color can be read off again.
pub proof fn law_packed_color_reads_back(rgba: Rgba)
    ensures
        rgba_word(rgba) / 0x100_0000 == rgba.0,
        rgba_word(rgba) / 0x1_0000 % 0x100 == rgba.1,
        rgba_word(rgba) / 0x100 % 0x100 == rgba.2,
        rgba_word(rgba) % 0x100 == rgba.3,
        rgb_word((rgba.0, rgba.1, rgba.2)) == rgba_word(rgba) / 0x100,
{
    let word = rgba_word(rgba);
    let (r, g, b, a) = (rgba.0 as u32, rgba.1 as u32, rgba.2 as u32, rgba.3 as u32);
    assert(word / 0x100_0000 == r && word / 0x1_0000 % 0x100 == g && word / 0x100 % 0x100 == b
        && word % 0x100 == a && word / 0x100 == 0x1_0000 * r + 0x100 * g + b) by (bit_vector)
        requires
            word == 0x100_0000 * r + 0x1_0000 * g + 0x100 * b + a,
            r < 0x100,
            g < 0x100,
            b < 0x100,
            a < 0x100,
    ;
}

/// What a run overrides of the text around it.
#[derive(Clone, Copy, PartialEq, Eq, Debug)]
pub struct HighlightStyle {
    /// Packed color with alpha.
    pub color: Option<u32>,
    pub font_weight: Option<i32>,
    pub italic: bool,
    /// Underlined, one pixel thick and in the color of the text.
    pub underline: bool,
    /// Struck through, one pixel thick and in the color of the text.
    pub strikethrough: bool,
    /// Packed color with alpha.
    pub background_color: Option<u32>,
}

/// Is a flag set?
pub open spec fn has_flag(flags: i32, flag: i32) -> bool {
    flags & flag != 0
}

/// What a run overrides: what its flags name and nothing else.
pub open spec fn highlight(run: TextRunSpec) -> HighlightStyle {
    HighlightStyle {
        color: if has_flag(run.flags, RUN_STYLE_COLOR) {
            Some(rgba_word(run.color))
        } else {
            None
        },
        font_weight: if has_flag(run.flags, RUN_STYLE_WEIGHT) {
            Some(clamped_weight(run.weight))
        } else {
            None
        },
        italic: has_flag(run.flags, RUN_STYLE_ITALIC),
        underline: has_flag(run.flags, RUN_STYLE_UNDERLINE),
        strikethrough: has_flag(run.flags, RUN_STYLE_STRIKETHROUGH),
        background_color: if has_flag(run.flags, RUN_STYLE_BACKGROUND) {
            Some(rgba_word(run.background))
        } else {
            None
        },
    }
}

/// Finds what a run overrides.
pub fn highlight_for_run(run: &TextRunSpec) -> (style: HighlightStyle)
    ensures
        style == highlight(*run),
{
    let mut style = HighlightStyle {
        color: None,
        font_weight: None,
        italic: false,
        underline: false,
        strikethrough: false,
        background_color: None,
    };
    if run.flags & RUN_STYLE_COLOR != 0 {
        style.color = Some(pack_rgba(run.color));
    }
    if run.flags & RUN_STYLE_WEIGHT != 0 {
        style.font_weight = Some(clamp_weight(run.weight));
    }
    if run.flags & RUN_STYLE_ITALIC != 0 {
        style.italic = true;
    }
    if run.flags & RUN_STYLE_UNDERLINE != 0 {
        style.underline = true;
    }
    if run.flags & RUN_STYLE_STRIKETHROUGH != 0 {
        style.strikethrough = true;
    }
    if run.flags & RUN_STYLE_BACKGROUND != 0 {
        style.background_color = Some(pack_rgba(run.background));
    }
    style
}

/// A run without flags overrides nothing, whatever its other fields hold.
pub proof fn law_plain_run_overrides_nothing(run: TextRunSpec)
    requires
        run.flags == 0,
    ensures
        highlight(run) == (HighlightStyle {
            color: None,
            font_weight: None,
            italic: false,
            underline: false,
            strikethrough: false,
            background_color: None,
        }),
{
    assert(0i32 & 1i32 == 0) by (bit_vector);
    assert(0i32 & 2i32 == 0) by (bit_vector);
    assert(0i32 & 4i32 == 0) by (bit_vector);
    assert(0i32 & 8i32 == 0) by (bit_vector);
    assert(0i32 & 16i32 == 0) by (bit_vector);
    assert(0i32 & 32i32 == 0) by (bit_vector);
}

/// Two runs that differ only in what their flags do not name override the same.
pub proof fn law_unnamed_fields_do_not_count(a: TextRunSpec, b: TextRunSpec)
    requires
        a.flags == b.flags,
        has_flag(a.flags, RUN_STYLE_COLOR) ==> a.color == b.color,
        has_flag(a.flags, RUN_STYLE_WEIGHT) ==> a.weight == b.weight,
        has_flag(a.flags, RUN_STYLE_BACKGROUND) ==> a.background == b.background,
    ensures
        highlight(a) == highlight(b),
{
}

/// The id by which the application asks for an alignment.
pub open spec fn align_id(wanted: AlignItems) -> i32 {
    match wanted {
        AlignItems::Start => ALIGN_START,
        AlignItems::Center => ALIGN_CENTER,
        AlignItems::End => ALIGN_END,
        AlignItems::Stretch => ALIGN_STRETCH,
    }
}

/// The id by which the application asks for a distribution.
pub open spec fn justify_id(wanted: JustifyContent) -> i32 {
    match wanted {
        JustifyContent::Start => JUSTIFY_START,
        JustifyContent::Center => JUSTIFY_CENTER,
        JustifyContent::End => JUSTIFY_END,
        JustifyContent::SpaceBetween => JUSTIFY_SPACE_BETWEEN,
        JustifyContent::SpaceAround => JUSTIFY_SPACE_AROUND,
    }
}

/// The id by which the application asks for an overflow mode.
pub open spec fn overflow_id(wanted: Overflow) -> i32 {
    match wanted {
        Overflow::Visible => OVERFLOW_VISIBLE,
        Overflow::Hidden => OVERFLOW_HIDDEN,
        Overflow::Scroll => OVERFLOW_SCROLL,
    }
}

/// The id by which the application asks for a placement.
pub open spec fn position_id(wanted: Position) -> i32 {
    match wanted {
        Position::Relative => POSITION_RELATIVE,
        Position::Absolute => POSITION_ABSOLUTE,
    }
}

/// The id by which the application asks for a cursor.
pub open spec fn cursor_id(wanted: CursorStyle) -> i32 {
    match wanted {
        CursorStyle::Arrow => CURSOR_ARROW,
        CursorStyle::PointingHand => CURSOR_POINTER,
        CursorStyle::IBeam => CURSOR_TEXT,
        CursorStyle::Crosshair => CURSOR_CROSSHAIR,
        CursorStyle::OpenHand => CURSOR_GRAB,
        CursorStyle::ClosedHand => CURSOR_GRABBING,
        CursorStyle::OperationNotAllowed => CURSOR_NOT_ALLOWED,
        CursorStyle::ResizeLeftRight => CURSOR_EW_RESIZE,
        CursorStyle::ResizeUpDown => CURSOR_NS_RESIZE,
        CursorStyle::ResizeColumn => CURSOR_COL_RESIZE,
        CursorStyle::ResizeRow => CURSOR_ROW_RESIZE,
        CursorStyle::Hidden => CURSOR_NONE,
    }
}

/// Asking for something by its id gets it, every id asks for one thing, and what
/// no id stands for is not asked for.
pub proof fn law_ids_get_what_they_ask_for(id: i32)
    ensures
        forall|wanted: AlignItems| #[trigger] align_id(wanted) == id <==> align_items(id) == Some(wanted),
        forall|wanted: JustifyContent| #[trigger] justify_id(wanted) == id <==> justify_content(id) == Some(wanted),
        forall|wanted: Overflow| #[trigger] overflow_id(wanted) == id <==> overflow_mode(id) == Some(wanted),
        forall|wanted: Position| #[trigger] position_id(wanted) == id <==> position_mode(id) == Some(wanted),
        forall|wanted: CursorStyle| #[trigger] cursor_id(wanted) == id <==> cursor_style(id) == Some(wanted),
{
}

/// Text is centered or set to the right exactly where that is asked for, and to
/// the left where left or justified text is.
pub proof fn law_text_alignment_ids(id: i32)
    ensures
        text_align(id) == Some(TextAlign::Center) <==> id == TEXT_ALIGN_CENTER,
        text_align(id) == Some(TextAlign::Right) <==> id == TEXT_ALIGN_RIGHT,
        text_align(id) == Some(TextAlign::Left) <==> id == TEXT_ALIGN_LEFT || id
            == TEXT_ALIGN_JUSTIFY,
{
}

/// Text wraps exactly where normal or wrapping preformatted text is asked for,
/// and keeps to its lines where the others are.
pub proof fn law_white_space_ids(id: i32)
    ensures
        white_space(id) == Some(WhiteSpace::Normal) <==> id == WHITESPACE_NORMAL || id
            == WHITESPACE_PRE_WRAP,
        white_space(id) == Some(WhiteSpace::Nowrap) <==> id == WHITESPACE_NOWRAP || id
            == WHITESPACE_PRE,
{
}

/// Lengths keep their order and their value; those below zero are all alike.
pub proof fn law_negative_lengths_are_automatic(a: i32, b: i32)
    ensures
        length_of(a) == Length::Auto <==> a < 0,
        length_of(a) matches Length::Pixels(pixels) ==> pixels == a,
        length_of(a) == length_of(b) <==> a == b || (a < 0 && b < 0),
{
}

/// A run overrides exactly what its flags name, with the values it brings: the
/// flags are read bit by bit.
pub proof fn law_run_overrides_what_it_names(run: TextRunSpec)
    requires
        0 <= run.flags < 0x40,
    ensures
        ({
            let shown = highlight(run);
            let (color, back) = (run.color, run.background);
            &&& shown.color is Some <==> run.flags / RUN_STYLE_COLOR % 2 == 1
            &&& shown.color is Some ==> shown.color->0 == 0x100_0000 * color.0 + 0x1_0000
                * color.1 + 0x100 * color.2 + color.3
            &&& shown.font_weight is Some <==> run.flags / RUN_STYLE_WEIGHT % 2 == 1
            &&& shown.font_weight is Some ==> 100 <= shown.font_weight->0 <= 900
            &&& shown.font_weight is Some && 100 <= run.weight <= 900 ==> shown.font_weight->0
                == run.weight
            &&& shown.italic <==> run.flags / RUN_STYLE_ITALIC % 2 == 1
            &&& shown.underline <==> run.flags / RUN_STYLE_UNDERLINE % 2 == 1
            &&& shown.strikethrough <==> run.flags / RUN_STYLE_STRIKETHROUGH % 2 == 1
            &&& shown.background_color is Some <==> run.flags / RUN_STYLE_BACKGROUND % 2 == 1
            &&& shown.background_color is Some ==> shown.background_color->0 == 0x100_0000 * back.0
                + 0x1_0000 * back.1 + 0x100 * back.2 + back.3
        }),
{
    let flags = run.flags;
    assert({
        &&& (flags & 1 != 0) <==> (flags / 1 % 2 == 1)
        &&& (flags & 2 != 0) <==> (flags / 2 % 2 == 1)
        &&& (flags & 4 != 0) <==> (flags / 4 % 2 == 1)
        &&& (flags & 8 != 0) <==> (flags / 8 % 2 == 1)
        &&& (flags & 16 != 0) <==> (flags / 16 % 2 == 1)
        &&& (flags & 32 != 0) <==> (flags / 32 % 2 == 1)
    }) by (bit_vector)
        requires
            0 <= flags < 0x40,
    ;
}

} // verus!
