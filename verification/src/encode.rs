//! Trees as command buffers: the commands that describe a tree, the bytes in
//! which they stand, and the proof that decoding gives the tree back.
use crate::abi::{
    BUFFER_VERSION, GPUI_STATUS_OK, OP_ADD_CHILD, OP_DIV, OP_SET_ALIGN, OP_SET_BG, OP_SET_BG_COLOR,
    OP_SET_BORDER, OP_SET_CENTER, OP_SET_CURSOR, OP_SET_FLEX, OP_SET_FLEX_ITEM, OP_SET_FOCUSABLE,
    OP_SET_FONT_FAMILY, OP_SET_FONT_WEIGHT, OP_SET_GAP, OP_SET_INSET, OP_SET_KEY,
    OP_SET_LINE_HEIGHT, OP_SET_MARGIN, OP_SET_MAX_SIZE, OP_SET_MIN_SIZE, OP_SET_ON_CLICK,
    OP_SET_OPACITY, OP_SET_OVERFLOW, OP_SET_PADDING, OP_SET_PADDING_SIDES, OP_SET_POSITION,
    OP_SET_ROOT, OP_SET_ROUNDED, OP_SET_SCROLL_ID, OP_SET_SHADOW, OP_SET_SIZE, OP_SET_TAB_INDEX,
    OP_SET_TAB_STOP, OP_SET_TEXT_ALIGN, OP_SET_TEXT_COLOR, OP_SET_TEXT_ROW, OP_SET_TEXT_SIZE,
    OP_SET_WHITESPACE, OP_TEXT, OP_TEXT_INPUT, OP_TEXT_RUN,
};
use crate::commit::{check_tree, decode, header_is_good, law_decoded_tree_is_sound, run};
use crate::decode::{empty_machine, restyled, run_admitted, run_flags_known, run_of, step, Machine};
use crate::float::{is_layout_length, LayoutPx};
use crate::node::{
    change_is_sound, law_changes_keep_styles_sound, plain_style, run_fits, runs_are_sound,
    style_after, style_is_sound, tree_is_sound, DivStyle, Rgb, Rgba, RowSpec, Sides, StyleChange,
    TextRunSpec, Tree,
};
use crate::text::{law_encoded_text_reads_back, law_word_round_trip, le_bytes, unsigned, word_at};
use crate::views::build_status;
use crate::wire::{
    after_text, command_is_sound, has_text, holds, int_at, lemma_parse_advances,
    lemma_parsed_is_sound, length_at, parse_command, rgb_at, rgba_at, sides_at, text_at,
    CommandSpec, RunOperands,
};
use vstd::prelude::*;
use vstd::utf8::encode_utf8;

verus! {

/// A word as it stands in a buffer.
#[verifier::opaque]
pub open spec fn word_bytes(value: u32) -> Seq<u8> {
    le_bytes(value)
}

/// A signed word as it stands in a buffer.
pub open spec fn int_bytes(value: i32) -> Seq<u8> {
    word_bytes(unsigned(value))
}

/// A text as it stands in a buffer: its byte count, then its bytes.
pub open spec fn text_bytes(text: Seq<char>) -> Seq<u8> {
    word_bytes(encode_utf8(text).len() as u32) + encode_utf8(text)
}

/// Two signed words.
pub open spec fn pair_bytes(first: i32, second: i32) -> Seq<u8> {
    int_bytes(first) + int_bytes(second)
}

/// Four sides.
pub open spec fn sides_bytes(sides: Sides) -> Seq<u8> {
    pair_bytes(sides.0, sides.1) + pair_bytes(sides.2, sides.3)
}

/// A color.
pub open spec fn rgb_bytes(rgb: Rgb) -> Seq<u8> {
    seq![rgb.0, rgb.1, rgb.2]
}

/// A color with alpha.
pub open spec fn rgba_bytes(rgba: Rgba) -> Seq<u8> {
    seq![rgba.0, rgba.1, rgba.2, rgba.3]
}

/// A yes or no.
pub open spec fn flag_bytes(on: bool) -> Seq<u8> {
    seq![
        if on {
            1u8
        } else {
            0u8
        },
    ]
}

/// An optional caret: whether there is one, and its offset or zero.
pub open spec fn caret_bytes(caret: Option<u32>) -> Seq<u8> {
    flag_bytes(caret is Some) + word_bytes(
        match caret {
            Some(at) => at,
            None => 0,
        },
    )
}

/// The changes whose operand is one signed word, with that word.
pub open spec fn word_of_change(change: StyleChange) -> Option<(i32, i32)> {
    match change {
        StyleChange::OnClick { click_id } => Some((OP_SET_ON_CLICK, click_id)),
        StyleChange::Opacity { thousandths } => Some((OP_SET_OPACITY, thousandths)),
        StyleChange::Cursor { kind } => Some((OP_SET_CURSOR, kind)),
        StyleChange::Position { mode } => Some((OP_SET_POSITION, mode)),
        StyleChange::TextSize { size } => Some((OP_SET_TEXT_SIZE, size)),
        StyleChange::FontWeight { weight } => Some((OP_SET_FONT_WEIGHT, weight)),
        StyleChange::LineHeight { thousandths } => Some((OP_SET_LINE_HEIGHT, thousandths)),
        StyleChange::TextAlign { id } => Some((OP_SET_TEXT_ALIGN, id)),
        StyleChange::Whitespace { id } => Some((OP_SET_WHITESPACE, id)),
        StyleChange::TabIndex { index } => Some((OP_SET_TAB_INDEX, index)),
        StyleChange::ScrollId { scroll_id } => Some((OP_SET_SCROLL_ID, scroll_id)),
        StyleChange::Focusable { on } => Some(
            (
                OP_SET_FOCUSABLE,
                if on {
                    1
                } else {
                    0
                },
            ),
        ),
        StyleChange::TabStop { on } => Some(
            (
                OP_SET_TAB_STOP,
                if on {
                    1
                } else {
                    0
                },
            ),
        ),
        _ => None,
    }
}

/// The opcode of a change and its operands.
pub open spec fn change_parts(change: StyleChange) -> (i32, Seq<u8>) {
    match change {
        StyleChange::Size { width, height } => (
            OP_SET_SIZE,
            word_bytes(width.bits) + word_bytes(height.bits),
        ),
        StyleChange::Bg { rgb } => (OP_SET_BG, rgb_bytes(rgb)),
        StyleChange::Flex { column } => (OP_SET_FLEX, flag_bytes(column)),
        StyleChange::Center => (OP_SET_CENTER, Seq::empty()),
        StyleChange::Gap { gap } => (OP_SET_GAP, word_bytes(gap.bits)),
        StyleChange::Rounded { radius } => (OP_SET_ROUNDED, word_bytes(radius.bits)),
        StyleChange::Padding { padding } => (OP_SET_PADDING, word_bytes(padding.bits)),
        StyleChange::Border { width, rgb } => (
            OP_SET_BORDER,
            word_bytes(width.bits) + rgb_bytes(rgb),
        ),
        StyleChange::BgColor { rgba } => (OP_SET_BG_COLOR, rgba_bytes(rgba)),
        StyleChange::Margin { sides } => (OP_SET_MARGIN, sides_bytes(sides)),
        StyleChange::MinSize { w, h } => (OP_SET_MIN_SIZE, pair_bytes(w, h)),
        StyleChange::MaxSize { w, h } => (OP_SET_MAX_SIZE, pair_bytes(w, h)),
        StyleChange::FlexItem { grow, shrink, basis } => (
            OP_SET_FLEX_ITEM,
            pair_bytes(grow, shrink) + int_bytes(basis),
        ),
        StyleChange::Align { items, justify } => (OP_SET_ALIGN, pair_bytes(items, justify)),
        StyleChange::Overflow { x, y } => (OP_SET_OVERFLOW, pair_bytes(x, y)),
        StyleChange::Shadow { shadow } => (
            OP_SET_SHADOW,
            sides_bytes((shadow.x, shadow.y, shadow.blur, shadow.spread)) + rgba_bytes(
                shadow.color,
            ),
        ),
        StyleChange::Inset { sides } => (OP_SET_INSET, sides_bytes(sides)),
        StyleChange::PaddingSides { sides } => (OP_SET_PADDING_SIDES, sides_bytes(sides)),
        StyleChange::TextColor { rgba } => (OP_SET_TEXT_COLOR, rgba_bytes(rgba)),
        _ => {
            let (op, value) = word_of_change(change)->0;
            (op, int_bytes(value))
        },
    }
}

/// The opcode of a command and its operands.
pub open spec fn command_parts(command: CommandSpec) -> (i32, Seq<u8>) {
    match command {
        CommandSpec::PushDiv => (OP_DIV, Seq::empty()),
        CommandSpec::PushText { content, color, size } => (
            OP_TEXT,
            text_bytes(content) + (rgb_bytes(color) + word_bytes(size.bits)),
        ),
        CommandSpec::PushInput { input_id, placeholder } => (
            OP_TEXT_INPUT,
            int_bytes(input_id) + text_bytes(placeholder),
        ),
        CommandSpec::AddRun { run } => (
            OP_TEXT_RUN,
            (word_bytes(run.start) + word_bytes(run.len)) + (seq![run.flags] + (rgba_bytes(run.color)
                + (int_bytes(run.weight) + rgba_bytes(run.background)))),
        ),
        CommandSpec::SetRow { row } => (
            OP_SET_TEXT_ROW,
            text_bytes(row.key) + (caret_bytes(row.caret) + (rgb_bytes(row.color) + flag_bytes(
                row.blink,
            ))),
        ),
        CommandSpec::Style { change } => change_parts(change),
        CommandSpec::SetKey { key } => (OP_SET_KEY, text_bytes(key)),
        CommandSpec::SetFontFamily { family } => (OP_SET_FONT_FAMILY, text_bytes(family)),
        CommandSpec::AddChild => (OP_ADD_CHILD, Seq::empty()),
        CommandSpec::SetRoot => (OP_SET_ROOT, Seq::empty()),
    }
}

/// A command as it stands in a buffer.
pub open spec fn command_bytes(command: CommandSpec) -> Seq<u8> {
    let (op, operands) = command_parts(command);
    seq![op as u8] + operands
}

/// Does a text have a byte count that a buffer can hold?
pub open spec fn text_is_short(text: Seq<char>) -> bool {
    encode_utf8(text).len() <= u32::MAX
}

/// Can a command be written? Its lengths are layout lengths and its texts are
/// short enough.
pub open spec fn can_be_written(command: CommandSpec) -> bool {
    match command {
        CommandSpec::PushText { content, size, .. } => text_is_short(content) && is_layout_length(
            size,
        ),
        CommandSpec::PushInput { placeholder, .. } => text_is_short(placeholder),
        CommandSpec::SetRow { row } => text_is_short(row.key),
        CommandSpec::Style { change } => change_is_sound(change),
        CommandSpec::SetKey { key } => text_is_short(key),
        CommandSpec::SetFontFamily { family } => text_is_short(family),
        _ => true,
    }
}

/// Do bytes stand at a position of a buffer?
pub open spec fn stands(data: Seq<u8>, at: int, bytes: Seq<u8>) -> bool {
    0 <= at && at + bytes.len() <= data.len() && data.subrange(at, at + bytes.len() as int) == bytes
}

proof fn lemma_stands_both(data: Seq<u8>, at: int, first: Seq<u8>, second: Seq<u8>)
    requires
        stands(data, at, first + second),
    ensures
        stands(data, at, first),
        stands(data, at + first.len(), second),
{
    let both = first + second;
    let there = data.subrange(at, at + both.len() as int);
    assert(data.subrange(at, at + first.len() as int) =~= there.subrange(0, first.len() as int));
    assert(there.subrange(0, first.len() as int) =~= first);
    let next = at + first.len() as int;
    assert(data.subrange(next, next + second.len() as int) =~= there.subrange(
        first.len() as int,
        both.len() as int,
    ));
    assert(there.subrange(first.len() as int, both.len() as int) =~= second);
}

proof fn lemma_stands_byte(data: Seq<u8>, at: int, bytes: Seq<u8>, i: int)
    requires
        stands(data, at, bytes),
        0 <= i < bytes.len(),
    ensures
        data[at + i] == bytes[i],
{
    assert(data.subrange(at, at + bytes.len() as int)[i] == data[at + i]);
}

proof fn lemma_word_size(value: u32)
    ensures
        word_bytes(value).len() == 4,
{
    reveal(word_bytes);
}

proof fn lemma_word(data: Seq<u8>, at: int, value: u32)
    requires
        stands(data, at, word_bytes(value)),
    ensures
        word_bytes(value).len() == 4,
        holds(data, at, 4),
        word_at(data, at) == value,
{
    reveal(word_bytes);
    let before = data.take(at);
    let after = data.skip(at + 4);
    assert(data =~= before + data.subrange(at, at + 4) + after);
    law_word_round_trip(before, value, after);
}

proof fn lemma_int(data: Seq<u8>, at: int, value: i32)
    requires
        stands(data, at, int_bytes(value)),
    ensures
        int_bytes(value).len() == 4,
        holds(data, at, 4),
        int_at(data, at) == value,
{
    lemma_word(data, at, unsigned(value));
}

proof fn lemma_pair(data: Seq<u8>, at: int, first: i32, second: i32)
    requires
        stands(data, at, pair_bytes(first, second)),
    ensures
        pair_bytes(first, second).len() == 8,
        holds(data, at, 8),
        int_at(data, at) == first,
        int_at(data, at + 4) == second,
{
    lemma_word_size(unsigned(first));
    lemma_stands_both(data, at, int_bytes(first), int_bytes(second));
    lemma_int(data, at, first);
    lemma_int(data, at + 4, second);
}

proof fn lemma_sides(data: Seq<u8>, at: int, sides: Sides)
    requires
        stands(data, at, sides_bytes(sides)),
    ensures
        sides_bytes(sides).len() == 16,
        holds(data, at, 16),
        sides_at(data, at) == sides,
{
    lemma_stands_both(data, at, pair_bytes(sides.0, sides.1), pair_bytes(sides.2, sides.3));
    lemma_pair(data, at, sides.0, sides.1);
    lemma_pair(data, at + 8, sides.2, sides.3);
}

proof fn lemma_rgb(data: Seq<u8>, at: int, rgb: Rgb)
    requires
        stands(data, at, rgb_bytes(rgb)),
    ensures
        holds(data, at, 3),
        rgb_at(data, at) == rgb,
{
    lemma_stands_byte(data, at, rgb_bytes(rgb), 0);
    lemma_stands_byte(data, at, rgb_bytes(rgb), 1);
    lemma_stands_byte(data, at, rgb_bytes(rgb), 2);
}

proof fn lemma_rgba(data: Seq<u8>, at: int, rgba: Rgba)
    requires
        stands(data, at, rgba_bytes(rgba)),
    ensures
        holds(data, at, 4),
        rgba_at(data, at) == rgba,
{
    lemma_stands_byte(data, at, rgba_bytes(rgba), 0);
    lemma_stands_byte(data, at, rgba_bytes(rgba), 1);
    lemma_stands_byte(data, at, rgba_bytes(rgba), 2);
    lemma_stands_byte(data, at, rgba_bytes(rgba), 3);
}

proof fn lemma_length(data: Seq<u8>, at: int, length: LayoutPx)
    requires
        stands(data, at, word_bytes(length.bits)),
        is_layout_length(length),
    ensures
        word_bytes(length.bits).len() == 4,
        length_at(data, at) == Ok::<LayoutPx, i32>(length),
{
    lemma_word(data, at, length.bits);
}

proof fn lemma_text(data: Seq<u8>, at: int, text: Seq<char>)
    requires
        stands(data, at, text_bytes(text)),
        text_is_short(text),
    ensures
        has_text(data, at),
        text_at(data, at) == text,
        after_text(data, at) == at + text_bytes(text).len(),
{
    let bytes = encode_utf8(text);
    lemma_stands_both(data, at, word_bytes(bytes.len() as u32), bytes);
    lemma_word(data, at, bytes.len() as u32);
    law_encoded_text_reads_back(text);
}

/// A written change of lengths is read back.
proof fn lemma_written_lengths(data: Seq<u8>, at: int, change: StyleChange)
    requires
        change is Size || change is Gap || change is Rounded || change is Padding || change is Border,
        stands(data, at, command_bytes(CommandSpec::Style { change })),
        change_is_sound(change),
    ensures
        parse_command(data, at) == Ok::<(CommandSpec, int), i32>(
            (
                CommandSpec::Style { change },
                at + command_bytes(CommandSpec::Style { change }).len(),
            ),
        ),
{
    let (op, operands) = change_parts(change);
    lemma_stands_both(data, at, seq![op as u8], operands);
    lemma_stands_byte(data, at, seq![op as u8], 0);
    let next = at + 1;
    match change {
        StyleChange::Size { width, height } => {
            lemma_word_size(width.bits);
            lemma_stands_both(data, next, word_bytes(width.bits), word_bytes(height.bits));
            lemma_length(data, next, width);
            lemma_length(data, next + 4, height);
        },
        StyleChange::Gap { gap } => lemma_length(data, next, gap),
        StyleChange::Rounded { radius } => lemma_length(data, next, radius),
        StyleChange::Padding { padding } => lemma_length(data, next, padding),
        StyleChange::Border { width, rgb } => {
            lemma_word_size(width.bits);
            lemma_stands_both(data, next, word_bytes(width.bits), rgb_bytes(rgb));
            lemma_length(data, next, width);
            lemma_rgb(data, next + 4, rgb);
        },
        _ => {},
    }
}

/// A written change of a color or of a layout mode is read back.
proof fn lemma_written_flags(data: Seq<u8>, at: int, change: StyleChange)
    requires
        change is Bg || change is Flex || change is Center || change is BgColor || change is TextColor,
        stands(data, at, command_bytes(CommandSpec::Style { change })),
        change_is_sound(change),
    ensures
        parse_command(data, at) == Ok::<(CommandSpec, int), i32>(
            (
                CommandSpec::Style { change },
                at + command_bytes(CommandSpec::Style { change }).len(),
            ),
        ),
{
    let (op, operands) = change_parts(change);
    lemma_stands_both(data, at, seq![op as u8], operands);
    lemma_stands_byte(data, at, seq![op as u8], 0);
    let next = at + 1;
    match change {
        StyleChange::Bg { rgb } => lemma_rgb(data, next, rgb),
        StyleChange::Flex { .. } => lemma_stands_byte(data, next, operands, 0),
        StyleChange::BgColor { rgba } => lemma_rgba(data, next, rgba),
        StyleChange::TextColor { rgba } => lemma_rgba(data, next, rgba),
        _ => {},
    }
}

/// A written change of four sides is read back.
proof fn lemma_written_sides(data: Seq<u8>, at: int, change: StyleChange)
    requires
        change is Margin || change is Inset || change is PaddingSides,
        stands(data, at, command_bytes(CommandSpec::Style { change })),
        change_is_sound(change),
    ensures
        parse_command(data, at) == Ok::<(CommandSpec, int), i32>(
            (
                CommandSpec::Style { change },
                at + command_bytes(CommandSpec::Style { change }).len(),
            ),
        ),
{
    let (op, operands) = change_parts(change);
    lemma_stands_both(data, at, seq![op as u8], operands);
    lemma_stands_byte(data, at, seq![op as u8], 0);
    let next = at + 1;
    match change {
        StyleChange::Margin { sides } => lemma_sides(data, next, sides),
        StyleChange::Inset { sides } => lemma_sides(data, next, sides),
        StyleChange::PaddingSides { sides } => lemma_sides(data, next, sides),
        _ => {},
    }
}

/// A written change of the shadow is read back.
proof fn lemma_written_shadow(data: Seq<u8>, at: int, change: StyleChange)
    requires
        change is Shadow,
        stands(data, at, command_bytes(CommandSpec::Style { change })),
        change_is_sound(change),
    ensures
        parse_command(data, at) == Ok::<(CommandSpec, int), i32>(
            (
                CommandSpec::Style { change },
                at + command_bytes(CommandSpec::Style { change }).len(),
            ),
        ),
{
    let (op, operands) = change_parts(change);
    lemma_stands_both(data, at, seq![op as u8], operands);
    lemma_stands_byte(data, at, seq![op as u8], 0);
    let next = at + 1;
    let shadow = change->Shadow_shadow;
    let sides = (shadow.x, shadow.y, shadow.blur, shadow.spread);
    lemma_stands_both(data, next, sides_bytes(sides), rgba_bytes(shadow.color));
    lemma_sides(data, next, sides);
    lemma_rgba(data, next + 16, shadow.color);
}

/// A written change of two or three words is read back.
proof fn lemma_written_pairs(data: Seq<u8>, at: int, change: StyleChange)
    requires
        change is MinSize || change is MaxSize || change is FlexItem || change is Align || change is Overflow,
        stands(data, at, command_bytes(CommandSpec::Style { change })),
        change_is_sound(change),
    ensures
        parse_command(data, at) == Ok::<(CommandSpec, int), i32>(
            (
                CommandSpec::Style { change },
                at + command_bytes(CommandSpec::Style { change }).len(),
            ),
        ),
{
    let (op, operands) = change_parts(change);
    lemma_stands_both(data, at, seq![op as u8], operands);
    lemma_stands_byte(data, at, seq![op as u8], 0);
    let next = at + 1;
    match change {
        StyleChange::MinSize { w, h } => lemma_pair(data, next, w, h),
        StyleChange::MaxSize { w, h } => lemma_pair(data, next, w, h),
        StyleChange::FlexItem { grow, shrink, basis } => {
            lemma_stands_both(data, next, pair_bytes(grow, shrink), int_bytes(basis));
            lemma_pair(data, next, grow, shrink);
            lemma_int(data, next + 8, basis);
        },
        StyleChange::Align { items, justify } => lemma_pair(data, next, items, justify),
        StyleChange::Overflow { x, y } => lemma_pair(data, next, x, y),
        _ => {},
    }
}

/// A written change of one word is read back.
proof fn lemma_written_word(data: Seq<u8>, at: int, change: StyleChange)
    requires
        word_of_change(change) is Some,
        stands(data, at, command_bytes(CommandSpec::Style { change })),
        change_is_sound(change),
    ensures
        parse_command(data, at) == Ok::<(CommandSpec, int), i32>(
            (
                CommandSpec::Style { change },
                at + command_bytes(CommandSpec::Style { change }).len(),
            ),
        ),
{
    let (op, operands) = change_parts(change);
    lemma_stands_both(data, at, seq![op as u8], operands);
    lemma_stands_byte(data, at, seq![op as u8], 0);
    let next = at + 1;
    let (_, value) = word_of_change(change)->0;
    lemma_int(data, next, value);
}

/// A written change is read back.
proof fn lemma_written_change(data: Seq<u8>, at: int, change: StyleChange)
    requires
        stands(data, at, command_bytes(CommandSpec::Style { change })),
        change_is_sound(change),
    ensures
        parse_command(data, at) == Ok::<(CommandSpec, int), i32>(
            (
                CommandSpec::Style { change },
                at + command_bytes(CommandSpec::Style { change }).len(),
            ),
        ),
{
    if word_of_change(change) is Some {
        lemma_written_word(data, at, change);
    } else if change is Size || change is Gap || change is Rounded || change is Padding || change is Border {
        lemma_written_lengths(data, at, change);
    } else if change is Margin || change is Inset || change is PaddingSides {
        lemma_written_sides(data, at, change);
    } else if change is Shadow {
        lemma_written_shadow(data, at, change);
    } else if change is MinSize || change is MaxSize || change is FlexItem || change is Align
        || change is Overflow {
        lemma_written_pairs(data, at, change);
    } else {
        lemma_written_flags(data, at, change);
    }
}

/// A written row is read back.
proof fn lemma_written_row(data: Seq<u8>, at: int, row: RowSpec)
    requires
        stands(data, at, command_bytes(CommandSpec::SetRow { row })),
        text_is_short(row.key),
    ensures
        parse_command(data, at) == Ok::<(CommandSpec, int), i32>(
            (
                CommandSpec::SetRow { row },
                at + command_bytes(CommandSpec::SetRow { row }).len(),
            ),
        ),
{
    let (op, operands) = command_parts(CommandSpec::SetRow { row });
    lemma_stands_both(data, at, seq![op as u8], operands);
    lemma_stands_byte(data, at, seq![op as u8], 0);
    let next = at + 1;
    let last = rgb_bytes(row.color) + flag_bytes(row.blink);
    lemma_stands_both(data, next, text_bytes(row.key), caret_bytes(row.caret) + last);
    lemma_text(data, next, row.key);
    let tail = next + text_bytes(row.key).len();
    let offset = match row.caret {
        Some(offset) => offset,
        None => 0,
    };
    lemma_word_size(offset);
    lemma_stands_both(data, tail, caret_bytes(row.caret), last);
    lemma_stands_both(data, tail, flag_bytes(row.caret is Some), word_bytes(offset));
    lemma_stands_byte(data, tail, flag_bytes(row.caret is Some), 0);
    lemma_word(data, tail + 1, offset);
    lemma_stands_both(data, tail + 5, rgb_bytes(row.color), flag_bytes(row.blink));
    lemma_rgb(data, tail + 5, row.color);
    lemma_stands_byte(data, tail + 8, flag_bytes(row.blink), 0);
}

/// A written command is read back, and the next one is read behind it.
pub proof fn law_written_command_reads_back(data: Seq<u8>, at: int, command: CommandSpec)
    requires
        stands(data, at, command_bytes(command)),
        can_be_written(command),
    ensures
        parse_command(data, at) == Ok::<(CommandSpec, int), i32>(
            (command, at + command_bytes(command).len()),
        ),
{
    let (op, operands) = command_parts(command);
    lemma_stands_both(data, at, seq![op as u8], operands);
    lemma_stands_byte(data, at, seq![op as u8], 0);
    let next = at + 1;
    match command {
        CommandSpec::PushText { content, color, size } => {
            let rest = rgb_bytes(color) + word_bytes(size.bits);
            lemma_stands_both(data, next, text_bytes(content), rest);
            lemma_text(data, next, content);
            let behind = next + text_bytes(content).len();
            lemma_stands_both(data, behind, rgb_bytes(color), word_bytes(size.bits));
            lemma_rgb(data, behind, color);
            lemma_length(data, behind + 3, size);
        },
        CommandSpec::PushInput { input_id, placeholder } => {
            lemma_word_size(unsigned(input_id));
            lemma_stands_both(data, next, int_bytes(input_id), text_bytes(placeholder));
            lemma_int(data, next, input_id);
            lemma_text(data, next + 4, placeholder);
        },
        CommandSpec::AddRun { run } => {
            let last = int_bytes(run.weight) + rgba_bytes(run.background);
            let third = rgba_bytes(run.color) + last;
            let second = seq![run.flags] + third;
            let first = word_bytes(run.start) + word_bytes(run.len);
            lemma_word_size(run.start);
            lemma_word_size(run.len);
            lemma_word_size(unsigned(run.weight));
            lemma_stands_both(data, next, first, second);
            lemma_stands_both(data, next, word_bytes(run.start), word_bytes(run.len));
            lemma_word(data, next, run.start);
            lemma_word(data, next + 4, run.len);
            lemma_stands_both(data, next + 8, seq![run.flags], third);
            lemma_stands_byte(data, next + 8, seq![run.flags], 0);
            lemma_stands_both(data, next + 9, rgba_bytes(run.color), last);
            lemma_rgba(data, next + 9, run.color);
            lemma_stands_both(data, next + 13, int_bytes(run.weight), rgba_bytes(run.background));
            lemma_int(data, next + 13, run.weight);
            lemma_rgba(data, next + 17, run.background);
        },
        CommandSpec::SetRow { row } => lemma_written_row(data, at, row),
        CommandSpec::Style { change } => lemma_written_change(data, at, change),
        CommandSpec::SetKey { key } => lemma_text(data, next, key),
        CommandSpec::SetFontFamily { family } => lemma_text(data, next, family),
        _ => {},
    }
}

/// The setter with a number that describes a style; `None` where the style is
/// as it is without it.
#[verifier::opaque]
pub open spec fn setter(style: DivStyle, k: int) -> Option<StyleChange> {
    if k == 0 {
        Some(StyleChange::Size { width: style.width, height: style.height })
    } else if k == 1 {
        match style.bg {
            Some(rgb) => Some(StyleChange::Bg { rgb }),
            None => None,
        }
    } else if k == 2 {
        if style.flex {
            Some(StyleChange::Flex { column: style.flex_col })
        } else {
            None
        }
    } else if k == 3 {
        if style.center {
            Some(StyleChange::Center)
        } else {
            None
        }
    } else if k == 4 {
        Some(StyleChange::Gap { gap: style.gap })
    } else if k == 5 {
        Some(StyleChange::Rounded { radius: style.rounded })
    } else if k == 6 {
        Some(StyleChange::Padding { padding: style.padding })
    } else if k == 7 {
        match style.border_color {
            Some(rgb) => Some(StyleChange::Border { width: style.border_width, rgb }),
            None => None,
        }
    } else if k == 8 {
        match style.bg_color {
            Some(rgba) => Some(StyleChange::BgColor { rgba }),
            None => None,
        }
    } else if k == 9 {
        match style.margin {
            Some(sides) => Some(StyleChange::Margin { sides }),
            None => None,
        }
    } else if k == 10 {
        match style.min_size {
            Some((w, h)) => Some(StyleChange::MinSize { w, h }),
            None => None,
        }
    } else if k == 11 {
        match style.max_size {
            Some((w, h)) => Some(StyleChange::MaxSize { w, h }),
            None => None,
        }
    } else if k == 12 {
        match style.flex_item {
            Some((grow, shrink, basis)) => Some(StyleChange::FlexItem { grow, shrink, basis }),
            None => None,
        }
    } else if k == 13 {
        match style.align {
            Some((items, justify)) => Some(StyleChange::Align { items, justify }),
            None => None,
        }
    } else if k == 14 {
        match style.overflow {
            Some((x, y)) => Some(StyleChange::Overflow { x, y }),
            None => None,
        }
    } else if k == 15 {
        match style.opacity {
            Some(thousandths) => Some(StyleChange::Opacity { thousandths }),
            None => None,
        }
    } else if k == 16 {
        match style.shadow {
            Some(shadow) => Some(StyleChange::Shadow { shadow }),
            None => None,
        }
    } else if k == 17 {
        match style.cursor {
            Some(kind) => Some(StyleChange::Cursor { kind }),
            None => None,
        }
    } else if k == 18 {
        match style.position {
            Some(mode) => Some(StyleChange::Position { mode }),
            None => None,
        }
    } else if k == 19 {
        match style.inset {
            Some(sides) => Some(StyleChange::Inset { sides }),
            None => None,
        }
    } else if k == 20 {
        match style.padding_sides {
            Some(sides) => Some(StyleChange::PaddingSides { sides }),
            None => None,
        }
    } else if k == 21 {
        match style.text_size {
            Some(size) => Some(StyleChange::TextSize { size }),
            None => None,
        }
    } else if k == 22 {
        match style.text_color {
            Some(rgba) => Some(StyleChange::TextColor { rgba }),
            None => None,
        }
    } else if k == 23 {
        match style.font_weight {
            Some(weight) => Some(StyleChange::FontWeight { weight }),
            None => None,
        }
    } else if k == 24 {
        match style.line_height {
            Some(thousandths) => Some(StyleChange::LineHeight { thousandths }),
            None => None,
        }
    } else if k == 25 {
        match style.text_align {
            Some(id) => Some(StyleChange::TextAlign { id }),
            None => None,
        }
    } else if k == 26 {
        match style.whitespace {
            Some(id) => Some(StyleChange::Whitespace { id }),
            None => None,
        }
    } else if k == 27 {
        match style.on_click {
            Some(click_id) => Some(StyleChange::OnClick { click_id }),
            None => None,
        }
    } else if k == 28 {
        match style.focusable {
            Some(on) => Some(StyleChange::Focusable { on }),
            None => None,
        }
    } else if k == 29 {
        match style.tab_index {
            Some(index) => Some(StyleChange::TabIndex { index: index as i32 }),
            None => None,
        }
    } else if k == 30 {
        match style.tab_stop {
            Some(on) => Some(StyleChange::TabStop { on }),
            None => None,
        }
    } else if k == 31 {
        match style.scroll_id {
            Some(scroll_id) => Some(StyleChange::ScrollId { scroll_id }),
            None => None,
        }
    } else {
        None
    }
}

/// What the setters before a number make of a plain style.
#[verifier::opaque]
pub open spec fn style_upto(style: DivStyle, k: int) -> DivStyle {
    let plain = plain_style();
    DivStyle {
        width: if k > 0 {
            style.width
        } else {
            plain.width
        },
        height: if k > 0 {
            style.height
        } else {
            plain.height
        },
        bg: if k > 1 {
            style.bg
        } else {
            plain.bg
        },
        flex: if k > 2 {
            style.flex
        } else {
            plain.flex
        },
        flex_col: if k > 2 {
            style.flex_col
        } else {
            plain.flex_col
        },
        center: if k > 3 {
            style.center
        } else {
            plain.center
        },
        gap: if k > 4 {
            style.gap
        } else {
            plain.gap
        },
        rounded: if k > 5 {
            style.rounded
        } else {
            plain.rounded
        },
        padding: if k > 6 {
            style.padding
        } else {
            plain.padding
        },
        border_width: if k > 7 {
            style.border_width
        } else {
            plain.border_width
        },
        border_color: if k > 7 {
            style.border_color
        } else {
            plain.border_color
        },
        bg_color: if k > 8 {
            style.bg_color
        } else {
            plain.bg_color
        },
        margin: if k > 9 {
            style.margin
        } else {
            plain.margin
        },
        min_size: if k > 10 {
            style.min_size
        } else {
            plain.min_size
        },
        max_size: if k > 11 {
            style.max_size
        } else {
            plain.max_size
        },
        flex_item: if k > 12 {
            style.flex_item
        } else {
            plain.flex_item
        },
        align: if k > 13 {
            style.align
        } else {
            plain.align
        },
        overflow: if k > 14 {
            style.overflow
        } else {
            plain.overflow
        },
        opacity: if k > 15 {
            style.opacity
        } else {
            plain.opacity
        },
        shadow: if k > 16 {
            style.shadow
        } else {
            plain.shadow
        },
        cursor: if k > 17 {
            style.cursor
        } else {
            plain.cursor
        },
        position: if k > 18 {
            style.position
        } else {
            plain.position
        },
        inset: if k > 19 {
            style.inset
        } else {
            plain.inset
        },
        padding_sides: if k > 20 {
            style.padding_sides
        } else {
            plain.padding_sides
        },
        text_size: if k > 21 {
            style.text_size
        } else {
            plain.text_size
        },
        text_color: if k > 22 {
            style.text_color
        } else {
            plain.text_color
        },
        font_weight: if k > 23 {
            style.font_weight
        } else {
            plain.font_weight
        },
        line_height: if k > 24 {
            style.line_height
        } else {
            plain.line_height
        },
        text_align: if k > 25 {
            style.text_align
        } else {
            plain.text_align
        },
        whitespace: if k > 26 {
            style.whitespace
        } else {
            plain.whitespace
        },
        on_click: if k > 27 {
            style.on_click
        } else {
            plain.on_click
        },
        focusable: if k > 28 {
            style.focusable
        } else {
            plain.focusable
        },
        tab_index: if k > 29 {
            style.tab_index
        } else {
            plain.tab_index
        },
        tab_stop: if k > 30 {
            style.tab_stop
        } else {
            plain.tab_stop
        },
        scroll_id: if k > 31 {
            style.scroll_id
        } else {
            plain.scroll_id
        },
    }
}

/// Can setters describe a style? A direction comes with flex and a border width
/// with its color, and the place in the tab order is a word.
pub open spec fn style_can_be_written(style: DivStyle) -> bool {
    &&& style_is_sound(style)
    &&& style.flex_col ==> style.flex
    &&& style.border_color is None ==> style.border_width.bits == 0
    &&& style.tab_index matches Some(index) ==> i32::MIN <= index <= i32::MAX
}

/// Each setter adds its part of the style.
proof fn lemma_setter(style: DivStyle, k: int)
    requires
        style_can_be_written(style),
        0 <= k < 32,
    ensures
        setter(style, k) matches Some(change) ==> change_is_sound(change),
        style_upto(style, k + 1) == match setter(style, k) {
            Some(change) => style_after(style_upto(style, k), change),
            None => style_upto(style, k),
        },
{
    reveal(setter);
    reveal(style_upto);
}

/// Before the first setter the style is plain, behind the last it is whole.
proof fn lemma_all_setters(style: DivStyle)
    requires
        style_can_be_written(style),
    ensures
        style_upto(style, 0) == plain_style(),
        style_upto(style, 32) == style,
{
    reveal(style_upto);
}

/// The setters before a number, as they stand in a buffer.
pub open spec fn setter_bytes(style: DivStyle, k: int) -> Seq<u8>
    decreases k,
{
    if k <= 0 {
        Seq::empty()
    } else {
        setter_bytes(style, k - 1) + match setter(style, k - 1) {
            Some(change) => command_bytes(CommandSpec::Style { change }),
            None => Seq::empty(),
        }
    }
}

/// The operands that describe a run.
pub open spec fn operands_of(run: TextRunSpec) -> RunOperands {
    RunOperands {
        start: run.start as u32,
        len: run.len as u32,
        flags: run.flags as u8,
        color: run.color,
        weight: run.weight,
        background: run.background,
    }
}

/// Runs as they stand in a buffer.
pub open spec fn run_bytes(runs: Seq<TextRunSpec>) -> Seq<u8>
    decreases runs.len(),
{
    if runs.len() == 0 {
        Seq::empty()
    } else {
        run_bytes(runs.drop_last()) + command_bytes(
            CommandSpec::AddRun { run: operands_of(runs.last()) },
        )
    }
}

/// A row as it stands in a buffer, where there is one.
pub open spec fn row_bytes(row: Option<RowSpec>) -> Seq<u8> {
    match row {
        Some(row) => command_bytes(CommandSpec::SetRow { row }),
        None => Seq::empty(),
    }
}

/// A key as it stands in a buffer, where there is one.
pub open spec fn key_bytes(key: Option<Seq<char>>) -> Seq<u8> {
    match key {
        Some(key) => command_bytes(CommandSpec::SetKey { key }),
        None => Seq::empty(),
    }
}

/// A font family as it stands in a buffer, where there is one.
pub open spec fn family_bytes(family: Option<Seq<char>>) -> Seq<u8> {
    match family {
        Some(family) => command_bytes(CommandSpec::SetFontFamily { family }),
        None => Seq::empty(),
    }
}

/// A tree as commands: the node with what describes it, then its children, each
/// followed by the command that attaches it.
pub open spec fn tree_bytes(tree: Tree) -> Seq<u8>
    decreases tree, 0int,
{
    match tree {
        Tree::Div { style, font_family, key, children } => command_bytes(CommandSpec::PushDiv) + (
        setter_bytes(style, 32) + (key_bytes(key) + (family_bytes(font_family) + children_bytes(
            children,
        )))),
        Tree::Text { content, color, size, runs, row } => command_bytes(
            CommandSpec::PushText { content, color, size },
        ) + (run_bytes(runs) + row_bytes(row)),
        Tree::Input { input_id, placeholder } => command_bytes(
            CommandSpec::PushInput { input_id, placeholder },
        ),
    }
}

/// The children of a div as commands.
pub open spec fn children_bytes(children: Seq<Tree>) -> Seq<u8>
    decreases children, 1int,
{
    if children.len() == 0 {
        Seq::empty()
    } else {
        children_bytes(children.drop_last()) + (tree_bytes(children.last()) + command_bytes(
            CommandSpec::AddChild,
        ))
    }
}

/// A tree as a command buffer.
pub open spec fn written(tree: Tree) -> Seq<u8> {
    seq![0x47u8, 0x50, 0x55, 0x49] + word_bytes(BUFFER_VERSION as u32) + (tree_bytes(tree)
        + command_bytes(CommandSpec::SetRoot))
}

/// Can commands describe a tree, besides that it is sound? Its styles can be
/// written and its runs have no other than the six style bits.
pub open spec fn tree_can_be_written(tree: Tree) -> bool
    decreases tree,
{
    match tree {
        Tree::Div { style, children, .. } => {
            &&& style_can_be_written(style)
            &&& forall|i: int|
                0 <= i < children.len() ==> tree_can_be_written(#[trigger] children[i])
        },
        Tree::Text { runs, .. } => forall|i: int|
            #![trigger runs[i]]
            0 <= i < runs.len() ==> 0 <= runs[i].flags < 0x40,
        Tree::Input { .. } => true,
    }
}

/// How many nodes a tree has.
pub open spec fn node_count(tree: Tree) -> nat
    decreases tree, 0int,
{
    match tree {
        Tree::Div { children, .. } => 1 + node_count_of_all(children),
        _ => 1,
    }
}

/// How many nodes trees have.
pub open spec fn node_count_of_all(trees: Seq<Tree>) -> nat
    decreases trees, 1int,
{
    if trees.len() == 0 {
        0
    } else {
        node_count_of_all(trees.drop_last()) + node_count(trees.last())
    }
}

proof fn lemma_nodes_take_bytes(tree: Tree)
    ensures
        node_count(tree) <= tree_bytes(tree).len(),
    decreases tree, 0int,
{
    match tree {
        Tree::Div { children, .. } => lemma_all_nodes_take_bytes(children),
        _ => {},
    }
}

proof fn lemma_all_nodes_take_bytes(trees: Seq<Tree>)
    ensures
        node_count_of_all(trees) <= children_bytes(trees).len(),
    decreases trees, 1int,
{
    if trees.len() > 0 {
        lemma_all_nodes_take_bytes(trees.drop_last());
        lemma_nodes_take_bytes(trees.last());
    }
}

/// What the commands from a position on make of a machine.
#[verifier::opaque]
pub open spec fn outcome(data: Seq<u8>, at: int, machine: Machine) -> Result<Machine, i32> {
    run(data, at, machine)
}

/// A command that can be carried out is.
proof fn lemma_command_runs(
    data: Seq<u8>,
    at: int,
    machine: Machine,
    command: CommandSpec,
    after: Machine,
)
    requires
        stands(data, at, command_bytes(command)),
        can_be_written(command),
        step(machine, command) == Ok::<Machine, i32>(after),
    ensures
        outcome(data, at, machine) == outcome(data, at + command_bytes(command).len(), after),
{
    reveal(outcome);
    law_written_command_reads_back(data, at, command);
}

/// The machine with another tree on top.
pub open spec fn topped(machine: Machine, tree: Tree) -> Machine {
    Machine { stack: machine.stack.drop_last().push(tree), ..machine }
}

/// The machine with a tree pushed that took a number of nodes.
pub open spec fn pushed(machine: Machine, tree: Tree, nodes: nat) -> Machine {
    Machine {
        created: machine.created + nodes,
        stack: machine.stack.push(tree),
        root: machine.root,
    }
}

proof fn lemma_setters_run(data: Seq<u8>, at: int, machine: Machine, style: DivStyle, k: int)
    requires
        0 <= k <= 32,
        style_can_be_written(style),
        machine.stack.len() > 0,
        machine.stack.last() is Div,
        machine.stack.last()->Div_style == plain_style(),
        stands(data, at, setter_bytes(style, k)),
    ensures
        outcome(data, at, machine) == outcome(
            data,
            at + setter_bytes(style, k).len(),
            topped(machine, restyled(machine.stack.last(), style_upto(style, k))),
        ),
    decreases k,
{
    let top = machine.stack.last();
    if k == 0 {
        lemma_all_setters(style);
        assert(restyled(top, plain_style()) == top);
        assert(topped(machine, top).stack =~= machine.stack);
        assert(topped(machine, top) == machine);
    } else {
        let before = setter_bytes(style, k - 1);
        let piece = match setter(style, k - 1) {
            Some(change) => command_bytes(CommandSpec::Style { change }),
            None => Seq::empty(),
        };
        lemma_stands_both(data, at, before, piece);
        lemma_setters_run(data, at, machine, style, k - 1);
        lemma_setter(style, k - 1);
        if let Some(change) = setter(style, k - 1) {
            let middle = topped(machine, restyled(top, style_upto(style, k - 1)));
            let after = topped(machine, restyled(top, style_upto(style, k)));
            assert(middle.stack.drop_last() =~= machine.stack.drop_last());
            assert(step(middle, CommandSpec::Style { change }) == Ok::<Machine, i32>(after));
            lemma_command_runs(
                data,
                at + before.len(),
                middle,
                CommandSpec::Style { change },
                after,
            );
        }
    }
}

proof fn lemma_runs_run(
    data: Seq<u8>,
    at: int,
    machine: Machine,
    content: Seq<char>,
    color: Rgb,
    size: LayoutPx,
    runs: Seq<TextRunSpec>,
)
    requires
        machine.stack.len() > 0,
        machine.stack.last() == (Tree::Text {
            content,
            color,
            size,
            runs: Seq::empty(),
            row: None,
        }),
        runs_are_sound(runs, content),
        text_is_short(content),
        forall|i: int| #![trigger runs[i]] 0 <= i < runs.len() ==> 0 <= runs[i].flags < 0x40,
        stands(data, at, run_bytes(runs)),
    ensures
        outcome(data, at, machine) == outcome(
            data,
            at + run_bytes(runs).len(),
            topped(machine, Tree::Text { content, color, size, runs, row: None }),
        ),
    decreases runs.len(),
{
    if runs.len() == 0 {
        assert(runs =~= Seq::empty());
        let same = topped(machine, machine.stack.last());
        assert(same.stack =~= machine.stack);
        assert(same == machine);
    } else {
        let fewer = runs.drop_last();
        let last = runs.last();
        let command = CommandSpec::AddRun { run: operands_of(last) };
        lemma_stands_both(data, at, run_bytes(fewer), command_bytes(command));
        assert forall|i: int| 0 <= i < fewer.len() implies #[trigger] run_fits(
            fewer[i],
            content,
        ) by {
            assert(run_fits(runs[i], content));
        }
        assert forall|i: int, j: int|
            #![trigger fewer[i], fewer[j]]
            0 <= i < j < fewer.len() implies fewer[i].start + fewer[i].len <= fewer[j].start by {
            assert(runs[i].start + runs[i].len <= runs[j].start);
        }
        lemma_runs_run(data, at, machine, content, color, size, fewer);
        let middle = topped(machine, Tree::Text { content, color, size, runs: fewer, row: None });
        let after = topped(machine, Tree::Text { content, color, size, runs, row: None });
        assert(run_fits(runs[runs.len() - 1], content));
        let flags = last.flags as u8;
        assert(flags & 0xc0 == 0) by (bit_vector)
            requires
                flags < 0x40,
        ;
        assert(run_of(operands_of(last)) == last);
        if fewer.len() > 0 {
            assert(runs[runs.len() - 2].start + runs[runs.len() - 2].len <= runs[runs.len()
                - 1].start);
        }
        assert(run_admitted(last, content, fewer));
        assert(fewer.push(last) =~= runs);
        assert(middle.stack.drop_last() =~= machine.stack.drop_last());
        assert(step(middle, command) == Ok::<Machine, i32>(after));
        lemma_command_runs(data, at + run_bytes(fewer).len(), middle, command, after);
    }
}

proof fn lemma_text_runs(
    data: Seq<u8>,
    at: int,
    machine: Machine,
    content: Seq<char>,
    color: Rgb,
    size: LayoutPx,
    runs: Seq<TextRunSpec>,
    row: Option<RowSpec>,
)
    requires
        is_layout_length(size),
        runs_are_sound(runs, content),
        forall|i: int| #![trigger runs[i]] 0 <= i < runs.len() ==> 0 <= runs[i].flags < 0x40,
        tree_bytes(Tree::Text { content, color, size, runs, row }).len() <= u32::MAX,
        machine.created <= i32::MAX,
        stands(data, at, tree_bytes(Tree::Text { content, color, size, runs, row })),
    ensures
        outcome(data, at, machine) == outcome(
            data,
            at + tree_bytes(Tree::Text { content, color, size, runs, row }).len(),
            pushed(machine, Tree::Text { content, color, size, runs, row }, 1),
        ),
{
    let command = CommandSpec::PushText { content, color, size };
    let rest = run_bytes(runs) + row_bytes(row);
    lemma_stands_both(data, at, command_bytes(command), rest);
    let fresh = Tree::Text { content, color, size, runs: Seq::empty(), row: None };
    let first = pushed(machine, fresh, 1);
    lemma_command_runs(data, at, machine, command, first);
    let at1 = at + command_bytes(command).len();
    lemma_stands_both(data, at1, run_bytes(runs), row_bytes(row));
    lemma_runs_run(data, at1, first, content, color, size, runs);
    let styled = Tree::Text { content, color, size, runs, row: None };
    let second = pushed(machine, styled, 1);
    assert(topped(first, styled).stack =~= second.stack);
    if let Some(named) = row {
        let command = CommandSpec::SetRow { row: named };
        let whole = Tree::Text { content, color, size, runs, row };
        assert(second.stack.drop_last() =~= machine.stack);
        assert(step(second, command) == Ok::<Machine, i32>(pushed(machine, whole, 1)));
        lemma_command_runs(data, at1 + run_bytes(runs).len(), second, command, pushed(machine, whole, 1));
    }
}

proof fn lemma_tree_runs(data: Seq<u8>, at: int, machine: Machine, tree: Tree)
    requires
        tree_is_sound(tree),
        tree_can_be_written(tree),
        tree_bytes(tree).len() <= u32::MAX,
        machine.created + node_count(tree) <= i32::MAX + 1,
        stands(data, at, tree_bytes(tree)),
    ensures
        outcome(data, at, machine) == outcome(
            data,
            at + tree_bytes(tree).len(),
            pushed(machine, tree, node_count(tree)),
        ),
    decreases tree, 0int,
{
    match tree {
        Tree::Div { style, font_family, key, children } => {
            let start = CommandSpec::PushDiv;
            let families = family_bytes(font_family) + children_bytes(children);
            let keys = key_bytes(key) + families;
            let setters = setter_bytes(style, 32) + keys;
            lemma_stands_both(data, at, command_bytes(start), setters);
            let plain = Tree::Div {
                style: plain_style(),
                font_family: None,
                key: None,
                children: Seq::empty(),
            };
            let first = pushed(machine, plain, 1);
            lemma_command_runs(data, at, machine, start, first);
            let at1 = at + command_bytes(start).len();
            lemma_stands_both(data, at1, setter_bytes(style, 32), keys);
            lemma_setters_run(data, at1, first, style, 32);
            lemma_all_setters(style);
            let styled = Tree::Div {
                style,
                font_family: None,
                key: None,
                children: Seq::empty(),
            };
            let second = pushed(machine, styled, 1);
            assert(topped(first, styled).stack =~= second.stack);
            let at2 = at1 + setter_bytes(style, 32).len();
            lemma_stands_both(data, at2, key_bytes(key), families);
            let keyed = Tree::Div { style, font_family: None, key, children: Seq::empty() };
            let third = pushed(machine, keyed, 1);
            if let Some(name) = key {
                let command = CommandSpec::SetKey { key: name };
                assert(second.stack.drop_last() =~= machine.stack);
                assert(step(second, command) == Ok::<Machine, i32>(third));
                lemma_command_runs(data, at2, second, command, third);
            }
            let at3 = at2 + key_bytes(key).len();
            lemma_stands_both(data, at3, family_bytes(font_family), children_bytes(children));
            let bare = Tree::Div { style, font_family, key, children: Seq::empty() };
            let fourth = pushed(machine, bare, 1);
            if let Some(family) = font_family {
                let command = CommandSpec::SetFontFamily { family };
                assert(third.stack.drop_last() =~= machine.stack);
                assert(step(third, command) == Ok::<Machine, i32>(fourth));
                lemma_command_runs(data, at3, third, command, fourth);
            }
            let at4 = at3 + family_bytes(font_family).len();
            assert forall|i: int| 0 <= i < children.len() implies tree_is_sound(
                #[trigger] children[i],
            ) by {}
            assert forall|i: int| 0 <= i < children.len() implies tree_can_be_written(
                #[trigger] children[i],
            ) by {}
            lemma_children_run(data, at4, machine, style, font_family, key, children);
        },
        Tree::Text { content, color, size, runs, row } => {
            lemma_text_runs(data, at, machine, content, color, size, runs, row);
        },
        Tree::Input { input_id, placeholder } => {
            let command = CommandSpec::PushInput { input_id, placeholder };
            lemma_command_runs(data, at, machine, command, pushed(machine, tree, 1));
        },
    }
}

proof fn lemma_children_run(
    data: Seq<u8>,
    at: int,
    machine: Machine,
    style: DivStyle,
    font_family: Option<Seq<char>>,
    key: Option<Seq<char>>,
    children: Seq<Tree>,
)
    requires
        forall|i: int| 0 <= i < children.len() ==> tree_is_sound(#[trigger] children[i]),
        forall|i: int| 0 <= i < children.len() ==> tree_can_be_written(#[trigger] children[i]),
        children_bytes(children).len() <= u32::MAX,
        machine.created + 1 + node_count_of_all(children) <= i32::MAX + 1,
        stands(data, at, children_bytes(children)),
    ensures
        outcome(
            data,
            at,
            pushed(machine, Tree::Div { style, font_family, key, children: Seq::empty() }, 1),
        ) == outcome(
            data,
            at + children_bytes(children).len(),
            pushed(
                machine,
                Tree::Div { style, font_family, key, children },
                1 + node_count_of_all(children),
            ),
        ),
    decreases children, 1int,
{
    if children.len() == 0 {
        assert(children =~= Seq::empty());
    } else {
        let fewer = children.drop_last();
        let last = children.last();
        let attach = CommandSpec::AddChild;
        let tail = tree_bytes(last) + command_bytes(attach);
        lemma_stands_both(data, at, children_bytes(fewer), tail);
        assert forall|i: int| 0 <= i < fewer.len() implies tree_is_sound(#[trigger] fewer[i]) by {
            assert(tree_is_sound(children[i]));
        }
        assert forall|i: int| 0 <= i < fewer.len() implies tree_can_be_written(
            #[trigger] fewer[i],
        ) by {
            assert(tree_can_be_written(children[i]));
        }
        lemma_children_run(data, at, machine, style, font_family, key, fewer);
        let at1 = at + children_bytes(fewer).len();
        lemma_stands_both(data, at1, tree_bytes(last), command_bytes(attach));
        assert(tree_is_sound(children[children.len() - 1]));
        assert(tree_can_be_written(children[children.len() - 1]));
        let parent = Tree::Div { style, font_family, key, children: fewer };
        let whole = Tree::Div { style, font_family, key, children };
        let middle = pushed(machine, parent, 1 + node_count_of_all(fewer));
        lemma_tree_runs(data, at1, middle, last);
        let both = pushed(middle, last, node_count(last));
        let after = pushed(machine, whole, 1 + node_count_of_all(children));
        assert(fewer.push(last) =~= children);
        assert(both.stack.drop_last().drop_last() =~= machine.stack);
        assert(step(both, attach) == Ok::<Machine, i32>(after));
        lemma_command_runs(data, at1 + tree_bytes(last).len(), both, attach, after);
    }
}

/// At the end of the buffer the machine is as it stands.
proof fn lemma_end(data: Seq<u8>, machine: Machine)
    ensures
        outcome(data, data.len() as int, machine) == Ok::<Machine, i32>(machine),
{
    reveal(outcome);
}

proof fn lemma_outcome_is_run(data: Seq<u8>, at: int, machine: Machine)
    ensures
        outcome(data, at, machine) == run(data, at, machine),
{
    reveal(outcome);
}

/// A written tree starts with a good header, with the commands behind it.
proof fn lemma_header(tree: Tree)
    ensures
        header_is_good(written(tree)),
        stands(
            written(tree),
            8,
            tree_bytes(tree) + command_bytes(CommandSpec::SetRoot),
        ),
        written(tree).len() == 8 + tree_bytes(tree).len() + command_bytes(
            CommandSpec::SetRoot,
        ).len(),
{
    let data = written(tree);
    let magic = seq![0x47u8, 0x50, 0x55, 0x49];
    let version = word_bytes(BUFFER_VERSION as u32);
    let body = tree_bytes(tree) + command_bytes(CommandSpec::SetRoot);
    assert(stands(data, 0, (magic + version) + body)) by {
        assert(data.subrange(0, data.len() as int) =~= data);
    }
    lemma_word_size(BUFFER_VERSION as u32);
    lemma_stands_both(data, 0, magic + version, body);
    lemma_stands_both(data, 0, magic, version);
    lemma_stands_byte(data, 0, magic, 0);
    lemma_stands_byte(data, 0, magic, 1);
    lemma_stands_byte(data, 0, magic, 2);
    lemma_stands_byte(data, 0, magic, 3);
    lemma_word(data, 4, BUFFER_VERSION as u32);
}

/// A tree that is written as commands and that passes the checks is decoded to
/// itself: every node once, children in their order, nothing dropped or changed.
pub proof fn law_written_tree_is_decoded(tree: Tree)
    requires
        tree_is_sound(tree),
        tree_can_be_written(tree),
        check_tree(tree) == GPUI_STATUS_OK,
        written(tree).len() <= i32::MAX,
    ensures
        decode(written(tree)) == Ok::<Tree, i32>(tree),
        forall|view: i32|
            view >= 0 ==> #[trigger] build_status(
                view,
                Some(written(tree)),
                written(tree).len() as i32,
            ) == GPUI_STATUS_OK,
{
    let data = written(tree);
    lemma_header(tree);
    let root = command_bytes(CommandSpec::SetRoot);
    lemma_stands_both(data, 8, tree_bytes(tree), root);
    lemma_nodes_take_bytes(tree);
    lemma_tree_runs(data, 8, empty_machine(), tree);
    let full = pushed(empty_machine(), tree, node_count(tree));
    let done = step(full, CommandSpec::SetRoot)->Ok_0;
    assert(step(full, CommandSpec::SetRoot) == Ok::<Machine, i32>(done));
    assert(done.root == Some(tree));
    lemma_command_runs(
        data,
        8 + tree_bytes(tree).len() as int,
        full,
        CommandSpec::SetRoot,
        done,
    );
    lemma_end(data, done);
    lemma_outcome_is_run(data, 8, empty_machine());
}

/// Can every tree be written that the machine holds?
pub open spec fn machine_can_be_written(machine: Machine) -> bool {
    &&& forall|i: int|
        0 <= i < machine.stack.len() ==> #[trigger] tree_can_be_written(machine.stack[i])
    &&& machine.root matches Some(root) ==> tree_can_be_written(root)
}

/// A change leaves a style that can be written.
proof fn lemma_changed_style_can_be_written(style: DivStyle, change: StyleChange)
    requires
        style_can_be_written(style),
        change_is_sound(change),
    ensures
        style_can_be_written(style_after(style, change)),
{
    law_changes_keep_styles_sound(style, change);
}

/// A run with none but the six style bits has flags below the next bit.
proof fn lemma_known_flags(flags: u8)
    requires
        run_flags_known(flags),
    ensures
        flags < 0x40,
{
    assert(flags & 0xc0 == 0 ==> flags < 0x40) by (bit_vector);
}

proof fn lemma_step_can_be_written(machine: Machine, command: CommandSpec)
    requires
        machine_can_be_written(machine),
        command_is_sound(command),
    ensures
        step(machine, command) matches Ok(next) ==> machine_can_be_written(next),
{
    let result = step(machine, command);
    if result is Ok {
        let next = result->Ok_0;
        if machine.stack.len() > 0 {
            assert(tree_can_be_written(machine.stack.last()));
        }
        match command {
            CommandSpec::AddRun { run } => lemma_known_flags(run.flags),
            CommandSpec::Style { change } => {
                lemma_changed_style_can_be_written(machine.stack.last()->Div_style, change);
            },
            CommandSpec::AddChild => {
                assert(tree_can_be_written(machine.stack[machine.stack.len() - 2]));
            },
            _ => {},
        }
        assert forall|i: int| 0 <= i < next.stack.len() implies #[trigger] tree_can_be_written(
            next.stack[i],
        ) by {
            if i < machine.stack.len() {
                assert(tree_can_be_written(machine.stack[i]));
            }
        }
    }
}

proof fn lemma_run_can_be_written(data: Seq<u8>, at: int, machine: Machine)
    requires
        machine_can_be_written(machine),
    ensures
        run(data, at, machine) matches Ok(finished) ==> machine_can_be_written(finished),
    decreases data.len() - at,
{
    if 0 <= at < data.len() {
        lemma_parse_advances(data, at);
        lemma_parsed_is_sound(data, at);
        if let Ok((command, next)) = parse_command(data, at) {
            if let Ok(stepped) = step(machine, command) {
                lemma_step_can_be_written(machine, command);
                lemma_run_can_be_written(data, next, stepped);
            }
        }
    }
}

/// Every tree that a buffer decodes to can be written again, and where the
/// result has a length that a buffer can have it decodes to the same tree.
pub proof fn law_decoded_tree_can_be_written(data: Seq<u8>)
    requires
        decode(data) is Ok,
    ensures
        ({
            let tree = decode(data)->Ok_0;
            &&& tree_can_be_written(tree)
            &&& written(tree).len() <= i32::MAX ==> decode(written(tree)) == decode(data)
        }),
{
    let tree = decode(data)->Ok_0;
    law_decoded_tree_is_sound(data);
    lemma_run_can_be_written(data, 8, empty_machine());
    if written(tree).len() <= i32::MAX {
        law_written_tree_is_decoded(tree);
    }
}

} // verus!
