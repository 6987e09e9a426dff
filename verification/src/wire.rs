//! The command buffer: a header, then a sequence of commands, each an opcode
//! byte followed by its operands. Multi-byte integers are little-endian.
use crate::abi::{
    GPUI_STATUS_INVALID_FLOAT, GPUI_STATUS_TRUNCATED_BUFFER, GPUI_STATUS_UNKNOWN_OPCODE,
    OP_ADD_CHILD, OP_DIV, OP_SET_ALIGN, OP_SET_BG, OP_SET_BG_COLOR, OP_SET_BORDER, OP_SET_CENTER,
    OP_SET_CURSOR, OP_SET_FLEX, OP_SET_FLEX_ITEM, OP_SET_FOCUSABLE, OP_SET_FONT_FAMILY,
    OP_SET_FONT_WEIGHT, OP_SET_GAP, OP_SET_INSET, OP_SET_KEY, OP_SET_LINE_HEIGHT, OP_SET_MARGIN,
    OP_SET_MAX_SIZE, OP_SET_MIN_SIZE, OP_SET_ON_CLICK, OP_SET_OPACITY, OP_SET_OVERFLOW,
    OP_SET_PADDING, OP_SET_PADDING_SIDES, OP_SET_POSITION, OP_SET_ROOT, OP_SET_ROUNDED,
    OP_SET_SCROLL_ID, OP_SET_SHADOW, OP_SET_SIZE, OP_SET_TAB_INDEX, OP_SET_TAB_STOP,
    OP_SET_TEXT_ALIGN, OP_SET_TEXT_COLOR, OP_SET_TEXT_ROW, OP_SET_TEXT_SIZE, OP_SET_WHITESPACE,
    OP_TEXT, OP_TEXT_INPUT, OP_TEXT_RUN,
};
use crate::float::{
    clamp_bits, is_finite, is_layout_length, law_clamp_is_numeric, max_units, numeric, LayoutPx,
};
use crate::node::{change_is_sound, Rgb, Rgba, RowSpec, Shadow, Sides, StyleChange, TextRow};
use crate::text::{read_lossy, signed, to_signed, lossy, word_at};
use vstd::prelude::*;
use vstd::slice::slice_subrange;

verus! {

/// The operands of a styled run, as they stand in the buffer.
#[derive(Clone, Copy, PartialEq, Eq, Debug)]
pub struct RunOperands {
    pub start: u32,
    pub len: u32,
    pub flags: u8,
    pub color: Rgba,
    pub weight: i32,
    pub background: Rgba,
}

/// One command of the buffer.
pub enum Command {
    /// Creates a div and pushes it.
    PushDiv,
    /// Creates a text and pushes it.
    PushText { content: String, color: Rgb, size: LayoutPx },
    /// Creates a text input and pushes it.
    PushInput { input_id: i32, placeholder: String },
    /// Appends a styled run to the text on top.
    AddRun { run: RunOperands },
    /// Makes the text on top a row.
    SetRow { row: TextRow },
    /// Changes the style of the div on top.
    Style { change: StyleChange },
    /// Gives the div on top a key.
    SetKey { key: String },
    /// Gives the div on top a font family.
    SetFontFamily { family: String },
    /// Pops a child and appends it to the div below it.
    AddChild,
    /// Pops the root.
    SetRoot,
}

/// What a command says.
#[verifier::ext_equal]
pub enum CommandSpec {
    PushDiv,
    PushText { content: Seq<char>, color: Rgb, size: LayoutPx },
    PushInput { input_id: i32, placeholder: Seq<char> },
    AddRun { run: RunOperands },
    SetRow { row: RowSpec },
    Style { change: StyleChange },
    SetKey { key: Seq<char> },
    SetFontFamily { family: Seq<char> },
    AddChild,
    SetRoot,
}

impl View for Command {
    type V = CommandSpec;

    open spec fn view(&self) -> CommandSpec {
        match *self {
            Command::PushDiv => CommandSpec::PushDiv,
            Command::PushText { content, color, size } => CommandSpec::PushText {
                content: content@,
                color,
                size,
            },
            Command::PushInput { input_id, placeholder } => CommandSpec::PushInput {
                input_id,
                placeholder: placeholder@,
            },
            Command::AddRun { run } => CommandSpec::AddRun { run },
            Command::SetRow { row } => CommandSpec::SetRow { row: row@ },
            Command::Style { change } => CommandSpec::Style { change },
            Command::SetKey { key } => CommandSpec::SetKey { key: key@ },
            Command::SetFontFamily { family } => CommandSpec::SetFontFamily { family: family@ },
            Command::AddChild => CommandSpec::AddChild,
            Command::SetRoot => CommandSpec::SetRoot,
        }
    }
}

/// The lengths a command brings are layout lengths.
pub open spec fn command_is_sound(command: CommandSpec) -> bool {
    match command {
        CommandSpec::PushText { size, .. } => is_layout_length(size),
        CommandSpec::Style { change } => change_is_sound(change),
        _ => true,
    }
}

/// A command and the position after it, or the status that rejects the buffer.
pub type Parsed = Result<(CommandSpec, int), i32>;

/// Do `count` bytes stand at a position?
pub open spec fn holds(data: Seq<u8>, at: int, count: int) -> bool {
    0 <= at && at + count <= data.len()
}

/// The signed word at a position.
pub open spec fn int_at(data: Seq<u8>, at: int) -> i32 {
    signed(word_at(data, at))
}

/// The color at a position.
pub open spec fn rgb_at(data: Seq<u8>, at: int) -> Rgb {
    (data[at], data[at + 1], data[at + 2])
}

/// The color with alpha at a position.
pub open spec fn rgba_at(data: Seq<u8>, at: int) -> Rgba {
    (data[at], data[at + 1], data[at + 2], data[at + 3])
}

/// The four sides at a position.
pub open spec fn sides_at(data: Seq<u8>, at: int) -> Sides {
    (int_at(data, at), int_at(data, at + 4), int_at(data, at + 8), int_at(data, at + 12))
}

/// The layout length at a position, or the status that rejects the buffer.
pub open spec fn length_at(data: Seq<u8>, at: int) -> Result<LayoutPx, i32> {
    if !holds(data, at, 4) {
        Err(GPUI_STATUS_TRUNCATED_BUFFER)
    } else if !is_finite(word_at(data, at)) {
        Err(GPUI_STATUS_INVALID_FLOAT)
    } else {
        Ok(LayoutPx { bits: clamp_bits(word_at(data, at)) })
    }
}

/// Does a whole text, its byte count and its bytes, stand at a position?
pub open spec fn has_text(data: Seq<u8>, at: int) -> bool {
    holds(data, at, 4) && holds(data, at + 4, word_at(data, at) as int)
}

/// The position after the text at a position.
pub open spec fn after_text(data: Seq<u8>, at: int) -> int {
    at + 4 + word_at(data, at)
}

/// The text at a position.
pub open spec fn text_at(data: Seq<u8>, at: int) -> Seq<char> {
    lossy(data.subrange(at + 4, after_text(data, at)))
}

/// A command whose operands take a fixed number of bytes.
pub open spec fn fixed(data: Seq<u8>, at: int, count: int, command: CommandSpec) -> Parsed {
    if holds(data, at, count) {
        Ok((command, at + count))
    } else {
        Err(GPUI_STATUS_TRUNCATED_BUFFER)
    }
}

/// A style change whose operands take a fixed number of bytes.
pub open spec fn fixed_style(data: Seq<u8>, at: int, count: int, change: StyleChange) -> Parsed {
    fixed(data, at, count, CommandSpec::Style { change })
}

/// A style change whose operand is one layout length.
pub open spec fn length_style(
    data: Seq<u8>,
    at: int,
    change: spec_fn(LayoutPx) -> StyleChange,
) -> Parsed {
    match length_at(data, at) {
        Ok(length) => Ok((CommandSpec::Style { change: change(length) }, at + 4)),
        Err(status) => Err(status),
    }
}

/// Text: its content, its color, its size.
pub open spec fn parse_text(data: Seq<u8>, at: int) -> Parsed {
    let color_at = after_text(data, at);
    if !has_text(data, at) || !holds(data, color_at, 3) {
        Err(GPUI_STATUS_TRUNCATED_BUFFER)
    } else {
        match length_at(data, color_at + 3) {
            Ok(size) => Ok(
                (
                    CommandSpec::PushText {
                        content: text_at(data, at),
                        color: rgb_at(data, color_at),
                        size,
                    },
                    color_at + 7,
                ),
            ),
            Err(status) => Err(status),
        }
    }
}

/// Text input: its id, its placeholder.
pub open spec fn parse_input(data: Seq<u8>, at: int) -> Parsed {
    if !holds(data, at, 4) || !has_text(data, at + 4) {
        Err(GPUI_STATUS_TRUNCATED_BUFFER)
    } else {
        Ok(
            (
                CommandSpec::PushInput {
                    input_id: int_at(data, at),
                    placeholder: text_at(data, at + 4),
                },
                after_text(data, at + 4),
            ),
        )
    }
}

/// Styled run: start, length, flags, color, weight, background.
pub open spec fn parse_run(data: Seq<u8>, at: int) -> Parsed {
    fixed(
        data,
        at,
        21,
        CommandSpec::AddRun {
            run: RunOperands {
                start: word_at(data, at),
                len: word_at(data, at + 4),
                flags: data[at + 8],
                color: rgba_at(data, at + 9),
                weight: int_at(data, at + 13),
                background: rgba_at(data, at + 17),
            },
        },
    )
}

/// Row: its key, whether there is a caret and where, its color, whether it
/// blinks.
pub open spec fn parse_row(data: Seq<u8>, at: int) -> Parsed {
    let tail = after_text(data, at);
    if !has_text(data, at) || !holds(data, tail, 9) {
        Err(GPUI_STATUS_TRUNCATED_BUFFER)
    } else {
        let row = RowSpec {
            key: text_at(data, at),
            caret: if data[tail] != 0 {
                Some(word_at(data, tail + 1))
            } else {
                None
            },
            color: rgb_at(data, tail + 5),
            blink: data[tail + 8] != 0,
        };
        Ok((CommandSpec::SetRow { row }, tail + 9))
    }
}

/// Size: width, then height.
pub open spec fn parse_size(data: Seq<u8>, at: int) -> Parsed {
    match length_at(data, at) {
        Err(status) => Err(status),
        Ok(width) => match length_at(data, at + 4) {
            Err(status) => Err(status),
            Ok(height) => Ok(
                (CommandSpec::Style { change: StyleChange::Size { width, height } }, at + 8),
            ),
        },
    }
}

/// Border: its width, then its color.
pub open spec fn parse_border(data: Seq<u8>, at: int) -> Parsed {
    match length_at(data, at) {
        Err(status) => Err(status),
        Ok(width) => fixed_style(
            data,
            at,
            7,
            StyleChange::Border { width, rgb: rgb_at(data, at + 4) },
        ),
    }
}

/// Shadow: offsets, blur and spread, then the color.
pub open spec fn parse_shadow(data: Seq<u8>, at: int) -> Parsed {
    fixed_style(
        data,
        at,
        20,
        StyleChange::Shadow {
            shadow: Shadow {
                x: int_at(data, at),
                y: int_at(data, at + 4),
                blur: int_at(data, at + 8),
                spread: int_at(data, at + 12),
                color: rgba_at(data, at + 16),
            },
        },
    )
}

/// The commands that create, name and connect nodes; `None` for other opcodes.
pub open spec fn parse_structure(op: i32, data: Seq<u8>, at: int) -> Option<Parsed> {
    if op == OP_DIV {
        Some(Ok((CommandSpec::PushDiv, at)))
    } else if op == OP_TEXT {
        Some(parse_text(data, at))
    } else if op == OP_TEXT_RUN {
        Some(parse_run(data, at))
    } else if op == OP_SET_TEXT_ROW {
        Some(parse_row(data, at))
    } else if op == OP_TEXT_INPUT {
        Some(parse_input(data, at))
    } else if op == OP_SET_KEY {
        Some(
            if has_text(data, at) {
                Ok((CommandSpec::SetKey { key: text_at(data, at) }, after_text(data, at)))
            } else {
                Err(GPUI_STATUS_TRUNCATED_BUFFER)
            },
        )
    } else if op == OP_SET_FONT_FAMILY {
        Some(
            if has_text(data, at) {
                Ok((CommandSpec::SetFontFamily { family: text_at(data, at) }, after_text(data, at)))
            } else {
                Err(GPUI_STATUS_TRUNCATED_BUFFER)
            },
        )
    } else if op == OP_ADD_CHILD {
        Some(Ok((CommandSpec::AddChild, at)))
    } else if op == OP_SET_ROOT {
        Some(Ok((CommandSpec::SetRoot, at)))
    } else {
        None
    }
}

/// The setters of box geometry and color; `None` for other opcodes.
pub open spec fn parse_box(op: i32, data: Seq<u8>, at: int) -> Option<Parsed> {
    if op == OP_SET_SIZE {
        Some(parse_size(data, at))
    } else if op == OP_SET_BG {
        Some(fixed_style(data, at, 3, StyleChange::Bg { rgb: rgb_at(data, at) }))
    } else if op == OP_SET_FLEX {
        Some(fixed_style(data, at, 1, StyleChange::Flex { column: data[at] != 0 }))
    } else if op == OP_SET_CENTER {
        Some(fixed_style(data, at, 0, StyleChange::Center))
    } else if op == OP_SET_GAP {
        Some(length_style(data, at, |gap: LayoutPx| StyleChange::Gap { gap }))
    } else if op == OP_SET_ROUNDED {
        Some(length_style(data, at, |radius: LayoutPx| StyleChange::Rounded { radius }))
    } else if op == OP_SET_PADDING {
        Some(length_style(data, at, |padding: LayoutPx| StyleChange::Padding { padding }))
    } else if op == OP_SET_BORDER {
        Some(parse_border(data, at))
    } else if op == OP_SET_BG_COLOR {
        Some(fixed_style(data, at, 4, StyleChange::BgColor { rgba: rgba_at(data, at) }))
    } else if op == OP_SET_MARGIN {
        Some(fixed_style(data, at, 16, StyleChange::Margin { sides: sides_at(data, at) }))
    } else if op == OP_SET_MIN_SIZE {
        Some(
            fixed_style(
                data,
                at,
                8,
                StyleChange::MinSize { w: int_at(data, at), h: int_at(data, at + 4) },
            ),
        )
    } else if op == OP_SET_MAX_SIZE {
        Some(
            fixed_style(
                data,
                at,
                8,
                StyleChange::MaxSize { w: int_at(data, at), h: int_at(data, at + 4) },
            ),
        )
    } else if op == OP_SET_SHADOW {
        Some(parse_shadow(data, at))
    } else if op == OP_SET_INSET {
        Some(fixed_style(data, at, 16, StyleChange::Inset { sides: sides_at(data, at) }))
    } else if op == OP_SET_PADDING_SIDES {
        Some(fixed_style(data, at, 16, StyleChange::PaddingSides { sides: sides_at(data, at) }))
    } else {
        None
    }
}

/// The setters of layout and appearance by id; `None` for other opcodes.
pub open spec fn parse_layout(op: i32, data: Seq<u8>, at: int) -> Option<Parsed> {
    if op == OP_SET_FLEX_ITEM {
        Some(
            fixed_style(
                data,
                at,
                12,
                StyleChange::FlexItem {
                    grow: int_at(data, at),
                    shrink: int_at(data, at + 4),
                    basis: int_at(data, at + 8),
                },
            ),
        )
    } else if op == OP_SET_ALIGN {
        Some(
            fixed_style(
                data,
                at,
                8,
                StyleChange::Align { items: int_at(data, at), justify: int_at(data, at + 4) },
            ),
        )
    } else if op == OP_SET_OVERFLOW {
        Some(
            fixed_style(
                data,
                at,
                8,
                StyleChange::Overflow { x: int_at(data, at), y: int_at(data, at + 4) },
            ),
        )
    } else if op == OP_SET_TEXT_COLOR {
        Some(fixed_style(data, at, 4, StyleChange::TextColor { rgba: rgba_at(data, at) }))
    } else {
        None
    }
}

/// The setters whose operand is one signed word; `None` for other opcodes.
pub open spec fn word_change(op: i32, value: i32) -> Option<StyleChange> {
    if op == OP_SET_ON_CLICK {
        Some(StyleChange::OnClick { click_id: value })
    } else if op == OP_SET_OPACITY {
        Some(StyleChange::Opacity { thousandths: value })
    } else if op == OP_SET_CURSOR {
        Some(StyleChange::Cursor { kind: value })
    } else if op == OP_SET_POSITION {
        Some(StyleChange::Position { mode: value })
    } else if op == OP_SET_TEXT_SIZE {
        Some(StyleChange::TextSize { size: value })
    } else if op == OP_SET_FONT_WEIGHT {
        Some(StyleChange::FontWeight { weight: value })
    } else if op == OP_SET_LINE_HEIGHT {
        Some(StyleChange::LineHeight { thousandths: value })
    } else if op == OP_SET_TEXT_ALIGN {
        Some(StyleChange::TextAlign { id: value })
    } else if op == OP_SET_WHITESPACE {
        Some(StyleChange::Whitespace { id: value })
    } else if op == OP_SET_FOCUSABLE {
        Some(StyleChange::Focusable { on: value != 0 })
    } else if op == OP_SET_TAB_INDEX {
        Some(StyleChange::TabIndex { index: value })
    } else if op == OP_SET_TAB_STOP {
        Some(StyleChange::TabStop { on: value != 0 })
    } else if op == OP_SET_SCROLL_ID {
        Some(StyleChange::ScrollId { scroll_id: value })
    } else {
        None
    }
}

/// The command whose opcode stands at a position.
pub open spec fn parse_command(data: Seq<u8>, at: int) -> Parsed {
    let op = data[at] as i32;
    match parse_structure(op, data, at + 1) {
        Some(parsed) => parsed,
        None => match parse_box(op, data, at + 1) {
            Some(parsed) => parsed,
            None => match parse_layout(op, data, at + 1) {
                Some(parsed) => parsed,
                None => match word_change(op, int_at(data, at + 1)) {
                    Some(change) => fixed_style(data, at + 1, 4, change),
                    None => Err(GPUI_STATUS_UNKNOWN_OPCODE),
                },
            },
        },
    }
}

/// A command ends behind its opcode and within the buffer.
pub proof fn lemma_parse_advances(data: Seq<u8>, at: int)
    requires
        0 <= at < data.len(),
    ensures
        parse_command(data, at) matches Ok((_, next)) ==> at < next <= data.len(),
{
}

/// The lengths that a command brings are layout lengths.
pub proof fn lemma_parsed_is_sound(data: Seq<u8>, at: int)
    ensures
        parse_command(data, at) matches Ok((command, _)) ==> command_is_sound(command),
{
    assert forall|p: int| (#[trigger] length_at(data, p)) is Ok implies is_layout_length(
        length_at(data, p)->Ok_0,
    ) by {}
}

/// A command that parses still does in a buffer that is cut behind it, and is
/// rejected as truncated in one that is cut within it.
#[verifier::spinoff_prover]
#[verifier::rlimit(60)]
pub proof fn lemma_cut_command(data: Seq<u8>, cut: int, at: int)
    requires
        0 <= at < cut <= data.len(),
        parse_command(data, at) is Ok,
    ensures
        (parse_command(data, at)->Ok_0).1 <= cut ==> parse_command(data.take(cut), at)
            == parse_command(data, at),
        (parse_command(data, at)->Ok_0).1 > cut ==> parse_command(data.take(cut), at) == Err::<
            (CommandSpec, int),
            i32,
        >(GPUI_STATUS_TRUNCATED_BUFFER),
{
    let short = data.take(cut);
    assert(short[at] == data[at]);
    assert forall|p: int| 0 <= p && p + 4 <= cut implies #[trigger] word_at(short, p) == word_at(
        data,
        p,
    ) by {}
    assert forall|a: int, b: int| 0 <= a <= b <= cut implies #[trigger] short.subrange(a, b)
        == data.subrange(a, b) by {
        assert(short.subrange(a, b) =~= data.subrange(a, b));
    }
}

/// Is the opcode one of those the buffer may hold?
pub open spec fn known_opcode(op: u8) -> bool {
    OP_DIV <= op <= OP_SET_TEXT_ROW
}

/// A command is rejected as unknown exactly where its opcode is not known.
pub proof fn law_unknown_opcode(data: Seq<u8>, at: int)
    requires
        0 <= at < data.len(),
    ensures
        parse_command(data, at) == Err::<(CommandSpec, int), i32>(GPUI_STATUS_UNKNOWN_OPCODE)
            <==> !known_opcode(data[at]),
{
}

/// A cursor over the buffer. A reader that finds too few bytes answers `None`.
pub struct BufferReader<'a> {
    pub data: &'a [u8],
    pub pos: usize,
}

impl<'a> BufferReader<'a> {
    /// The cursor stands within the buffer.
    pub open spec fn wf(&self) -> bool {
        self.pos <= self.data@.len()
    }

    /// What a reader of a fixed number of bytes does to the cursor.
    pub open spec fn read_fixed(before: Self, after: Self, count: int, found: bool) -> bool {
        &&& after.wf()
        &&& after.data == before.data
        &&& found == holds(before.data@, before.pos as int, count)
        &&& after.pos == before.pos + if found {
            count
        } else {
            0
        }
    }

    /// What a reader does to the cursor that reads units one by one: where too
    /// few bytes are left, it is past those units that are still there.
    pub open spec fn read_units(
        before: Self,
        after: Self,
        count: int,
        unit: int,
        found: bool,
    ) -> bool {
        &&& after.wf()
        &&& after.data == before.data
        &&& found == holds(before.data@, before.pos as int, count)
        &&& after.pos == before.pos + if found {
            count
        } else {
            (before.data@.len() - before.pos) / unit * unit
        }
    }

    /// A cursor at the start of a buffer.
    pub fn new(data: &'a [u8]) -> (reader: Self)
        ensures
            reader.wf(),
            reader.data == data,
            reader.pos == 0,
    {
        BufferReader { data, pos: 0 }
    }

    /// Are all bytes read?
    pub fn at_end(&self) -> (end: bool)
        requires
            self.wf(),
        ensures
            end == (self.pos == self.data@.len()),
    {
        self.pos == self.data.len()
    }

    /// Reads a byte.
    pub fn read_u8(&mut self) -> (value: Option<u8>)
        requires
            old(self).wf(),
        ensures
            Self::read_fixed(*old(self), *final(self), 1, value is Some),
            value is Some ==> value->0 == old(self).data@[old(self).pos as int],
    {
        if self.pos < self.data.len() {
            let byte: u8 = self.data[self.pos];
            self.pos = self.pos + 1;
            Some(byte)
        } else {
            None
        }
    }

    /// Reads an unsigned word.
    pub fn read_u32(&mut self) -> (value: Option<u32>)
        requires
            old(self).wf(),
        ensures
            Self::read_fixed(*old(self), *final(self), 4, value is Some),
            value is Some ==> value->0 == word_at(old(self).data@, old(self).pos as int),
    {
        if self.data.len() - self.pos >= 4 {
            let at: usize = self.pos;
            let word: u32 = self.data[at] as u32 + 0x100 * (self.data[at + 1] as u32) + 0x1_0000 * (
            self.data[at + 2] as u32) + 0x100_0000 * (self.data[at + 3] as u32);
            self.pos = at + 4;
            Some(word)
        } else {
            None
        }
    }

    /// Reads a signed word.
    pub fn read_i32(&mut self) -> (value: Option<i32>)
        requires
            old(self).wf(),
        ensures
            Self::read_fixed(*old(self), *final(self), 4, value is Some),
            value is Some ==> value->0 == int_at(old(self).data@, old(self).pos as int),
    {
        match self.read_u32() {
            Some(word) => Some(to_signed(word)),
            None => None,
        }
    }

    /// Reads a layout length.
    pub fn read_layout_f32(&mut self) -> (length: Result<LayoutPx, i32>)
        requires
            old(self).wf(),
        ensures
            final(self).wf(),
            final(self).data == old(self).data,
            length == length_at(old(self).data@, old(self).pos as int),
            final(self).pos == old(self).pos + if holds(old(self).data@, old(self).pos as int, 4) {
                4int
            } else {
                0
            },
            length is Ok ==> is_layout_length(length->Ok_0),
    {
        match self.read_u32() {
            None => Err(GPUI_STATUS_TRUNCATED_BUFFER),
            Some(bits) => match LayoutPx::from_bits(bits) {
                None => Err(GPUI_STATUS_INVALID_FLOAT),
                Some(length) => Ok(length),
            },
        }
    }

    /// Borrows a number of bytes.
    pub fn read_bytes(&mut self, len: usize) -> (bytes: Option<&'a [u8]>)
        requires
            old(self).wf(),
        ensures
            Self::read_fixed(*old(self), *final(self), len as int, bytes is Some),
            bytes is Some ==> bytes->0@ == old(self).data@.subrange(
                old(self).pos as int,
                old(self).pos + len,
            ),
    {
        if len <= self.data.len() - self.pos {
            let end: usize = self.pos + len;
            let bytes: &'a [u8] = slice_subrange(self.data, self.pos, end);
            self.pos = end;
            Some(bytes)
        } else {
            None
        }
    }

    /// Reads a text: its byte count, then its bytes. Parts that are not UTF-8
    /// are replaced.
    pub fn read_string(&mut self) -> (text: Option<String>)
        requires
            old(self).wf(),
        ensures
            final(self).wf(),
            final(self).data == old(self).data,
            text is Some <==> has_text(old(self).data@, old(self).pos as int),
            text is Some ==> text->0@ == text_at(old(self).data@, old(self).pos as int),
            final(self).pos == if text is Some {
                after_text(old(self).data@, old(self).pos as int)
            } else if holds(old(self).data@, old(self).pos as int, 4) {
                old(self).pos + 4
            } else {
                old(self).pos as int
            },
    {
        match self.read_u32() {
            None => None,
            Some(len) => match self.read_bytes(len as usize) {
                None => None,
                Some(bytes) => Some(read_lossy(bytes)),
            },
        }
    }

    /// Reads a color.
    pub fn read_rgb(&mut self) -> (color: Option<Rgb>)
        requires
            old(self).wf(),
        ensures
            Self::read_units(*old(self), *final(self), 3, 1, color is Some),
            color is Some ==> color->0 == rgb_at(old(self).data@, old(self).pos as int),
    {
        match (self.read_u8(), self.read_u8(), self.read_u8()) {
            (Some(r), Some(g), Some(b)) => Some((r, g, b)),
            _ => None,
        }
    }

    /// Reads a color with alpha.
    pub fn read_rgba(&mut self) -> (color: Option<Rgba>)
        requires
            old(self).wf(),
        ensures
            Self::read_units(*old(self), *final(self), 4, 1, color is Some),
            color is Some ==> color->0 == rgba_at(old(self).data@, old(self).pos as int),
    {
        match (self.read_rgb(), self.read_u8()) {
            (Some((r, g, b)), Some(a)) => Some((r, g, b, a)),
            _ => None,
        }
    }

    /// Reads two signed words.
    pub fn read_i32_pair(&mut self) -> (pair: Option<(i32, i32)>)
        requires
            old(self).wf(),
        ensures
            Self::read_units(*old(self), *final(self), 8, 4, pair is Some),
            pair is Some ==> pair->0 == (
                int_at(old(self).data@, old(self).pos as int),
                int_at(old(self).data@, old(self).pos + 4),
            ),
    {
        match (self.read_i32(), self.read_i32()) {
            (Some(first), Some(second)) => Some((first, second)),
            _ => None,
        }
    }

    /// Reads four sides.
    pub fn read_sides(&mut self) -> (sides: Option<Sides>)
        requires
            old(self).wf(),
        ensures
            Self::read_units(*old(self), *final(self), 16, 4, sides is Some),
            sides is Some ==> sides->0 == sides_at(old(self).data@, old(self).pos as int),
    {
        match (self.read_i32_pair(), self.read_i32_pair()) {
            (Some((top, right)), Some((bottom, left))) => Some((top, right, bottom, left)),
            _ => None,
        }
    }
}

/// Does what was read agree with what stands in the buffer?
pub open spec fn agrees(
    before: BufferReader,
    after: BufferReader,
    read: Result<Command, i32>,
    parsed: Parsed,
) -> bool {
    &&& after.wf()
    &&& after.data == before.data
    &&& match parsed {
        Ok((command, next)) => {
            &&& read is Ok
            &&& read->Ok_0@ == command
            &&& after.pos == next
        },
        Err(status) => read == Err::<Command, i32>(status),
    }
}

/// The same for a reader that knows only some opcodes.
pub open spec fn agrees_if_known(
    before: BufferReader,
    after: BufferReader,
    read: Option<Result<Command, i32>>,
    parsed: Option<Parsed>,
) -> bool {
    match parsed {
        Some(parsed) => read is Some && agrees(before, after, read->0, parsed),
        None => read is None && after == before,
    }
}

impl<'a> BufferReader<'a> {
    /// A style change whose operands were or were not all there.
    fn style_or_truncated(change: Option<StyleChange>) -> (command: Result<Command, i32>)
        ensures
            change is Some ==> command is Ok && command->Ok_0@ == (CommandSpec::Style {
                change: change->0,
            }),
            change is None ==> command == Err::<Command, i32>(GPUI_STATUS_TRUNCATED_BUFFER),
    {
        match change {
            Some(change) => Ok(Command::Style { change }),
            None => Err(GPUI_STATUS_TRUNCATED_BUFFER),
        }
    }

    fn read_text_command(&mut self) -> (command: Result<Command, i32>)
        requires
            old(self).wf(),
        ensures
            agrees(*old(self), *final(self), command, parse_text(old(self).data@, old(self).pos as int)),
    {
        match self.read_string() {
            None => Err(GPUI_STATUS_TRUNCATED_BUFFER),
            Some(content) => match self.read_rgb() {
                None => Err(GPUI_STATUS_TRUNCATED_BUFFER),
                Some(color) => match self.read_layout_f32() {
                    Ok(size) => Ok(Command::PushText { content, color, size }),
                    Err(status) => Err(status),
                },
            },
        }
    }

    fn read_run_command(&mut self) -> (command: Result<Command, i32>)
        requires
            old(self).wf(),
        ensures
            agrees(*old(self), *final(self), command, parse_run(old(self).data@, old(self).pos as int)),
    {
        match (
            self.read_u32(),
            self.read_u32(),
            self.read_u8(),
            self.read_rgba(),
            self.read_i32(),
            self.read_rgba(),
        ) {
            (
                Some(start),
                Some(len),
                Some(flags),
                Some(color),
                Some(weight),
                Some(background),
            ) => Ok(
                Command::AddRun {
                    run: RunOperands { start, len, flags, color, weight, background },
                },
            ),
            _ => Err(GPUI_STATUS_TRUNCATED_BUFFER),
        }
    }

    fn read_row_command(&mut self) -> (command: Result<Command, i32>)
        requires
            old(self).wf(),
        ensures
            agrees(*old(self), *final(self), command, parse_row(old(self).data@, old(self).pos as int)),
    {
        match self.read_string() {
            None => Err(GPUI_STATUS_TRUNCATED_BUFFER),
            Some(key) => match (
                self.read_u8(),
                self.read_u32(),
                self.read_rgb(),
                self.read_u8(),
            ) {
                (Some(shown), Some(at), Some(color), Some(blink)) => {
                    let caret: Option<u32> = if shown != 0 {
                        Some(at)
                    } else {
                        None
                    };
                    let row = TextRow { key, caret, color, blink: blink != 0 };
                    Ok(Command::SetRow { row })
                },
                _ => Err(GPUI_STATUS_TRUNCATED_BUFFER),
            },
        }
    }

    /// Reads one of the commands that create, name and connect nodes.
    fn read_structure(&mut self, op: i32) -> (command: Option<Result<Command, i32>>)
        requires
            old(self).wf(),
        ensures
            agrees_if_known(
                *old(self),
                *final(self),
                command,
                parse_structure(op, old(self).data@, old(self).pos as int),
            ),
    {
        if op == OP_DIV {
            Some(Ok(Command::PushDiv))
        } else if op == OP_TEXT {
            Some(self.read_text_command())
        } else if op == OP_TEXT_RUN {
            Some(self.read_run_command())
        } else if op == OP_SET_TEXT_ROW {
            Some(self.read_row_command())
        } else if op == OP_TEXT_INPUT {
            Some(
                match self.read_i32() {
                    None => Err(GPUI_STATUS_TRUNCATED_BUFFER),
                    Some(input_id) => match self.read_string() {
                        None => Err(GPUI_STATUS_TRUNCATED_BUFFER),
                        Some(placeholder) => Ok(Command::PushInput { input_id, placeholder }),
                    },
                },
            )
        } else if op == OP_SET_KEY {
            Some(
                match self.read_string() {
                    None => Err(GPUI_STATUS_TRUNCATED_BUFFER),
                    Some(key) => Ok(Command::SetKey { key }),
                },
            )
        } else if op == OP_SET_FONT_FAMILY {
            Some(
                match self.read_string() {
                    None => Err(GPUI_STATUS_TRUNCATED_BUFFER),
                    Some(family) => Ok(Command::SetFontFamily { family }),
                },
            )
        } else if op == OP_ADD_CHILD {
            Some(Ok(Command::AddChild))
        } else if op == OP_SET_ROOT {
            Some(Ok(Command::SetRoot))
        } else {
            None
        }
    }

    fn read_size_command(&mut self) -> (command: Result<Command, i32>)
        requires
            old(self).wf(),
        ensures
            agrees(*old(self), *final(self), command, parse_size(old(self).data@, old(self).pos as int)),
    {
        match self.read_layout_f32() {
            Err(status) => Err(status),
            Ok(width) => match self.read_layout_f32() {
                Err(status) => Err(status),
                Ok(height) => Ok(Command::Style { change: StyleChange::Size { width, height } }),
            },
        }
    }

    fn read_border_command(&mut self) -> (command: Result<Command, i32>)
        requires
            old(self).wf(),
        ensures
            agrees(
                *old(self),
                *final(self),
                command,
                parse_border(old(self).data@, old(self).pos as int),
            ),
    {
        match self.read_layout_f32() {
            Err(status) => Err(status),
            Ok(width) => match self.read_rgb() {
                None => Err(GPUI_STATUS_TRUNCATED_BUFFER),
                Some(rgb) => Ok(Command::Style { change: StyleChange::Border { width, rgb } }),
            },
        }
    }

    fn read_shadow_command(&mut self) -> (command: Result<Command, i32>)
        requires
            old(self).wf(),
        ensures
            agrees(
                *old(self),
                *final(self),
                command,
                parse_shadow(old(self).data@, old(self).pos as int),
            ),
    {
        match (self.read_sides(), self.read_rgba()) {
            (Some((x, y, blur, spread)), Some(color)) => Ok(
                Command::Style {
                    change: StyleChange::Shadow { shadow: Shadow { x, y, blur, spread, color } },
                },
            ),
            _ => Err(GPUI_STATUS_TRUNCATED_BUFFER),
        }
    }

    /// Reads one of the setters of box geometry and color.
    fn read_box(&mut self, op: i32) -> (command: Option<Result<Command, i32>>)
        requires
            old(self).wf(),
        ensures
            agrees_if_known(
                *old(self),
                *final(self),
                command,
                parse_box(op, old(self).data@, old(self).pos as int),
            ),
    {
        if op == OP_SET_SIZE {
            Some(self.read_size_command())
        } else if op == OP_SET_BG {
            let change = match self.read_rgb() {
                Some(rgb) => Some(StyleChange::Bg { rgb }),
                None => None,
            };
            Some(Self::style_or_truncated(change))
        } else if op == OP_SET_FLEX {
            let change = match self.read_u8() {
                Some(column) => Some(StyleChange::Flex { column: column != 0 }),
                None => None,
            };
            Some(Self::style_or_truncated(change))
        } else if op == OP_SET_CENTER {
            Some(Ok(Command::Style { change: StyleChange::Center }))
        } else if op == OP_SET_GAP {
            Some(
                match self.read_layout_f32() {
                    Ok(gap) => Ok(Command::Style { change: StyleChange::Gap { gap } }),
                    Err(status) => Err(status),
                },
            )
        } else if op == OP_SET_ROUNDED {
            Some(
                match self.read_layout_f32() {
                    Ok(radius) => Ok(Command::Style { change: StyleChange::Rounded { radius } }),
                    Err(status) => Err(status),
                },
            )
        } else if op == OP_SET_PADDING {
            Some(
                match self.read_layout_f32() {
                    Ok(padding) => Ok(Command::Style { change: StyleChange::Padding { padding } }),
                    Err(status) => Err(status),
                },
            )
        } else if op == OP_SET_BORDER {
            Some(self.read_border_command())
        } else if op == OP_SET_BG_COLOR {
            let change = match self.read_rgba() {
                Some(rgba) => Some(StyleChange::BgColor { rgba }),
                None => None,
            };
            Some(Self::style_or_truncated(change))
        } else if op == OP_SET_MARGIN {
            let change = match self.read_sides() {
                Some(sides) => Some(StyleChange::Margin { sides }),
                None => None,
            };
            Some(Self::style_or_truncated(change))
        } else if op == OP_SET_MIN_SIZE {
            let change = match self.read_i32_pair() {
                Some((w, h)) => Some(StyleChange::MinSize { w, h }),
                None => None,
            };
            Some(Self::style_or_truncated(change))
        } else if op == OP_SET_MAX_SIZE {
            let change = match self.read_i32_pair() {
                Some((w, h)) => Some(StyleChange::MaxSize { w, h }),
                None => None,
            };
            Some(Self::style_or_truncated(change))
        } else if op == OP_SET_SHADOW {
            Some(self.read_shadow_command())
        } else if op == OP_SET_INSET {
            let change = match self.read_sides() {
                Some(sides) => Some(StyleChange::Inset { sides }),
                None => None,
            };
            Some(Self::style_or_truncated(change))
        } else if op == OP_SET_PADDING_SIDES {
            let change = match self.read_sides() {
                Some(sides) => Some(StyleChange::PaddingSides { sides }),
                None => None,
            };
            Some(Self::style_or_truncated(change))
        } else {
            None
        }
    }

    /// Reads one of the setters of layout and appearance by id.
    fn read_layout(&mut self, op: i32) -> (command: Option<Result<Command, i32>>)
        requires
            old(self).wf(),
        ensures
            agrees_if_known(
                *old(self),
                *final(self),
                command,
                parse_layout(op, old(self).data@, old(self).pos as int),
            ),
    {
        if op == OP_SET_FLEX_ITEM {
            let change = match (self.read_i32_pair(), self.read_i32()) {
                (Some((grow, shrink)), Some(basis)) => Some(
                    StyleChange::FlexItem { grow, shrink, basis },
                ),
                _ => None,
            };
            Some(Self::style_or_truncated(change))
        } else if op == OP_SET_ALIGN {
            let change = match self.read_i32_pair() {
                Some((items, justify)) => Some(StyleChange::Align { items, justify }),
                None => None,
            };
            Some(Self::style_or_truncated(change))
        } else if op == OP_SET_OVERFLOW {
            let change = match self.read_i32_pair() {
                Some((x, y)) => Some(StyleChange::Overflow { x, y }),
                None => None,
            };
            Some(Self::style_or_truncated(change))
        } else if op == OP_SET_TEXT_COLOR {
            let change = match self.read_rgba() {
                Some(rgba) => Some(StyleChange::TextColor { rgba }),
                None => None,
            };
            Some(Self::style_or_truncated(change))
        } else {
            None
        }
    }

    /// The setter whose operand is one signed word.
    fn change_by_word(op: i32, value: i32) -> (change: Option<StyleChange>)
        ensures
            change == word_change(op, value),
    {
        if op == OP_SET_ON_CLICK {
            Some(StyleChange::OnClick { click_id: value })
        } else if op == OP_SET_OPACITY {
            Some(StyleChange::Opacity { thousandths: value })
        } else if op == OP_SET_CURSOR {
            Some(StyleChange::Cursor { kind: value })
        } else if op == OP_SET_POSITION {
            Some(StyleChange::Position { mode: value })
        } else if op == OP_SET_TEXT_SIZE {
            Some(StyleChange::TextSize { size: value })
        } else if op == OP_SET_FONT_WEIGHT {
            Some(StyleChange::FontWeight { weight: value })
        } else if op == OP_SET_LINE_HEIGHT {
            Some(StyleChange::LineHeight { thousandths: value })
        } else if op == OP_SET_TEXT_ALIGN {
            Some(StyleChange::TextAlign { id: value })
        } else if op == OP_SET_WHITESPACE {
            Some(StyleChange::Whitespace { id: value })
        } else if op == OP_SET_FOCUSABLE {
            Some(StyleChange::Focusable { on: value != 0 })
        } else if op == OP_SET_TAB_INDEX {
            Some(StyleChange::TabIndex { index: value })
        } else if op == OP_SET_TAB_STOP {
            Some(StyleChange::TabStop { on: value != 0 })
        } else if op == OP_SET_SCROLL_ID {
            Some(StyleChange::ScrollId { scroll_id: value })
        } else {
            None
        }
    }

    /// Reads the next command: its opcode, then its operands.
    pub fn read_command(&mut self) -> (command: Result<Command, i32>)
        requires
            old(self).wf(),
            old(self).pos < old(self).data@.len(),
        ensures
            agrees(
                *old(self),
                *final(self),
                command,
                parse_command(old(self).data@, old(self).pos as int),
            ),
    {
        let op: i32 = self.data[self.pos] as i32;
        self.pos = self.pos + 1;
        if let Some(command) = self.read_structure(op) {
            return command;
        }
        if let Some(command) = self.read_box(op) {
            return command;
        }
        if let Some(command) = self.read_layout(op) {
            return command;
        }
        if Self::change_by_word(op, 0).is_none() {
            return Err(GPUI_STATUS_UNKNOWN_OPCODE);
        }
        let change = match self.read_i32() {
            Some(value) => Self::change_by_word(op, value),
            None => None,
        };
        Self::style_or_truncated(change)
    }
}

/// A length is read by its value: what is within a million pixels is taken as it
/// stands, what is beyond becomes the nearer end, and what is no finite number is
/// refused.
pub proof fn law_lengths_are_read_by_value(data: Seq<u8>, at: int)
    requires
        0 <= at,
    ensures
        at + 4 > data.len() ==> length_at(data, at) == Err::<LayoutPx, i32>(
            GPUI_STATUS_TRUNCATED_BUFFER,
        ),
        at + 4 <= data.len() ==> {
            let bits = word_at(data, at);
            &&& length_at(data, at) is Ok <==> is_finite(bits)
            &&& length_at(data, at) is Err ==> length_at(data, at) == Err::<LayoutPx, i32>(
                GPUI_STATUS_INVALID_FLOAT,
            )
            &&& length_at(data, at) matches Ok(length) ==> {
                &&& -max_units() <= numeric(bits) <= max_units() ==> length.bits == bits
                &&& numeric(bits) > max_units() ==> numeric(length.bits) == max_units()
                &&& numeric(bits) < -max_units() ==> numeric(length.bits) == -max_units()
            }
        },
{
    if is_finite(word_at(data, at)) {
        law_clamp_is_numeric(word_at(data, at));
    }
}

/// A command with a length that is no finite number is refused for it, before
/// anything that follows the length is looked at.
pub proof fn law_infinite_lengths_are_refused(data: Seq<u8>, at: int)
    requires
        0 <= at,
        at + 5 <= data.len(),
        !is_finite(word_at(data, at + 1)),
        data[at] == OP_SET_SIZE || data[at] == OP_SET_GAP || data[at] == OP_SET_ROUNDED || data[at]
            == OP_SET_PADDING || data[at] == OP_SET_BORDER,
    ensures
        parse_command(data, at) == Err::<(CommandSpec, int), i32>(GPUI_STATUS_INVALID_FLOAT),
{
}

/// Every byte and every word but zero says yes.
pub proof fn law_nonzero_says_yes(data: Seq<u8>, at: int)
    requires
        0 <= at < data.len(),
        parse_command(data, at) is Ok,
    ensures
        ({
            let command = (parse_command(data, at)->Ok_0).0;
            let word = word_at(data, at + 1);
            &&& data[at] == OP_SET_FLEX ==> command == CommandSpec::Style {
                change: StyleChange::Flex { column: data[at + 1] > 0 },
            }
            &&& data[at] == OP_SET_FOCUSABLE ==> command == CommandSpec::Style {
                change: StyleChange::Focusable { on: word > 0 },
            }
            &&& data[at] == OP_SET_TAB_STOP ==> command == CommandSpec::Style {
                change: StyleChange::TabStop { on: word > 0 },
            }
            &&& command matches CommandSpec::SetRow { row } ==> {
                let tail = after_text(data, at + 1);
                &&& row.caret is Some <==> data[tail] > 0
                &&& row.caret is Some ==> row.caret->0 == word_at(data, tail + 1)
                &&& row.blink <==> data[tail + 8] > 0
            }
        }),
{
}

} // verus!
