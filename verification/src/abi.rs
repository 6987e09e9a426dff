//! The numbers both sides of the boundary agree on: status codes, opcodes,
//! event kinds, modifier bits and the ids of the style enumerations.
use vstd::prelude::*;

verus! {

/// Version of the event envelope, carried in its first slot.
pub const ABI_VERSION: i32 = 4;

/// Version of the command buffer, carried in its header.
pub const BUFFER_VERSION: i32 = 1;

// Status codes. Every entry point answers one of these, or a count.
pub const GPUI_STATUS_OK: i32 = 0;

/// A view, handle or argument that names nothing.
pub const GPUI_STATUS_INVALID_HANDLE: i32 = -1;

/// A command met a node it does not apply to.
pub const GPUI_STATUS_WRONG_NODE_KIND: i32 = -2;

/// A handle names a node that has already been moved.
pub const GPUI_STATUS_NODE_ABSENT: i32 = -3;

/// A panic was caught at the boundary.
pub const GPUI_STATUS_INTERNAL_PANIC: i32 = -4;

/// The header of a command buffer is not the expected one.
pub const GPUI_STATUS_BAD_BUFFER_VERSION: i32 = -5;

/// A buffer ends in the middle of an operand.
pub const GPUI_STATUS_TRUNCATED_BUFFER: i32 = -6;

/// A command buffer holds an opcode that is not known.
pub const GPUI_STATUS_UNKNOWN_OPCODE: i32 = -7;

/// A command buffer ends without naming a root.
pub const GPUI_STATUS_NO_ROOT: i32 = -8;

/// Two divs of one tree carry the same key.
pub const GPUI_STATUS_DUPLICATE_KEY: i32 = -9;

/// No node carries the key, or nothing is recorded under the id.
pub const GPUI_STATUS_KEY_NOT_FOUND: i32 = -10;

/// The queue of injected events is full.
pub const GPUI_STATUS_QUEUE_FULL: i32 = -11;

/// The payload of an injected event is over the limit.
pub const GPUI_STATUS_PAYLOAD_TOO_LARGE: i32 = -12;

/// A text input is in the middle of an IME composition.
pub const GPUI_STATUS_BUSY_COMPOSING: i32 = -13;

/// A geometry operand is infinite or not a number.
pub const GPUI_STATUS_INVALID_FLOAT: i32 = -14;

/// A tree is nested deeper than the limit.
pub const GPUI_STATUS_DEPTH_EXCEEDED: i32 = -15;

/// A styled run has unknown flags or a range that its text does not admit.
pub const GPUI_STATUS_INVALID_TEXT_RUN: i32 = -16;

// Event kinds, carried in the second slot of the envelope.
pub const EVENT_CLICK: i32 = 1;

pub const EVENT_KEY: i32 = 2;

pub const EVENT_TEXT: i32 = 3;

pub const EVENT_NAMED_KEY: i32 = 4;

pub const EVENT_ASYNC: i32 = 5;

pub const EVENT_INPUT_CHANGED: i32 = 6;

pub const EVENT_INPUT_SUBMIT: i32 = 7;

pub const EVENT_SCROLL: i32 = 8;

// Modifier bits of key events.
pub const MOD_CTRL: i32 = 1;

pub const MOD_ALT: i32 = 2;

pub const MOD_SHIFT: i32 = 4;

pub const MOD_PLATFORM: i32 = 8;

pub const MOD_FUNCTION: i32 = 16;

// Ids of the keys that have a name instead of a character.
pub const KEY_ENTER: i32 = 1;

pub const KEY_ESCAPE: i32 = 2;

pub const KEY_UP: i32 = 3;

pub const KEY_DOWN: i32 = 4;

pub const KEY_LEFT: i32 = 5;

pub const KEY_RIGHT: i32 = 6;

pub const KEY_TAB: i32 = 7;

pub const KEY_BACKSPACE: i32 = 8;

pub const KEY_DELETE: i32 = 9;

pub const KEY_HOME: i32 = 10;

pub const KEY_END: i32 = 11;

pub const KEY_PAGEUP: i32 = 12;

pub const KEY_PAGEDOWN: i32 = 13;

// Opcodes of the command buffer.
pub const OP_DIV: i32 = 1;

pub const OP_TEXT: i32 = 2;

pub const OP_SET_SIZE: i32 = 3;

pub const OP_SET_BG: i32 = 4;

pub const OP_SET_FLEX: i32 = 5;

pub const OP_SET_CENTER: i32 = 6;

pub const OP_SET_GAP: i32 = 7;

pub const OP_SET_ROUNDED: i32 = 8;

pub const OP_SET_ON_CLICK: i32 = 9;

pub const OP_ADD_CHILD: i32 = 10;

pub const OP_SET_ROOT: i32 = 11;

pub const OP_SET_KEY: i32 = 12;

pub const OP_SET_PADDING: i32 = 13;

pub const OP_SET_BORDER: i32 = 14;

pub const OP_SET_BG_COLOR: i32 = 15;

pub const OP_SET_MARGIN: i32 = 16;

pub const OP_SET_MIN_SIZE: i32 = 17;

pub const OP_SET_MAX_SIZE: i32 = 18;

pub const OP_SET_FLEX_ITEM: i32 = 19;

pub const OP_SET_ALIGN: i32 = 20;

pub const OP_SET_OVERFLOW: i32 = 21;

pub const OP_SET_OPACITY: i32 = 22;

pub const OP_SET_SHADOW: i32 = 23;

pub const OP_SET_CURSOR: i32 = 24;

pub const OP_SET_POSITION: i32 = 25;

pub const OP_SET_INSET: i32 = 26;

pub const OP_SET_PADDING_SIDES: i32 = 27;

pub const OP_SET_TEXT_SIZE: i32 = 28;

pub const OP_SET_TEXT_COLOR: i32 = 29;

pub const OP_SET_FONT_WEIGHT: i32 = 30;

pub const OP_SET_LINE_HEIGHT: i32 = 31;

pub const OP_SET_TEXT_ALIGN: i32 = 32;

pub const OP_SET_WHITESPACE: i32 = 33;

pub const OP_SET_FONT_FAMILY: i32 = 34;

pub const OP_SET_FOCUSABLE: i32 = 35;

pub const OP_SET_TAB_INDEX: i32 = 36;

pub const OP_SET_TAB_STOP: i32 = 37;

pub const OP_TEXT_INPUT: i32 = 38;

pub const OP_SET_SCROLL_ID: i32 = 39;

pub const OP_TEXT_RUN: i32 = 40;

pub const OP_SET_TEXT_ROW: i32 = 41;

// Ids of the cross-axis alignments.
pub const ALIGN_DEFAULT: i32 = 0;

pub const ALIGN_START: i32 = 1;

pub const ALIGN_CENTER: i32 = 2;

pub const ALIGN_END: i32 = 3;

pub const ALIGN_STRETCH: i32 = 4;

// Ids of the main-axis distributions.
pub const JUSTIFY_DEFAULT: i32 = 0;

pub const JUSTIFY_START: i32 = 1;

pub const JUSTIFY_CENTER: i32 = 2;

pub const JUSTIFY_END: i32 = 3;

pub const JUSTIFY_SPACE_BETWEEN: i32 = 4;

pub const JUSTIFY_SPACE_AROUND: i32 = 5;

// Ids of the overflow modes.
pub const OVERFLOW_VISIBLE: i32 = 0;

pub const OVERFLOW_HIDDEN: i32 = 1;

pub const OVERFLOW_SCROLL: i32 = 2;

// Ids of the cursor shapes.
pub const CURSOR_ARROW: i32 = 0;

pub const CURSOR_POINTER: i32 = 1;

pub const CURSOR_TEXT: i32 = 2;

pub const CURSOR_CROSSHAIR: i32 = 3;

pub const CURSOR_GRAB: i32 = 4;

pub const CURSOR_GRABBING: i32 = 5;

pub const CURSOR_NOT_ALLOWED: i32 = 6;

pub const CURSOR_EW_RESIZE: i32 = 7;

pub const CURSOR_NS_RESIZE: i32 = 8;

pub const CURSOR_COL_RESIZE: i32 = 9;

pub const CURSOR_ROW_RESIZE: i32 = 10;

pub const CURSOR_NONE: i32 = 11;

// Ids of the position modes.
pub const POSITION_RELATIVE: i32 = 0;

pub const POSITION_ABSOLUTE: i32 = 1;

// Ids of the text alignments.
pub const TEXT_ALIGN_DEFAULT: i32 = 0;

pub const TEXT_ALIGN_LEFT: i32 = 1;

pub const TEXT_ALIGN_CENTER: i32 = 2;

pub const TEXT_ALIGN_RIGHT: i32 = 3;

pub const TEXT_ALIGN_JUSTIFY: i32 = 4;

// Ids of the whitespace modes.
pub const WHITESPACE_DEFAULT: i32 = 0;

pub const WHITESPACE_NORMAL: i32 = 1;

pub const WHITESPACE_NOWRAP: i32 = 2;

pub const WHITESPACE_PRE: i32 = 3;

pub const WHITESPACE_PRE_WRAP: i32 = 4;

// Flag bits of a styled run: which of its fields override the base style.
pub const RUN_STYLE_COLOR: i32 = 1;

pub const RUN_STYLE_WEIGHT: i32 = 2;

pub const RUN_STYLE_ITALIC: i32 = 4;

pub const RUN_STYLE_UNDERLINE: i32 = 8;

pub const RUN_STYLE_STRIKETHROUGH: i32 = 16;

pub const RUN_STYLE_BACKGROUND: i32 = 32;

/// The probe both sides use to check that an integer crosses the boundary
/// unchanged: it answers its argument.
pub fn gpui_abi_probe(value: i32) -> (echoed: i32)
    ensures
        echoed == value,
{
    value
}

} // verus!
