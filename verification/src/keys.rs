//! Key strokes: what they stand for, and where they go.
use crate::abi::{
    ABI_VERSION, EVENT_KEY, EVENT_NAMED_KEY, KEY_BACKSPACE, KEY_DELETE, KEY_DOWN, KEY_END,
    KEY_ENTER, KEY_ESCAPE, KEY_HOME, KEY_LEFT, KEY_PAGEDOWN, KEY_PAGEUP, KEY_RIGHT, KEY_TAB, KEY_UP,
    MOD_ALT, MOD_CTRL, MOD_FUNCTION, MOD_PLATFORM, MOD_SHIFT,
};
use crate::events::{envelope, Envelope};
use crate::text::same_text;
use vstd::prelude::*;
use vstd::string::StrSliceExecFns;

verus! {

/// The modifiers that are held.
#[derive(Clone, Copy, PartialEq, Eq, Structural, Debug)]
pub struct Modifiers {
    pub control: bool,
    pub alt: bool,
    pub shift: bool,
    pub platform: bool,
    pub function: bool,
}

/// A key stroke: the key, the text it would type, and the modifiers.
pub struct Keystroke {
    pub key: String,
    pub key_char: Option<String>,
    pub modifiers: Modifiers,
}

/// The text a stroke would type, where there is any.
pub open spec fn char_of(stroke: Keystroke) -> Option<Seq<char>> {
    match stroke.key_char {
        Some(text) => if text@.len() > 0 {
            Some(text@)
        } else {
            None
        },
        None => None,
    }
}

/// The code point of a key that is one character; zero for the others.
pub open spec fn code_of(key: Seq<char>) -> i32 {
    if key.len() == 1 {
        (key[0] as u32) as i32
    } else {
        0
    }
}

/// The code point of a key that is one character; zero for the others.
pub fn key_code(key: &str) -> (code: i32)
    ensures
        code == code_of(key@),
{
    if key.unicode_len() == 1 {
        let c: char = key.get_char(0);
        (c as u32) as i32
    } else {
        0
    }
}

/// The id of a key that has a name.
pub open spec fn named_id(key: Seq<char>) -> Option<i32> {
    if key == "enter"@ {
        Some(KEY_ENTER)
    } else if key == "escape"@ {
        Some(KEY_ESCAPE)
    } else if key == "up"@ {
        Some(KEY_UP)
    } else if key == "down"@ {
        Some(KEY_DOWN)
    } else if key == "left"@ {
        Some(KEY_LEFT)
    } else if key == "right"@ {
        Some(KEY_RIGHT)
    } else if key == "tab"@ {
        Some(KEY_TAB)
    } else if key == "backspace"@ {
        Some(KEY_BACKSPACE)
    } else if key == "delete"@ {
        Some(KEY_DELETE)
    } else if key == "home"@ {
        Some(KEY_HOME)
    } else if key == "end"@ {
        Some(KEY_END)
    } else if key == "pageup"@ {
        Some(KEY_PAGEUP)
    } else if key == "pagedown"@ {
        Some(KEY_PAGEDOWN)
    } else {
        None
    }
}

/// The id of a key that has a name.
pub fn named_key_id(key: &str) -> (id: Option<i32>)
    ensures
        id == named_id(key@),
{
    if same_text(key, "enter") {
        Some(KEY_ENTER)
    } else if same_text(key, "escape") {
        Some(KEY_ESCAPE)
    } else if same_text(key, "up") {
        Some(KEY_UP)
    } else if same_text(key, "down") {
        Some(KEY_DOWN)
    } else if same_text(key, "left") {
        Some(KEY_LEFT)
    } else if same_text(key, "right") {
        Some(KEY_RIGHT)
    } else if same_text(key, "tab") {
        Some(KEY_TAB)
    } else if same_text(key, "backspace") {
        Some(KEY_BACKSPACE)
    } else if same_text(key, "delete") {
        Some(KEY_DELETE)
    } else if same_text(key, "home") {
        Some(KEY_HOME)
    } else if same_text(key, "end") {
        Some(KEY_END)
    } else if same_text(key, "pageup") {
        Some(KEY_PAGEUP)
    } else if same_text(key, "pagedown") {
        Some(KEY_PAGEDOWN)
    } else {
        None
    }
}

/// A control character: the general category Cc.
pub open spec fn is_control(c: char) -> bool {
    (c as u32) < 0x20 || 0x7f <= (c as u32) < 0xa0
}

/// The text that a stroke types: the one it names, else its key where that is
/// one character and no control character.
pub open spec fn typed(stroke: Keystroke) -> Option<Seq<char>> {
    match char_of(stroke) {
        Some(text) => Some(text),
        None => if stroke.key@.len() == 1 && !is_control(stroke.key@[0]) {
            Some(stroke.key@)
        } else {
            None
        },
    }
}

/// The text that a stroke types.
pub fn typed_text(stroke: &Keystroke) -> (text: Option<String>)
    ensures
        text is Some <==> typed(*stroke) is Some,
        text is Some ==> text->0@ == typed(*stroke)->0,
{
    if let Some(text) = &stroke.key_char {
        if !text.as_str().is_empty() {
            return Some(text.clone());
        }
    }
    let key: &str = stroke.key.as_str();
    if key.unicode_len() == 1 {
        let code: u32 = key.get_char(0) as u32;
        if !(code < 0x20 || (0x7f <= code && code < 0xa0)) {
            return Some(stroke.key.clone());
        }
    }
    None
}

/// Does a key belong to the input method while nothing is composed?
pub open spec fn owned_when_idle(key: Seq<char>, key_char: Option<Seq<char>>) -> bool {
    key != "enter"@ && key_char is Some && key_char->0.len() > 0
}

/// Does a key belong to the input method while nothing is composed? Those that
/// type something do, except enter.
pub fn ime_owned_when_idle(key: &str, key_char: Option<&str>) -> (owned: bool)
    ensures
        owned == owned_when_idle(
            key@,
            match key_char {
                Some(text) => Some(text@),
                None => None,
            },
        ),
        owned == (key@ != "enter"@ && key_char is Some && key_char->0@.len() > 0),
{
    if same_text(key, "enter") {
        return false;
    }
    match key_char {
        Some(text) => !text.is_empty(),
        None => false,
    }
}

/// One bit, where a modifier is held.
pub open spec fn bit(held: bool, value: i32) -> int {
    if held {
        value as int
    } else {
        0
    }
}

/// The bits of the modifiers that are held.
pub open spec fn bits_of(m: Modifiers) -> int {
    bit(m.control, MOD_CTRL) + bit(m.alt, MOD_ALT) + bit(m.shift, MOD_SHIFT) + bit(
        m.platform,
        MOD_PLATFORM,
    ) + bit(m.function, MOD_FUNCTION)
}

/// Packs the modifiers into bits.
pub fn mods_bits(m: &Modifiers) -> (bits: i32)
    ensures
        bits == bits_of(*m),
{
    let mut bits: i32 = 0;
    if m.control {
        bits = bits + MOD_CTRL;
    }
    if m.alt {
        bits = bits + MOD_ALT;
    }
    if m.shift {
        bits = bits + MOD_SHIFT;
    }
    if m.platform {
        bits = bits + MOD_PLATFORM;
    }
    if m.function {
        bits = bits + MOD_FUNCTION;
    }
    bits
}

/// No two sets of modifiers have the same bits.
pub proof fn law_modifier_bits_are_distinct(a: Modifiers, b: Modifiers)
    ensures
        bits_of(a) == bits_of(b) ==> a == b,
        0 <= bits_of(a) < 32,
{
}

/// Where a key stroke goes.
pub enum KeyRoute {
    /// The focus moves to the next tab stop.
    FocusNext,
    /// The focus moves to the previous tab stop.
    FocusPrevious,
    /// A text input has the focus and takes the stroke.
    ToInput,
    /// The input method takes the stroke. The event marks that one passed.
    ToIme { event: Envelope },
    /// The application gets the stroke: first as a key, where it is one, and
    /// then as text, where it types any.
    ToApp { key: Option<Envelope>, text: Option<String> },
}

/// Where a key stroke goes, as a mathematical value.
pub enum Routed {
    FocusNext,
    FocusPrevious,
    ToInput,
    ToIme { event: Envelope },
    ToApp { key: Option<Envelope>, text: Option<Seq<char>> },
}

impl View for KeyRoute {
    type V = Routed;

    open spec fn view(&self) -> Routed {
        match *self {
            KeyRoute::FocusNext => Routed::FocusNext,
            KeyRoute::FocusPrevious => Routed::FocusPrevious,
            KeyRoute::ToInput => Routed::ToInput,
            KeyRoute::ToIme { event } => Routed::ToIme { event },
            KeyRoute::ToApp { key, text } => Routed::ToApp {
                key,
                text: match text {
                    Some(text) => Some(text@),
                    None => None,
                },
            },
        }
    }
}

/// The event for a stroke as a key: its character, else its name.
pub open spec fn key_event(view: i32, stroke: Keystroke) -> Option<Envelope> {
    let mods = bits_of(stroke.modifiers) as i32;
    if code_of(stroke.key@) != 0 {
        Some(envelope(EVENT_KEY, view, code_of(stroke.key@), mods))
    } else {
        match named_id(stroke.key@) {
            Some(id) => Some(envelope(EVENT_NAMED_KEY, view, id, mods)),
            None => None,
        }
    }
}

/// Where a stroke goes.
pub open spec fn routed(
    view: i32,
    stroke: Keystroke,
    input_focused: bool,
    ime_active: bool,
) -> Routed {
    let m = stroke.modifiers;
    if stroke.key@ == "tab"@ {
        if m.shift {
            Routed::FocusPrevious
        } else {
            Routed::FocusNext
        }
    } else if input_focused {
        Routed::ToInput
    } else if stroke.key@ != "enter"@ && char_of(stroke) is Some && !m.control && !m.platform
        && !m.function && ime_active {
        Routed::ToIme { event: envelope(EVENT_NAMED_KEY, view, 0, 0) }
    } else {
        Routed::ToApp { key: key_event(view, stroke), text: typed(stroke) }
    }
}

/// Decides where a stroke goes.
pub fn route_key_down(
    view: i32,
    stroke: &Keystroke,
    input_focused: bool,
    ime_active: bool,
) -> (route: KeyRoute)
    ensures
        route@ == routed(view, *stroke, input_focused, ime_active),
{
    let key: &str = stroke.key.as_str();
    if same_text(key, "tab") {
        return if stroke.modifiers.shift {
            KeyRoute::FocusPrevious
        } else {
            KeyRoute::FocusNext
        };
    }
    if input_focused {
        return KeyRoute::ToInput;
    }
    let key_char: Option<&str> = match &stroke.key_char {
        Some(text) => Some(text.as_str()),
        None => None,
    };
    let m = &stroke.modifiers;
    if ime_owned_when_idle(key, key_char) && !m.control && !m.platform && !m.function
        && ime_active {
        return KeyRoute::ToIme { event: Envelope::new(EVENT_NAMED_KEY, view, 0, 0) };
    }
    let code: i32 = key_code(key);
    let mods: i32 = mods_bits(m);
    let event = if code != 0 {
        Some(Envelope::new(EVENT_KEY, view, code, mods))
    } else {
        match named_key_id(key) {
            Some(id) => Some(Envelope::new(EVENT_NAMED_KEY, view, id, mods)),
            None => None,
        }
    };
    KeyRoute::ToApp { key: event, text: typed_text(stroke) }
}

/// While a text input has the focus, no stroke but tab leaves it: none reaches
/// the application twice.
pub proof fn law_focused_input_keeps_strokes(view: i32, stroke: Keystroke, ime_active: bool)
    ensures
        routed(view, stroke, true, ime_active) is ToInput <==> stroke.key@ != "tab"@,
        !(routed(view, stroke, true, ime_active) is ToApp),
        !(routed(view, stroke, true, ime_active) is ToIme),
{
}

/// What an active input method takes is not delivered as text as well; enter
/// and strokes with a command modifier are never taken.
pub proof fn law_ime_strokes_are_not_typed(view: i32, stroke: Keystroke, input_focused: bool)
    ensures
        routed(view, stroke, input_focused, true) is ToIme ==> stroke.key@ != "enter"@
            && !stroke.modifiers.control && !stroke.modifiers.platform
            && !stroke.modifiers.function,
        !(routed(view, stroke, input_focused, false) is ToIme),
{
}

/// Whatever key event reaches the application names the view it is for and the
/// modifiers that were held, one bit for each and none besides, for named keys
/// as for characters.
pub proof fn law_key_events_carry_their_modifiers(
    view: i32,
    stroke: Keystroke,
    input_focused: bool,
    ime_active: bool,
)
    ensures
        routed(view, stroke, input_focused, ime_active) matches Routed::ToApp {
            key: Some(event),
            ..
        } ==> {
            let held = stroke.modifiers;
            &&& event.version == ABI_VERSION
            &&& event.view == view
            &&& 0 <= event.data_b < 32
            &&& event.data_b as int / MOD_CTRL as int % 2 == 1 <==> held.control
            &&& event.data_b as int / MOD_ALT as int % 2 == 1 <==> held.alt
            &&& event.data_b as int / MOD_SHIFT as int % 2 == 1 <==> held.shift
            &&& event.data_b as int / MOD_PLATFORM as int % 2 == 1 <==> held.platform
            &&& event.data_b as int / MOD_FUNCTION as int % 2 == 1 <==> held.function
        },
        ({
            let bits = bits_of(stroke.modifiers);
            let held = stroke.modifiers;
            &&& bits / MOD_CTRL as int % 2 == 1 <==> held.control
            &&& bits / MOD_ALT as int % 2 == 1 <==> held.alt
            &&& bits / MOD_SHIFT as int % 2 == 1 <==> held.shift
            &&& bits / MOD_PLATFORM as int % 2 == 1 <==> held.platform
            &&& bits / MOD_FUNCTION as int % 2 == 1 <==> held.function
        }),
{
}

/// Code points fit a word.
proof fn lemma_code_point(c: char)
    ensures
        c as u32 as int == c as int,
        (c as u32) as i32 as int == c as int,
        0 <= c as int <= 0x10_ffff,
{
}

/// A key that is one character is told by its code point, and any other by the
/// id of its name; keys that have neither are not told.
pub proof fn law_keys_are_told_by_code_or_name(view: i32, stroke: Keystroke)
    ensures
        ({
            let key = stroke.key@;
            let event = key_event(view, stroke);
            let one = key.len() == 1 && key[0] as u32 != 0;
            &&& event is Some && event->0.kind == EVENT_KEY <==> one
            &&& one ==> event->0.data_a == key[0] as u32
            &&& event is Some && event->0.kind == EVENT_NAMED_KEY <==> !one && named_id(key) is Some
            &&& !one && event is Some ==> Some(event->0.data_a) == named_id(key)
            &&& event is Some ==> event->0.kind == EVENT_KEY || event->0.kind == EVENT_NAMED_KEY
        }),
{
    if stroke.key@.len() == 1 {
        lemma_code_point(stroke.key@[0]);
    }
}

/// Each named key has its own id, and no other text has one.
pub proof fn law_named_keys_have_their_ids(key: Seq<char>, other: Seq<char>)
    ensures
        named_id(key) == Some(KEY_ENTER) <==> key == "enter"@,
        named_id(key) == Some(KEY_ESCAPE) <==> key == "escape"@,
        named_id(key) == Some(KEY_UP) <==> key == "up"@,
        named_id(key) == Some(KEY_DOWN) <==> key == "down"@,
        named_id(key) == Some(KEY_LEFT) <==> key == "left"@,
        named_id(key) == Some(KEY_RIGHT) <==> key == "right"@,
        named_id(key) == Some(KEY_TAB) <==> key == "tab"@,
        named_id(key) == Some(KEY_BACKSPACE) <==> key == "backspace"@,
        named_id(key) == Some(KEY_DELETE) <==> key == "delete"@,
        named_id(key) == Some(KEY_HOME) <==> key == "home"@,
        named_id(key) == Some(KEY_END) <==> key == "end"@,
        named_id(key) == Some(KEY_PAGEUP) <==> key == "pageup"@,
        named_id(key) == Some(KEY_PAGEDOWN) <==> key == "pagedown"@,
        named_id(key) is Some && named_id(key) == named_id(other) ==> key == other,
        named_id(key) is Some ==> key.len() > 1,
{
    reveal_strlit("enter");
    assert("enter"@.len() == 5 && "enter"@[0] == 'e');
    reveal_strlit("escape");
    assert("escape"@.len() == 6 && "escape"@[0] == 'e');
    reveal_strlit("up");
    assert("up"@.len() == 2 && "up"@[0] == 'u');
    reveal_strlit("down");
    assert("down"@.len() == 4 && "down"@[0] == 'd');
    reveal_strlit("left");
    assert("left"@.len() == 4 && "left"@[0] == 'l');
    reveal_strlit("right");
    assert("right"@.len() == 5 && "right"@[0] == 'r');
    reveal_strlit("tab");
    assert("tab"@.len() == 3 && "tab"@[0] == 't');
    reveal_strlit("backspace");
    assert("backspace"@.len() == 9 && "backspace"@[0] == 'b');
    reveal_strlit("delete");
    assert("delete"@.len() == 6 && "delete"@[0] == 'd');
    reveal_strlit("home");
    assert("home"@.len() == 4 && "home"@[0] == 'h');
    reveal_strlit("end");
    assert("end"@.len() == 3 && "end"@[0] == 'e');
    reveal_strlit("pageup");
    assert("pageup"@.len() == 6 && "pageup"@[0] == 'p');
    reveal_strlit("pagedown");
    assert("pagedown"@.len() == 8 && "pagedown"@[0] == 'p');
}

/// Two strokes that reach the application as keys are told apart: by the key, or
/// by the modifiers.
pub proof fn law_strokes_are_told_apart(view: i32, a: Keystroke, b: Keystroke)
    requires
        key_event(view, a) is Some,
        key_event(view, b) is Some,
    ensures
        key_event(view, a) == key_event(view, b) <==> a.key@ == b.key@ && a.modifiers
            == b.modifiers,
{
    law_named_keys_have_their_ids(a.key@, b.key@);
    law_modifier_bits_are_distinct(a.modifiers, b.modifiers);
    if key_event(view, a) == key_event(view, b) {
        if a.key@.len() == 1 && b.key@.len() == 1 {
            lemma_code_point(a.key@[0]);
            lemma_code_point(b.key@[0]);
            assert(a.key@[0] == b.key@[0]);
            assert(a.key@ =~= b.key@);
        }
    }
}

/// Tab moves the focus and shift turns it round, whatever else is the case; no
/// other key moves it.
pub proof fn law_tab_moves_the_focus(
    view: i32,
    stroke: Keystroke,
    input_focused: bool,
    ime_active: bool,
)
    ensures
        ({
            let route = routed(view, stroke, input_focused, ime_active);
            &&& route is FocusNext <==> stroke.key@ == "tab"@ && !stroke.modifiers.shift
            &&& route is FocusPrevious <==> stroke.key@ == "tab"@ && stroke.modifiers.shift
        }),
{
}

/// The input method gets a stroke exactly where it is active, no text input has
/// the focus, and the stroke types something without a command modifier; tab
/// and enter are never its own. It is told by an event without a key.
pub proof fn law_input_method_gets_typing(
    view: i32,
    stroke: Keystroke,
    input_focused: bool,
    ime_active: bool,
)
    ensures
        ({
            let route = routed(view, stroke, input_focused, ime_active);
            let held = stroke.modifiers;
            let types = stroke.key_char is Some && stroke.key_char->0@.len() > 0;
            &&& route is ToIme <==> {
                &&& ime_active
                &&& !input_focused
                &&& types
                &&& stroke.key@ != "tab"@
                &&& stroke.key@ != "enter"@
                &&& !held.control
                &&& !held.platform
                &&& !held.function
            }
            &&& route matches Routed::ToIme { event } ==> {
                &&& event.version == ABI_VERSION
                &&& event.kind == EVENT_NAMED_KEY
                &&& event.view == view
                &&& event.data_a == 0
                &&& event.data_b == 0
            }
        }),
{
}

/// The application gets every stroke that nobody else takes, as a key and as the
/// text it types.
pub proof fn law_application_gets_the_rest(
    view: i32,
    stroke: Keystroke,
    input_focused: bool,
    ime_active: bool,
)
    ensures
        ({
            let route = routed(view, stroke, input_focused, ime_active);
            &&& route is ToInput <==> input_focused && stroke.key@ != "tab"@
            &&& !input_focused && !ime_active && stroke.key@ != "tab"@ ==> route is ToApp
            &&& route matches Routed::ToApp { key, text } ==> {
                &&& key == key_event(view, stroke)
                &&& text == typed(stroke)
            }
        }),
{
}

/// A stroke types the text it names; without one it types its key, where that is
/// one character that can be seen. It never types nothing, and the modifiers
/// make no difference.
pub proof fn law_strokes_type_their_text(stroke: Keystroke, other: Keystroke)
    ensures
        stroke.key_char matches Some(text) ==> text@.len() > 0 ==> typed(stroke) == Some(text@),
        (stroke.key_char is None || stroke.key_char->0@.len() == 0) ==> {
            let code = stroke.key@[0] as u32;
            let seen = stroke.key@.len() == 1 && 0x20 <= code && !(0x7f <= code <= 0x9f);
            &&& typed(stroke) is Some <==> seen
            &&& seen ==> typed(stroke)->0 == stroke.key@
        },
        typed(stroke) matches Some(text) ==> text.len() > 0,
        stroke.key == other.key && stroke.key_char == other.key_char ==> typed(stroke) == typed(
            other,
        ),
{
}

/// The input method gets exactly the strokes that it owns while nothing is composed, of
/// those that are held with no modifier of a command and do not move the focus.
pub proof fn law_owned_strokes_go_to_the_input_method(view: i32, stroke: Keystroke)
    ensures
        routed(view, stroke, false, true) is ToIme <==> owned_when_idle(
            stroke.key@,
            char_of(stroke),
        ) && stroke.key@ != "tab"@ && !stroke.modifiers.control && !stroke.modifiers.platform
            && !stroke.modifiers.function,
        !owned_when_idle("enter"@, char_of(stroke)),
        !owned_when_idle(stroke.key@, None),
        !owned_when_idle(stroke.key@, Some(Seq::empty())),
{
}

} // verus!
