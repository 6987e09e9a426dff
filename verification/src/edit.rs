//! The editable state of a text input: its content, the selection and the span
//! that an input method is composing. Offsets are bytes of UTF-8.
use crate::abi::{ABI_VERSION, EVENT_INPUT_CHANGED, EVENT_INPUT_SUBMIT};
use crate::events::{envelope, Envelope};
use crate::input::{others_than, texts_for, texts_of, InputMirror, Mirrored};
use crate::text::{lemma_encode_concat, same_text};
use crate::utf16::{
    from_utf16, law_conversion_is_monotone, law_converted_offsets_are_boundaries,
    law_offsets_round_trip, len16, range_from_utf16, range_to_utf16, to_utf16,
};
use std::ops::Range;
use vstd::prelude::*;
use vstd::utf8::{
    decode_utf8, decode_utf8_encode_utf8, encode_utf8, encode_utf8_decode_utf8,
    encode_utf8_first_scalar, encode_utf8_valid_utf8, is_char_boundary, length_of_first_scalar,
    is_char_boundary_iff_not_is_continuation_byte, is_char_boundary_start_end_of_seq,
    valid_utf8_concat, valid_utf8_split,
};

verus! {

/// A place between two characters of a text, or at one of its ends.
pub open spec fn is_place(text: Seq<char>, offset: int) -> bool {
    is_char_boundary(encode_utf8(text), offset)
}

/// Bytes with a range replaced. The range may run backwards; what lies between
/// its ends is then kept twice.
pub open spec fn spliced(bytes: Seq<u8>, start: int, end: int, new: Seq<u8>) -> Seq<u8> {
    bytes.subrange(0, start) + new + bytes.subrange(end, bytes.len() as int)
}

/// A place lies within the text.
pub proof fn lemma_place_is_within(text: Seq<char>, offset: int)
    requires
        is_place(text, offset),
    ensures
        0 <= offset <= encode_utf8(text).len(),
{
    encode_utf8_valid_utf8(text);
}

/// Both ends of a text are places.
pub proof fn lemma_ends_are_places(text: Seq<char>)
    ensures
        is_place(text, 0),
        is_place(text, encode_utf8(text).len() as int),
{
    encode_utf8_valid_utf8(text);
    is_char_boundary_start_end_of_seq(encode_utf8(text));
}

/// A place of a suffix is a place of the whole.
pub proof fn lemma_place_behind_prefix(prefix: Seq<char>, text: Seq<char>, offset: int)
    requires
        is_place(text, offset),
    ensures
        is_place(prefix + text, encode_utf8(prefix).len() + offset),
{
    let whole = encode_utf8(prefix + text);
    lemma_encode_concat(prefix, text);
    lemma_place_is_within(text, offset);
    encode_utf8_valid_utf8(prefix + text);
    encode_utf8_valid_utf8(text);
    let at = encode_utf8(prefix).len() + offset;
    if offset == encode_utf8(text).len() {
        is_char_boundary_start_end_of_seq(whole);
    } else {
        is_char_boundary_iff_not_is_continuation_byte(encode_utf8(text), offset);
        is_char_boundary_iff_not_is_continuation_byte(whole, at);
        assert(whole[at] == encode_utf8(text)[offset]);
    }
}

/// A place of a prefix is a place of the whole.
pub proof fn lemma_place_in_prefix(prefix: Seq<char>, text: Seq<char>, offset: int)
    requires
        is_place(prefix, offset),
    ensures
        is_place(prefix + text, offset),
{
    let whole = encode_utf8(prefix + text);
    lemma_encode_concat(prefix, text);
    lemma_place_is_within(prefix, offset);
    encode_utf8_valid_utf8(prefix + text);
    encode_utf8_valid_utf8(prefix);
    if offset == encode_utf8(prefix).len() {
        lemma_ends_are_places(text);
        lemma_place_behind_prefix(prefix, text, 0);
    } else {
        is_char_boundary_iff_not_is_continuation_byte(encode_utf8(prefix), offset);
        is_char_boundary_iff_not_is_continuation_byte(whole, offset);
        assert(whole[offset] == encode_utf8(prefix)[offset]);
    }
}

/// Replaces a range of a text.
fn splice(content: &str, range: &Range<usize>, new_text: &str) -> (next: String)
    requires
        is_place(content@, range.start as int),
        is_place(content@, range.end as int),
    ensures
        encode_utf8(next@) == spliced(
            encode_utf8(content@),
            range.start as int,
            range.end as int,
            encode_utf8(new_text@),
        ),
        range.start + encode_utf8(new_text@).len() <= encode_utf8(next@).len() <= usize::MAX,
        forall|offset: int|
            is_place(new_text@, offset) ==> is_place(next@, range.start + offset),
{
    let (before, _) = content.split_at(range.start);
    let (_, after) = content.split_at(range.end);
    let mut next: String = String::new();
    next.append(before);
    next.append(new_text);
    next.append(after);
    let total: usize = next.as_str().as_bytes().len();
    proof {
        let head = before@ + new_text@;
        assert(next@ =~= head + after@);
        lemma_encode_concat(head, after@);
        lemma_encode_concat(before@, new_text@);
        lemma_place_is_within(content@, range.start as int);
        lemma_place_is_within(content@, range.end as int);
        assert(encode_utf8(next@) =~= spliced(
            encode_utf8(content@),
            range.start as int,
            range.end as int,
            encode_utf8(new_text@),
        ));
        assert(encode_utf8(next@).len() == total);
        assert forall|offset: int| is_place(new_text@, offset) implies is_place(
            next@,
            range.start + offset,
        ) by {
            lemma_place_behind_prefix(before@, new_text@, offset);
            lemma_place_in_prefix(head, after@, range.start + offset);
        }
    }
    next
}

/// Commits text in place of a range: the caret goes behind it and nothing is
/// composed any more.
pub fn input_apply_replace(
    content: &mut String,
    selected: &mut Range<usize>,
    marked: &mut Option<Range<usize>>,
    range: Range<usize>,
    new_text: &str,
)
    requires
        is_place(old(content)@, range.start as int),
        is_place(old(content)@, range.end as int),
    ensures
        encode_utf8(final(content)@) == spliced(
            encode_utf8(old(content)@),
            range.start as int,
            range.end as int,
            encode_utf8(new_text@),
        ),
        final(selected).start == range.start + encode_utf8(new_text@).len(),
        final(selected).end == final(selected).start,
        *final(marked) is None,
        is_place(final(content)@, final(selected).start as int),
{
    let next: String = splice(content.as_str(), &range, new_text);
    *content = next;
    let caret: usize = range.start + new_text.as_bytes().len();
    proof {
        lemma_ends_are_places(new_text@);
    }
    *selected = caret..caret;
    *marked = None;
}

/// Puts text that is still being composed in place of a range. The span that
/// is composed is the new text, unless it is empty; the selection lies within
/// it where one is given, and else behind it.
pub fn input_apply_replace_and_mark(
    content: &mut String,
    selected: &mut Range<usize>,
    marked: &mut Option<Range<usize>>,
    range: Range<usize>,
    new_text: &str,
    new_selected_in_text: Option<Range<usize>>,
)
    requires
        is_place(old(content)@, range.start as int),
        is_place(old(content)@, range.end as int),
        new_selected_in_text matches Some(inner) ==> {
            &&& inner.start <= size(new_text@) || range.start + inner.start <= usize::MAX
            &&& inner.end <= size(new_text@) || range.start + inner.end <= usize::MAX
        },
    ensures
        encode_utf8(final(content)@) == spliced(
            encode_utf8(old(content)@),
            range.start as int,
            range.end as int,
            encode_utf8(new_text@),
        ),
        match *final(marked) {
            None => new_text@.len() == 0,
            Some(span) => {
                &&& new_text@.len() > 0
                &&& span.start == range.start
                &&& span.end == range.start + encode_utf8(new_text@).len()
                &&& is_place(final(content)@, span.start as int)
                &&& is_place(final(content)@, span.end as int)
            },
        },
        match new_selected_in_text {
            Some(inner) => {
                &&& final(selected).start == range.start + inner.start
                &&& final(selected).end == range.start + inner.end
                &&& is_place(new_text@, inner.start as int) ==> is_place(
                    final(content)@,
                    final(selected).start as int,
                )
                &&& is_place(new_text@, inner.end as int) ==> is_place(
                    final(content)@,
                    final(selected).end as int,
                )
            },
            None => {
                &&& final(selected).start == range.start + encode_utf8(new_text@).len()
                &&& final(selected).end == final(selected).start
                &&& is_place(final(content)@, final(selected).start as int)
            },
        },
{
    let next: String = splice(content.as_str(), &range, new_text);
    *content = next;
    let caret: usize = range.start + new_text.as_bytes().len();
    proof {
        lemma_ends_are_places(new_text@);
        assert(is_place(new_text@, 0) ==> is_place(content@, range.start + 0));
    }
    *marked = if new_text.is_empty() {
        None
    } else {
        Some(range.start..caret)
    };
    *selected = match new_selected_in_text {
        Some(inner) => range.start + inner.start..range.start + inner.end,
        None => caret..caret,
    };
}

/// The editable state as a mathematical value: the text, the selection and the
/// span that is being composed.
#[verifier::ext_equal]
pub struct Edit {
    pub text: Seq<char>,
    pub start: int,
    pub end: int,
    pub mark: Option<(int, int)>,
}

/// The number of bytes of a text.
pub open spec fn size(text: Seq<char>) -> int {
    encode_utf8(text).len() as int
}

/// A text with a range replaced.
pub open spec fn replaced(text: Seq<char>, start: int, end: int, new: Seq<char>) -> Seq<char> {
    decode_utf8(spliced(encode_utf8(text), start, end, encode_utf8(new)))
}

/// The selection and the composed span lie between characters.
pub open spec fn edit_is_sound(edit: Edit) -> bool {
    &&& is_place(edit.text, edit.start)
    &&& is_place(edit.text, edit.end)
    &&& edit.mark matches Some((start, end)) ==> {
        &&& start <= end
        &&& is_place(edit.text, start)
        &&& is_place(edit.text, end)
    }
}

/// Nothing is selected: the selection is a caret.
pub open spec fn is_caret(edit: Edit) -> bool {
    edit.start >= edit.end
}

/// The last place before an offset.
pub open spec fn place_before(text: Seq<char>, offset: int) -> int
    decreases offset,
{
    if offset <= 0 {
        0
    } else if is_place(text, offset - 1) {
        offset - 1
    } else {
        place_before(text, offset - 1)
    }
}

/// The first place behind an offset.
pub open spec fn place_after(text: Seq<char>, offset: int) -> int
    decreases size(text) - offset,
{
    if offset >= size(text) {
        size(text)
    } else if is_place(text, offset + 1) {
        offset + 1
    } else {
        place_after(text, offset + 1)
    }
}

/// The keys that edit.
#[derive(Clone, Copy, PartialEq, Eq, Structural, Debug)]
pub enum EditKey {
    Backspace,
    Delete,
    Left,
    Right,
    Home,
    End,
    Enter,
    Other,
}

/// The key that a name stands for.
pub open spec fn edit_key(name: Seq<char>) -> EditKey {
    if name == "backspace"@ {
        EditKey::Backspace
    } else if name == "delete"@ {
        EditKey::Delete
    } else if name == "left"@ {
        EditKey::Left
    } else if name == "right"@ {
        EditKey::Right
    } else if name == "home"@ {
        EditKey::Home
    } else if name == "end"@ {
        EditKey::End
    } else if name == "enter"@ {
        EditKey::Enter
    } else {
        EditKey::Other
    }
}

/// The key that a name stands for.
pub fn edit_key_of(name: &str) -> (key: EditKey)
    ensures
        key == edit_key(name@),
{
    if same_text(name, "backspace") {
        EditKey::Backspace
    } else if same_text(name, "delete") {
        EditKey::Delete
    } else if same_text(name, "left") {
        EditKey::Left
    } else if same_text(name, "right") {
        EditKey::Right
    } else if same_text(name, "home") {
        EditKey::Home
    } else if same_text(name, "end") {
        EditKey::End
    } else if same_text(name, "enter") {
        EditKey::Enter
    } else {
        EditKey::Other
    }
}

/// What a widget still has to do after a key.
#[derive(Clone, Copy, PartialEq, Eq, Structural, Debug)]
pub enum EditOutcome {
    /// The key is not one of the editing keys.
    Unhandled,
    /// Nothing changed.
    Handled,
    /// The caret moved: draw again.
    Moved,
    /// The text changed: deliver the event and draw again.
    Changed { event: Envelope },
    /// The text was submitted: deliver the event.
    Submitted { event: Envelope },
}

/// The caret at an offset.
pub open spec fn caret_at(edit: Edit, offset: int) -> Edit {
    Edit { start: offset, end: offset, ..edit }
}

/// The range that an erasing key is about: the selection, or the character
/// next to the caret.
pub open spec fn erased_range(edit: Edit, key: EditKey) -> (int, int) {
    if !is_caret(edit) {
        (edit.start, edit.end)
    } else if key == EditKey::Backspace {
        (place_before(edit.text, edit.end), edit.end)
    } else {
        (edit.end, place_after(edit.text, edit.end))
    }
}

/// The state after text was committed in place of a range.
pub open spec fn committed(edit: Edit, start: int, end: int, new: Seq<char>) -> Edit {
    Edit {
        text: replaced(edit.text, start, end, new),
        start: start + size(new),
        end: start + size(new),
        mark: None,
    }
}

/// The state after a key.
pub open spec fn after_key(edit: Edit, key: EditKey) -> Edit {
    match key {
        EditKey::Backspace | EditKey::Delete => {
            let (start, end) = erased_range(edit, key);
            if start < end {
                committed(edit, start, end, Seq::empty())
            } else {
                Edit { start, end, ..edit }
            }
        },
        EditKey::Left => caret_at(
            edit,
            if is_caret(edit) {
                place_before(edit.text, edit.end)
            } else {
                edit.start
            },
        ),
        EditKey::Right => caret_at(
            edit,
            if is_caret(edit) {
                place_after(edit.text, edit.end)
            } else {
                edit.end
            },
        ),
        EditKey::Home => caret_at(edit, 0),
        EditKey::End => caret_at(edit, size(edit.text)),
        EditKey::Enter => edit,
        EditKey::Other => edit,
    }
}

/// What is left to do after a key.
pub open spec fn outcome_of(edit: Edit, key: EditKey, view: i32, input_id: i32) -> EditOutcome {
    match key {
        EditKey::Backspace | EditKey::Delete => {
            let (start, end) = erased_range(edit, key);
            if start < end {
                EditOutcome::Changed { event: envelope(EVENT_INPUT_CHANGED, view, input_id, 0) }
            } else {
                EditOutcome::Handled
            }
        },
        EditKey::Left | EditKey::Right | EditKey::Home | EditKey::End => EditOutcome::Moved,
        EditKey::Enter => EditOutcome::Submitted {
            event: envelope(EVENT_INPUT_SUBMIT, view, input_id, 0),
        },
        EditKey::Other => EditOutcome::Unhandled,
    }
}

/// The editable state of one text input.
pub struct TextInputModel {
    pub view: i32,
    pub input_id: i32,
    pub content: String,
    pub placeholder: String,
    /// The selection; an empty range is a caret.
    pub selected_range: Range<usize>,
    /// The span that an input method is composing.
    pub marked_range: Option<Range<usize>>,
}

impl View for TextInputModel {
    type V = Edit;

    open spec fn view(&self) -> Edit {
        Edit {
            text: self.content@,
            start: self.selected_range.start as int,
            end: self.selected_range.end as int,
            mark: match self.marked_range {
                Some(span) => Some((span.start as int, span.end as int)),
                None => None,
            },
        }
    }
}

impl TextInputModel {
    /// The selection and the composed span lie between characters.
    pub open spec fn wf(&self) -> bool {
        edit_is_sound(self@)
    }

    /// Nothing but the editable state differs.
    pub open spec fn same_input(&self, other: TextInputModel) -> bool {
        &&& self.view == other.view
        &&& self.input_id == other.input_id
        &&& self.placeholder == other.placeholder
    }

    /// What the mirror is told of this input.
    pub open spec fn mirrored(&self) -> Mirrored {
        Mirrored { text: self.content@, composing: self.marked_range is Some }
    }

    /// An empty input.
    pub fn new(view: i32, input_id: i32, placeholder: String) -> (model: TextInputModel)
        ensures
            model.wf(),
            model.view == view,
            model.input_id == input_id,
            model.placeholder == placeholder,
            model@ == (Edit { text: Seq::empty(), start: 0, end: 0, mark: None }),
    {
        let model = TextInputModel {
            view,
            input_id,
            content: String::new(),
            placeholder,
            selected_range: 0..0,
            marked_range: None,
        };
        proof {
            lemma_ends_are_places(model.content@);
        }
        model
    }

    /// Where the caret stands.
    pub fn caret(&self) -> (offset: usize)
        ensures
            offset == self@.end,
    {
        self.selected_range.end
    }

    /// The last place before an offset.
    pub fn previous_boundary(&self, offset: usize) -> (place: usize)
        requires
            is_place(self.content@, offset as int),
        ensures
            place == place_before(self.content@, offset as int),
            is_place(self.content@, place as int),
            place <= offset,
            offset > 0 ==> place < offset,
    {
        let content: &str = self.content.as_str();
        proof {
            lemma_ends_are_places(self.content@);
        }
        let mut at: usize = offset;
        while at > 0
            invariant
                at <= offset,
                content@ == self.content@,
                place_before(self.content@, offset as int) == place_before(
                    self.content@,
                    at as int,
                ),
                is_place(self.content@, 0),
            decreases at,
        {
            at = at - 1;
            if content.is_char_boundary(at) {
                return at;
            }
        }
        0
    }

    /// The first place behind an offset.
    pub fn next_boundary(&self, offset: usize) -> (place: usize)
        requires
            is_place(self.content@, offset as int),
        ensures
            place == place_after(self.content@, offset as int),
            is_place(self.content@, place as int),
            place >= offset,
            offset < size(self.content@) ==> place > offset,
    {
        let content: &str = self.content.as_str();
        let total: usize = content.as_bytes().len();
        proof {
            lemma_ends_are_places(self.content@);
            lemma_place_is_within(self.content@, offset as int);
        }
        let mut at: usize = offset;
        while at < total
            invariant
                offset <= at <= total,
                total == size(self.content@),
                content@ == self.content@,
                place_after(self.content@, offset as int) == place_after(self.content@, at as int),
                is_place(self.content@, total as int),
            decreases total - at,
        {
            at = at + 1;
            if content.is_char_boundary(at) {
                return at;
            }
        }
        total
    }

    /// Tells the mirror of this input.
    pub fn sync_mirror(&self, inputs: &mut InputMirror)
        requires
            old(inputs).wf(),
        ensures
            final(inputs).wf(),
            final(inputs).mirror() == old(inputs).mirror().insert(
                (self.view, self.input_id),
                self.mirrored(),
            ),
            final(inputs).queued() == old(inputs).queued(),
            final(inputs).dirty() == old(inputs).dirty(),
    {
        inputs.mirror_update(
            self.view,
            self.input_id,
            self.content.as_str(),
            self.marked_range.is_some(),
        );
    }

    /// Takes a text that was written across the boundary; the caret goes to
    /// its end.
    pub fn apply_set_text(&mut self, text: String, inputs: &mut InputMirror)
        requires
            old(inputs).wf(),
        ensures
            final(self).wf(),
            final(self).same_input(*old(self)),
            final(self)@ == (Edit { text: text@, start: size(text@), end: size(text@), mark: None }),
            final(inputs).wf(),
            final(inputs).mirror() == old(inputs).mirror().insert(
                (old(self).view, old(self).input_id),
                (Mirrored { text: text@, composing: false }),
            ),
            final(inputs).queued() == old(inputs).queued(),
            final(inputs).dirty() == old(inputs).dirty(),
    {
        let end: usize = text.as_str().as_bytes().len();
        proof {
            lemma_ends_are_places(text@);
        }
        self.content = text;
        self.selected_range = end..end;
        self.marked_range = None;
        self.sync_mirror(inputs);
    }

    /// Commits text in place of a range.
    fn commit(&mut self, range: Range<usize>, new_text: &str, inputs: &mut InputMirror)
        requires
            is_place(old(self).content@, range.start as int),
            is_place(old(self).content@, range.end as int),
            old(inputs).wf(),
        ensures
            final(self).wf(),
            final(self).same_input(*old(self)),
            final(self)@ == committed(
                old(self)@,
                range.start as int,
                range.end as int,
                new_text@,
            ),
            final(inputs).wf(),
            final(inputs).mirror() == old(inputs).mirror().insert(
                (old(self).view, old(self).input_id),
                (Mirrored { text: final(self)@.text, composing: false }),
            ),
            final(inputs).queued() == old(inputs).queued(),
            final(inputs).dirty() == old(inputs).dirty(),
    {
        input_apply_replace(
            &mut self.content,
            &mut self.selected_range,
            &mut self.marked_range,
            range,
            new_text,
        );
        proof {
            encode_utf8_decode_utf8(self.content@);
        }
        self.sync_mirror(inputs);
    }

    /// Commits text at the end.
    pub fn append_text(&mut self, text: &str, inputs: &mut InputMirror)
        requires
            old(inputs).wf(),
        ensures
            final(self).wf(),
            final(self).same_input(*old(self)),
            final(self)@ == committed(
                old(self)@,
                size(old(self)@.text),
                size(old(self)@.text),
                text@,
            ),
            final(inputs).wf(),
            final(inputs).mirror() == old(inputs).mirror().insert(
                (old(self).view, old(self).input_id),
                (Mirrored { text: final(self)@.text, composing: false }),
            ),
            final(inputs).queued() == old(inputs).queued(),
            final(inputs).dirty() == old(inputs).dirty(),
    {
        let end: usize = self.content.as_str().as_bytes().len();
        proof {
            lemma_ends_are_places(self.content@);
        }
        self.commit(end..end, text, inputs);
    }

    /// Handles a key that edits. The text is mirrored where it changed.
    pub fn handle_editing_key(&mut self, name: &str, inputs: &mut InputMirror) -> (outcome:
        EditOutcome)
        requires
            old(self).wf(),
            old(inputs).wf(),
        ensures
            final(self).wf(),
            final(self).same_input(*old(self)),
            final(self)@ == after_key(old(self)@, edit_key(name@)),
            outcome == outcome_of(
                old(self)@,
                edit_key(name@),
                old(self).view,
                old(self).input_id,
            ),
            final(inputs).wf(),
            final(inputs).mirror() == if outcome is Changed {
                old(inputs).mirror().insert(
                    (old(self).view, old(self).input_id),
                    (Mirrored { text: final(self)@.text, composing: false }),
                )
            } else {
                old(inputs).mirror()
            },
            final(inputs).queued() == old(inputs).queued(),
            final(inputs).dirty() == old(inputs).dirty(),
    {
        proof {
            lemma_ends_are_places(self.content@);
        }
        let key = edit_key_of(name);
        let is_caret = !(self.selected_range.start < self.selected_range.end);
        match key {
            EditKey::Backspace | EditKey::Delete => {
                if is_caret {
                    let caret: usize = self.caret();
                    self.selected_range = match key {
                        EditKey::Backspace => self.previous_boundary(caret)..caret,
                        _ => caret..self.next_boundary(caret),
                    };
                }
                if self.selected_range.start < self.selected_range.end {
                    let range = self.selected_range.start..self.selected_range.end;
                    assert(encode_utf8(""@) =~= Seq::<u8>::empty()) by {
                        reveal_strlit("");
                    }
                    assert(""@ =~= Seq::<char>::empty()) by {
                        reveal_strlit("");
                    }
                    self.commit(range, "", inputs);
                    EditOutcome::Changed {
                        event: Envelope::new(EVENT_INPUT_CHANGED, self.view, self.input_id, 0),
                    }
                } else {
                    EditOutcome::Handled
                }
            },
            EditKey::Left => {
                let caret: usize = if is_caret {
                    self.previous_boundary(self.caret())
                } else {
                    self.selected_range.start
                };
                self.selected_range = caret..caret;
                EditOutcome::Moved
            },
            EditKey::Right => {
                let caret: usize = if is_caret {
                    self.next_boundary(self.caret())
                } else {
                    self.selected_range.end
                };
                self.selected_range = caret..caret;
                EditOutcome::Moved
            },
            EditKey::Home => {
                self.selected_range = 0..0;
                EditOutcome::Moved
            },
            EditKey::End => {
                let end: usize = self.content.as_str().as_bytes().len();
                self.selected_range = end..end;
                EditOutcome::Moved
            },
            EditKey::Enter => EditOutcome::Submitted {
                event: Envelope::new(EVENT_INPUT_SUBMIT, self.view, self.input_id, 0),
            },
            EditKey::Other => EditOutcome::Unhandled,
        }
    }
}

/// A place of the whole that lies within a prefix is a place of the prefix.
proof fn lemma_place_stays_in_prefix(prefix: Seq<char>, text: Seq<char>, offset: int)
    requires
        is_place(prefix + text, offset),
        offset <= size(prefix),
    ensures
        is_place(prefix, offset),
{
    let whole = encode_utf8(prefix + text);
    lemma_encode_concat(prefix, text);
    lemma_place_is_within(prefix + text, offset);
    encode_utf8_valid_utf8(prefix + text);
    encode_utf8_valid_utf8(prefix);
    if offset == size(prefix) {
        is_char_boundary_start_end_of_seq(encode_utf8(prefix));
    } else {
        is_char_boundary_iff_not_is_continuation_byte(encode_utf8(prefix), offset);
        is_char_boundary_iff_not_is_continuation_byte(whole, offset);
        assert(whole[offset] == encode_utf8(prefix)[offset]);
    }
}

/// A range as a pair.
pub open spec fn pair_of(range: Range<usize>) -> (int, int) {
    (range.start as int, range.end as int)
}

/// An optional range as a pair.
pub open spec fn optional_pair(range: Option<Range<usize>>) -> Option<(int, int)> {
    match range {
        Some(range) => Some(pair_of(range)),
        None => None,
    }
}

/// The byte range that a UTF-16 range stands for.
pub open spec fn bytes_of(text: Seq<char>, units: (int, int)) -> (int, int) {
    (from_utf16(text, units.0) as int, from_utf16(text, units.1) as int)
}

/// The range that an input method replaces: the one it names, else the span
/// that is composed, else the selection.
pub open spec fn target(edit: Edit, units: Option<(int, int)>) -> (int, int) {
    match units {
        Some(units) => bytes_of(edit.text, units),
        None => match edit.mark {
            Some(mark) => mark,
            None => (edit.start, edit.end),
        },
    }
}

/// The state after composed text was put in place of a range. The selection
/// is given relative to the new text, in UTF-16.
pub open spec fn composed(
    edit: Edit,
    range: (int, int),
    new: Seq<char>,
    inner: Option<(int, int)>,
) -> Edit {
    let (start, end) = match inner {
        Some(units) => bytes_of(new, units),
        None => (size(new), size(new)),
    };
    Edit {
        text: replaced(edit.text, range.0, range.1, new),
        start: range.0 + start,
        end: range.0 + end,
        mark: if new.len() == 0 {
            None
        } else {
            Some((range.0, range.0 + size(new)))
        },
    }
}

impl TextInputModel {
    /// The range that an input method replaces.
    fn target_range(&self, range_utf16: Option<Range<usize>>) -> (range: Range<usize>)
        requires
            self.wf(),
        ensures
            pair_of(range) == target(self@, optional_pair(range_utf16)),
            is_place(self.content@, range.start as int),
            is_place(self.content@, range.end as int),
    {
        match range_utf16 {
            Some(units) => {
                proof {
                    law_converted_offsets_are_boundaries(self.content@, units.start as int);
                    law_converted_offsets_are_boundaries(self.content@, units.end as int);
                }
                range_from_utf16(self.content.as_str(), &units)
            },
            None => match &self.marked_range {
                Some(span) => span.start..span.end,
                None => self.selected_range.start..self.selected_range.end,
            },
        }
    }

    /// The text of a UTF-16 range, with the range that it really covers.
    pub fn text_for_range(&self, range_utf16: Range<usize>) -> (found: (String, Range<usize>))
        requires
            range_utf16.start <= range_utf16.end || from_utf16(
                self.content@,
                range_utf16.start as int,
            ) <= from_utf16(self.content@, range_utf16.end as int),
        ensures
            ({
                let (start, end) = bytes_of(self.content@, pair_of(range_utf16));
                &&& encode_utf8(found.0@) == encode_utf8(self.content@).subrange(start, end)
                &&& found.1.start == to_utf16(self.content@, start)
                &&& found.1.end == to_utf16(self.content@, end)
            }),
    {
        let content: &str = self.content.as_str();
        let range: Range<usize> = range_from_utf16(content, &range_utf16);
        proof {
            law_converted_offsets_are_boundaries(content@, range_utf16.start as int);
            law_converted_offsets_are_boundaries(content@, range_utf16.end as int);
            if range_utf16.start <= range_utf16.end {
                law_conversion_is_monotone(
                    content@,
                    range_utf16.start as int,
                    range_utf16.end as int,
                );
            }
        }
        let adjusted: Range<usize> = range_to_utf16(content, &range);
        let (front, rest) = content.split_at(range.end);
        proof {
            let all = front@ + rest@;
            lemma_place_is_within(content@, range.end as int);
            lemma_encode_concat(front@, rest@);
            assert(encode_utf8(all) =~= encode_utf8(content@));
            encode_utf8_decode_utf8(all);
            encode_utf8_decode_utf8(content@);
            lemma_place_stays_in_prefix(front@, rest@, range.start as int);
        }
        let (_, wanted) = front.split_at(range.start);
        assert(encode_utf8(wanted@) =~= encode_utf8(content@).subrange(
            range.start as int,
            range.end as int,
        ));
        (wanted.to_owned(), adjusted)
    }

    /// The selection in UTF-16.
    pub fn selected_text_range(&self) -> (units: Range<usize>)
        ensures
            units.start == to_utf16(self.content@, self@.start),
            units.end == to_utf16(self.content@, self@.end),
    {
        range_to_utf16(self.content.as_str(), &self.selected_range)
    }

    /// The span that is composed, in UTF-16.
    pub fn marked_text_range(&self) -> (units: Option<Range<usize>>)
        ensures
            units is Some <==> self@.mark is Some,
            units is Some ==> units->0.start == to_utf16(self.content@, (self@.mark->0).0),
            units is Some ==> units->0.end == to_utf16(self.content@, (self@.mark->0).1),
    {
        match &self.marked_range {
            Some(span) => Some(range_to_utf16(self.content.as_str(), span)),
            None => None,
        }
    }

    /// Ends a composition and keeps its text.
    pub fn unmark_text(&mut self, inputs: &mut InputMirror)
        requires
            old(self).wf(),
            old(inputs).wf(),
        ensures
            final(self).wf(),
            final(self).same_input(*old(self)),
            final(self)@ == (Edit { mark: None, ..old(self)@ }),
            final(inputs).wf(),
            final(inputs).mirror() == old(inputs).mirror().insert(
                (old(self).view, old(self).input_id),
                (Mirrored { text: old(self)@.text, composing: false }),
            ),
            final(inputs).queued() == old(inputs).queued(),
            final(inputs).dirty() == old(inputs).dirty(),
    {
        self.marked_range = None;
        self.sync_mirror(inputs);
    }

    /// Commits text. Answers the event that tells of the change.
    pub fn replace_text_in_range(
        &mut self,
        range_utf16: Option<Range<usize>>,
        new_text: &str,
        inputs: &mut InputMirror,
    ) -> (event: Envelope)
        requires
            old(self).wf(),
            old(inputs).wf(),
        ensures
            final(self).wf(),
            final(self).same_input(*old(self)),
            ({
                let (start, end) = target(old(self)@, optional_pair(range_utf16));
                final(self)@ == committed(old(self)@, start, end, new_text@)
            }),
            event == envelope(EVENT_INPUT_CHANGED, old(self).view, old(self).input_id, 0),
            final(inputs).wf(),
            final(inputs).mirror() == old(inputs).mirror().insert(
                (old(self).view, old(self).input_id),
                (Mirrored { text: final(self)@.text, composing: false }),
            ),
            final(inputs).queued() == old(inputs).queued(),
            final(inputs).dirty() == old(inputs).dirty(),
    {
        let range: Range<usize> = self.target_range(range_utf16);
        self.commit(range, new_text, inputs);
        Envelope::new(EVENT_INPUT_CHANGED, self.view, self.input_id, 0)
    }

    /// Puts text that is still being composed into the input. Nobody is told
    /// before it is committed.
    pub fn replace_and_mark_text_in_range(
        &mut self,
        range_utf16: Option<Range<usize>>,
        new_text: &str,
        new_selected_range_utf16: Option<Range<usize>>,
        inputs: &mut InputMirror,
    )
        requires
            old(self).wf(),
            old(inputs).wf(),
        ensures
            final(self).wf(),
            final(self).same_input(*old(self)),
            final(self)@ == composed(
                old(self)@,
                target(old(self)@, optional_pair(range_utf16)),
                new_text@,
                optional_pair(new_selected_range_utf16),
            ),
            final(inputs).wf(),
            final(inputs).mirror() == old(inputs).mirror().insert(
                (old(self).view, old(self).input_id),
                (Mirrored { text: final(self)@.text, composing: new_text@.len() > 0 }),
            ),
            final(inputs).queued() == old(inputs).queued(),
            final(inputs).dirty() == old(inputs).dirty(),
    {
        let range: Range<usize> = self.target_range(range_utf16);
        let inner = match &new_selected_range_utf16 {
            Some(units) => {
                proof {
                    law_converted_offsets_are_boundaries(new_text@, units.start as int);
                    law_converted_offsets_are_boundaries(new_text@, units.end as int);
                    lemma_place_is_within(
                        new_text@,
                        from_utf16(new_text@, units.start as int) as int,
                    );
                    lemma_place_is_within(
                        new_text@,
                        from_utf16(new_text@, units.end as int) as int,
                    );
                }
                Some(range_from_utf16(new_text, units))
            },
            None => None,
        };
        input_apply_replace_and_mark(
            &mut self.content,
            &mut self.selected_range,
            &mut self.marked_range,
            range,
            new_text,
            inner,
        );
        proof {
            encode_utf8_decode_utf8(self.content@);
        }
        self.sync_mirror(inputs);
    }
}

/// How one line of a text input is drawn.
pub struct LinePlan {
    /// Is the placeholder shown in place of the text?
    pub shows_placeholder: bool,
    /// The runs of the shown text: how many bytes each has, and whether it is
    /// underlined because it is being composed.
    pub runs: Vec<(usize, bool)>,
    /// Where the caret is drawn; it is not where something is selected.
    pub caret: Option<usize>,
    /// The range that is drawn as selected.
    pub selection: Option<(usize, usize)>,
}

/// Where a caret is drawn; none is where something is selected.
pub open spec fn drawn_caret(edit: Edit) -> Option<int> {
    if edit.text.len() == 0 {
        Some(0)
    } else if is_caret(edit) {
        Some(edit.end)
    } else {
        None
    }
}

/// The range that is drawn as selected.
pub open spec fn drawn_selection(edit: Edit) -> Option<(int, int)> {
    if is_caret(edit) || edit.text.len() == 0 {
        None
    } else {
        Some((edit.start, edit.end))
    }
}

/// A run, unless it is empty.
pub open spec fn unless_empty(len: int, underlined: bool) -> Seq<(int, bool)> {
    if len > 0 {
        seq![(len, underlined)]
    } else {
        Seq::empty()
    }
}

/// The runs of a line.
pub open spec fn line_runs(edit: Edit, placeholder: Seq<char>) -> Seq<(int, bool)> {
    match edit.mark {
        Some((start, end)) if edit.text.len() > 0 => unless_empty(start, false) + unless_empty(
            end - start,
            true,
        ) + unless_empty(size(edit.text) - end, false),
        _ => seq![
            (
                if edit.text.len() == 0 {
                    size(placeholder)
                } else {
                    size(edit.text)
                },
                false,
            ),
        ],
    }
}

/// The runs of a plan as mathematical values.
pub open spec fn runs_of(runs: Seq<(usize, bool)>) -> Seq<(int, bool)> {
    runs.map_values(|run: (usize, bool)| (run.0 as int, run.1))
}

/// How many bytes runs cover.
pub open spec fn covered(runs: Seq<(int, bool)>) -> int
    decreases runs.len(),
{
    if runs.len() == 0 {
        0
    } else {
        covered(runs.drop_last()) + runs.last().0
    }
}

/// Appends a run, unless it is empty.
fn push_run(runs: &mut Vec<(usize, bool)>, len: usize, underlined: bool)
    ensures
        runs_of(final(runs)@) == runs_of(old(runs)@) + unless_empty(len as int, underlined),
{
    if len > 0 {
        runs.push((len, underlined));
    }
    assert(runs_of(runs@) =~= runs_of(old(runs)@) + unless_empty(len as int, underlined));
}

impl TextInputModel {
    /// Takes the texts that were written across the boundary since the last
    /// frame, in order.
    pub fn take_writes(&mut self, inputs: &mut InputMirror)
        requires
            old(self).wf(),
            old(inputs).wf(),
        ensures
            final(self).wf(),
            final(self).same_input(*old(self)),
            final(inputs).wf(),
            final(inputs).queued() == others_than(
                old(inputs).queued(),
                old(self).view,
                old(self).input_id,
            ),
            final(inputs).dirty() == old(inputs).dirty(),
            ({
                let texts = texts_for(old(inputs).queued(), old(self).view, old(self).input_id);
                if texts.len() == 0 {
                    &&& final(self)@ == old(self)@
                    &&& final(inputs).mirror() == old(inputs).mirror()
                } else {
                    let text = texts.last();
                    &&& final(self)@ == (Edit {
                        text,
                        start: size(text),
                        end: size(text),
                        mark: None,
                    })
                    &&& final(inputs).mirror() == old(inputs).mirror().insert(
                        (old(self).view, old(self).input_id),
                        (Mirrored { text, composing: false }),
                    )
                }
            }),
    {
        let ghost view = self.view;
        let ghost input_id = self.input_id;
        let mut texts: Vec<String> = inputs.take_queued(self.view, self.input_id);
        let ghost all = texts_of(texts@);
        let ghost items = texts@;
        let ghost rest = inputs.queued();
        let ghost mut i: int = 0;
        assert(items.skip(0) =~= items);
        while texts.len() > 0
            invariant
                0 <= i <= items.len(),
                texts@ == items.skip(i),
                all == texts_of(items),
                self.wf(),
                self.same_input(*old(self)),
                view == old(self).view,
                input_id == old(self).input_id,
                inputs.wf(),
                inputs.queued() == rest,
                inputs.dirty() == old(inputs).dirty(),
                i == 0 ==> self@ == old(self)@ && inputs.mirror() == old(inputs).mirror(),
                i > 0 ==> self@ == (Edit {
                    text: all[i - 1],
                    start: size(all[i - 1]),
                    end: size(all[i - 1]),
                    mark: None,
                }) && inputs.mirror() == old(inputs).mirror().insert(
                    (view, input_id),
                    (Mirrored { text: all[i - 1], composing: false }),
                ),
            decreases texts@.len(),
        {
            let text: String = texts.remove(0);
            proof {
                assert(text == items[i]);
                assert(texts@ =~= items.skip(i + 1));
                i = i + 1;
            }
            let ghost mirror_before = inputs.mirror();
            self.apply_set_text(text, inputs);
            assert(inputs.mirror() =~= old(inputs).mirror().insert(
                (view, input_id),
                (Mirrored { text: all[i - 1], composing: false }),
            ));
        }
    }

    /// Plans the line that is drawn: the text, or the placeholder where there
    /// is none; the composed span underlined; the caret or the selection.
    pub fn line_plan(&self) -> (plan: LinePlan)
        requires
            self.wf(),
        ensures
            plan.shows_placeholder == (self.content@.len() == 0),
            runs_of(plan.runs@) == line_runs(self@, self.placeholder@),
            plan.caret == if is_caret(self@) || self.content@.len() == 0 {
                Some(
                    if self.content@.len() == 0 {
                        0
                    } else {
                        self.selected_range.end
                    },
                )
            } else {
                None
            },
            plan.selection == if is_caret(self@) || self.content@.len() == 0 {
                None
            } else {
                Some((self.selected_range.start, self.selected_range.end))
            },
            drawn_caret(self@) == match plan.caret {
                Some(at) => Some(at as int),
                None => None,
            },
            drawn_selection(self@) == match plan.selection {
                Some((start, end)) => Some((start as int, end as int)),
                None => None,
            },
    {
        let content: &str = self.content.as_str();
        let is_empty: bool = content.is_empty();
        let total: usize = content.as_bytes().len();
        let mut runs: Vec<(usize, bool)> = Vec::new();
        let mut composing = false;
        if let Some(span) = &self.marked_range {
            if !is_empty {
                composing = true;
                proof {
                    lemma_place_is_within(self.content@, span.end as int);
                    assert(runs_of(runs@) =~= Seq::empty());
                }
                push_run(&mut runs, span.start, false);
                push_run(&mut runs, span.end - span.start, true);
                push_run(&mut runs, total - span.end, false);
                assert(runs_of(runs@) =~= line_runs(self@, self.placeholder@));
            }
        }
        if !composing {
            let shown: usize = if is_empty {
                self.placeholder.as_str().as_bytes().len()
            } else {
                total
            };
            runs.push((shown, false));
            assert(runs_of(runs@) =~= line_runs(self@, self.placeholder@));
        }
        let is_caret = !(self.selected_range.start < self.selected_range.end);
        if is_caret || is_empty {
            let at: usize = if is_empty {
                0
            } else {
                self.selected_range.end
            };
            LinePlan { shows_placeholder: is_empty, runs, caret: Some(at), selection: None }
        } else {
            LinePlan {
                shows_placeholder: is_empty,
                runs,
                caret: None,
                selection: Some((self.selected_range.start, self.selected_range.end)),
            }
        }
    }
}

/// The runs of a line cover exactly the text that is shown.
pub proof fn law_runs_cover_the_line(edit: Edit, placeholder: Seq<char>)
    requires
        edit_is_sound(edit),
    ensures
        covered(line_runs(edit, placeholder)) == if edit.text.len() == 0 {
            size(placeholder)
        } else {
            size(edit.text)
        },
{
    match edit.mark {
        Some((start, end)) if edit.text.len() > 0 => {
            lemma_place_is_within(edit.text, start);
            lemma_place_is_within(edit.text, end);
            let first = unless_empty(start, false);
            let second = first + unless_empty(end - start, true);
            let third = second + unless_empty(size(edit.text) - end, false);
            lemma_covered_more(Seq::empty(), start, false);
            assert(Seq::empty() + first =~= first);
            lemma_covered_more(first, end - start, true);
            lemma_covered_more(second, size(edit.text) - end, false);
        },
        _ => {
            let only = line_runs(edit, placeholder);
            assert(only.drop_last() =~= Seq::empty());
            assert(covered(only.drop_last()) == 0);
        },
    }
}

proof fn lemma_covered_more(runs: Seq<(int, bool)>, len: int, underlined: bool)
    requires
        len >= 0,
    ensures
        covered(runs + unless_empty(len, underlined)) == covered(runs) + len,
{
    let more = runs + unless_empty(len, underlined);
    if len > 0 {
        assert(more.drop_last() =~= runs);
    } else {
        assert(more =~= runs);
    }
}

/// Erasing what was just committed at a caret brings the text back.
pub proof fn law_erasing_undoes_committing(edit: Edit, at: int, new: Seq<char>)
    requires
        is_place(edit.text, at),
    ensures
        ({
            let typed = committed(edit, at, at, new);
            committed(typed, at, at + size(new), Seq::empty()).text == edit.text
        }),
{
    let bytes = encode_utf8(edit.text);
    let added = encode_utf8(new);
    lemma_place_is_within(edit.text, at);
    lemma_committed_bytes(edit, at, at, new);
    let typed = committed(edit, at, at, new);
    assert(encode_utf8(typed.text) == spliced(bytes, at, at, added));
    let back = spliced(encode_utf8(typed.text), at, at + size(new), encode_utf8(Seq::empty()));
    assert(encode_utf8(Seq::<char>::empty()) =~= Seq::empty());
    assert(back =~= bytes);
    encode_utf8_decode_utf8(edit.text);
}

/// What is committed is encoded as the spliced bytes.
proof fn lemma_committed_bytes(edit: Edit, start: int, end: int, new: Seq<char>)
    requires
        is_place(edit.text, start),
        is_place(edit.text, end),
    ensures
        encode_utf8(committed(edit, start, end, new).text) == spliced(
            encode_utf8(edit.text),
            start,
            end,
            encode_utf8(new),
        ),
{
    let bytes = encode_utf8(edit.text);
    encode_utf8_valid_utf8(edit.text);
    encode_utf8_valid_utf8(new);
    valid_utf8_split(bytes, start);
    valid_utf8_split(bytes, end);
    let front = bytes.subrange(0, start);
    let back = bytes.subrange(end, bytes.len() as int);
    valid_utf8_concat(front, encode_utf8(new));
    valid_utf8_concat(front + encode_utf8(new), back);
    decode_utf8_encode_utf8(spliced(bytes, start, end, encode_utf8(new)));
}

/// Left, then right: the caret is back where it was, unless it stood at the
/// start of the text.
pub proof fn law_right_undoes_left(edit: Edit)
    requires
        edit_is_sound(edit),
        edit.start == edit.end,
        edit.end > 0,
    ensures
        after_key(after_key(edit, EditKey::Left), EditKey::Right) == edit,
{
    let at = edit.end;
    lemma_place_is_within(edit.text, at);
    lemma_ends_are_places(edit.text);
    lemma_place_before(edit.text, at);
    let left = place_before(edit.text, at);
    lemma_place_after_is_next(edit.text, left, at);
}

/// The place before an offset is a place, and none lies between.
proof fn lemma_place_before(text: Seq<char>, offset: int)
    requires
        0 < offset <= size(text),
        is_place(text, 0),
    ensures
        0 <= place_before(text, offset) < offset,
        is_place(text, place_before(text, offset)),
        forall|j: int| place_before(text, offset) < j < offset ==> !is_place(text, j),
    decreases offset,
{
    if !is_place(text, offset - 1) {
        lemma_place_before(text, offset - 1);
    }
}

/// The next place is the one with none in between.
proof fn lemma_place_after_is_next(text: Seq<char>, from: int, next: int)
    requires
        0 <= from < next <= size(text),
        is_place(text, next),
        forall|j: int| from < j < next ==> !is_place(text, j),
    ensures
        place_after(text, from) == next,
    decreases next - from,
{
    if from + 1 < next {
        assert(!is_place(text, from + 1));
        lemma_place_after_is_next(text, from + 1, next);
    }
}

/// Typing one character and then backspace: the text and the caret are as
/// before.
pub proof fn law_backspace_undoes_typing(edit: Edit, c: char)
    requires
        edit_is_sound(edit),
        edit.start == edit.end,
    ensures
        ({
            let typed = committed(edit, edit.end, edit.end, seq![c]);
            let back = after_key(typed, EditKey::Backspace);
            &&& back.text == edit.text
            &&& back.start == edit.start
            &&& back.end == edit.end
            &&& back.mark is None
        }),
{
    let at = edit.end;
    let new = seq![c];
    let typed = committed(edit, at, at, new);
    let bytes = encode_utf8(edit.text);
    let added = encode_utf8(new);
    let whole = encode_utf8(typed.text);
    lemma_place_is_within(edit.text, at);
    lemma_committed_bytes(edit, at, at, new);
    encode_utf8_valid_utf8(new);
    encode_utf8_valid_utf8(typed.text);
    encode_utf8_valid_utf8(edit.text);
    encode_utf8_first_scalar(new);
    assert(new.drop_first() =~= Seq::empty());
    assert(encode_utf8(new.drop_first()) =~= Seq::empty());
    let width = size(new);
    assert(width == length_of_first_scalar(added));
    assert forall|i: int| at < i < at + width implies !is_place(typed.text, i) by {
        let j = i - at;
        is_char_boundary_iff_not_is_continuation_byte(added, j);
        is_char_boundary_iff_not_is_continuation_byte(whole, i);
        assert(whole[i] == added[j]);
        reveal_with_fuel(is_char_boundary, 2);
        assert(!is_char_boundary(added, j));
    }
    assert(is_place(typed.text, at)) by {
        if at == whole.len() {
            is_char_boundary_start_end_of_seq(whole);
        } else {
            is_char_boundary_iff_not_is_continuation_byte(whole, at);
            assert(whole[at] == added[0]);
            is_char_boundary_iff_not_is_continuation_byte(added, 0);
        }
    }
    lemma_place_before_is_previous(typed.text, at + width, at);
    law_erasing_undoes_committing(edit, at, new);
}

/// The previous place is the one with none in between.
proof fn lemma_place_before_is_previous(text: Seq<char>, from: int, previous: int)
    requires
        0 <= previous < from,
        is_place(text, previous),
        forall|j: int| previous < j < from ==> !is_place(text, j),
    ensures
        place_before(text, from) == previous,
    decreases from - previous,
{
    if previous < from - 1 {
        assert(!is_place(text, from - 1));
        lemma_place_before_is_previous(text, from - 1, previous);
    }
}

/// The parts of a text are encoded one behind the other.
proof fn lemma_three_parts(before: Seq<char>, middle: Seq<char>, after: Seq<char>)
    ensures
        encode_utf8(before + middle + after) == encode_utf8(before) + encode_utf8(middle)
            + encode_utf8(after),
        size(before + middle + after) == size(before) + size(middle) + size(after),
        size(before + middle) == size(before) + size(middle),
{
    lemma_encode_concat(before + middle, after);
    lemma_encode_concat(before, middle);
}

/// Replacing the middle of a text puts the new text between its outer parts.
pub proof fn law_replacing_keeps_the_rest(
    before: Seq<char>,
    middle: Seq<char>,
    after: Seq<char>,
    new: Seq<char>,
)
    ensures
        replaced(before + middle + after, size(before), size(before) + size(middle), new) == before
            + new + after,
{
    lemma_three_parts(before, middle, after);
    lemma_three_parts(before, new, after);
    let bytes = encode_utf8(before + middle + after);
    let left = size(before);
    let right = size(before) + size(middle);
    assert(bytes.subrange(0, left) =~= encode_utf8(before));
    assert(bytes.subrange(right, bytes.len() as int) =~= encode_utf8(after));
    assert(spliced(bytes, left, right, encode_utf8(new)) =~= encode_utf8(before + new + after));
    encode_utf8_decode_utf8(before + new + after);
}

/// The seams between the parts of a text are places.
proof fn lemma_seams_are_places(before: Seq<char>, middle: Seq<char>, after: Seq<char>)
    ensures
        is_place(before + middle + after, size(before)),
        is_place(before + middle + after, size(before) + size(middle)),
{
    lemma_three_parts(before, middle, after);
    lemma_ends_are_places(before);
    lemma_ends_are_places(before + middle);
    lemma_place_in_prefix(before, middle, size(before));
    lemma_place_in_prefix(before + middle, after, size(before));
    lemma_place_in_prefix(before + middle, after, size(before) + size(middle));
}

/// No place lies within a character.
proof fn lemma_no_place_within(before: Seq<char>, c: char, after: Seq<char>, i: int)
    requires
        size(before) < i < size(before) + size(seq![c]),
    ensures
        !is_place(before + seq![c] + after, i),
{
    let new = seq![c];
    let added = encode_utf8(new);
    let whole = encode_utf8(before + new + after);
    lemma_three_parts(before, new, after);
    encode_utf8_valid_utf8(new);
    encode_utf8_valid_utf8(before + new + after);
    encode_utf8_first_scalar(new);
    assert(new.drop_first() =~= Seq::empty());
    assert(encode_utf8(new.drop_first()) =~= Seq::empty());
    assert(size(new) == length_of_first_scalar(added));
    let j = i - size(before);
    is_char_boundary_iff_not_is_continuation_byte(added, j);
    is_char_boundary_iff_not_is_continuation_byte(whole, i);
    assert(whole[i] == added[j]);
    reveal_with_fuel(is_char_boundary, 2);
    assert(!is_char_boundary(added, j));
}

/// The places around a character are next to each other.
proof fn lemma_places_around(before: Seq<char>, c: char, after: Seq<char>)
    ensures
        size(seq![c]) > 0,
        place_after(before + seq![c] + after, size(before)) == size(before) + size(seq![c]),
        place_before(before + seq![c] + after, size(before) + size(seq![c])) == size(before),
{
    let text = before + seq![c] + after;
    let left = size(before);
    let right = size(before) + size(seq![c]);
    lemma_three_parts(before, seq![c], after);
    lemma_seams_are_places(before, seq![c], after);
    encode_utf8_first_scalar(seq![c]);
    assert forall|j: int| left < j < right implies !is_place(text, j) by {
        lemma_no_place_within(before, c, after, j);
    }
    lemma_place_after_is_next(text, left, right);
    lemma_place_before_is_previous(text, right, left);
}

/// Delete at a caret erases exactly the one character behind it. The caret stays
/// where it is and nothing is composed any more.
pub proof fn law_delete_erases_one_character(
    edit: Edit,
    before: Seq<char>,
    c: char,
    after: Seq<char>,
)
    requires
        edit.text == before + seq![c] + after,
        edit.end == size(before),
        edit.start >= edit.end,
    ensures
        after_key(edit, EditKey::Delete) == (Edit {
            text: before + after,
            start: size(before),
            end: size(before),
            mark: None,
        }),
{
    lemma_places_around(before, c, after);
    law_replacing_keeps_the_rest(before, seq![c], after, Seq::empty());
    assert(before + Seq::<char>::empty() + after =~= before + after);
    assert(encode_utf8(Seq::<char>::empty()) =~= Seq::empty());
}

/// Backspace at a caret erases exactly the one character before it, and the
/// caret goes to where that stood.
pub proof fn law_backspace_erases_one_character(
    edit: Edit,
    before: Seq<char>,
    c: char,
    after: Seq<char>,
)
    requires
        edit.text == before + seq![c] + after,
        edit.end == size(before + seq![c]),
        edit.start >= edit.end,
    ensures
        after_key(edit, EditKey::Backspace) == (Edit {
            text: before + after,
            start: size(before),
            end: size(before),
            mark: None,
        }),
{
    lemma_three_parts(before, seq![c], after);
    lemma_places_around(before, c, after);
    law_replacing_keeps_the_rest(before, seq![c], after, Seq::empty());
    assert(before + Seq::<char>::empty() + after =~= before + after);
    assert(encode_utf8(Seq::<char>::empty()) =~= Seq::empty());
}

/// Where something is selected, both erasing keys erase that and nothing else.
pub proof fn law_erasing_takes_the_selection(
    edit: Edit,
    before: Seq<char>,
    chosen: Seq<char>,
    after: Seq<char>,
    key: EditKey,
)
    requires
        key == EditKey::Backspace || key == EditKey::Delete,
        edit.text == before + chosen + after,
        chosen.len() > 0,
        edit.start == size(before),
        edit.end == size(before + chosen),
    ensures
        after_key(edit, key) == (Edit {
            text: before + after,
            start: size(before),
            end: size(before),
            mark: None,
        }),
{
    lemma_three_parts(before, chosen, after);
    encode_utf8_first_scalar(chosen);
    law_replacing_keeps_the_rest(before, chosen, after, Seq::empty());
    assert(before + Seq::<char>::empty() + after =~= before + after);
    assert(encode_utf8(Seq::<char>::empty()) =~= Seq::empty());
}

/// Left and right move a caret over exactly one character, and change nothing
/// else.
pub proof fn law_arrows_pass_one_character(
    edit: Edit,
    before: Seq<char>,
    c: char,
    after: Seq<char>,
)
    requires
        edit.text == before + seq![c] + after,
        edit.start >= edit.end,
    ensures
        edit.end == size(before) ==> after_key(edit, EditKey::Right) == (Edit {
            text: edit.text,
            start: size(before + seq![c]),
            end: size(before + seq![c]),
            mark: edit.mark,
        }),
        edit.end == size(before + seq![c]) ==> after_key(edit, EditKey::Left) == (Edit {
            text: edit.text,
            start: size(before),
            end: size(before),
            mark: edit.mark,
        }),
{
    lemma_three_parts(before, seq![c], after);
    lemma_places_around(before, c, after);
}

/// Where something is selected, left goes to its start and right to its end.
pub proof fn law_arrows_leave_the_selection(edit: Edit)
    requires
        edit.start < edit.end,
    ensures
        ({
            let left = after_key(edit, EditKey::Left);
            let right = after_key(edit, EditKey::Right);
            &&& left.start == edit.start && left.end == edit.start
            &&& right.start == edit.end && right.end == edit.end
            &&& left.text == edit.text && right.text == edit.text
            &&& left.mark == edit.mark && right.mark == edit.mark
        }),
{
}

/// Home goes before the first character and end behind the last. There the keys
/// that would go further, or erase what lies further, do nothing.
pub proof fn law_keys_stop_at_the_ends(edit: Edit)
    ensures
        ({
            let home = after_key(edit, EditKey::Home);
            let end = after_key(edit, EditKey::End);
            let total = encode_utf8(edit.text).len();
            &&& home.start == 0 && home.end == 0
            &&& end.start == total && end.end == total
            &&& home.text == edit.text && end.text == edit.text
            &&& home.mark == edit.mark && end.mark == edit.mark
            &&& after_key(home, EditKey::Left) == home
            &&& after_key(home, EditKey::Backspace) == home
            &&& after_key(home, EditKey::Home) == home
            &&& after_key(end, EditKey::Right) == end
            &&& after_key(end, EditKey::Delete) == end
            &&& after_key(end, EditKey::End) == end
        }),
{
}

/// Only the erasing keys change the text or end a composition; enter and the
/// keys that do not edit change nothing at all.
pub proof fn law_only_erasing_changes_text(edit: Edit, key: EditKey)
    ensures
        key != EditKey::Backspace && key != EditKey::Delete ==> {
            &&& after_key(edit, key).text == edit.text
            &&& after_key(edit, key).mark == edit.mark
        },
        key == EditKey::Enter || key == EditKey::Other ==> after_key(edit, key) == edit,
{
}

/// A change is announced exactly where the text became shorter, and a submission
/// exactly for enter; both name the view and the input, and nothing else is
/// announced.
pub proof fn law_outcomes_tell_what_happened(edit: Edit, key: EditKey, view: i32, input_id: i32)
    requires
        edit_is_sound(edit),
    ensures
        ({
            let outcome = outcome_of(edit, key, view, input_id);
            let after = after_key(edit, key);
            &&& outcome is Changed <==> size(after.text) < size(edit.text)
            &&& !(outcome is Changed) ==> after.text == edit.text
            &&& outcome is Submitted <==> key == EditKey::Enter
            &&& outcome is Unhandled <==> key == EditKey::Other
            &&& outcome is Moved <==> key == EditKey::Left || key == EditKey::Right || key
                == EditKey::Home || key == EditKey::End
            &&& outcome matches EditOutcome::Changed { event } ==> {
                &&& event.version == ABI_VERSION
                &&& event.kind == EVENT_INPUT_CHANGED
                &&& event.view == view
                &&& event.data_a == input_id
                &&& event.data_b == 0
            }
            &&& outcome matches EditOutcome::Submitted { event } ==> {
                &&& event.version == ABI_VERSION
                &&& event.kind == EVENT_INPUT_SUBMIT
                &&& event.view == view
                &&& event.data_a == input_id
                &&& event.data_b == 0
            }
        }),
{
    if key == EditKey::Backspace || key == EditKey::Delete {
        let (start, end) = erased_range(edit, key);
        lemma_place_is_within(edit.text, edit.start);
        lemma_place_is_within(edit.text, edit.end);
        lemma_ends_are_places(edit.text);
        if is_caret(edit) {
            if edit.end > 0 {
                lemma_place_before(edit.text, edit.end);
            }
            if edit.end < size(edit.text) {
                lemma_place_after(edit.text, edit.end);
            }
        }
        if start < end {
            lemma_committed_bytes(edit, start, end, Seq::empty());
            assert(encode_utf8(Seq::<char>::empty()) =~= Seq::empty());
            lemma_place_is_within(edit.text, start);
            lemma_place_is_within(edit.text, end);
        }
    }
}

/// The place after an offset is a place.
proof fn lemma_place_after(text: Seq<char>, offset: int)
    requires
        0 <= offset < size(text),
    ensures
        offset < place_after(text, offset) <= size(text),
        is_place(text, place_after(text, offset)),
    decreases size(text) - offset,
{
    lemma_ends_are_places(text);
    if !is_place(text, offset + 1) {
        lemma_place_after(text, offset + 1);
    }
}

/// Each editing key has its name, and no other name edits.
pub proof fn law_editing_keys_have_their_names(name: Seq<char>)
    ensures
        edit_key(name) == EditKey::Backspace <==> name == "backspace"@,
        edit_key(name) == EditKey::Delete <==> name == "delete"@,
        edit_key(name) == EditKey::Left <==> name == "left"@,
        edit_key(name) == EditKey::Right <==> name == "right"@,
        edit_key(name) == EditKey::Home <==> name == "home"@,
        edit_key(name) == EditKey::End <==> name == "end"@,
        edit_key(name) == EditKey::Enter <==> name == "enter"@,
{
    reveal_strlit("backspace");
    assert("backspace"@.len() == 9 && "backspace"@[0] == 'b');
    reveal_strlit("delete");
    assert("delete"@.len() == 6 && "delete"@[0] == 'd');
    reveal_strlit("left");
    assert("left"@.len() == 4 && "left"@[0] == 'l');
    reveal_strlit("right");
    assert("right"@.len() == 5 && "right"@[0] == 'r');
    reveal_strlit("home");
    assert("home"@.len() == 4 && "home"@[0] == 'h');
    reveal_strlit("end");
    assert("end"@.len() == 3 && "end"@[0] == 'e');
    reveal_strlit("enter");
    assert("enter"@.len() == 5 && "enter"@[0] == 'e');
}

/// Committed text stands between what was around the range it replaces; the
/// caret goes behind it and nothing is composed any more.
pub proof fn law_committed_text_is_inserted(
    edit: Edit,
    before: Seq<char>,
    middle: Seq<char>,
    after: Seq<char>,
    new: Seq<char>,
)
    requires
        edit.text == before + middle + after,
    ensures
        ({
            let done = committed(edit, size(before), size(before + middle), new);
            &&& done.text == before + new + after
            &&& done.start == size(before + new)
            &&& done.end == size(before + new)
            &&& done.mark is None
        }),
{
    lemma_three_parts(before, middle, after);
    lemma_three_parts(before, new, after);
    law_replacing_keeps_the_rest(before, middle, after, new);
}

/// Composed text stands between what was around the range it replaces, and is
/// marked as composed unless there is none. Without a selection of its own the
/// caret goes behind it; with one, that is counted from its start.
pub proof fn law_composed_text_is_inserted(
    edit: Edit,
    before: Seq<char>,
    middle: Seq<char>,
    after: Seq<char>,
    new: Seq<char>,
    inner: Option<(int, int)>,
)
    requires
        edit.text == before + middle + after,
    ensures
        ({
            let range = (size(before), size(before + middle));
            let shown = composed(edit, range, new, inner);
            &&& shown.text == before + new + after
            &&& shown.mark is None <==> new.len() == 0
            &&& new.len() > 0 ==> shown.mark == Some((size(before), size(before + new)))
            &&& inner is None ==> shown.start == size(before + new) && shown.end == size(
                before + new,
            )
            &&& inner matches Some((from, to)) ==> {
                &&& shown.start == size(before) + from_utf16(new, from)
                &&& shown.end == size(before) + from_utf16(new, to)
            }
        }),
{
    lemma_three_parts(before, middle, after);
    lemma_three_parts(before, new, after);
    law_replacing_keeps_the_rest(before, middle, after, new);
}

/// An input method replaces the range it names in UTF-16; where it names none,
/// the span that is being composed; and where nothing is, the selection.
pub proof fn law_input_method_replaces_its_range(
    edit: Edit,
    before: Seq<char>,
    middle: Seq<char>,
    after: Seq<char>,
    named: Option<(int, int)>,
)
    requires
        edit.text == before + middle + after,
        match named {
            Some(units) => units == (len16(before) as int, len16(before + middle) as int),
            None => match edit.mark {
                Some(mark) => mark == (size(before), size(before + middle)),
                None => (edit.start, edit.end) == (size(before), size(before + middle)),
            },
        },
    ensures
        target(edit, named) == (size(before), size(before + middle)),
{
    let text = before + middle + after;
    let (left, right) = (before.len() as int, (before + middle).len() as int);
    assert(text.take(left) =~= before);
    assert(text.take(right) =~= before + middle);
    law_offsets_round_trip(text, left);
    law_offsets_round_trip(text, right);
}

/// Text that was composed step by step and then committed leaves nothing of the
/// steps behind.
pub proof fn law_commit_replaces_the_composition(
    edit: Edit,
    before: Seq<char>,
    after: Seq<char>,
    step: Seq<char>,
    text: Seq<char>,
)
    requires
        edit.text == before + after,
        edit.mark is None,
        edit.start == size(before),
        edit.end == size(before),
        step.len() > 0,
    ensures
        ({
            let shown = composed(edit, target(edit, None), step, None);
            let (start, end) = target(shown, None);
            let done = committed(shown, start, end, text);
            &&& shown.text == before + step + after
            &&& done.text == before + text + after
            &&& done.start == size(before + text)
            &&& done.end == size(before + text)
            &&& done.mark is None
        }),
{
    let nothing = Seq::<char>::empty();
    assert(before + nothing + after =~= before + after);
    assert(before + nothing =~= before);
    law_composed_text_is_inserted(edit, before, nothing, after, step, None);
    let shown = composed(edit, target(edit, None), step, None);
    law_committed_text_is_inserted(shown, before, step, after, text);
}

/// Is the byte at an offset in an underlined run?
pub open spec fn underlined_at(runs: Seq<(int, bool)>, offset: int) -> bool
    decreases runs.len(),
{
    if runs.len() == 0 {
        false
    } else {
        let earlier = covered(runs.drop_last());
        if offset < earlier {
            underlined_at(runs.drop_last(), offset)
        } else {
            offset < earlier + runs.last().0 && runs.last().1
        }
    }
}

proof fn lemma_underlined_more(runs: Seq<(int, bool)>, len: int, underlined: bool, offset: int)
    requires
        len >= 0,
    ensures
        offset < covered(runs) ==> underlined_at(runs + unless_empty(len, underlined), offset)
            == underlined_at(runs, offset),
        covered(runs) <= offset < covered(runs) + len ==> underlined_at(
            runs + unless_empty(len, underlined),
            offset,
        ) == underlined,
{
    let more = runs + unless_empty(len, underlined);
    if len > 0 {
        assert(more.drop_last() =~= runs);
    } else {
        assert(more =~= runs);
    }
}

/// Exactly the bytes of the composed span are underlined.
pub proof fn law_composed_span_is_underlined(edit: Edit, placeholder: Seq<char>, offset: int)
    requires
        edit_is_sound(edit),
        0 <= offset < covered(line_runs(edit, placeholder)),
    ensures
        underlined_at(line_runs(edit, placeholder), offset) <==> edit.text.len() > 0 && (
        edit.mark matches Some((start, end)) && start <= offset < end),
{
    law_runs_cover_the_line(edit, placeholder);
    match edit.mark {
        Some((start, end)) if edit.text.len() > 0 => {
            lemma_place_is_within(edit.text, start);
            lemma_place_is_within(edit.text, end);
            let first = unless_empty(start, false);
            let second = first + unless_empty(end - start, true);
            lemma_covered_more(Seq::empty(), start, false);
            assert(Seq::empty() + first =~= first);
            lemma_covered_more(first, end - start, true);
            lemma_covered_more(second, size(edit.text) - end, false);
            lemma_underlined_more(Seq::empty(), start, false, offset);
            lemma_underlined_more(first, end - start, true, offset);
            lemma_underlined_more(second, size(edit.text) - end, false, offset);
        },
        _ => {
            let only = line_runs(edit, placeholder);
            assert(only.drop_last() =~= Seq::empty());
        },
    }
}

/// A line shows either a caret or a selection. The selection is the selected
/// range, where it is not empty; the caret stands at the end of the range, or
/// at the start of the placeholder where there is no text.
pub proof fn law_caret_or_selection_is_drawn(edit: Edit)
    ensures
        drawn_caret(edit) is Some <==> drawn_selection(edit) is None,
        drawn_selection(edit) is Some <==> edit.start < edit.end && edit.text.len() > 0,
        drawn_selection(edit) matches Some((start, end)) ==> start == edit.start && end
            == edit.end,
        drawn_caret(edit) matches Some(at) ==> at == if edit.text.len() > 0 {
            edit.end
        } else {
            0
        },
{
}

/// The mirror is told of the text of an input as it stands, and that it is
/// composing exactly where it is.
pub proof fn law_mirror_shows_the_input(model: TextInputModel)
    ensures
        model.mirrored().text == model@.text,
        model.mirrored().composing <==> model@.mark is Some,
{
}

} // verus!
