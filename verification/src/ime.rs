//! The input method of windows without a text input: what it composes is
//! passed on to the application, which draws it.
use crate::abi::{EVENT_ASYNC, EVENT_TEXT};
use crate::float::{round_to_i32, rounded};
use crate::probe::{ProbeRect, ProbeTable, CARET_KEY};
use crate::table::PairTable;
use crate::text::{
    append_bytes, append_word, law_encoded_text_reads_back, law_signed_words, law_word_round_trip,
    le_bytes, lossy, signed, to_unsigned, unsigned, word_at,
};
use crate::utf16::{law_lengths_add_up, len16, utf16_count};
use std::ops::Range;
use vstd::prelude::*;
use vstd::utf8::encode_utf8;

verus! {

/// First byte of a payload that carries composed text.
pub const IME_PREEDIT_TAG: u8 = 0xEE;

/// First byte of a payload that carries a mouse event.
pub const MOUSE_TAG: u8 = 0xEF;

/// The spans that are composed, by view, in UTF-16.
pub struct ImeMarks {
    spans: PairTable<Option<Range<usize>>>,
}

impl ImeMarks {
    /// The span that is composed in a view.
    pub closed spec fn marked(&self, view: i32) -> Option<Range<usize>> {
        if self.spans@.dom().contains((view, 0)) {
            self.spans@[(view, 0)]
        } else {
            None
        }
    }

    /// No view occurs twice.
    pub closed spec fn wf(&self) -> bool {
        self.spans.wf()
    }

    /// Every view but one has the span it had.
    pub open spec fn same_elsewhere(&self, other: ImeMarks, view: i32) -> bool {
        forall|v: i32| v != view ==> #[trigger] self.marked(v) == other.marked(v)
    }

    /// Nothing is composed.
    pub fn new() -> (marks: ImeMarks)
        ensures
            marks.wf(),
            forall|view: i32| (#[trigger] marks.marked(view)) is None,
    {
        ImeMarks { spans: PairTable::new() }
    }

    /// The span that is composed in a view.
    pub fn ime_marked_get(&self, view: i32) -> (span: Option<Range<usize>>)
        requires
            self.wf(),
        ensures
            span == self.marked(view),
    {
        match self.spans.get((view, 0)) {
            Some(Some(span)) => Some(span.start..span.end),
            _ => None,
        }
    }

    /// Sets the span that is composed in a view.
    pub fn ime_marked_set(&mut self, view: i32, span: Option<Range<usize>>)
        requires
            old(self).wf(),
        ensures
            final(self).wf(),
            final(self).marked(view) == span,
            final(self).same_elsewhere(*old(self), view),
    {
        let _ = self.spans.insert((view, 0), span);
    }
}

/// The payload that carries composed text.
pub open spec fn preedit_bytes(text: Seq<char>) -> Seq<u8> {
    seq![IME_PREEDIT_TAG] + encode_utf8(text)
}

/// The payload that carries composed text; no text clears what was shown.
pub fn ime_preedit_payload(text: &str) -> (payload: Vec<u8>)
    ensures
        payload@ == preedit_bytes(text@),
{
    let mut payload: Vec<u8> = Vec::new();
    payload.push(IME_PREEDIT_TAG);
    append_bytes(&mut payload, text.as_bytes());
    assert(payload@ =~= preedit_bytes(text@));
    payload
}

/// The payload that carries a mouse event: the phase and the rounded position.
pub open spec fn mouse_bytes(phase: u8, x: u32, y: u32) -> Seq<u8> {
    seq![MOUSE_TAG, phase] + le_bytes(unsigned(rounded(x))) + le_bytes(unsigned(rounded(y)))
}

/// The payload that carries a mouse event. The phase is zero for the button
/// going down, one for a dragged move and two for the button going up; the
/// position is given by the bits of its coordinates.
pub fn mouse_payload(phase: u8, x: u32, y: u32) -> (payload: Vec<u8>)
    ensures
        payload@ == mouse_bytes(phase, x, y),
{
    let mut payload: Vec<u8> = Vec::new();
    payload.push(MOUSE_TAG);
    payload.push(phase);
    append_word(&mut payload, to_unsigned(round_to_i32(x)));
    append_word(&mut payload, to_unsigned(round_to_i32(y)));
    assert(payload@ =~= mouse_bytes(phase, x, y));
    payload
}

/// An event with a payload that is to be delivered.
pub struct Outgoing {
    pub kind: i32,
    pub payload: Vec<u8>,
}

/// Events with their payloads.
pub open spec fn outgoing(events: Seq<Outgoing>) -> Seq<(i32, Seq<u8>)> {
    events.map_values(|event: Outgoing| (event.kind, event.payload@))
}

/// What committing text delivers: the shown composition is cleared, and then
/// the text comes. Nothing is delivered where there is no text.
pub open spec fn commit_events(text: Seq<char>) -> Seq<(i32, Seq<u8>)> {
    if text.len() == 0 {
        Seq::empty()
    } else {
        seq![
            (EVENT_ASYNC, preedit_bytes(Seq::empty())),
            (EVENT_TEXT, encode_utf8(text)),
        ]
    }
}

/// The span that composed text takes.
pub open spec fn composed_span(text: Seq<char>, span: Option<Range<usize>>) -> bool {
    match span {
        None => text.len() == 0,
        Some(span) => text.len() > 0 && span.start == 0 && span.end == len16(text),
    }
}

/// The input method's side of one window.
pub struct ImeBridge {
    pub view: i32,
}

impl ImeBridge {
    /// The bridge owns no text: the selection is a caret at the start.
    pub fn selected_text_range(&self) -> (units: Range<usize>)
        ensures
            units.start == 0,
            units.end == 0,
    {
        0..0
    }

    /// The span that is composed.
    pub fn marked_text_range(&self, marks: &ImeMarks) -> (units: Option<Range<usize>>)
        requires
            marks.wf(),
        ensures
            units == marks.marked(self.view),
    {
        marks.ime_marked_get(self.view)
    }

    /// The bridge owns no text.
    pub fn text_for_range(&self) -> (text: Option<String>)
        ensures
            text is None,
    {
        None
    }

    /// Commits text: the composition ends. The window is drawn again where
    /// something is delivered.
    pub fn replace_text_in_range(&self, marks: &mut ImeMarks, text: &str) -> (events: Vec<Outgoing>)
        requires
            old(marks).wf(),
        ensures
            final(marks).wf(),
            final(marks).marked(self.view) is None,
            final(marks).same_elsewhere(*old(marks), self.view),
            outgoing(events@) == commit_events(text@),
    {
        marks.ime_marked_set(self.view, None);
        let mut events: Vec<Outgoing> = Vec::new();
        if !text.is_empty() {
            assert(""@ =~= Seq::<char>::empty()) by {
                reveal_strlit("");
            }
            events.push(Outgoing { kind: EVENT_ASYNC, payload: ime_preedit_payload("") });
            let mut payload: Vec<u8> = Vec::new();
            append_bytes(&mut payload, text.as_bytes());
            assert(payload@ =~= encode_utf8(text@));
            events.push(Outgoing { kind: EVENT_TEXT, payload });
        }
        assert(outgoing(events@) =~= commit_events(text@));
        events
    }

    /// Shows text that is being composed.
    pub fn replace_and_mark_text_in_range(&self, marks: &mut ImeMarks, new_text: &str) -> (event:
        Outgoing)
        requires
            old(marks).wf(),
        ensures
            final(marks).wf(),
            composed_span(new_text@, final(marks).marked(self.view)),
            final(marks).same_elsewhere(*old(marks), self.view),
            event.kind == EVENT_ASYNC,
            event.payload@ == preedit_bytes(new_text@),
    {
        let span = if new_text.is_empty() {
            None
        } else {
            Some(0..utf16_count(new_text))
        };
        marks.ime_marked_set(self.view, span);
        Outgoing { kind: EVENT_ASYNC, payload: ime_preedit_payload(new_text) }
    }

    /// Ends a composition and clears what was shown.
    pub fn unmark_text(&self, marks: &mut ImeMarks) -> (event: Outgoing)
        requires
            old(marks).wf(),
        ensures
            final(marks).wf(),
            final(marks).marked(self.view) is None,
            final(marks).same_elsewhere(*old(marks), self.view),
            event.kind == EVENT_ASYNC,
            event.payload@ == preedit_bytes(Seq::empty()),
    {
        marks.ime_marked_set(self.view, None);
        assert(""@ =~= Seq::<char>::empty()) by {
            reveal_strlit("");
        }
        Outgoing { kind: EVENT_ASYNC, payload: ime_preedit_payload("") }
    }

    /// Where candidates are shown: at the painted caret, where there is one.
    pub fn bounds_for_range(&self, probes: &ProbeTable) -> (rect: Option<ProbeRect>)
        ensures
            rect == if probes@.dom().contains(CARET_KEY@) {
                Some(probes@[CARET_KEY@])
            } else {
                None
            },
    {
        probes.get(CARET_KEY)
    }

    /// The bridge knows of no characters.
    pub fn character_index_for_point(&self) -> (index: Option<usize>)
        ensures
            index is None,
    {
        None
    }
}

/// A payload with composed text reads back as the text behind its tag.
pub proof fn law_preedit_reads_back(text: Seq<char>)
    ensures
        preedit_bytes(text)[0] == IME_PREEDIT_TAG,
        preedit_bytes(text).skip(1) == encode_utf8(text),
{
    assert(preedit_bytes(text).skip(1) =~= encode_utf8(text));
}

/// A mouse event reads back: the tag, the phase, and the rounded position across and
/// down.
pub proof fn law_mouse_event_reads_back(phase: u8, x: u32, y: u32)
    ensures
        mouse_bytes(phase, x, y).len() == 10,
        mouse_bytes(phase, x, y)[0] == MOUSE_TAG,
        mouse_bytes(phase, x, y)[1] == phase,
        signed(word_at(mouse_bytes(phase, x, y), 2)) == rounded(x),
        signed(word_at(mouse_bytes(phase, x, y), 6)) == rounded(y),
        MOUSE_TAG != IME_PREEDIT_TAG,
{
    let head = seq![MOUSE_TAG, phase];
    let a = le_bytes(unsigned(rounded(x)));
    let b = le_bytes(unsigned(rounded(y)));
    let all = mouse_bytes(phase, x, y);
    assert(all =~= head + a + b);
    law_word_round_trip(head, unsigned(rounded(x)), b);
    assert(all =~= (head + a) + b + Seq::<u8>::empty());
    law_word_round_trip(head + a, unsigned(rounded(y)), Seq::empty());
    law_signed_words(0, rounded(x));
    law_signed_words(0, rounded(y));
}

/// What is committed comes once, behind the end of the composition; committing
/// nothing delivers nothing.
pub proof fn law_commit_clears_and_delivers(text: Seq<char>)
    ensures
        text.len() == 0 ==> commit_events(text).len() == 0,
        text.len() > 0 ==> {
            &&& commit_events(text).len() == 2
            &&& commit_events(text)[0].0 == EVENT_ASYNC
            &&& commit_events(text)[0].1 == seq![IME_PREEDIT_TAG]
            &&& commit_events(text)[1].0 == EVENT_TEXT
            &&& lossy(commit_events(text)[1].1) == text
        },
{
    law_encoded_text_reads_back(text);
    assert(encode_utf8(Seq::<char>::empty()).len() == 0);
    assert(preedit_bytes(Seq::empty()) =~= seq![IME_PREEDIT_TAG]);
}

/// A composed text is marked from its start to its end, and no text is not marked.
pub proof fn law_composed_text_is_marked_whole(
    text: Seq<char>,
    more: Seq<char>,
    one: Range<usize>,
    both: Range<usize>,
)
    requires
        composed_span(text, Some(one)),
        composed_span(text + more, Some(both)),
    ensures
        one.start == 0 && both.start == 0,
        both.end - one.end == len16(more),
        text.len() > 0,
        !composed_span(Seq::empty(), Some(one)),
        composed_span(Seq::empty(), None),
        !composed_span(text, None),
{
    law_lengths_add_up(text, more, 'a');
}

} // verus!
