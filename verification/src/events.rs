//! Events that go out through the callback: the envelope they travel in and
//! the queue that holds their payloads while the callback runs.
use crate::abi::{ABI_VERSION, EVENT_ASYNC, EVENT_TEXT, GPUI_STATUS_INVALID_HANDLE};
use crate::copy::{copied, copy_out, overwritten};
use crate::text::{append_bytes, signed, to_signed};
use vstd::prelude::*;
use vstd::utf8::encode_utf8;

verus! {

/// The five slots that the callback is handed.
#[derive(Clone, Copy, PartialEq, Eq, Structural, Debug)]
pub struct Envelope {
    pub version: i32,
    pub kind: i32,
    pub view: i32,
    pub data_a: i32,
    pub data_b: i32,
}

/// An envelope of the present version.
pub open spec fn envelope(kind: i32, view: i32, data_a: i32, data_b: i32) -> Envelope {
    Envelope { version: ABI_VERSION, kind, view, data_a, data_b }
}

impl Envelope {
    /// An envelope of the present version.
    pub fn new(kind: i32, view: i32, data_a: i32, data_b: i32) -> (event: Envelope)
        ensures
            event == envelope(kind, view, data_a, data_b),
    {
        Envelope { version: ABI_VERSION, kind, view, data_a, data_b }
    }
}

/// A count as it crosses the boundary: its lowest 32 bits, read as signed.
pub open spec fn narrowed(count: nat) -> i32 {
    signed((count % 0x1_0000_0000) as u32)
}

/// Narrows a count to the 32 bits that cross the boundary.
pub fn narrow(count: usize) -> (value: i32)
    ensures
        value == narrowed(count as nat),
        count <= i32::MAX ==> value == count,
{
    to_signed((count as u64 % 0x1_0000_0000) as u32)
}

/// The payloads of the events that are being delivered. A payload is found by
/// its token, which is its place in the queue.
pub struct EventQueue {
    payloads: Vec<Vec<u8>>,
}

/// The bytes of each payload.
pub open spec fn payload_bytes(payloads: Seq<Vec<u8>>) -> Seq<Seq<u8>> {
    payloads.map_values(|payload: Vec<u8>| payload@)
}

impl View for EventQueue {
    type V = Seq<Seq<u8>>;

    closed spec fn view(&self) -> Seq<Seq<u8>> {
        payload_bytes(self.payloads@)
    }
}

impl EventQueue {
    /// A queue without payloads.
    pub fn new() -> (queue: EventQueue)
        ensures
            queue@ == Seq::<Seq<u8>>::empty(),
    {
        let queue = EventQueue { payloads: Vec::new() };
        assert(queue@ =~= Seq::empty());
        queue
    }

    /// Puts a payload in the queue and answers the envelope that announces it:
    /// the token and the number of bytes.
    pub fn stage(&mut self, kind: i32, view: i32, payload: Vec<u8>) -> (event: Envelope)
        ensures
            final(self)@ == old(self)@.push(payload@),
            event == envelope(
                kind,
                view,
                narrowed(old(self)@.len()),
                narrowed(payload@.len()),
            ),
    {
        let event = Envelope::new(kind, view, narrow(self.payloads.len()), narrow(payload.len()));
        self.payloads.push(payload);
        assert(self@ =~= old(self)@.push(payload@));
        event
    }

    /// Drops every payload: they are valid only while the callback runs.
    pub fn clear(&mut self)
        ensures
            final(self)@ == Seq::<Seq<u8>>::empty(),
    {
        self.payloads.clear();
        assert(self@ =~= Seq::empty());
    }

    /// The payload that a token names.
    pub fn payload(&self, token: i32) -> (payload: Option<&Vec<u8>>)
        ensures
            payload is Some <==> 0 <= token < self@.len(),
            payload is Some ==> payload->0@ == self@[token as int],
    {
        if token >= 0 && (token as usize) < self.payloads.len() {
            Some(&self.payloads[token as usize])
        } else {
            None
        }
    }
}

/// What copying a payload answers.
pub open spec fn event_copy_status(queue: Seq<Seq<u8>>, token: i32, present: bool, len: i32) -> int {
    if token < 0 || !present || len < 0 || token >= queue.len() {
        GPUI_STATUS_INVALID_HANDLE as int
    } else {
        copied(queue[token as int].len(), len as int)
    }
}

/// Copies the payload that a token names.
pub fn gpui_event_copy_text(queue: &EventQueue, token: i32, buf: Option<&mut [u8]>, len: i32) -> (status:
    i32)
    requires
        buf matches Some(b) ==> len <= b@.len(),
    ensures
        status == event_copy_status(queue@, token, buf is Some, len),
        buf matches Some(b) ==> final(b)@ == if status >= 0 {
            overwritten(b@, queue@[token as int], status as int)
        } else {
            b@
        },
{
    match buf {
        None => GPUI_STATUS_INVALID_HANDLE,
        Some(buf) => {
            if len < 0 {
                return GPUI_STATUS_INVALID_HANDLE;
            }
            match queue.payload(token) {
                None => GPUI_STATUS_INVALID_HANDLE,
                Some(payload) => copy_out(payload.as_slice(), buf, len),
            }
        },
    }
}

/// Delivers an event with a payload: the callback finds the payload in the
/// queue under the token of its envelope, and the queue is empty afterwards.
/// Answers what the callback answered.
pub fn dispatch_payload<F: FnOnce(&EventQueue, Envelope) -> i32>(
    queue: &mut EventQueue,
    kind: i32,
    view: i32,
    payload: Vec<u8>,
    callback: F,
) -> (changed: i32)
    requires
        forall|staged: EventQueue, event: Envelope|
            staged@ == old(queue)@.push(payload@) && event == envelope(
                kind,
                view,
                narrowed(old(queue)@.len()),
                narrowed(payload@.len()),
            ) ==> callback.requires((&staged, event)),
    ensures
        final(queue)@ == Seq::<Seq<u8>>::empty(),
        exists|staged: EventQueue|
            staged@ == old(queue)@.push(payload@) && callback.ensures(
                (
                    &staged,
                    envelope(
                        kind,
                        view,
                        narrowed(old(queue)@.len()),
                        narrowed(payload@.len()),
                    ),
                ),
                changed,
            ),
{
    let event = queue.stage(kind, view, payload);
    let ghost staged = *queue;
    let changed: i32 = callback(&*queue, event);
    assert(callback.ensures((&staged, event), changed));
    queue.clear();
    changed
}

/// Delivers an injected payload.
pub fn dispatch_injected<F: FnOnce(&EventQueue, Envelope) -> i32>(
    queue: &mut EventQueue,
    view: i32,
    payload: Vec<u8>,
    callback: F,
) -> (changed: i32)
    requires
        forall|staged: EventQueue, event: Envelope|
            staged@ == old(queue)@.push(payload@) && event == envelope(
                EVENT_ASYNC,
                view,
                narrowed(old(queue)@.len()),
                narrowed(payload@.len()),
            ) ==> callback.requires((&staged, event)),
    ensures
        final(queue)@ == Seq::<Seq<u8>>::empty(),
        exists|staged: EventQueue|
            staged@ == old(queue)@.push(payload@) && callback.ensures(
                (
                    &staged,
                    envelope(
                        EVENT_ASYNC,
                        view,
                        narrowed(old(queue)@.len()),
                        narrowed(payload@.len()),
                    ),
                ),
                changed,
            ),
{
    dispatch_payload(queue, EVENT_ASYNC, view, payload, callback)
}

/// Delivers typed or committed text.
pub fn dispatch_event_text<F: FnOnce(&EventQueue, Envelope) -> i32>(
    queue: &mut EventQueue,
    view: i32,
    text: &str,
    callback: F,
) -> (changed: i32)
    requires
        forall|staged: EventQueue, event: Envelope|
            staged@ == old(queue)@.push(encode_utf8(text@)) && event == envelope(
                EVENT_TEXT,
                view,
                narrowed(old(queue)@.len()),
                narrowed(encode_utf8(text@).len()),
            ) ==> callback.requires((&staged, event)),
    ensures
        final(queue)@ == Seq::<Seq<u8>>::empty(),
        exists|staged: EventQueue|
            staged@ == old(queue)@.push(encode_utf8(text@)) && callback.ensures(
                (
                    &staged,
                    envelope(
                        EVENT_TEXT,
                        view,
                        narrowed(old(queue)@.len()),
                        narrowed(encode_utf8(text@).len()),
                    ),
                ),
                changed,
            ),
{
    let mut payload: Vec<u8> = Vec::new();
    append_bytes(&mut payload, text.as_bytes());
    assert(payload@ =~= encode_utf8(text@));
    dispatch_payload(queue, EVENT_TEXT, view, payload, callback)
}

/// A staged payload is copied back whole under the token of its envelope, as
/// long as the counts fit the envelope; once the queue is cleared the token
/// names nothing.
pub proof fn law_staged_payload_is_copied_back(
    queue: Seq<Seq<u8>>,
    kind: i32,
    view: i32,
    payload: Seq<u8>,
    len: i32,
)
    requires
        queue.len() <= i32::MAX,
        payload.len() <= len,
    ensures
        ({
            let event = envelope(kind, view, narrowed(queue.len()), narrowed(payload.len()));
            let staged = queue.push(payload);
            &&& event.data_a == queue.len()
            &&& event.data_b == payload.len()
            &&& staged[event.data_a as int] == payload
            &&& event_copy_status(staged, event.data_a, true, len) == payload.len()
            &&& event_copy_status(Seq::empty(), event.data_a, true, len)
                == GPUI_STATUS_INVALID_HANDLE
        }),
{
}

/// Calls the notification where a callback reported a change.
pub fn notify_if_changed<F: FnOnce()>(changed: i32, notify: F)
    requires
        changed == 1 ==> notify.requires(()),
    ensures
        changed == 1 ==> notify.ensures((), ()),
{
    if changed == 1 {
        notify();
    }
}

/// Counts cross the boundary as they are where they fit, and by their lowest 32
/// bits where they do not.
pub proof fn law_counts_cross_the_boundary(count: nat)
    ensures
        count <= i32::MAX ==> narrowed(count) == count,
        narrowed(count + 0x1_0000_0000) == narrowed(count),
        (narrowed(count) - count) % 0x1_0000_0000 == 0,
{
}

/// Two envelopes are the same only where all that they were made of is, and all of
/// them carry the version.
pub proof fn law_envelopes_are_told_apart(
    one: (i32, i32, i32, i32),
    other: (i32, i32, i32, i32),
)
    ensures
        envelope(one.0, one.1, one.2, one.3) == envelope(other.0, other.1, other.2, other.3) <==> one
            == other,
        envelope(one.0, one.1, one.2, one.3).version == ABI_VERSION,
        envelope(one.0, one.1, one.2, one.3).kind == one.0,
        envelope(one.0, one.1, one.2, one.3).view == one.1,
        envelope(one.0, one.1, one.2, one.3).data_a == one.2,
        envelope(one.0, one.1, one.2, one.3).data_b == one.3,
{
}

/// A payload is copied exactly where its token names one and there is a buffer:
/// whole where there is room for it, and else as far as the room goes.
pub proof fn law_tokens_name_payloads(queue: Seq<Seq<u8>>, token: i32, present: bool, len: i32)
    ensures
        ({
            let status = event_copy_status(queue, token, present, len);
            let named = 0 <= token < queue.len() && present && len >= 0;
            &&& !named ==> status == GPUI_STATUS_INVALID_HANDLE
            &&& named ==> 0 <= status <= len
            &&& named && queue[token as int].len() <= len ==> status == queue[token as int].len()
            &&& named && queue[token as int].len() > len ==> status == len
        }),
{
}

} // verus!
