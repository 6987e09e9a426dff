//! The texts of the text inputs as the boundary sees them: a mirror that is
//! read and written there, and the writes that the widgets still have to take.
use crate::abi::{GPUI_STATUS_BUSY_COMPOSING, GPUI_STATUS_INVALID_HANDLE, GPUI_STATUS_OK};
use crate::copy::{copied, copy_out, overwritten};
use crate::events::{narrow, narrowed};
use crate::table::{Key, PairTable};
use crate::text::{law_encoded_text_reads_back, lossy, read_lossy};
use crate::views::lent;
use vstd::prelude::*;
use vstd::utf8::{encode_utf8, encode_utf8_first_scalar};

verus! {

/// What is mirrored of one text input.
pub struct InputMirrorEntry {
    pub text: String,
    /// Is an IME composition in progress?
    pub composing: bool,
}

/// A mirrored entry as a mathematical value.
#[verifier::ext_equal]
pub struct Mirrored {
    pub text: Seq<char>,
    pub composing: bool,
}

impl View for InputMirrorEntry {
    type V = Mirrored;

    open spec fn view(&self) -> Mirrored {
        Mirrored { text: self.text@, composing: self.composing }
    }
}

/// A write that a widget still has to take.
pub struct QueuedText {
    pub view: i32,
    pub input_id: i32,
    pub text: String,
}

/// A queued write as a mathematical value.
#[verifier::ext_equal]
pub struct Queued {
    pub view: i32,
    pub input_id: i32,
    pub text: Seq<char>,
}

impl View for QueuedText {
    type V = Queued;

    open spec fn view(&self) -> Queued {
        Queued { view: self.view, input_id: self.input_id, text: self.text@ }
    }
}

/// The mirror, the writes that wait, and whether a write asks for a redraw.
pub struct InputMirror {
    entries: PairTable<InputMirrorEntry>,
    queue: Vec<QueuedText>,
    dirty: bool,
}

impl InputMirror {
    /// What is mirrored, by view and input.
    pub closed spec fn mirror(&self) -> Map<Key, Mirrored> {
        self.entries@.map_values(|entry: InputMirrorEntry| entry@)
    }

    /// The writes that wait, the oldest first.
    pub closed spec fn queued(&self) -> Seq<Queued> {
        self.queue@.map_values(|write: QueuedText| write@)
    }

    /// Does a write ask for a redraw?
    pub closed spec fn dirty(&self) -> bool {
        self.dirty
    }

    /// No key occurs twice.
    pub closed spec fn wf(&self) -> bool {
        self.entries.wf()
    }

    /// Nothing but the redraw mark differs.
    pub open spec fn same_texts(&self, other: InputMirror) -> bool {
        &&& self.mirror() == other.mirror()
        &&& self.queued() == other.queued()
        &&& self.wf() == other.wf()
    }

    /// Nothing is mirrored yet.
    pub fn new() -> (inputs: InputMirror)
        ensures
            inputs.wf(),
            inputs.mirror() == Map::<Key, Mirrored>::empty(),
            inputs.queued() == Seq::<Queued>::empty(),
            !inputs.dirty(),
    {
        let inputs = InputMirror { entries: PairTable::new(), queue: Vec::new(), dirty: false };
        assert(inputs.mirror() =~= Map::<Key, Mirrored>::empty());
        assert(inputs.queued() =~= Seq::<Queued>::empty());
        inputs
    }

    /// Uses the redraw mark up: one where it was set, zero where it was not.
    pub fn take_input_dirty(&mut self) -> (dirty: i32)
        ensures
            dirty == if old(self).dirty() {
                1int
            } else {
                0
            },
            !final(self).dirty(),
            final(self).same_texts(*old(self)),
    {
        if self.dirty {
            self.dirty = false;
            1
        } else {
            0
        }
    }
}

impl InputMirror {
    /// Records the text of an input and whether it is composing.
    pub fn mirror_update(&mut self, view: i32, input_id: i32, text: &str, composing: bool)
        requires
            old(self).wf(),
        ensures
            final(self).wf(),
            final(self).mirror() == old(self).mirror().insert(
                (view, input_id),
                (Mirrored { text: text@, composing }),
            ),
            final(self).queued() == old(self).queued(),
            final(self).dirty() == old(self).dirty(),
    {
        let entry = InputMirrorEntry { text: text.to_owned(), composing };
        let _ = self.entries.insert((view, input_id), entry);
        assert(self.mirror() =~= old(self).mirror().insert((view, input_id), entry@));
    }

    /// Reads what is mirrored of an input.
    pub fn mirror_get(&self, view: i32, input_id: i32) -> (entry: Option<&InputMirrorEntry>)
        requires
            self.wf(),
        ensures
            entry is Some <==> self.mirror().dom().contains((view, input_id)),
            entry is Some ==> entry->0@ == self.mirror()[(view, input_id)],
    {
        self.entries.get((view, input_id))
    }

    /// How many writes wait.
    pub fn queued_len(&self) -> (count: usize)
        ensures
            count == self.queued().len(),
    {
        self.queue.len()
    }

    /// Takes the writes out that wait for one input, in the order in which
    /// they were made, and leaves the others in theirs.
    pub fn take_queued(&mut self, view: i32, input_id: i32) -> (texts: Vec<String>)
        requires
            old(self).wf(),
        ensures
            final(self).wf(),
            final(self).mirror() == old(self).mirror(),
            final(self).dirty() == old(self).dirty(),
            texts_of(texts@) == texts_for(old(self).queued(), view, input_id),
            final(self).queued() == others_than(old(self).queued(), view, input_id),
    {
        let ghost all = self.queued();
        let ghost items = self.queue@;
        let mut waiting: Vec<QueuedText> = Vec::new();
        std::mem::swap(&mut waiting, &mut self.queue);
        let mut texts: Vec<String> = Vec::new();
        let ghost mut i: int = 0;
        proof {
            assert(self.queued() =~= Seq::empty());
            assert(texts_of(texts@) =~= Seq::empty());
            assert(all.take(0) =~= Seq::empty());
            assert(items.skip(0) =~= items);
        }
        while waiting.len() > 0
            invariant
                0 <= i <= items.len(),
                waiting@ == items.skip(i),
                all == items.map_values(|write: QueuedText| write@),
                texts_of(texts@) == texts_for(all.take(i), view, input_id),
                self.queued() == others_than(all.take(i), view, input_id),
                self.entries == old(self).entries,
                self.dirty == old(self).dirty,
            decreases waiting@.len(),
        {
            let write = waiting.remove(0);
            let ghost texts_before = texts@;
            let ghost queued_before = self.queued();
            proof {
                assert(write == items[i]);
                assert(waiting@ =~= items.skip(i + 1));
                assert(all.take(i + 1).drop_last() =~= all.take(i));
                assert(all.take(i + 1).last() == write@);
                i = i + 1;
            }
            if write.view == view && write.input_id == input_id {
                let text: String = write.text;
                texts.push(text);
                assert(texts_of(texts@) =~= texts_of(texts_before).push(text@));
            } else {
                self.queue.push(write);
                assert(self.queued() =~= queued_before.push(write@));
            }
        }
        assert(all.take(i) =~= all);
        texts
    }
}

/// The characters of each text.
pub open spec fn texts_of(texts: Seq<String>) -> Seq<Seq<char>> {
    texts.map_values(|text: String| text@)
}

/// The texts that wait for one input, in order.
pub open spec fn texts_for(queue: Seq<Queued>, view: i32, input_id: i32) -> Seq<Seq<char>>
    decreases queue.len(),
{
    if queue.len() == 0 {
        Seq::empty()
    } else {
        let earlier = texts_for(queue.drop_last(), view, input_id);
        if queue.last().view == view && queue.last().input_id == input_id {
            earlier.push(queue.last().text)
        } else {
            earlier
        }
    }
}

/// The writes that wait for other inputs, in order.
pub open spec fn others_than(queue: Seq<Queued>, view: i32, input_id: i32) -> Seq<Queued>
    decreases queue.len(),
{
    if queue.len() == 0 {
        Seq::empty()
    } else {
        let earlier = others_than(queue.drop_last(), view, input_id);
        if queue.last().view == view && queue.last().input_id == input_id {
            earlier
        } else {
            earlier.push(queue.last())
        }
    }
}

/// What asking for the length of a text answers.
pub open spec fn text_len_status(mirror: Map<Key, Mirrored>, view: i32, input_id: i32) -> i32 {
    if mirror.dom().contains((view, input_id)) {
        narrowed(encode_utf8(mirror[(view, input_id)].text).len())
    } else {
        GPUI_STATUS_INVALID_HANDLE
    }
}

/// The length of the text of an input, in bytes.
pub fn gpui_input_text_len(inputs: &InputMirror, view: i32, input_id: i32) -> (status: i32)
    requires
        inputs.wf(),
    ensures
        status == text_len_status(inputs.mirror(), view, input_id),
{
    match inputs.mirror_get(view, input_id) {
        Some(entry) => narrow(entry.text.as_str().as_bytes().len()),
        None => GPUI_STATUS_INVALID_HANDLE,
    }
}

/// What copying a text answers.
pub open spec fn text_copy_status(
    mirror: Map<Key, Mirrored>,
    view: i32,
    input_id: i32,
    present: bool,
    len: i32,
) -> int {
    if !present || len < 0 || !mirror.dom().contains((view, input_id)) {
        GPUI_STATUS_INVALID_HANDLE as int
    } else {
        copied(encode_utf8(mirror[(view, input_id)].text).len(), len as int)
    }
}

/// Copies the text of an input.
pub fn gpui_input_copy_text(
    inputs: &InputMirror,
    view: i32,
    input_id: i32,
    buf: Option<&mut [u8]>,
    len: i32,
) -> (status: i32)
    requires
        inputs.wf(),
        buf matches Some(b) ==> len <= b@.len(),
    ensures
        status == text_copy_status(inputs.mirror(), view, input_id, buf is Some, len),
        buf matches Some(b) ==> final(b)@ == if status >= 0 {
            overwritten(
                b@,
                encode_utf8(inputs.mirror()[(view, input_id)].text),
                status as int,
            )
        } else {
            b@
        },
{
    match buf {
        None => GPUI_STATUS_INVALID_HANDLE,
        Some(buf) => {
            if len < 0 {
                return GPUI_STATUS_INVALID_HANDLE;
            }
            match inputs.mirror_get(view, input_id) {
                None => GPUI_STATUS_INVALID_HANDLE,
                Some(entry) => copy_out(entry.text.as_str().as_bytes(), buf, len),
            }
        },
    }
}

/// What writing a text answers.
pub open spec fn set_text_status(
    mirror: Map<Key, Mirrored>,
    view: i32,
    input_id: i32,
    present: bool,
    len: i32,
) -> i32 {
    if len < 0 || !present && len != 0 {
        GPUI_STATUS_INVALID_HANDLE
    } else if !mirror.dom().contains((view, input_id)) {
        GPUI_STATUS_INVALID_HANDLE
    } else if mirror[(view, input_id)].composing {
        GPUI_STATUS_BUSY_COMPOSING
    } else {
        GPUI_STATUS_OK
    }
}

/// The text that was lent; none where the length is zero.
pub open spec fn written_text(ptr: Option<Seq<u8>>, len: i32) -> Seq<char> {
    if len == 0 {
        Seq::empty()
    } else {
        lossy(ptr->0)
    }
}

/// Replaces the text of an input. Reads see it at once; the widget takes it at
/// its next frame. Refused while a composition is in progress.
pub fn gpui_input_set_text(
    inputs: &mut InputMirror,
    view: i32,
    input_id: i32,
    ptr: Option<&[u8]>,
    len: i32,
) -> (status: i32)
    requires
        old(inputs).wf(),
        ptr matches Some(bytes) ==> len < 0 || bytes@.len() == len,
    ensures
        final(inputs).wf(),
        status == set_text_status(old(inputs).mirror(), view, input_id, ptr is Some, len),
        status == GPUI_STATUS_OK ==> {
            let text = written_text(lent(ptr), len);
            &&& final(inputs).mirror() == old(inputs).mirror().insert(
                (view, input_id),
                (Mirrored { text, composing: false }),
            )
            &&& final(inputs).queued() == old(inputs).queued().push(
                (Queued { view, input_id, text }),
            )
            &&& final(inputs).dirty()
        },
        status != GPUI_STATUS_OK ==> *final(inputs) == *old(inputs),
{
    if len < 0 || (ptr.is_none() && len != 0) {
        return GPUI_STATUS_INVALID_HANDLE;
    }
    match inputs.mirror_get(view, input_id) {
        None => {
            return GPUI_STATUS_INVALID_HANDLE;
        },
        Some(entry) => {
            if entry.composing {
                return GPUI_STATUS_BUSY_COMPOSING;
            }
        },
    }
    let text: String = if len == 0 {
        String::new()
    } else {
        match ptr {
            Some(bytes) => read_lossy(bytes),
            None => String::new(),
        }
    };
    inputs.mirror_update(view, input_id, text.as_str(), false);
    inputs.queue.push(QueuedText { view, input_id, text });
    inputs.dirty = true;
    proof {
        let write = Queued { view, input_id, text: text@ };
        assert(inputs.queued() =~= old(inputs).queued().push(write));
    }
    GPUI_STATUS_OK
}

/// Does an event lead to a redraw?
pub open spec fn redraws(changed: i32, dirty: bool) -> bool {
    changed == 1 || dirty
}

/// Does an event lead to a redraw where the greater answer counts?
pub open spec fn redraws_any(changed: i32, dirty: bool) -> bool {
    changed == 1 || changed < 1 && dirty
}

/// Is a view to be drawn again after an event? Where the callback reported a
/// change it is; else where a text input was written to, and that mark is then
/// used up.
pub fn redraw_after(changed: i32, inputs: &mut InputMirror) -> (redraw: bool)
    ensures
        redraw == redraws(changed, old(inputs).dirty()),
        redraw == (changed == 1 || old(inputs).dirty()),
        final(inputs).dirty() == (changed == 1 && old(inputs).dirty()),
        final(inputs).same_texts(*old(inputs)),
{
    if changed == 1 {
        return true;
    }
    inputs.take_input_dirty() == 1
}

/// Is a view to be drawn again after an event? Like `redraw_after`, but the
/// mark is used up in any case, and a callback that answered more than one
/// outweighs it.
pub fn redraw_after_any(changed: i32, inputs: &mut InputMirror) -> (redraw: bool)
    ensures
        redraw == redraws_any(changed, old(inputs).dirty()),
        redraw == (changed == 1 || changed < 1 && old(inputs).dirty()),
        !final(inputs).dirty(),
        final(inputs).same_texts(*old(inputs)),
{
    let dirty: i32 = inputs.take_input_dirty();
    let greater: i32 = if changed > dirty {
        changed
    } else {
        dirty
    };
    greater == 1
}

/// What is written is read back: where a text is written as the bytes that
/// encode it, its length and its copy are those bytes.
pub proof fn law_written_text_is_read_back(
    mirror: Map<Key, Mirrored>,
    view: i32,
    input_id: i32,
    text: Seq<char>,
    len: i32,
    room: i32,
)
    requires
        encode_utf8(text).len() == len,
        len <= room,
        mirror.dom().contains((view, input_id)),
        !mirror[(view, input_id)].composing,
    ensures
        set_text_status(mirror, view, input_id, true, len) == GPUI_STATUS_OK,
        ({
            let written = written_text(Some(encode_utf8(text)), len);
            let after = mirror.insert(
                (view, input_id),
                (Mirrored { text: written, composing: false }),
            );
            &&& text_len_status(after, view, input_id) == len
            &&& text_copy_status(after, view, input_id, true, room) == len
            &&& encode_utf8(after[(view, input_id)].text) == encode_utf8(text)
        }),
{
    law_encoded_text_reads_back(text);
    if len == 0 && text.len() > 0 {
        encode_utf8_first_scalar(text);
    }
    assert(len == 0 ==> text =~= Seq::empty());
}

/// While a composition is in progress every well-formed write is refused.
pub proof fn law_no_write_while_composing(
    mirror: Map<Key, Mirrored>,
    view: i32,
    input_id: i32,
    len: i32,
)
    requires
        mirror.dom().contains((view, input_id)),
        mirror[(view, input_id)].composing,
        len >= 0,
    ensures
        set_text_status(mirror, view, input_id, true, len) == GPUI_STATUS_BUSY_COMPOSING,
{
}

/// The writes of two stretches of the queue are those of the one and then those of
/// the other.
proof fn lemma_queue_in_two(first: Seq<Queued>, second: Seq<Queued>, view: i32, input_id: i32)
    ensures
        texts_for(first + second, view, input_id) == texts_for(first, view, input_id) + texts_for(
            second,
            view,
            input_id,
        ),
        others_than(first + second, view, input_id) == others_than(first, view, input_id)
            + others_than(second, view, input_id),
    decreases second.len(),
{
    if second.len() == 0 {
        assert(first + second =~= first);
    } else {
        lemma_queue_in_two(first, second.drop_last(), view, input_id);
        assert((first + second).drop_last() =~= first + second.drop_last());
        assert((first + second).last() == second.last());
    }
    assert(texts_for(first + second, view, input_id) =~= texts_for(first, view, input_id)
        + texts_for(second, view, input_id));
    assert(others_than(first + second, view, input_id) =~= others_than(first, view, input_id)
        + others_than(second, view, input_id));
}

/// A write comes out for its own input, after those that were made before it and
/// before those that were made later, and stays for every other input.
pub proof fn law_writes_come_out_in_order(
    earlier: Seq<Queued>,
    write: Queued,
    later: Seq<Queued>,
    view: i32,
    input_id: i32,
)
    ensures
        ({
            let queue = earlier + seq![write] + later;
            let (texts_earlier, texts_later) = (
                texts_for(earlier, view, input_id),
                texts_for(later, view, input_id),
            );
            let (others_earlier, others_later) = (
                others_than(earlier, view, input_id),
                others_than(later, view, input_id),
            );
            if write.view == view && write.input_id == input_id {
                &&& texts_for(queue, view, input_id) == texts_earlier.push(write.text) + texts_later
                &&& others_than(queue, view, input_id) == others_earlier + others_later
            } else {
                &&& texts_for(queue, view, input_id) == texts_earlier + texts_later
                &&& others_than(queue, view, input_id) == others_earlier.push(write) + others_later
            }
        }),
{
    lemma_queue_in_two(earlier + seq![write], later, view, input_id);
    assert((earlier + seq![write]).drop_last() =~= earlier);
}

/// Taking the writes of one input out leaves none for it, and for every other input
/// those that it had.
pub proof fn law_taking_writes_is_per_input(
    queue: Seq<Queued>,
    view: i32,
    input_id: i32,
    other: Key,
)
    ensures
        ({
            let left = others_than(queue, view, input_id);
            &&& texts_for(left, view, input_id).len() == 0
            &&& other != (view, input_id) ==> texts_for(left, other.0, other.1) == texts_for(
                queue,
                other.0,
                other.1,
            )
            &&& left.len() + texts_for(queue, view, input_id).len() == queue.len()
        }),
    decreases queue.len(),
{
    if queue.len() > 0 {
        let fewer = queue.drop_last();
        law_taking_writes_is_per_input(fewer, view, input_id, other);
        let left = others_than(queue, view, input_id);
        if !(queue.last().view == view && queue.last().input_id == input_id) {
            assert(left.drop_last() =~= others_than(fewer, view, input_id));
        }
    }
}

/// A text is read where its input is mirrored: its length is that of its encoding,
/// and as much of it is copied as there is room for.
pub proof fn law_mirrored_texts_are_read(
    mirror: Map<Key, Mirrored>,
    view: i32,
    input_id: i32,
    present: bool,
    len: i32,
)
    ensures
        ({
            let there = mirror.dom().contains((view, input_id));
            let size = encode_utf8(mirror[(view, input_id)].text).len();
            let status = text_copy_status(mirror, view, input_id, present, len);
            let asked = present && len >= 0 && there;
            &&& !there ==> text_len_status(mirror, view, input_id) == GPUI_STATUS_INVALID_HANDLE
            &&& there && size <= i32::MAX ==> text_len_status(mirror, view, input_id) == size
            &&& !asked ==> status == GPUI_STATUS_INVALID_HANDLE
            &&& asked && size <= len ==> status == size
            &&& asked && size > len ==> status == len
        }),
{
}

/// A write is taken exactly where its text is lent, its input is mirrored and no
/// composition is in progress; the status tells which of these it was.
pub proof fn law_writes_are_refused_for_a_reason(
    mirror: Map<Key, Mirrored>,
    view: i32,
    input_id: i32,
    present: bool,
    len: i32,
)
    ensures
        ({
            let status = set_text_status(mirror, view, input_id, present, len);
            let lent = len == 0 || len > 0 && present;
            let there = mirror.dom().contains((view, input_id));
            let busy = mirror[(view, input_id)].composing;
            &&& status == GPUI_STATUS_OK <==> lent && there && !busy
            &&& status == GPUI_STATUS_BUSY_COMPOSING <==> lent && there && busy
            &&& status == GPUI_STATUS_INVALID_HANDLE <==> !lent || !there
        }),
{
}

/// A change that the callback reports is always drawn, and so is a write where it reports
/// none; where nothing happened nothing is drawn. A callback that answers more than one
/// outweighs a write only where the mark is used up in any case.
pub proof fn law_changes_are_drawn(changed: i32, dirty: bool)
    ensures
        redraws(1, dirty) && redraws_any(1, dirty),
        changed != 1 ==> (redraws(changed, dirty) <==> dirty),
        changed <= 0 ==> (redraws_any(changed, dirty) <==> dirty),
        changed > 1 ==> !redraws_any(changed, dirty),
{
}

} // verus!
