//! Events that other threads inject: a bounded queue that is filled from any
//! thread and drained in order on the main one.
use crate::abi::{
    GPUI_STATUS_INVALID_HANDLE, GPUI_STATUS_OK, GPUI_STATUS_PAYLOAD_TOO_LARGE,
    GPUI_STATUS_QUEUE_FULL,
};
use crate::node::Tree;
use crate::text::append_bytes;
use crate::views::{lent, Views};
use std::collections::VecDeque;
use vstd::prelude::*;

verus! {

/// How many events may wait.
pub const INJECT_QUEUE_MAX_ENTRIES: usize = 1024;

/// How many bytes the payload of one event may have.
pub const INJECT_PAYLOAD_MAX_BYTES: usize = 1024 * 1024;

/// An event that waits: the view it is for, and its payload.
pub struct InjectEntry {
    pub view: i32,
    pub payload: Vec<u8>,
}

/// A waiting event as a mathematical value.
pub struct Waiting {
    pub view: i32,
    pub payload: Seq<u8>,
}

impl View for InjectEntry {
    type V = Waiting;

    open spec fn view(&self) -> Waiting {
        Waiting { view: self.view, payload: self.payload@ }
    }
}

/// The events that wait, the oldest first.
pub struct InjectQueue {
    entries: VecDeque<InjectEntry>,
}

/// What waits in a list of entries.
pub open spec fn waiting_in(entries: Seq<InjectEntry>) -> Seq<Waiting> {
    entries.map_values(|entry: InjectEntry| entry@)
}

/// An event may wait: it is for some view and its payload is within the limit.
pub open spec fn may_wait(event: Waiting) -> bool {
    event.view >= 0 && event.payload.len() <= INJECT_PAYLOAD_MAX_BYTES
}

impl View for InjectQueue {
    type V = Seq<Waiting>;

    closed spec fn view(&self) -> Seq<Waiting> {
        waiting_in(self.entries@)
    }
}

/// Bounded on both axes: the number of events, and the size of each.
pub open spec fn is_bounded(waiting: Seq<Waiting>) -> bool {
    &&& waiting.len() <= INJECT_QUEUE_MAX_ENTRIES
    &&& forall|i: int| 0 <= i < waiting.len() ==> may_wait(#[trigger] waiting[i])
}

impl InjectQueue {
    /// Both bounds hold.
    pub open spec fn wf(&self) -> bool {
        is_bounded(self@)
    }

    /// Nothing waits.
    pub fn new() -> (queue: InjectQueue)
        ensures
            queue.wf(),
            queue@ == Seq::<Waiting>::empty(),
    {
        let queue = InjectQueue { entries: VecDeque::new() };
        assert(queue@ =~= Seq::empty());
        queue
    }

    /// How many events wait.
    pub fn len(&self) -> (count: usize)
        ensures
            count == self@.len(),
    {
        self.entries.len()
    }

    /// Takes the oldest event out.
    pub fn pop_injected(&mut self) -> (entry: Option<InjectEntry>)
        requires
            old(self).wf(),
        ensures
            final(self).wf(),
            match entry {
                Some(entry) => {
                    &&& old(self)@.len() > 0
                    &&& entry@ == old(self)@[0]
                    &&& final(self)@ == old(self)@.drop_first()
                },
                None => old(self)@.len() == 0 && final(self)@ == old(self)@,
            },
    {
        let entry = self.entries.pop_front();
        proof {
            if old(self)@.len() > 0 {
                assert(self@ =~= old(self)@.drop_first());
                assert forall|i: int| 0 <= i < self@.len() implies may_wait(#[trigger] self@[i]) by {
                    assert(may_wait(old(self)@[i + 1]));
                }
            } else {
                assert(self@ =~= old(self)@);
            }
        }
        entry
    }
}

/// What posting an event answers.
pub open spec fn post_status(waiting: Seq<Waiting>, view: i32, present: bool, len: i32) -> i32 {
    if view < 0 || len < 0 {
        GPUI_STATUS_INVALID_HANDLE
    } else if len > INJECT_PAYLOAD_MAX_BYTES {
        GPUI_STATUS_PAYLOAD_TOO_LARGE
    } else if !present && len != 0 {
        GPUI_STATUS_INVALID_HANDLE
    } else if waiting.len() >= INJECT_QUEUE_MAX_ENTRIES {
        GPUI_STATUS_QUEUE_FULL
    } else {
        GPUI_STATUS_OK
    }
}

/// The payload that was lent; nothing where the length is zero.
pub open spec fn posted_payload(ptr: Option<Seq<u8>>, len: i32) -> Seq<u8> {
    if len == 0 {
        Seq::empty()
    } else {
        ptr->0
    }
}

/// Posts an event. It waits until the queue is drained; a full queue refuses
/// it at once. The payload is copied.
pub fn gpui_post_event(queue: &mut InjectQueue, view: i32, ptr: Option<&[u8]>, len: i32) -> (status:
    i32)
    requires
        old(queue).wf(),
        ptr matches Some(bytes) ==> len < 0 || len > INJECT_PAYLOAD_MAX_BYTES || bytes@.len() == len,
    ensures
        final(queue).wf(),
        status == post_status(old(queue)@, view, ptr is Some, len),
        final(queue)@ == if status == GPUI_STATUS_OK {
            old(queue)@.push(Waiting { view, payload: posted_payload(lent(ptr), len) })
        } else {
            old(queue)@
        },
{
    if view < 0 {
        return GPUI_STATUS_INVALID_HANDLE;
    }
    if len < 0 {
        return GPUI_STATUS_INVALID_HANDLE;
    }
    if len as usize > INJECT_PAYLOAD_MAX_BYTES {
        return GPUI_STATUS_PAYLOAD_TOO_LARGE;
    }
    let mut payload: Vec<u8> = Vec::new();
    match ptr {
        None => {
            if len != 0 {
                return GPUI_STATUS_INVALID_HANDLE;
            }
        },
        Some(bytes) => {
            append_bytes(&mut payload, bytes);
        },
    }
    assert(payload@ =~= posted_payload(lent(ptr), len));
    if queue.entries.len() >= INJECT_QUEUE_MAX_ENTRIES {
        return GPUI_STATUS_QUEUE_FULL;
    }
    queue.entries.push_back(InjectEntry { view, payload });
    proof {
        let event = Waiting { view, payload: payload@ };
        assert(queue@ =~= old(queue)@.push(event));
        assert forall|i: int| 0 <= i < queue@.len() implies may_wait(#[trigger] queue@[i]) by {
            if i < old(queue)@.len() {
                assert(may_wait(old(queue)@[i]));
            }
        }
    }
    GPUI_STATUS_OK
}

/// The first event that is for a view with a tree; how many wait before it.
pub open spec fn skipped(waiting: Seq<Waiting>, views: Map<int, Tree>) -> nat
    decreases waiting.len(),
{
    if waiting.len() == 0 || views.dom().contains(waiting[0].view as int) {
        0
    } else {
        1 + skipped(waiting.drop_first(), views)
    }
}

/// Takes the next event out that is to be delivered. Events for views without
/// a tree are dropped on the way.
pub fn next_injected(queue: &mut InjectQueue, views: &Views) -> (entry: Option<InjectEntry>)
    requires
        old(queue).wf(),
    ensures
        final(queue).wf(),
        ({
            let passed = skipped(old(queue)@, views@);
            match entry {
                Some(entry) => {
                    &&& passed < old(queue)@.len()
                    &&& entry@ == old(queue)@[passed as int]
                    &&& views@.dom().contains(entry.view as int)
                    &&& final(queue)@ == old(queue)@.skip(passed as int + 1)
                },
                None => passed == old(queue)@.len() && final(queue)@.len() == 0,
            }
        }),
{
    let ghost mut passed: nat = 0;
    assert(old(queue)@.skip(0) =~= old(queue)@);
    loop
        invariant
            queue.wf(),
            passed <= old(queue)@.len(),
            queue@ == old(queue)@.skip(passed as int),
            skipped(old(queue)@, views@) == passed + skipped(queue@, views@),
        decreases old(queue)@.len() - passed,
    {
        match queue.pop_injected() {
            None => {
                return None;
            },
            Some(entry) => {
                if views.committed(entry.view).is_some() {
                    assert(queue@ =~= old(queue)@.skip(passed as int + 1));
                    return Some(entry);
                }
                proof {
                    assert(queue@ =~= old(queue)@.skip(passed as int + 1));
                    passed = passed + 1;
                }
            },
        }
    }
}

/// The events that are delivered until the queue is empty, where the views stay
/// as they are.
pub open spec fn delivered(waiting: Seq<Waiting>, views: Map<int, Tree>) -> Seq<Waiting>
    decreases waiting.len(),
{
    let passed = skipped(waiting, views) as int;
    if passed >= waiting.len() {
        Seq::empty()
    } else {
        seq![waiting[passed]] + delivered(waiting.skip(passed + 1), views)
    }
}

/// Draining delivers exactly the events for views with a tree, in the order in
/// which they were posted; where every view has one, it delivers all of them.
pub proof fn law_draining_delivers_in_order(waiting: Seq<Waiting>, views: Map<int, Tree>)
    ensures
        waiting.len() == 0 ==> delivered(waiting, views) == Seq::<Waiting>::empty(),
        waiting.len() > 0 ==> delivered(waiting, views) == if views.dom().contains(
            waiting[0].view as int,
        ) {
            seq![waiting[0]] + delivered(waiting.drop_first(), views)
        } else {
            delivered(waiting.drop_first(), views)
        },
        (forall|i: int|
            0 <= i < waiting.len() ==> views.dom().contains(#[trigger] waiting[i].view as int))
            ==> delivered(waiting, views) == waiting,
    decreases waiting.len(),
{
    if waiting.len() > 0 {
        let rest = waiting.drop_first();
        law_draining_delivers_in_order(rest, views);
        if views.dom().contains(waiting[0].view as int) {
            assert(skipped(waiting, views) == 0);
            assert(waiting.skip(1) =~= rest);
            if forall|i: int|
                0 <= i < waiting.len() ==> views.dom().contains(#[trigger] waiting[i].view as int) {
                assert forall|i: int| 0 <= i < rest.len() implies views.dom().contains(
                    #[trigger] rest[i].view as int,
                ) by {
                    assert(views.dom().contains(waiting[i + 1].view as int));
                }
                assert(seq![waiting[0]] + rest =~= waiting);
            }
        } else {
            let passed = skipped(rest, views) as int;
            lemma_skipped_is_within(rest, views);
            if passed < rest.len() {
                assert(waiting.skip(passed + 2) =~= rest.skip(passed + 1));
            }
        }
    }
}

proof fn lemma_skipped_is_within(waiting: Seq<Waiting>, views: Map<int, Tree>)
    ensures
        skipped(waiting, views) <= waiting.len(),
    decreases waiting.len(),
{
    if waiting.len() > 0 {
        lemma_skipped_is_within(waiting.drop_first(), views);
    }
}

/// What is posted is taken out as it was posted, after everything that was
/// posted before it.
pub proof fn law_injection_is_first_in_first_out(
    waiting: Seq<Waiting>,
    first: Waiting,
    second: Waiting,
)
    ensures
        ({
            let queued = waiting.push(first).push(second);
            let rest = queued.skip(waiting.len() as int);
            &&& rest[0] == first
            &&& rest.drop_first()[0] == second
            &&& rest.drop_first().drop_first().len() == 0
            &&& forall|i: int| 0 <= i < waiting.len() ==> queued[i] == waiting[i]
        }),
{
}

/// A bounded queue that has room stays bounded when an event that may wait is
/// posted, and when one is taken out.
pub proof fn law_queue_stays_bounded(waiting: Seq<Waiting>, event: Waiting)
    requires
        is_bounded(waiting),
        may_wait(event),
    ensures
        waiting.len() < INJECT_QUEUE_MAX_ENTRIES ==> is_bounded(waiting.push(event)),
        waiting.len() > 0 ==> is_bounded(waiting.drop_first()),
{
    let more = waiting.push(event);
    assert forall|i: int| 0 <= i < more.len() implies may_wait(#[trigger] more[i]) by {
        if i < waiting.len() {
            assert(may_wait(waiting[i]));
        }
    }
    if waiting.len() > 0 {
        let fewer = waiting.drop_first();
        assert forall|i: int| 0 <= i < fewer.len() implies may_wait(#[trigger] fewer[i]) by {
            assert(may_wait(waiting[i + 1]));
        }
    }
}

/// An event is posted exactly where it is for some view, its payload is there and
/// has a megabyte at most, and fewer than 1024 events wait; the status tells which
/// of these it was.
pub proof fn law_posting_is_refused_for_a_reason(
    waiting: Seq<Waiting>,
    view: i32,
    present: bool,
    len: i32,
)
    ensures
        ({
            let status = post_status(waiting, view, present, len);
            let small = 0 <= len <= 1_048_576;
            let lent = present || len == 0;
            &&& status == GPUI_STATUS_OK <==> view >= 0 && small && lent && waiting.len() < 1024
            &&& status == GPUI_STATUS_QUEUE_FULL <==> view >= 0 && small && lent && waiting.len()
                >= 1024
            &&& status == GPUI_STATUS_PAYLOAD_TOO_LARGE <==> view >= 0 && len > 1_048_576
            &&& status == GPUI_STATUS_INVALID_HANDLE <==> view < 0 || len < 0 || small && !lent
        }),
{
}

/// The payload that waits is the one that was lent, byte for byte.
pub proof fn law_lent_payload_waits(bytes: Seq<u8>, len: i32)
    requires
        bytes.len() == len,
    ensures
        posted_payload(Some(bytes), len) == bytes,
        posted_payload(None, 0).len() == 0,
{
    assert(len == 0 ==> bytes =~= Seq::empty());
}

/// Where the first event for a view with a tree stands, nothing before it is for
/// one.
pub proof fn law_only_events_without_a_tree_are_skipped(
    waiting: Seq<Waiting>,
    views: Map<int, Tree>,
    i: int,
)
    ensures
        skipped(waiting, views) <= waiting.len(),
        0 <= i < skipped(waiting, views) ==> !views.dom().contains(waiting[i].view as int),
        skipped(waiting, views) < waiting.len() ==> views.dom().contains(
            waiting[skipped(waiting, views) as int].view as int,
        ),
    decreases waiting.len(),
{
    if waiting.len() > 0 {
        law_only_events_without_a_tree_are_skipped(waiting.drop_first(), views, i - 1);
    }
}

} // verus!
