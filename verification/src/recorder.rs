//! A recorder that stands in for the callback and keeps what was delivered.
use crate::abi::{EVENT_ASYNC, EVENT_TEXT};
use crate::events::{narrowed, EventQueue};
use crate::text::append_bytes;
use vstd::prelude::*;

verus! {

/// One delivery that was seen, with the payload its token named.
#[derive(PartialEq, Eq, Debug)]
pub struct RecordedDispatch {
    pub kind: i32,
    pub view: i32,
    pub data_a: i32,
    pub data_b: i32,
    pub payload: Vec<u8>,
}

/// A delivery as a mathematical value.
#[verifier::ext_equal]
pub struct Delivery {
    pub kind: i32,
    pub view: i32,
    pub data_a: i32,
    pub data_b: i32,
    pub payload: Seq<u8>,
}

impl View for RecordedDispatch {
    type V = Delivery;

    open spec fn view(&self) -> Delivery {
        Delivery {
            kind: self.kind,
            view: self.view,
            data_a: self.data_a,
            data_b: self.data_b,
            payload: self.payload@,
        }
    }
}

/// What a list of records holds.
pub open spec fn deliveries(events: Seq<RecordedDispatch>) -> Seq<Delivery> {
    events.map_values(|event: RecordedDispatch| event@)
}

/// The recorder. Until it is installed it records nothing.
pub struct DispatchRecorder {
    installed: bool,
    events: Vec<RecordedDispatch>,
    changed: i32,
}

/// Proof that a recorder was installed; giving it back empties the recorder.
pub struct RecorderGuard;

/// The payload that a delivery carries: only text and injected events carry
/// one, and their first datum is its token.
pub open spec fn carried(queue: Seq<Seq<u8>>, kind: i32, data_a: i32) -> Seq<u8> {
    if (kind == EVENT_TEXT || kind == EVENT_ASYNC) && 0 <= data_a < queue.len() {
        queue[data_a as int]
    } else {
        Seq::empty()
    }
}

impl DispatchRecorder {
    /// Is it installed?
    pub closed spec fn is_installed(&self) -> bool {
        self.installed
    }

    /// What was recorded since it was installed or last asked.
    pub closed spec fn recorded(&self) -> Seq<Delivery> {
        deliveries(self.events@)
    }

    /// What it answers to deliveries.
    pub closed spec fn answer(&self) -> i32 {
        self.changed
    }

    /// A recorder that is not installed.
    pub fn new() -> (recorder: DispatchRecorder)
        ensures
            !recorder.is_installed(),
            recorder.recorded() == Seq::<Delivery>::empty(),
            recorder.answer() == 0,
    {
        let recorder = DispatchRecorder { installed: false, events: Vec::new(), changed: 0 };
        assert(recorder.recorded() =~= Seq::empty());
        recorder
    }
}

/// Installs the recorder afresh.
pub fn install(recorder: &mut DispatchRecorder) -> (guard: RecorderGuard)
    ensures
        final(recorder).is_installed(),
        final(recorder).recorded() == Seq::<Delivery>::empty(),
        final(recorder).answer() == 0,
{
    recorder.installed = true;
    reset(recorder);
    RecorderGuard
}

/// Forgets what was recorded and answers zero again.
fn reset(recorder: &mut DispatchRecorder)
    ensures
        final(recorder).is_installed() == old(recorder).is_installed(),
        final(recorder).recorded() == Seq::<Delivery>::empty(),
        final(recorder).answer() == 0,
{
    recorder.events = Vec::new();
    recorder.changed = 0;
    assert(recorder.recorded() =~= Seq::empty());
}

/// Makes later deliveries answer a value, where the recorder is installed.
pub fn set_changed(recorder: &mut DispatchRecorder, changed: i32)
    ensures
        final(recorder).is_installed() == old(recorder).is_installed(),
        final(recorder).recorded() == old(recorder).recorded(),
        final(recorder).answer() == if old(recorder).is_installed() {
            changed
        } else {
            old(recorder).answer()
        },
{
    if recorder.installed {
        recorder.changed = changed;
    }
}

/// Hands out what was recorded and forgets it.
pub fn take_events(recorder: &mut DispatchRecorder) -> (events: Vec<RecordedDispatch>)
    ensures
        deliveries(events@) == old(recorder).recorded(),
        final(recorder).recorded() == Seq::<Delivery>::empty(),
        final(recorder).is_installed() == old(recorder).is_installed(),
        final(recorder).answer() == old(recorder).answer(),
{
    let mut events: Vec<RecordedDispatch> = Vec::new();
    std::mem::swap(&mut events, &mut recorder.events);
    assert(recorder.recorded() =~= Seq::empty());
    events
}

/// Records a delivery and answers to it; zero where it is not installed.
pub fn record(
    recorder: &mut DispatchRecorder,
    queue: &EventQueue,
    kind: i32,
    view: i32,
    data_a: i32,
    data_b: i32,
) -> (changed: i32)
    ensures
        final(recorder).is_installed() == old(recorder).is_installed(),
        final(recorder).answer() == old(recorder).answer(),
        changed == if old(recorder).is_installed() {
            old(recorder).answer()
        } else {
            0
        },
        final(recorder).recorded() == if old(recorder).is_installed() {
            old(recorder).recorded().push(
                (Delivery {
                    kind,
                    view,
                    data_a,
                    data_b,
                    payload: carried(queue@, kind, data_a),
                }),
            )
        } else {
            old(recorder).recorded()
        },
{
    if !recorder.installed {
        return 0;
    }
    let mut payload: Vec<u8> = Vec::new();
    if kind == EVENT_TEXT || kind == EVENT_ASYNC {
        if let Some(staged) = queue.payload(data_a) {
            append_bytes(&mut payload, staged.as_slice());
        }
    }
    assert(payload@ =~= carried(queue@, kind, data_a));
    let event = RecordedDispatch { kind, view, data_a, data_b, payload };
    recorder.events.push(event);
    assert(recorder.recorded() =~= old(recorder).recorded().push(event@));
    recorder.changed
}

impl RecorderGuard {
    /// Gives the recorder back: it is removed, and nothing is left in it.
    pub fn release(self, recorder: &mut DispatchRecorder)
        ensures
            !final(recorder).is_installed(),
            final(recorder).recorded() == Seq::<Delivery>::empty(),
            final(recorder).answer() == 0,
    {
        reset(recorder);
        recorder.installed = false;
    }
}

/// A payload that is staged for delivery is recorded with the delivery that
/// announces it.
pub proof fn law_staged_payload_is_recorded(queue: Seq<Seq<u8>>, kind: i32, payload: Seq<u8>)
    requires
        kind == EVENT_TEXT || kind == EVENT_ASYNC,
        queue.len() <= i32::MAX,
    ensures
        carried(queue.push(payload), kind, narrowed(queue.len())) == payload,
{
}

/// Deliveries of other kinds carry no payload, and tokens that name none do not
/// either.
pub proof fn law_only_payload_events_carry(queue: Seq<Seq<u8>>, kind: i32, token: i32)
    ensures
        kind != EVENT_TEXT && kind != EVENT_ASYNC ==> carried(queue, kind, token).len() == 0,
        token < 0 || token >= queue.len() ==> carried(queue, kind, token).len() == 0,
        0 <= token < queue.len() && (kind == EVENT_TEXT || kind == EVENT_ASYNC) ==> carried(
            queue,
            kind,
            token,
        ) == queue[token as int],
{
}

} // verus!
