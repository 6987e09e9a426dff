//! The benchmark of a window: what each frame records, what it does next, and
//! when the run is over.
//!
//! Times and durations are double-precision numbers of milliseconds. They are
//! only stored here, by their bits.
use crate::abi::{EVENT_TEXT, GPUI_STATUS_INVALID_HANDLE};
use crate::edit::{committed, size, TextInputModel};
use crate::events::{dispatch_event_text, envelope, narrowed, Envelope, EventQueue};
use crate::input::{InputMirror, Mirrored};
use vstd::prelude::*;
use vstd::string::StrSliceExecFns;
use vstd::utf8::encode_utf8;

verus! {

/// Sample that stands for a measurement that was not made.
pub const NO_SAMPLE: u64 = 0x7ff8_0000_0000_0000;

/// Only the start of the application is measured.
pub const SCENARIO_OPEN: i32 = 0;

/// Each action types a letter.
pub const SCENARIO_INPUT: i32 = 1;

/// Each action turns the wheel.
pub const SCENARIO_SCROLL: i32 = 2;

/// A run of the benchmark.
pub struct WindowBenchmark {
    pub scenario: i32,
    /// How many actions are measured.
    pub target: usize,
    /// How far an action scrolls, a single-precision float by its bits.
    pub stride: u32,
    pub document_load_ms: u64,
    /// Has a frame been presented?
    pub framed: bool,
    /// What the last action took.
    pub pending_work_ms: u64,
    /// What the last paint took, until a frame takes it as a sample.
    pub paint_work_ms: Option<u64>,
    pub first_interactive_ms: u64,
    pub work_samples: Vec<u64>,
    pub dispatch_work_samples: Vec<u64>,
    pub samples: Vec<u64>,
    pub latencies: Vec<u64>,
    pub action_timestamps_epoch_ms: Vec<u64>,
    pub action_window_end_epoch_ms: Option<u64>,
    pub completed: usize,
    pub warming_up: bool,
    pub action_index: usize,
}

/// What a run has recorded.
#[verifier::ext_equal]
pub struct Bench {
    pub scenario: i32,
    pub target: usize,
    pub stride: u32,
    pub document_load_ms: u64,
    pub framed: bool,
    pub pending_work_ms: u64,
    pub paint_work_ms: Option<u64>,
    pub first_interactive_ms: u64,
    pub work: Seq<u64>,
    pub dispatch: Seq<u64>,
    pub intervals: Seq<u64>,
    pub latencies: Seq<u64>,
    pub stamps: Seq<u64>,
    pub end: Option<u64>,
    pub completed: int,
    pub warming_up: bool,
    pub action_index: int,
}

impl View for WindowBenchmark {
    type V = Bench;

    open spec fn view(&self) -> Bench {
        Bench {
            scenario: self.scenario,
            target: self.target,
            stride: self.stride,
            document_load_ms: self.document_load_ms,
            framed: self.framed,
            pending_work_ms: self.pending_work_ms,
            paint_work_ms: self.paint_work_ms,
            first_interactive_ms: self.first_interactive_ms,
            work: self.work_samples@,
            dispatch: self.dispatch_work_samples@,
            intervals: self.samples@,
            latencies: self.latencies@,
            stamps: self.action_timestamps_epoch_ms@,
            end: self.action_window_end_epoch_ms,
            completed: self.completed as int,
            warming_up: self.warming_up,
            action_index: self.action_index as int,
        }
    }
}

/// What the clocks say when a frame is presented: since the start of the run,
/// since the frame before, since the last action began, and the time of day.
#[derive(Clone, Copy, PartialEq, Eq, Debug)]
pub struct FrameTimes {
    pub since_start: u64,
    pub since_previous: u64,
    pub since_action: u64,
    pub epoch: u64,
}

/// What follows a frame.
#[derive(Clone, Copy, PartialEq, Eq, Structural, Debug)]
pub enum FrameStep {
    /// The run is over and is reported.
    Report,
    /// Nothing is done until the next frame.
    Settle,
    /// An action is performed, and announced where it is measured.
    Act { index: usize, announced: bool },
}

/// A run before its first frame.
pub open spec fn fresh_bench(
    scenario: i32,
    target: usize,
    stride: u32,
    document_load_ms: u64,
) -> Bench {
    Bench {
        scenario,
        target,
        stride,
        document_load_ms,
        framed: false,
        pending_work_ms: 0,
        paint_work_ms: None,
        first_interactive_ms: 0,
        work: Seq::empty(),
        dispatch: Seq::empty(),
        intervals: Seq::empty(),
        latencies: Seq::empty(),
        stamps: Seq::empty(),
        end: None,
        completed: 0,
        warming_up: scenario != SCENARIO_OPEN,
        action_index: 0,
    }
}

/// The state of a run that is not over: as many samples as measured actions,
/// fewer than wanted, and one more action begun than measured.
pub open spec fn bench_is_sound(bench: Bench) -> bool {
    &&& SCENARIO_OPEN <= bench.scenario <= SCENARIO_SCROLL
    &&& 0 <= bench.completed < bench.target <= i32::MAX
    &&& bench.work.len() == bench.completed
    &&& bench.dispatch.len() == bench.completed
    &&& bench.intervals.len() == bench.completed
    &&& bench.latencies.len() == bench.completed
    &&& bench.warming_up || bench.scenario == SCENARIO_OPEN ==> bench.completed == 0
    &&& bench.warming_up ==> bench.scenario != SCENARIO_OPEN
    &&& if bench.framed {
        bench.action_index == bench.completed + 1
    } else {
        &&& bench.completed == 0
        &&& bench.action_index == 0
        &&& bench.warming_up == (bench.scenario != SCENARIO_OPEN)
    }
}

/// What a frame records.
pub open spec fn recorded(bench: Bench, times: FrameTimes) -> Bench {
    if !bench.framed {
        Bench { first_interactive_ms: times.since_start, framed: true, ..bench }
    } else if bench.warming_up {
        Bench { warming_up: false, ..bench }
    } else if bench.scenario == SCENARIO_OPEN {
        Bench {
            work: bench.work.push(
                match bench.paint_work_ms {
                    Some(work) => work,
                    None => NO_SAMPLE,
                },
            ),
            paint_work_ms: None,
            ..bench
        }
    } else {
        Bench {
            intervals: bench.intervals.push(times.since_previous),
            work: bench.work.push(
                match bench.paint_work_ms {
                    Some(work) => work,
                    None => bench.pending_work_ms,
                },
            ),
            paint_work_ms: None,
            dispatch: bench.dispatch.push(bench.pending_work_ms),
            latencies: bench.latencies.push(times.since_action),
            completed: bench.completed + 1,
            end: if bench.completed + 1 >= bench.target {
                Some(times.epoch)
            } else {
                bench.end
            },
            ..bench
        }
    }
}

/// Does the frame end the run? The first one and the one after the warm-up do
/// not.
pub open spec fn is_over(bench: Bench) -> bool {
    bench.framed && !bench.warming_up && (bench.scenario == SCENARIO_OPEN || bench.completed + 1
        >= bench.target)
}

/// What follows a frame.
pub open spec fn step_after(bench: Bench) -> FrameStep {
    if is_over(bench) {
        FrameStep::Report
    } else if bench.framed && bench.warming_up {
        FrameStep::Settle
    } else {
        FrameStep::Act {
            index: bench.action_index as usize,
            announced: !bench.warming_up && bench.scenario != SCENARIO_OPEN,
        }
    }
}

/// The state after a frame.
pub open spec fn after_frame(bench: Bench, times: FrameTimes) -> Bench {
    let now = recorded(bench, times);
    match step_after(bench) {
        FrameStep::Act { .. } => Bench { action_index: now.action_index + 1, ..now },
        _ => now,
    }
}

impl WindowBenchmark {
    /// The run can go on.
    pub open spec fn wf(&self) -> bool {
        bench_is_sound(self@)
    }

    /// A run before its first frame.
    pub fn new(scenario: i32, target: usize, stride: u32, document_load_ms: u64) -> (bench:
        WindowBenchmark)
        requires
            SCENARIO_OPEN <= scenario <= SCENARIO_SCROLL,
            0 < target <= i32::MAX,
        ensures
            bench.wf(),
            bench@ == fresh_bench(scenario, target, stride, document_load_ms),
    {
        WindowBenchmark {
            scenario,
            target,
            stride,
            document_load_ms,
            framed: false,
            pending_work_ms: 0,
            paint_work_ms: None,
            first_interactive_ms: 0,
            work_samples: Vec::new(),
            dispatch_work_samples: Vec::new(),
            samples: Vec::new(),
            latencies: Vec::new(),
            action_timestamps_epoch_ms: Vec::new(),
            action_window_end_epoch_ms: None,
            completed: 0,
            warming_up: scenario != SCENARIO_OPEN,
            action_index: 0,
        }
    }

    /// Records a frame and decides what follows it.
    pub fn benchmark_frame_tick(&mut self, times: FrameTimes) -> (step: FrameStep)
        requires
            old(self).wf(),
        ensures
            final(self)@ == after_frame(old(self)@, times),
            step == step_after(old(self)@),
            step == FrameStep::Report || final(self).wf(),
    {
        let mut over = false;
        let mut settles = false;
        if !self.framed {
            self.first_interactive_ms = times.since_start;
            self.framed = true;
        } else if self.warming_up {
            self.warming_up = false;
            settles = true;
        } else if self.scenario == SCENARIO_OPEN {
            let work: u64 = match self.paint_work_ms {
                Some(work) => work,
                None => NO_SAMPLE,
            };
            self.paint_work_ms = None;
            self.work_samples.push(work);
            over = true;
        } else {
            self.samples.push(times.since_previous);
            let work: u64 = match self.paint_work_ms {
                Some(work) => work,
                None => self.pending_work_ms,
            };
            self.paint_work_ms = None;
            self.work_samples.push(work);
            self.dispatch_work_samples.push(self.pending_work_ms);
            self.latencies.push(times.since_action);
            self.completed = self.completed + 1;
            if self.completed >= self.target {
                self.action_window_end_epoch_ms = Some(times.epoch);
                over = true;
            }
        }
        assert(self@ =~= recorded(old(self)@, times));
        if over {
            return FrameStep::Report;
        }
        if settles {
            return FrameStep::Settle;
        }
        let announced = !self.warming_up && self.scenario != SCENARIO_OPEN;
        let index: usize = self.action_index;
        self.action_index = index + 1;
        FrameStep::Act { index, announced }
    }

    /// Notes when an announced action began.
    pub fn note_action(&mut self, epoch: u64)
        ensures
            final(self)@ == (Bench { stamps: old(self)@.stamps.push(epoch), ..old(self)@ }),
    {
        self.action_timestamps_epoch_ms.push(epoch);
    }

    /// Notes what an action took.
    pub fn note_work(&mut self, work: u64)
        ensures
            final(self)@ == (Bench { pending_work_ms: work, ..old(self)@ }),
    {
        self.pending_work_ms = work;
    }

    /// Notes what a paint took. The first one also says when the window could be
    /// used, unless a frame said so before.
    pub fn note_paint(&mut self, work: u64, since_start: u64)
        ensures
            final(self)@ == (Bench {
                paint_work_ms: Some(work),
                first_interactive_ms: if is_zero(old(self)@.first_interactive_ms) {
                    since_start
                } else {
                    old(self)@.first_interactive_ms
                },
                ..old(self)@
            }),
    {
        if self.first_interactive_ms % 0x8000_0000_0000_0000 == 0 {
            self.first_interactive_ms = since_start;
        }
        self.paint_work_ms = Some(work);
    }
}

/// Is a double-precision number zero, of either sign?
pub open spec fn is_zero(bits: u64) -> bool {
    bits == 0 || bits == 0x8000_0000_0000_0000
}

/// Frames until the report, that of the report included.
pub open spec fn frames_left(bench: Bench) -> int {
    if bench.scenario == SCENARIO_OPEN {
        if bench.framed {
            1
        } else {
            2
        }
    } else if !bench.framed {
        bench.target + 2
    } else if bench.warming_up {
        bench.target + 1
    } else {
        bench.target - bench.completed
    }
}

/// A run ends. Each frame brings the report one frame nearer, and it comes with
/// the last: the second one where only the start is measured, and else the one
/// after a first frame, a warm-up and as many measured frames as wanted.
pub proof fn law_run_ends(bench: Bench, times: FrameTimes)
    requires
        bench_is_sound(bench),
    ensures
        frames_left(bench) >= 1,
        step_after(bench) == FrameStep::Report <==> frames_left(bench) == 1,
        step_after(bench) != FrameStep::Report ==> {
            &&& bench_is_sound(after_frame(bench, times))
            &&& frames_left(after_frame(bench, times)) == frames_left(bench) - 1
        },
{
}

/// A report has every sample that was wanted: one of each kind for each measured
/// action, or a single one of work where only the start is measured.
pub proof fn law_report_is_complete(bench: Bench, times: FrameTimes)
    requires
        bench_is_sound(bench),
        step_after(bench) == FrameStep::Report,
    ensures
        ({
            let last = after_frame(bench, times);
            if bench.scenario == SCENARIO_OPEN {
                last.work.len() == 1 && last.intervals.len() == 0 && last.dispatch.len() == 0
                    && last.latencies.len() == 0
            } else {
                last.work.len() == last.target && last.intervals.len() == last.target
                    && last.dispatch.len() == last.target && last.latencies.len() == last.target
                    && last.end == Some(times.epoch)
            }
        }),
{
}

/// Notes of paints and actions leave a run able to go on.
pub proof fn law_notes_keep_runs_sound(bench: Bench, first: u64, paint: Option<u64>, work: u64, stamps: Seq<u64>)
    requires
        bench_is_sound(bench),
    ensures
        bench_is_sound(
            Bench {
                first_interactive_ms: first,
                paint_work_ms: paint,
                pending_work_ms: work,
                stamps,
                ..bench
            },
        ),
{
}

/// What starting a benchmark answers before anything runs; `None` where it runs.
pub open spec fn benchmark_refusal(view: i32, scenario: i32, target: i32) -> Option<i32> {
    if view < 0 || scenario < SCENARIO_OPEN || scenario > SCENARIO_SCROLL || target <= 0 {
        Some(GPUI_STATUS_INVALID_HANDLE)
    } else {
        None
    }
}

/// Runs the benchmark of a window. Bad arguments are refused before anything
/// runs; otherwise the window is run with a fresh benchmark, and its answer is
/// passed on.
pub fn gpui_run_window_benchmark<F: FnOnce(WindowBenchmark) -> i32>(
    view: i32,
    scenario: i32,
    target: i32,
    stride: u32,
    document_load_ms: u64,
    run: F,
) -> (status: i32)
    requires
        benchmark_refusal(view, scenario, target) is None ==> forall|bench: WindowBenchmark|
            bench@ == fresh_bench(scenario, target as usize, stride, document_load_ms)
                ==> run.requires((bench,)),
    ensures
        match benchmark_refusal(view, scenario, target) {
            Some(refusal) => status == refusal,
            None => exists|bench: WindowBenchmark|
                bench@ == fresh_bench(scenario, target as usize, stride, document_load_ms)
                    && run.ensures((bench,), status),
        },
{
    if view < 0 || scenario < SCENARIO_OPEN || scenario > SCENARIO_SCROLL || target <= 0 {
        return GPUI_STATUS_INVALID_HANDLE;
    }
    let bench = WindowBenchmark::new(scenario, target as usize, stride, document_load_ms);
    run(bench)
}

/// What an action does.
#[derive(Clone, Copy, PartialEq, Eq, Structural, Debug)]
pub enum BenchAction {
    /// Types the letter of the action.
    Type,
    /// Scrolls by the stride, upwards or back.
    Wheel { upwards: bool },
    /// Nothing is done.
    Rest,
}

/// What the action with a number does: letters are typed in one scenario, and
/// the wheel turns to and fro in another.
pub open spec fn action(scenario: i32, index: usize) -> BenchAction {
    if scenario == SCENARIO_INPUT {
        BenchAction::Type
    } else if scenario == SCENARIO_SCROLL {
        BenchAction::Wheel { upwards: index % 2 == 0 }
    } else {
        BenchAction::Rest
    }
}

/// Decides what the action with a number does.
pub fn benchmark_drive_action(scenario: i32, index: usize) -> (chosen: BenchAction)
    ensures
        chosen == action(scenario, index),
{
    match scenario {
        SCENARIO_INPUT => BenchAction::Type,
        SCENARIO_SCROLL => BenchAction::Wheel { upwards: index % 2 == 0 },
        _ => BenchAction::Rest,
    }
}

/// The letters in the order in which they are typed.
pub const ALPHABET: &'static str = "abcdefghijklmnopqrstuvwxyz";

/// The text that an action types: one letter, starting over after the last.
pub open spec fn letter_of(index: usize) -> Seq<char> {
    seq![ALPHABET@[index as int % 26]]
}

/// The text that an action types.
pub fn letter(index: usize) -> (text: &'static str)
    ensures
        text@ == letter_of(index),
{
    let at: usize = index % 26;
    proof {
        reveal_strlit("abcdefghijklmnopqrstuvwxyz");
    }
    let text: &'static str = ALPHABET.substring_ascii(at, at + 1);
    assert(text@ =~= letter_of(index));
    text
}

/// Types the letter of an action at the end of an input, and mirrors the text.
pub fn type_into(model: &mut TextInputModel, inputs: &mut InputMirror, index: usize)
    requires
        old(inputs).wf(),
    ensures
        final(model).wf(),
        final(model).same_input(*old(model)),
        final(model)@ == committed(
            old(model)@,
            size(old(model)@.text),
            size(old(model)@.text),
            letter_of(index),
        ),
        final(inputs).wf(),
        final(inputs).mirror() == old(inputs).mirror().insert(
            (old(model).view, old(model).input_id),
            (Mirrored { text: final(model)@.text, composing: false }),
        ),
        final(inputs).queued() == old(inputs).queued(),
        final(inputs).dirty() == old(inputs).dirty(),
{
    model.append_text(letter(index), inputs);
}

/// Where no input is there to type into, the letter of an action is delivered
/// as typed text.
pub fn type_without_input<F: FnOnce(&EventQueue, Envelope) -> i32>(
    queue: &mut EventQueue,
    view: i32,
    index: usize,
    callback: F,
) -> (changed: i32)
    requires
        forall|staged: EventQueue, event: Envelope|
            staged@ == old(queue)@.push(encode_utf8(letter_of(index))) && event == envelope(
                EVENT_TEXT,
                view,
                narrowed(old(queue)@.len()),
                narrowed(encode_utf8(letter_of(index)).len()),
            ) ==> callback.requires((&staged, event)),
    ensures
        final(queue)@ == Seq::<Seq<u8>>::empty(),
        exists|staged: EventQueue|
            staged@ == old(queue)@.push(encode_utf8(letter_of(index))) && callback.ensures(
                (
                    &staged,
                    envelope(
                        EVENT_TEXT,
                        view,
                        narrowed(old(queue)@.len()),
                        narrowed(encode_utf8(letter_of(index)).len()),
                    ),
                ),
                changed,
            ),
{
    dispatch_event_text(queue, view, letter(index), callback)
}

/// Does the view have to be rebuilt after an action? Scrolling is left to the
/// engine, and where nothing was done nothing is rebuilt.
pub fn rebuilds_after(scenario: i32) -> (rebuilds: bool)
    ensures
        rebuilds == (scenario != SCENARIO_SCROLL && scenario != SCENARIO_OPEN),
{
    scenario != SCENARIO_SCROLL && scenario != SCENARIO_OPEN
}

/// A frame changes nothing of how the run was set up, and keeps every sample that was
/// recorded before.
pub proof fn law_frames_keep_the_run(bench: Bench, times: FrameTimes)
    ensures
        ({
            let after = after_frame(bench, times);
            &&& after.scenario == bench.scenario
            &&& after.target == bench.target
            &&& after.stride == bench.stride
            &&& after.document_load_ms == bench.document_load_ms
            &&& after.pending_work_ms == bench.pending_work_ms
            &&& after.stamps == bench.stamps
            &&& after.framed
            &&& bench.work.is_prefix_of(after.work)
            &&& bench.dispatch.is_prefix_of(after.dispatch)
            &&& bench.intervals.is_prefix_of(after.intervals)
            &&& bench.latencies.is_prefix_of(after.latencies)
        }),
{
}

/// The first frame says when the window could be used, and no other one does; the
/// second one ends the warm-up, and neither records a sample.
pub proof fn law_first_frames_record_no_samples(bench: Bench, times: FrameTimes)
    ensures
        ({
            let after = after_frame(bench, times);
            let measures = bench.framed && !bench.warming_up;
            &&& !bench.framed ==> after.first_interactive_ms == times.since_start
                && after.warming_up == bench.warming_up
            &&& bench.framed ==> after.first_interactive_ms == bench.first_interactive_ms
                && !after.warming_up
            &&& !measures ==> {
                &&& after.work == bench.work
                &&& after.dispatch == bench.dispatch
                &&& after.intervals == bench.intervals
                &&& after.latencies == bench.latencies
                &&& after.completed == bench.completed
                &&& after.end == bench.end
                &&& after.paint_work_ms == bench.paint_work_ms
            }
        }),
{
}

/// A measured frame records one sample of each kind: the time since the frame before,
/// the time since the action, the work of the action, and the work of the last paint
/// or of the action where there was none. The paint is used up. Only the last
/// measured frame says when the run ended.
pub proof fn law_measured_frames_record_their_times(bench: Bench, times: FrameTimes)
    requires
        bench.framed,
        !bench.warming_up,
        bench.scenario != SCENARIO_OPEN,
    ensures
        ({
            let after = after_frame(bench, times);
            &&& after.completed == bench.completed + 1
            &&& after.intervals == bench.intervals.push(times.since_previous)
            &&& after.latencies == bench.latencies.push(times.since_action)
            &&& after.dispatch == bench.dispatch.push(bench.pending_work_ms)
            &&& after.work.len() == bench.work.len() + 1
            &&& bench.paint_work_ms matches Some(paint) ==> after.work.last() == paint
            &&& bench.paint_work_ms is None ==> after.work.last() == bench.pending_work_ms
            &&& after.paint_work_ms is None
            &&& after.completed < bench.target ==> after.end == bench.end
            &&& after.completed >= bench.target ==> after.end == Some(times.epoch)
        }),
{
}

/// Where only the start is measured, the second frame records the work of the last
/// paint, or that there was none, and nothing else.
pub proof fn law_start_records_one_paint(bench: Bench, times: FrameTimes)
    requires
        bench.framed,
        !bench.warming_up,
        bench.scenario == SCENARIO_OPEN,
    ensures
        ({
            let after = after_frame(bench, times);
            &&& step_after(bench) == FrameStep::Report
            &&& after.work.len() == bench.work.len() + 1
            &&& bench.paint_work_ms matches Some(paint) ==> after.work.last() == paint
            &&& bench.paint_work_ms is None ==> after.work.last() == NO_SAMPLE
            &&& after.paint_work_ms is None
            &&& after.intervals == bench.intervals
            &&& after.dispatch == bench.dispatch
            &&& after.latencies == bench.latencies
            &&& after.completed == bench.completed
            &&& after.end == bench.end
        }),
{
}

/// Actions are numbered one after the other, and an action is announced exactly where
/// it is measured.
pub proof fn law_actions_are_numbered(bench: Bench, times: FrameTimes)
    requires
        bench_is_sound(bench),
    ensures
        ({
            let after = after_frame(bench, times);
            match step_after(bench) {
                FrameStep::Act { index, announced } => {
                    &&& index == bench.action_index
                    &&& after.action_index == bench.action_index + 1
                    &&& announced <==> !after.warming_up && bench.scenario != SCENARIO_OPEN
                },
                _ => after.action_index == bench.action_index,
            }
        }),
{
}

/// A run is refused exactly where it is for no view, of no known scenario, or
/// measures no action.
pub proof fn law_runs_are_refused_for_a_reason(view: i32, scenario: i32, target: i32)
    ensures
        benchmark_refusal(view, scenario, target) is None <==> view >= 0 && target > 0 && (scenario
            == SCENARIO_OPEN || scenario == SCENARIO_INPUT || scenario == SCENARIO_SCROLL),
        benchmark_refusal(view, scenario, target) is Some ==> benchmark_refusal(
            view,
            scenario,
            target,
        ) == Some(GPUI_STATUS_INVALID_HANDLE),
{
}

/// The wheel turns up first and then to and fro; letters are typed in their own
/// scenario, and nothing is done where only the start is measured.
pub proof fn law_wheel_turns_to_and_fro(index: usize)
    ensures
        action(SCENARIO_SCROLL, 0) == (BenchAction::Wheel { upwards: true }),
        action(SCENARIO_SCROLL, index) is Wheel,
        index < usize::MAX ==> action(SCENARIO_SCROLL, index)->upwards != action(
            SCENARIO_SCROLL,
            (index + 1) as usize,
        )->upwards,
        action(SCENARIO_INPUT, index) is Type,
        action(SCENARIO_OPEN, index) is Rest,
{
}

/// The letters are typed in the order of the alphabet, and start over after the last.
pub proof fn law_letters_follow_the_alphabet(index: usize)
    ensures
        letter_of(index).len() == 1,
        letter_of(index)[0] as int == 'a' as int + index % 26,
        index <= usize::MAX - 26 ==> letter_of((index + 26) as usize) == letter_of(index),
{
    reveal_strlit("abcdefghijklmnopqrstuvwxyz");
    let at = index as int % 26;
    assert(at == 0 ==> ALPHABET@[at] == 'a');
    assert(at == 1 ==> ALPHABET@[at] == 'b');
    assert(at == 2 ==> ALPHABET@[at] == 'c');
    assert(at == 3 ==> ALPHABET@[at] == 'd');
    assert(at == 4 ==> ALPHABET@[at] == 'e');
    assert(at == 5 ==> ALPHABET@[at] == 'f');
    assert(at == 6 ==> ALPHABET@[at] == 'g');
    assert(at == 7 ==> ALPHABET@[at] == 'h');
    assert(at == 8 ==> ALPHABET@[at] == 'i');
    assert(at == 9 ==> ALPHABET@[at] == 'j');
    assert(at == 10 ==> ALPHABET@[at] == 'k');
    assert(at == 11 ==> ALPHABET@[at] == 'l');
    assert(at == 12 ==> ALPHABET@[at] == 'm');
    assert(at == 13 ==> ALPHABET@[at] == 'n');
    assert(at == 14 ==> ALPHABET@[at] == 'o');
    assert(at == 15 ==> ALPHABET@[at] == 'p');
    assert(at == 16 ==> ALPHABET@[at] == 'q');
    assert(at == 17 ==> ALPHABET@[at] == 'r');
    assert(at == 18 ==> ALPHABET@[at] == 's');
    assert(at == 19 ==> ALPHABET@[at] == 't');
    assert(at == 20 ==> ALPHABET@[at] == 'u');
    assert(at == 21 ==> ALPHABET@[at] == 'v');
    assert(at == 22 ==> ALPHABET@[at] == 'w');
    assert(at == 23 ==> ALPHABET@[at] == 'x');
    assert(at == 24 ==> ALPHABET@[at] == 'y');
    assert(at == 25 ==> ALPHABET@[at] == 'z');
}

/// A run before its first frame has recorded nothing, and warms up unless only the start
/// is measured.
pub proof fn law_fresh_runs_have_recorded_nothing(
    scenario: i32,
    target: usize,
    stride: u32,
    document_load_ms: u64,
)
    ensures
        ({
            let bench = fresh_bench(scenario, target, stride, document_load_ms);
            &&& bench.scenario == scenario
            &&& bench.target == target
            &&& bench.stride == stride
            &&& bench.document_load_ms == document_load_ms
            &&& bench.work.len() + bench.dispatch.len() + bench.intervals.len()
                + bench.latencies.len() + bench.stamps.len() == 0
            &&& bench.completed == 0
            &&& bench.action_index == 0
            &&& !bench.framed
            &&& bench.end is None
            &&& bench.paint_work_ms is None
            &&& is_zero(bench.first_interactive_ms)
            &&& is_zero(bench.pending_work_ms)
            &&& bench.warming_up <==> scenario != SCENARIO_OPEN
            &&& step_after(bench) == (FrameStep::Act { index: 0, announced: false })
        }),
{
}

} // verus!
