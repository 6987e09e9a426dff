//! The report of a benchmark, as one JSON object.
//!
//! Numbers arrive as text: what a double-precision number looks like is decided
//! where it is formatted. Which of them were measured at all, and which of those
//! is the 95th percentile, is decided here.
use crate::bench::{
    Bench, WindowBenchmark, NO_SAMPLE, SCENARIO_INPUT, SCENARIO_OPEN, SCENARIO_SCROLL,
};
use crate::input::texts_of;
use crate::text::{decimal, decimal_text};
use vstd::prelude::*;
use vstd::relations::sorted_by;
use vstd::seq_lib::{
    lemma_sorted_unique, to_multiset_build, to_multiset_insert, to_multiset_len,
};
use vstd::string::StrSliceExecFns;
use vstd::string::StringExecFns;

verus! {

/// The name under which runs are reported unless another one is asked for.
pub const ADAPTER_NAME: &'static str = "gpui";

/// The numbers of a report as text: those of the samples one by one, and the
/// means of what was measured.
pub struct NumberTexts {
    pub work: Vec<String>,
    pub dispatch: Vec<String>,
    pub intervals: Vec<String>,
    pub latencies: Vec<String>,
    pub stamps: Vec<String>,
    pub work_mean: String,
    pub interval_mean: String,
    pub input_mean: String,
    pub window_end: String,
    pub first_interactive: String,
    pub document_load: String,
}

/// Is a double-precision number neither an infinity nor a NaN?
pub open spec fn is_measured(bits: u64) -> bool {
    bits % 0x8000_0000_0000_0000 < 0x7ff0_0000_0000_0000
}

/// Texts with commas between them.
pub open spec fn joined(texts: Seq<Seq<char>>) -> Seq<char>
    decreases texts.len(),
{
    if texts.len() == 0 {
        Seq::empty()
    } else if texts.len() == 1 {
        texts[0]
    } else {
        joined(texts.drop_last()) + ","@ + texts.last()
    }
}

/// Joins texts with commas.
pub fn join(texts: &Vec<String>) -> (text: String)
    ensures
        text@ == joined(texts_of(texts@)),
{
    let ghost all = texts_of(texts@);
    let mut text: String = String::new();
    let mut i: usize = 0;
    assert(all.take(0) =~= Seq::empty());
    assert(text@ =~= joined(all.take(0)));
    while i < texts.len()
        invariant
            i <= texts@.len(),
            all == texts_of(texts@),
            text@ == joined(all.take(i as int)),
        decreases texts@.len() - i,
    {
        if i > 0 {
            text.append(",");
        }
        text.append(texts[i].as_str());
        i = i + 1;
        proof {
            let upto = all.take(i as int);
            assert(upto.drop_last() =~= all.take(i - 1));
            assert(upto.last() == texts@[i - 1]@);
            if i == 1 {
                assert(all.take(0) =~= Seq::empty());
                assert(text@ =~= upto[0]);
            }
        }
    }
    assert(all.take(i as int) =~= all);
    text
}

/// The text of each sample, or `null` where it was not measured.
pub open spec fn sample_texts(samples: Seq<u64>, texts: Seq<Seq<char>>) -> Seq<Seq<char>> {
    Seq::new(
        samples.len(),
        |i: int|
            if is_measured(samples[i]) {
                texts[i]
            } else {
                "null"@
            },
    )
}

/// A list of samples.
pub open spec fn sample_list(samples: Seq<u64>, texts: Seq<String>) -> Seq<char> {
    "["@ + joined(sample_texts(samples, texts_of(texts))) + "]"@
}

/// Lists samples.
pub fn list_samples(samples: &Vec<u64>, texts: &Vec<String>) -> (list: String)
    requires
        samples@.len() == texts@.len(),
    ensures
        list@ == sample_list(samples@, texts@),
{
    let mut shown: Vec<String> = Vec::new();
    let ghost all = sample_texts(samples@, texts_of(texts@));
    let mut i: usize = 0;
    while i < samples.len()
        invariant
            i <= samples@.len() == texts@.len(),
            all == sample_texts(samples@, texts_of(texts@)),
            texts_of(shown@) == all.take(i as int),
        decreases samples@.len() - i,
    {
        let ghost before = shown@;
        if samples[i] % 0x8000_0000_0000_0000 < 0x7ff0_0000_0000_0000 {
            shown.push(texts[i].as_str().to_owned());
        } else {
            shown.push("null".to_owned());
        }
        i = i + 1;
        assert(texts_of(shown@) =~= texts_of(before).push(all[i - 1]));
        assert(all.take(i as int) =~= all.take(i - 1).push(all[i - 1]));
    }
    assert(all.take(i as int) =~= all);
    let mut list: String = "[".to_owned();
    list.append(join(&shown).as_str());
    list.append("]");
    list
}

/// A list of as many `null`s.
pub open spec fn null_list(count: nat) -> Seq<char> {
    "["@ + joined(Seq::new(count, |i: int| "null"@)) + "]"@
}

/// Lists as many `null`s.
pub fn list_nulls(count: usize) -> (list: String)
    ensures
        list@ == null_list(count as nat),
{
    let mut nulls: Vec<String> = Vec::new();
    let mut i: usize = 0;
    while i < count
        invariant
            i <= count,
            texts_of(nulls@) == Seq::new(i as nat, |i: int| "null"@),
        decreases count - i,
    {
        let ghost before = nulls@;
        nulls.push("null".to_owned());
        i = i + 1;
        assert(texts_of(nulls@) =~= texts_of(before).push("null"@));
        assert(texts_of(nulls@) =~= Seq::new(i as nat, |i: int| "null"@));
    }
    let mut list: String = "[".to_owned();
    list.append(join(&nulls).as_str());
    list.append("]");
    list
}

/// Has any of the samples been measured?
pub open spec fn any_measured(samples: Seq<u64>) -> bool {
    exists|i: int| 0 <= i < samples.len() && is_measured(#[trigger] samples[i])
}

fn measured(samples: &Vec<u64>) -> (any: bool)
    ensures
        any == any_measured(samples@),
{
    let mut i: usize = 0;
    while i < samples.len()
        invariant
            i <= samples@.len(),
            forall|j: int| 0 <= j < i ==> !is_measured(#[trigger] samples@[j]),
        decreases samples@.len() - i,
    {
        if samples[i] % 0x8000_0000_0000_0000 < 0x7ff0_0000_0000_0000 {
            assert(is_measured(samples@[i as int]));
            return true;
        }
        i = i + 1;
    }
    false
}

/// The place of a double-precision number in the total order of all of them:
/// negative numbers come first, the largest magnitude in front.
pub open spec fn order_of(bits: u64) -> int {
    if bits < 0x8000_0000_0000_0000 {
        bits + 0x8000_0000_0000_0000
    } else {
        0xffff_ffff_ffff_ffff - bits
    }
}

/// Does a number stand no later in the total order than another?
pub open spec fn comes_first() -> spec_fn(u64, u64) -> bool {
    |a: u64, b: u64| order_of(a) <= order_of(b)
}

/// The samples that were measured.
pub open spec fn measured_of(samples: Seq<u64>) -> Seq<u64>
    decreases samples.len(),
{
    if samples.len() == 0 {
        Seq::empty()
    } else if is_measured(samples.last()) {
        measured_of(samples.drop_last()).push(samples.last())
    } else {
        measured_of(samples.drop_last())
    }
}

/// The measured samples in order.
pub open spec fn ranked(samples: Seq<u64>) -> Seq<u64> {
    measured_of(samples).sort_by(comes_first())
}

/// The place of the value below which 95 of 100 lie: that share of the last
/// place, to the nearest whole number, and up where two are as near.
pub open spec fn rank_of_p95(count: nat) -> int {
    (19 * (count - 1) + 10) / 20
}

/// The 95th percentile of what was measured; zero where nothing was.
pub open spec fn p95(samples: Seq<u64>) -> u64 {
    if measured_of(samples).len() == 0 {
        0
    } else {
        ranked(samples)[rank_of_p95(measured_of(samples).len())]
    }
}

/// There are measured samples exactly where one of the samples was measured.
pub proof fn law_measured_samples(samples: Seq<u64>)
    ensures
        measured_of(samples).len() <= samples.len(),
        measured_of(samples).len() > 0 <==> any_measured(samples),
    decreases samples.len(),
{
    if samples.len() > 0 {
        let fewer = samples.drop_last();
        law_measured_samples(fewer);
        if is_measured(samples.last()) {
            assert(is_measured(samples[samples.len() - 1]));
        }
        if any_measured(fewer) {
            let i = choose|i: int| 0 <= i < fewer.len() && is_measured(#[trigger] fewer[i]);
            assert(is_measured(samples[i]));
        }
        if any_measured(samples) {
            let i = choose|i: int| 0 <= i < samples.len() && is_measured(#[trigger] samples[i]);
            if i < fewer.len() {
                assert(is_measured(fewer[i]));
            }
        }
    }
}

fn order(bits: u64) -> (place: u64)
    ensures
        place == order_of(bits),
{
    if bits < 0x8000_0000_0000_0000 {
        bits + 0x8000_0000_0000_0000
    } else {
        0xffff_ffff_ffff_ffff - bits
    }
}

/// Puts a number where it belongs among numbers in order.
fn insert_in_order(sorted: &mut Vec<u64>, bits: u64)
    requires
        sorted_by(old(sorted)@, comes_first()),
    ensures
        sorted_by(final(sorted)@, comes_first()),
        final(sorted)@.to_multiset() == old(sorted)@.to_multiset().insert(bits),
{
    let mut at: usize = 0;
    while at < sorted.len() && order(sorted[at]) <= order(bits)
        invariant
            at <= sorted@.len(),
            *sorted == *old(sorted),
            forall|i: int| 0 <= i < at ==> order_of(#[trigger] sorted@[i]) <= order_of(bits),
        decreases sorted@.len() - at,
    {
        at = at + 1;
    }
    let ghost before = sorted@;
    sorted.insert(at, bits);
    proof {
        to_multiset_insert(before, at as int, bits);
        let after = sorted@;
        assert forall|i: int, j: int| 0 <= i < j < after.len() implies #[trigger] comes_first()(
            after[i],
            after[j],
        ) by {
            let first = if i < at {
                i
            } else {
                i - 1
            };
            let second = if j <= at {
                j
            } else {
                j - 1
            };
            if i != at && j != at {
                assert(comes_first()(before[first], before[second]));
            } else if i == at && j > at + 1 {
                assert(comes_first()(before[at as int], before[j - 1]));
            }
        }
    }
}

/// The 95th percentile of the samples that were measured, by the total order of
/// the numbers; zero where nothing was measured.
pub fn p95_of(samples: &Vec<u64>) -> (bits: u64)
    ensures
        bits == p95(samples@),
{
    let mut sorted: Vec<u64> = Vec::new();
    let mut i: usize = 0;
    proof {
        assert(samples@.take(0) =~= Seq::empty());
        assert(sorted@ =~= measured_of(samples@.take(0)));
    }
    while i < samples.len()
        invariant
            i <= samples@.len(),
            sorted_by(sorted@, comes_first()),
            sorted@.to_multiset() == measured_of(samples@.take(i as int)).to_multiset(),
        decreases samples@.len() - i,
    {
        let ghost upto = samples@.take(i + 1);
        assert(upto.drop_last() =~= samples@.take(i as int));
        if samples[i] % 0x8000_0000_0000_0000 < 0x7ff0_0000_0000_0000 {
            insert_in_order(&mut sorted, samples[i]);
            proof {
                to_multiset_build(measured_of(samples@.take(i as int)), samples@[i as int]);
            }
        }
        i = i + 1;
    }
    assert(samples@.take(i as int) =~= samples@);
    proof {
        measured_of(samples@).lemma_sort_by_ensures(comes_first());
        lemma_sorted_unique(sorted@, ranked(samples@), comes_first());
        to_multiset_len(measured_of(samples@));
        to_multiset_len(sorted@);
    }
    if sorted.len() == 0 {
        return 0;
    }
    let last: usize = sorted.len() - 1;
    let rank: usize = last - (last / 20 + (last % 20 + 9) / 20);
    sorted[rank]
}

/// Where a number stands first among samples; their number where it does not.
pub open spec fn first_of(samples: Seq<u64>, bits: u64) -> int
    decreases samples.len(),
{
    if samples.len() == 0 {
        0
    } else {
        let earlier = first_of(samples.drop_last(), bits);
        if earlier < samples.len() - 1 || samples.last() == bits {
            earlier
        } else {
            samples.len() as int
        }
    }
}

/// A number that is among the samples stands where it stands first.
proof fn lemma_first_of(samples: Seq<u64>, bits: u64)
    ensures
        0 <= first_of(samples, bits) <= samples.len(),
        first_of(samples, bits) < samples.len() ==> samples[first_of(samples, bits)] == bits,
        samples.contains(bits) <==> first_of(samples, bits) < samples.len(),
    decreases samples.len(),
{
    if samples.len() > 0 {
        let fewer = samples.drop_last();
        lemma_first_of(fewer, bits);
        if samples.contains(bits) {
            let i = choose|i: int| 0 <= i < samples.len() && samples[i] == bits;
            if i < fewer.len() {
                assert(fewer[i] == bits);
            }
        }
        if first_of(samples, bits) < samples.len() {
            assert(samples[first_of(samples, bits)] == bits);
        }
    }
}

/// What was measured is among the samples.
proof fn lemma_measured_are_samples(samples: Seq<u64>, bits: u64)
    ensures
        measured_of(samples).contains(bits) ==> samples.contains(bits),
    decreases samples.len(),
{
    if samples.len() > 0 {
        let fewer = samples.drop_last();
        lemma_measured_are_samples(fewer, bits);
        if measured_of(samples).contains(bits) {
            let i = choose|i: int|
                0 <= i < measured_of(samples).len() && measured_of(samples)[i] == bits;
            if i < measured_of(fewer).len() {
                assert(measured_of(fewer)[i] == bits);
                let j = choose|j: int| 0 <= j < fewer.len() && fewer[j] == bits;
                assert(samples[j] == bits);
            } else {
                assert(samples[samples.len() - 1] == bits);
            }
        }
    }
}

/// Where anything was measured, the 95th percentile is one of the samples.
pub proof fn law_p95_is_a_sample(samples: Seq<u64>)
    requires
        any_measured(samples),
    ensures
        samples.contains(p95(samples)),
        0 <= first_of(samples, p95(samples)) < samples.len(),
        samples[first_of(samples, p95(samples))] == p95(samples),
{
    law_measured_samples(samples);
    let some = measured_of(samples);
    some.lemma_sort_by_ensures(comes_first());
    to_multiset_len(some);
    to_multiset_len(ranked(samples));
    let rank = rank_of_p95(some.len());
    assert(0 <= rank < ranked(samples).len());
    assert(ranked(samples).contains(ranked(samples)[rank]));
    lemma_measured_are_samples(samples, p95(samples));
    lemma_first_of(samples, p95(samples));
}

/// The text of the 95th percentile: that of the sample which it is, or zero where
/// nothing was measured.
pub open spec fn p95_text(samples: Seq<u64>, texts: Seq<Seq<char>>) -> Seq<char> {
    if any_measured(samples) {
        texts[first_of(samples, p95(samples))]
    } else {
        "0"@
    }
}

/// The text of a mean; zero where nothing was measured.
pub open spec fn mean_text(samples: Seq<u64>, text: Seq<char>) -> Seq<char> {
    if any_measured(samples) {
        text
    } else {
        "0"@
    }
}

fn show_p95<'a>(samples: &Vec<u64>, texts: &'a Vec<String>) -> (text: &'a str)
    requires
        samples@.len() == texts@.len(),
    ensures
        text@ == p95_text(samples@, texts_of(texts@)),
{
    if !measured(samples) {
        return "0";
    }
    let bits: u64 = p95_of(samples);
    let mut i: usize = 0;
    proof {
        law_p95_is_a_sample(samples@);
        assert(samples@.take(0) =~= Seq::empty());
    }
    while samples[i] != bits
        invariant
            i < samples.len() == texts@.len(),
            first_of(samples@.take(i as int), bits) == i,
            samples@.contains(bits),
        decreases samples@.len() - i,
    {
        proof {
            let upto = samples@.take(i + 1);
            assert(upto.drop_last() =~= samples@.take(i as int));
            assert(upto.last() == samples@[i as int]);
            if i + 1 == samples@.len() {
                assert(upto =~= samples@);
                lemma_first_of(samples@, bits);
            }
        }
        i = i + 1;
    }
    proof {
        let upto = samples@.take(i + 1);
        assert(upto.drop_last() =~= samples@.take(i as int));
        assert(upto.last() == samples@[i as int]);
        lemma_first_of_prefix(samples@, bits, i + 1);
    }
    texts[i].as_str()
}

/// Once the number was met, what comes behind makes no difference.
proof fn lemma_first_of_prefix(samples: Seq<u64>, bits: u64, count: int)
    requires
        0 <= count <= samples.len(),
        first_of(samples.take(count), bits) < count,
    ensures
        first_of(samples, bits) == first_of(samples.take(count), bits),
    decreases samples.len(),
{
    if count == samples.len() {
        assert(samples.take(count) =~= samples);
    } else {
        assert(samples.drop_last().take(count) =~= samples.take(count));
        lemma_first_of_prefix(samples.drop_last(), bits, count);
    }
}

fn show_mean<'a>(samples: &Vec<u64>, text: &'a str) -> (shown: &'a str)
    ensures
        shown@ == mean_text(samples@, text@),
{
    if measured(samples) {
        text
    } else {
        "0"
    }
}

/// A number that is only there under a condition.
pub open spec fn number_if(there: bool, text: Seq<char>) -> Seq<char> {
    if there {
        text
    } else {
        "null"@
    }
}

fn show_if(there: bool, text: &str) -> (shown: String)
    ensures
        shown@ == number_if(there, text@),
{
    if there {
        text.to_owned()
    } else {
        "null".to_owned()
    }
}

/// The name of a scenario.
pub open spec fn scenario_text(scenario: i32) -> Seq<char> {
    if scenario == SCENARIO_OPEN {
        "open"@
    } else if scenario == SCENARIO_INPUT {
        "input"@
    } else {
        "scroll"@
    }
}

/// Names a scenario.
pub fn scenario_name(scenario: i32) -> (name: &'static str)
    ensures
        name@ == scenario_text(scenario),
{
    match scenario {
        SCENARIO_OPEN => "open",
        SCENARIO_INPUT => "input",
        _ => "scroll",
    }
}

/// The name under which a run is reported: the one asked for, unless it is
/// empty.
pub open spec fn adapter_text(asked: Option<Seq<char>>) -> Seq<char> {
    match asked {
        Some(name) => if name.len() > 0 {
            name
        } else {
            ADAPTER_NAME@
        },
        None => ADAPTER_NAME@,
    }
}

/// Chooses the name under which a run is reported.
pub fn adapter_name(asked: Option<&str>) -> (name: &str)
    ensures
        name@ == adapter_text(
            match asked {
                Some(name) => Some(name@),
                None => None,
            },
        ),
{
    match asked {
        Some(name) => if name.unicode_len() > 0 {
            name
        } else {
            ADAPTER_NAME
        },
        None => ADAPTER_NAME,
    }
}

/// How long a trace goes on after the report, in milliseconds.
pub open spec fn tail_after(asked: Option<u64>) -> u64 {
    match asked {
        Some(asked) => if asked <= 120_000 {
            asked
        } else {
            120_000
        },
        None => 15_000,
    }
}

/// How long a trace goes on after the report, in milliseconds: as long as asked
/// for, fifteen seconds unless it was, and never more than two minutes.
pub fn trace_tail_ms(asked: Option<u64>) -> (tail: u64)
    ensures
        tail == tail_after(asked),
        tail == match asked {
            Some(asked) => if asked <= 120_000 {
                asked
            } else {
                120_000
            },
            None => 15_000,
        },
{
    let tail: u64 = match asked {
        Some(asked) => asked,
        None => 15_000,
    };
    if tail <= 120_000 {
        tail
    } else {
        120_000
    }
}

/// A member of an object whose value is given as it stands.
pub open spec fn member(name: Seq<char>, value: Seq<char>) -> Seq<char> {
    "\""@ + name + "\":"@ + value
}

/// A member of an object whose value is a text.
pub open spec fn text_member(name: Seq<char>, value: Seq<char>) -> Seq<char> {
    member(name, "\""@ + value + "\""@)
}

fn make_member(name: &str, value: &str) -> (made: String)
    ensures
        made@ == member(name@, value@),
{
    let mut made: String = "\"".to_owned();
    made.append(name);
    made.append("\":");
    made.append(value);
    made
}

fn make_text_member(name: &str, value: &str) -> (made: String)
    ensures
        made@ == text_member(name@, value@),
{
    let mut quoted: String = "\"".to_owned();
    quoted.append(value);
    quoted.append("\"");
    make_member(name, quoted.as_str())
}

/// The members that hold the samples.
pub open spec fn sample_members(bench: Bench, texts: NumberTexts) -> Seq<Seq<char>> {
    seq![
        member("frame_work_samples_ms"@, sample_list(bench.work, texts.work@)),
        member("dispatch_work_samples_ms"@, sample_list(bench.dispatch, texts.dispatch@)),
        member("frame_interval_samples_ms"@, sample_list(bench.intervals, texts.intervals@)),
        member(
            "input_to_visible_samples_ms"@,
            if bench.scenario == SCENARIO_INPUT {
                sample_list(bench.latencies, texts.latencies@)
            } else {
                "[]"@
            },
        ),
        member("offscreen_samples_ms"@, null_list(bench.work.len())),
        member("readback_samples_ms"@, null_list(bench.work.len())),
        member("offscreen_readback_samples_ms"@, null_list(bench.work.len())),
    ]
}

/// The members that hold what is computed from the samples.
pub open spec fn summary_members(bench: Bench, texts: NumberTexts) -> Seq<Seq<char>> {
    let work = any_measured(bench.work);
    let intervals = bench.intervals.len() > 0;
    let input = bench.scenario == SCENARIO_INPUT;
    seq![
        member("frame_work_ms"@, number_if(work, texts.work_mean@)),
        member(
            "frame_interval_ms"@,
            number_if(intervals, mean_text(bench.intervals, texts.interval_mean@)),
        ),
        member(
            "input_to_visible_ms"@,
            number_if(input, mean_text(bench.latencies, texts.input_mean@)),
        ),
        member("offscreen_ms"@, "null"@),
        member("readback_ms"@, "null"@),
        member("offscreen_readback_ms"@, "null"@),
        member(
            "frame_work_p95_ms"@,
            number_if(work, p95_text(bench.work, texts_of(texts.work@))),
        ),
        member(
            "frame_interval_p95_ms"@,
            number_if(intervals, p95_text(bench.intervals, texts_of(texts.intervals@))),
        ),
        member(
            "input_to_visible_p95_ms"@,
            number_if(input, p95_text(bench.latencies, texts_of(texts.latencies@))),
        ),
        member("dropped_display_frames"@, "null"@),
    ]
}

/// The members that say how much was run, and when.
pub open spec fn run_members(bench: Bench, texts: NumberTexts) -> Seq<Seq<char>> {
    seq![
        member("action_count"@, decimal(bench.target as nat)),
        member("frame_sample_count"@, decimal(bench.intervals.len())),
        member(
            "warmup_action_count"@,
            if bench.scenario == SCENARIO_OPEN {
                "0"@
            } else {
                "1"@
            },
        ),
        member("action_timestamps_epoch_ms"@, sample_list(bench.stamps, texts.stamps@)),
        member(
            "action_window_start_epoch_ms"@,
            if bench.stamps.len() > 0 {
                texts.stamps@[0]@
            } else {
                "null"@
            },
        ),
        member("action_window_end_epoch_ms"@, number_if(bench.end is Some, texts.window_end@)),
        member("first_interactive_ms"@, texts.first_interactive@),
        member("document_load_ms"@, texts.document_load@),
    ]
}

/// The members that say what was measured, before the samples.
pub open spec fn heading_members(scenario: i32, adapter: Seq<char>) -> Seq<Seq<char>> {
    seq![
        text_member("adapter"@, adapter),
        text_member("measurement_scope"@, "ui-frame"@),
        text_member("timing_source"@, "gpui-request-layout-prepaint-paint-and-on_next_frame"@),
        text_member("latency_source"@, "action-to-next-frame-callback"@),
        text_member("scenario"@, scenario_text(scenario)),
    ]
}

/// The members that say how it was set up. A strict trace takes its time stamps
/// from the compositor.
pub open spec fn setup_members(strict: bool) -> Seq<Seq<char>> {
    seq![
        text_member("window_mode"@, "native-window"@),
        text_member("work_scope"@, "gpui-request-layout-prepaint-paint"@),
        text_member(
            "display_timestamp_source"@,
            if strict {
                "macos-compositor-trace"@
            } else {
                "gpui-on_next_frame-callback"@
            },
        ),
        member("viewport"@, "{\"width\":1280,\"height\":800}"@),
        text_member("font"@, "system-ui 16px"@),
        member("line_height"@, "1.55"@),
        member("overscan"@, "3"@),
        member("virtual_row_height"@, "66"@),
    ]
}

/// The report of a run.
pub open spec fn report_text(
    bench: Bench,
    texts: NumberTexts,
    adapter: Seq<char>,
    strict: bool,
) -> Seq<char> {
    let members = heading_members(bench.scenario, adapter) + sample_members(bench, texts)
        + summary_members(bench, texts) + run_members(bench, texts) + setup_members(strict);
    "{"@ + joined(members) + "}"@
}

/// There is a text for each sample.
pub open spec fn texts_match(bench: Bench, texts: NumberTexts) -> bool {
    &&& texts.work@.len() == bench.work.len()
    &&& texts.dispatch@.len() == bench.dispatch.len()
    &&& texts.intervals@.len() == bench.intervals.len()
    &&& texts.latencies@.len() == bench.latencies.len()
    &&& texts.stamps@.len() == bench.stamps.len()
}

fn push_headings(members: &mut Vec<String>, scenario: i32, adapter: &str)
    ensures
        texts_of(final(members)@) == texts_of(old(members)@) + heading_members(scenario, adapter@),
{
    members.push(make_text_member("adapter", adapter));
    members.push(make_text_member("measurement_scope", "ui-frame"));
    members.push(
        make_text_member("timing_source", "gpui-request-layout-prepaint-paint-and-on_next_frame"),
    );
    members.push(make_text_member("latency_source", "action-to-next-frame-callback"));
    members.push(make_text_member("scenario", scenario_name(scenario)));
    assert(texts_of(members@) =~= texts_of(old(members)@) + heading_members(scenario, adapter@));
}

fn push_samples(members: &mut Vec<String>, bench: &WindowBenchmark, texts: &NumberTexts)
    requires
        texts_match(bench@, *texts),
    ensures
        texts_of(final(members)@) == texts_of(old(members)@) + sample_members(bench@, *texts),
{
    let nulls: String = list_nulls(bench.work_samples.len());
    let latencies: String = if bench.scenario == SCENARIO_INPUT {
        list_samples(&bench.latencies, &texts.latencies)
    } else {
        "[]".to_owned()
    };
    let work: String = list_samples(&bench.work_samples, &texts.work);
    let dispatch: String = list_samples(&bench.dispatch_work_samples, &texts.dispatch);
    let intervals: String = list_samples(&bench.samples, &texts.intervals);
    members.push(make_member("frame_work_samples_ms", work.as_str()));
    members.push(make_member("dispatch_work_samples_ms", dispatch.as_str()));
    members.push(make_member("frame_interval_samples_ms", intervals.as_str()));
    members.push(make_member("input_to_visible_samples_ms", latencies.as_str()));
    members.push(make_member("offscreen_samples_ms", nulls.as_str()));
    members.push(make_member("readback_samples_ms", nulls.as_str()));
    members.push(make_member("offscreen_readback_samples_ms", nulls.as_str()));
    assert(texts_of(members@) =~= texts_of(old(members)@) + sample_members(bench@, *texts));
}

fn push_summary(members: &mut Vec<String>, bench: &WindowBenchmark, texts: &NumberTexts)
    requires
        texts_match(bench@, *texts),
    ensures
        texts_of(final(members)@) == texts_of(old(members)@) + summary_members(bench@, *texts),
{
    let work = measured(&bench.work_samples);
    let intervals = bench.samples.len() > 0;
    let input = bench.scenario == SCENARIO_INPUT;
    let work_mean: String = show_if(work, texts.work_mean.as_str());
    let interval_mean: String = show_if(
        intervals,
        show_mean(&bench.samples, texts.interval_mean.as_str()),
    );
    let input_mean: String = show_if(input, show_mean(&bench.latencies, texts.input_mean.as_str()));
    let work_p95: String = show_if(work, show_p95(&bench.work_samples, &texts.work));
    let interval_p95: String = show_if(intervals, show_p95(&bench.samples, &texts.intervals));
    let input_p95: String = show_if(input, show_p95(&bench.latencies, &texts.latencies));
    members.push(make_member("frame_work_ms", work_mean.as_str()));
    members.push(make_member("frame_interval_ms", interval_mean.as_str()));
    members.push(make_member("input_to_visible_ms", input_mean.as_str()));
    members.push(make_member("offscreen_ms", "null"));
    members.push(make_member("readback_ms", "null"));
    members.push(make_member("offscreen_readback_ms", "null"));
    members.push(make_member("frame_work_p95_ms", work_p95.as_str()));
    members.push(make_member("frame_interval_p95_ms", interval_p95.as_str()));
    members.push(make_member("input_to_visible_p95_ms", input_p95.as_str()));
    members.push(make_member("dropped_display_frames", "null"));
    assert(texts_of(members@) =~= texts_of(old(members)@) + summary_members(bench@, *texts));
}

fn push_run(members: &mut Vec<String>, bench: &WindowBenchmark, texts: &NumberTexts)
    requires
        texts_match(bench@, *texts),
    ensures
        texts_of(final(members)@) == texts_of(old(members)@) + run_members(bench@, *texts),
{
    let actions: String = decimal_text(bench.target);
    let frames: String = decimal_text(bench.samples.len());
    let warmups: &str = if bench.scenario == SCENARIO_OPEN {
        "0"
    } else {
        "1"
    };
    let stamps: String = list_samples(&bench.action_timestamps_epoch_ms, &texts.stamps);
    let start: &str = if texts.stamps.len() > 0 {
        texts.stamps[0].as_str()
    } else {
        "null"
    };
    let end: String = show_if(
        bench.action_window_end_epoch_ms.is_some(),
        texts.window_end.as_str(),
    );
    members.push(make_member("action_count", actions.as_str()));
    members.push(make_member("frame_sample_count", frames.as_str()));
    members.push(make_member("warmup_action_count", warmups));
    members.push(make_member("action_timestamps_epoch_ms", stamps.as_str()));
    members.push(make_member("action_window_start_epoch_ms", start));
    members.push(make_member("action_window_end_epoch_ms", end.as_str()));
    members.push(make_member("first_interactive_ms", texts.first_interactive.as_str()));
    members.push(make_member("document_load_ms", texts.document_load.as_str()));
    assert(texts_of(members@) =~= texts_of(old(members)@) + run_members(bench@, *texts));
}

fn push_setup(members: &mut Vec<String>, strict: bool)
    ensures
        texts_of(final(members)@) == texts_of(old(members)@) + setup_members(strict),
{
    let source: &str = if strict {
        "macos-compositor-trace"
    } else {
        "gpui-on_next_frame-callback"
    };
    members.push(make_text_member("window_mode", "native-window"));
    members.push(make_text_member("work_scope", "gpui-request-layout-prepaint-paint"));
    members.push(make_text_member("display_timestamp_source", source));
    members.push(make_member("viewport", "{\"width\":1280,\"height\":800}"));
    members.push(make_text_member("font", "system-ui 16px"));
    members.push(make_member("line_height", "1.55"));
    members.push(make_member("overscan", "3"));
    members.push(make_member("virtual_row_height", "66"));
    assert(texts_of(members@) =~= texts_of(old(members)@) + setup_members(strict));
}

/// Writes the report of a run.
pub fn benchmark_report_json_v2(
    bench: &WindowBenchmark,
    texts: &NumberTexts,
    adapter: &str,
    strict: bool,
) -> (report: String)
    requires
        texts_match(bench@, *texts),
    ensures
        report@ == report_text(bench@, *texts, adapter@, strict),
{
    let mut members: Vec<String> = Vec::new();
    assert(texts_of(members@) =~= Seq::empty());
    push_headings(&mut members, bench.scenario, adapter);
    assert(texts_of(members@) =~= heading_members(bench.scenario, adapter@));
    push_samples(&mut members, bench, texts);
    push_summary(&mut members, bench, texts);
    push_run(&mut members, bench, texts);
    push_setup(&mut members, strict);
    let mut report: String = "{".to_owned();
    report.append(join(&members).as_str());
    report.append("}");
    report
}

/// Where nothing was measured, what would be computed from it is `null`, and the
/// report does not depend on what stands in for it.
pub proof fn law_unmeasured_work_is_null(bench: Bench, texts: NumberTexts)
    requires
        !any_measured(bench.work),
    ensures
        summary_members(bench, texts)[0] == member("frame_work_ms"@, "null"@),
        summary_members(bench, texts)[6] == member("frame_work_p95_ms"@, "null"@),
        forall|i: int|
            0 <= i < bench.work.len() ==> #[trigger] sample_texts(
                bench.work,
                texts_of(texts.work@),
            )[i] == "null"@,
{
}

/// Texts are joined with one comma between two of them, and none at the ends.
pub proof fn law_commas_stand_between(first: Seq<Seq<char>>, second: Seq<Seq<char>>, text: Seq<char>)
    ensures
        joined(Seq::empty()).len() == 0,
        joined(seq![text]) == text,
        first.len() > 0 && second.len() > 0 ==> joined(first + second) == joined(first) + ","@
            + joined(second),
    decreases second.len(),
{
    if first.len() > 0 && second.len() > 0 {
        let all = first + second;
        let fewer = second.drop_last();
        assert(all.drop_last() =~= first + fewer);
        assert(all.last() == second.last());
        if second.len() == 1 {
            assert(first + fewer =~= first);
            assert(joined(all) =~= joined(first) + ","@ + joined(second));
        } else {
            law_commas_stand_between(first, fewer, text);
            assert(joined(all) =~= joined(first) + ","@ + joined(second));
        }
    }
}

/// Every sample is shown in its place: by its own text where it was measured, and as
/// `null` where it was not.
pub proof fn law_samples_are_shown_in_place(samples: Seq<u64>, texts: Seq<Seq<char>>, i: int)
    requires
        0 <= i < samples.len(),
    ensures
        sample_texts(samples, texts).len() == samples.len(),
        is_measured(samples[i]) ==> sample_texts(samples, texts)[i] == texts[i],
        !is_measured(samples[i]) ==> sample_texts(samples, texts)[i] == "null"@,
        !is_measured(NO_SAMPLE),
{
}

/// The place of the 95th percentile is the whole number nearest to 95 of 100 parts of
/// the last place, and the greater one where two are as near.
pub proof fn law_rank_is_the_nearest(count: nat)
    requires
        count > 0,
    ensures
        0 <= rank_of_p95(count) < count,
        -50 < 100 * rank_of_p95(count) - 95 * (count - 1) <= 50,
{
}

/// What was measured is found among what counts, once for each time, and in order.
pub proof fn law_measured_samples_count(earlier: Seq<u64>, sample: u64, later: Seq<u64>)
    ensures
        measured_of(earlier + seq![sample] + later) == if is_measured(sample) {
            measured_of(earlier).push(sample) + measured_of(later)
        } else {
            measured_of(earlier) + measured_of(later)
        },
    decreases later.len(),
{
    let all = earlier + seq![sample] + later;
    if later.len() == 0 {
        assert(all.drop_last() =~= earlier);
        assert(all.last() == sample);
    } else {
        law_measured_samples_count(earlier, sample, later.drop_last());
        assert(all.drop_last() =~= earlier + seq![sample] + later.drop_last());
        assert(all.last() == later.last());
    }
    assert(measured_of(all) =~= if is_measured(sample) {
        measured_of(earlier).push(sample) + measured_of(later)
    } else {
        measured_of(earlier) + measured_of(later)
    });
}

/// Ranking keeps every measured sample and puts them in order: negative numbers before
/// the others, and each by its size.
pub proof fn law_ranking_sorts(samples: Seq<u64>, i: int, j: int)
    requires
        0 <= i <= j < measured_of(samples).len(),
    ensures
        ranked(samples).to_multiset() == measured_of(samples).to_multiset(),
        ranked(samples).len() == measured_of(samples).len(),
        ({
            let (a, b) = (ranked(samples)[i], ranked(samples)[j]);
            let half = 0x8000_0000_0000_0000u64;
            &&& a < half && b < half ==> a <= b
            &&& a >= half && b >= half ==> a >= b
            &&& !(a < half && b >= half)
        }),
{
    let some = measured_of(samples);
    some.lemma_sort_by_ensures(comes_first());
    to_multiset_len(some);
    to_multiset_len(ranked(samples));
    if i < j {
        assert(comes_first()(ranked(samples)[i], ranked(samples)[j]));
    }
}

/// The text of the 95th percentile is that of a sample with its value; zero stands for
/// it where nothing was measured.
pub proof fn law_p95_shows_a_sample(samples: Seq<u64>, texts: Seq<Seq<char>>)
    ensures
        !any_measured(samples) ==> p95_text(samples, texts) == "0"@,
        any_measured(samples) ==> exists|i: int|
            0 <= i < samples.len() && samples[i] == p95(samples) && p95_text(samples, texts)
                == #[trigger] texts[i],
{
    if any_measured(samples) {
        law_p95_is_a_sample(samples);
        let i = first_of(samples, p95(samples));
        assert(samples[i] == p95(samples) && p95_text(samples, texts) == texts[i]);
    }
}

/// A report holds the samples of each kind under their name, and latencies only where
/// letters are typed.
pub proof fn law_reports_hold_the_samples(bench: Bench, texts: NumberTexts)
    ensures
        ({
            let members = sample_members(bench, texts);
            &&& members.contains(
                member("frame_work_samples_ms"@, sample_list(bench.work, texts.work@)),
            )
            &&& members.contains(
                member("dispatch_work_samples_ms"@, sample_list(bench.dispatch, texts.dispatch@)),
            )
            &&& members.contains(
                member(
                    "frame_interval_samples_ms"@,
                    sample_list(bench.intervals, texts.intervals@),
                ),
            )
            &&& bench.scenario == SCENARIO_INPUT ==> members.contains(
                member(
                    "input_to_visible_samples_ms"@,
                    sample_list(bench.latencies, texts.latencies@),
                ),
            )
            &&& bench.scenario != SCENARIO_INPUT ==> members.contains(
                member("input_to_visible_samples_ms"@, "[]"@),
            )
        }),
{
    let members = sample_members(bench, texts);
    assert(members[0] == member("frame_work_samples_ms"@, sample_list(bench.work, texts.work@)));
    assert(members[1] == member(
        "dispatch_work_samples_ms"@,
        sample_list(bench.dispatch, texts.dispatch@),
    ));
    assert(members[2] == member(
        "frame_interval_samples_ms"@,
        sample_list(bench.intervals, texts.intervals@),
    ));
    assert(members.contains(members[3]));
}

/// Where something was measured, a report holds its mean and its 95th percentile; the
/// latencies are summed up only where letters are typed, and the intervals only where
/// there are any. Zero stands for what has samples of which none was measured.
pub proof fn law_reports_sum_up_the_samples(bench: Bench, texts: NumberTexts)
    ensures
        ({
            let members = summary_members(bench, texts);
            &&& any_measured(bench.work) ==> {
                &&& members.contains(member("frame_work_ms"@, texts.work_mean@))
                &&& members.contains(
                    member("frame_work_p95_ms"@, p95_text(bench.work, texts_of(texts.work@))),
                )
            }
            &&& any_measured(bench.intervals) ==> {
                &&& members.contains(member("frame_interval_ms"@, texts.interval_mean@))
                &&& members.contains(
                    member(
                        "frame_interval_p95_ms"@,
                        p95_text(bench.intervals, texts_of(texts.intervals@)),
                    ),
                )
            }
            &&& bench.intervals.len() > 0 && !any_measured(bench.intervals) ==> {
                &&& members.contains(member("frame_interval_ms"@, "0"@))
                &&& members.contains(member("frame_interval_p95_ms"@, "0"@))
            }
            &&& bench.scenario == SCENARIO_INPUT && !any_measured(bench.latencies) ==> {
                &&& members.contains(member("input_to_visible_ms"@, "0"@))
                &&& members.contains(member("input_to_visible_p95_ms"@, "0"@))
            }
            &&& members.contains(member("offscreen_ms"@, "null"@))
            &&& members.contains(member("readback_ms"@, "null"@))
            &&& members.contains(member("offscreen_readback_ms"@, "null"@))
            &&& members.contains(member("dropped_display_frames"@, "null"@))
            &&& bench.intervals.len() == 0 ==> {
                &&& members.contains(member("frame_interval_ms"@, "null"@))
                &&& members.contains(member("frame_interval_p95_ms"@, "null"@))
            }
            &&& bench.scenario == SCENARIO_INPUT && any_measured(bench.latencies) ==> {
                &&& members.contains(member("input_to_visible_ms"@, texts.input_mean@))
                &&& members.contains(
                    member(
                        "input_to_visible_p95_ms"@,
                        p95_text(bench.latencies, texts_of(texts.latencies@)),
                    ),
                )
            }
            &&& bench.scenario != SCENARIO_INPUT ==> {
                &&& members.contains(member("input_to_visible_ms"@, "null"@))
                &&& members.contains(member("input_to_visible_p95_ms"@, "null"@))
            }
        }),
{
    let members = summary_members(bench, texts);
    assert(members.contains(members[0]) && members.contains(members[1]));
    assert(members.contains(members[2]) && members.contains(members[6]));
    assert(members.contains(members[7]) && members.contains(members[8]));
    assert(members.contains(members[3]) && members.contains(members[4]));
    assert(members.contains(members[5]) && members.contains(members[9]));
}

/// A report holds how many actions were wanted and how many frames were measured, when
/// the actions began and ended, and what the start took.
pub proof fn law_reports_hold_the_run(bench: Bench, texts: NumberTexts)
    ensures
        ({
            let members = run_members(bench, texts);
            &&& members.contains(member("action_count"@, decimal(bench.target as nat)))
            &&& members.contains(member("frame_sample_count"@, decimal(bench.intervals.len())))
            &&& members.contains(
                member(
                    "warmup_action_count"@,
                    if bench.scenario == SCENARIO_OPEN {
                        "0"@
                    } else {
                        "1"@
                    },
                ),
            )
            &&& members.contains(
                member("action_timestamps_epoch_ms"@, sample_list(bench.stamps, texts.stamps@)),
            )
            &&& bench.stamps.len() > 0 ==> members.contains(
                member("action_window_start_epoch_ms"@, texts.stamps@[0]@),
            )
            &&& bench.stamps.len() == 0 ==> members.contains(
                member("action_window_start_epoch_ms"@, "null"@),
            )
            &&& bench.end is Some ==> members.contains(
                member("action_window_end_epoch_ms"@, texts.window_end@),
            )
            &&& bench.end is None ==> members.contains(
                member("action_window_end_epoch_ms"@, "null"@),
            )
            &&& members.contains(member("first_interactive_ms"@, texts.first_interactive@))
            &&& members.contains(member("document_load_ms"@, texts.document_load@))
        }),
{
    let members = run_members(bench, texts);
    assert(members.contains(members[0]) && members.contains(members[1]));
    assert(members.contains(members[2]) && members.contains(members[3]));
    assert(members.contains(members[4]) && members.contains(members[5]));
    assert(members.contains(members[6]) && members.contains(members[7]));
}

/// The name of a run is the one that was asked for, unless that is empty; scenarios
/// are told apart by their names.
pub proof fn law_runs_are_named(name: Seq<char>)
    ensures
        name.len() > 0 ==> adapter_text(Some(name)) == name,
        adapter_text(Some(Seq::empty())) == adapter_text(None),
        adapter_text(None) == "gpui"@,
        scenario_text(SCENARIO_OPEN) != scenario_text(SCENARIO_INPUT),
        scenario_text(SCENARIO_OPEN) != scenario_text(SCENARIO_SCROLL),
        scenario_text(SCENARIO_INPUT) != scenario_text(SCENARIO_SCROLL),
{
    reveal_strlit("open");
    reveal_strlit("input");
    reveal_strlit("scroll");
    assert("open"@.len() == 4);
    assert("input"@.len() == 5);
    assert("scroll"@.len() == 6);
}

/// The members of an object stand in braces with commas between them; each is its name in
/// quotes, a colon and its value, and a text stands in quotes itself.
pub proof fn law_reports_are_objects(
    bench: Bench,
    texts: NumberTexts,
    adapter: Seq<char>,
    strict: bool,
    name: Seq<char>,
    value: Seq<char>,
)
    ensures
        ({
            let report = report_text(bench, texts, adapter, strict);
            &&& report[0] == '{'
            &&& report.last() == '}'
            &&& report.subrange(1, report.len() - 1) == joined(
                heading_members(bench.scenario, adapter),
            ) + ","@ + joined(sample_members(bench, texts)) + ","@ + joined(
                summary_members(bench, texts),
            ) + ","@ + joined(run_members(bench, texts)) + ","@ + joined(setup_members(strict))
        }),
        member(name, value)[0] == '"',
        member(name, value).subrange(1, 1 + name.len() as int) == name,
        member(name, value).skip(1 + name.len() as int) == seq!['"', ':'] + value,
        text_member(name, value) == member(name, seq!['"'] + value + seq!['"']),
{
    reveal_strlit("{");
    reveal_strlit("}");
    reveal_strlit("\"");
    reveal_strlit("\":");
    assert("{"@ =~= seq!['{']);
    assert("}"@ =~= seq!['}']);
    assert("\""@ =~= seq!['"']);
    assert("\":"@ =~= seq!['"', ':']);
    let heading = heading_members(bench.scenario, adapter);
    let samples = sample_members(bench, texts);
    let summary = summary_members(bench, texts);
    let run = run_members(bench, texts);
    let setup = setup_members(strict);
    law_commas_stand_between(heading, samples, name);
    law_commas_stand_between(heading + samples, summary, name);
    law_commas_stand_between(heading + samples + summary, run, name);
    law_commas_stand_between(heading + samples + summary + run, setup, name);
    let report = report_text(bench, texts, adapter, strict);
    let inner = joined(heading + samples + summary + run + setup);
    assert(report =~= seq!['{'] + inner + seq!['}']);
    assert(report.subrange(1, report.len() - 1) =~= inner);
    assert(member(name, value).subrange(1, 1 + name.len() as int) =~= name);
    assert(member(name, value).skip(1 + name.len() as int) =~= seq!['"', ':'] + value);
}

/// A report says under which name and in which scenario it was made, and where its time
/// stamps come from: from the compositor only in a strict trace.
pub proof fn law_reports_tell_the_setup(scenario: i32, adapter: Seq<char>, strict: bool)
    ensures
        heading_members(scenario, adapter).contains(text_member("adapter"@, adapter)),
        heading_members(scenario, adapter).contains(
            text_member("scenario"@, scenario_text(scenario)),
        ),
        heading_members(scenario, adapter).contains(
            text_member("measurement_scope"@, "ui-frame"@),
        ),
        heading_members(scenario, adapter).contains(
            text_member("latency_source"@, "action-to-next-frame-callback"@),
        ),
        heading_members(scenario, adapter).contains(
            text_member("timing_source"@, "gpui-request-layout-prepaint-paint-and-on_next_frame"@),
        ),
        setup_members(strict).contains(text_member("window_mode"@, "native-window"@)),
        setup_members(strict).contains(
            text_member("work_scope"@, "gpui-request-layout-prepaint-paint"@),
        ),
        strict ==> setup_members(strict).contains(
            text_member("display_timestamp_source"@, "macos-compositor-trace"@),
        ),
        !strict ==> setup_members(strict).contains(
            text_member("display_timestamp_source"@, "gpui-on_next_frame-callback"@),
        ),
        setup_members(strict).contains(text_member("font"@, "system-ui 16px"@)),
        setup_members(strict).contains(member("line_height"@, "1.55"@)),
        setup_members(strict).contains(member("overscan"@, "3"@)),
        setup_members(strict).contains(member("virtual_row_height"@, "66"@)),
        setup_members(strict).contains(
            member("viewport"@, "{\"width\":1280,\"height\":800}"@),
        ),
{
    let heading = heading_members(scenario, adapter);
    let setup = setup_members(strict);
    assert(heading.contains(heading[0]) && heading.contains(heading[4]));
    assert(heading.contains(heading[1]) && heading.contains(heading[2]));
    assert(heading.contains(heading[3]));
    assert(setup.contains(setup[0]) && setup.contains(setup[1]));
    assert(setup.contains(setup[2]) && setup.contains(setup[3]));
    assert(setup.contains(setup[4]) && setup.contains(setup[5]));
    assert(setup.contains(setup[6]) && setup.contains(setup[7]));
}

/// What is not measured at all has one `null` for each sample of work.
pub proof fn law_reports_have_nulls_for_the_rest(bench: Bench, texts: NumberTexts, i: int)
    requires
        4 <= i < 7,
    ensures
        ({
            let nulls = sample_members(bench, texts)[i];
            let list = "["@ + joined(
                sample_texts(
                    Seq::new(bench.work.len(), |i: int| NO_SAMPLE),
                    Seq::new(bench.work.len(), |i: int| Seq::empty()),
                ),
            ) + "]"@;
            &&& i == 4 ==> nulls == member("offscreen_samples_ms"@, list)
            &&& i == 5 ==> nulls == member("readback_samples_ms"@, list)
            &&& i == 6 ==> nulls == member("offscreen_readback_samples_ms"@, list)
        }),
{
    let count = bench.work.len();
    assert(Seq::new(count, |i: int| "null"@) =~= sample_texts(
        Seq::new(count, |i: int| NO_SAMPLE),
        Seq::new(count, |i: int| Seq::empty()),
    ));
}

/// A trace goes on for as long as was asked for, up to two minutes, and for a quarter of
/// a minute where nothing was.
pub proof fn law_trace_tails_are_bounded(asked: u64)
    ensures
        tail_after(None) == 15 * 1000,
        asked <= 2 * 60 * 1000 ==> tail_after(Some(asked)) == asked,
        asked > 2 * 60 * 1000 ==> tail_after(Some(asked)) == 2 * 60 * 1000,
{
}

} // verus!
