//! Windows, their benchmark and the transport.
use gpui_sys::abi::{EVENT_TEXT, GPUI_STATUS_INTERNAL_PANIC, GPUI_STATUS_INVALID_HANDLE, GPUI_STATUS_OK};
use gpui_sys::bench::{
    benchmark_drive_action, gpui_run_window_benchmark, letter, rebuilds_after, type_into, type_without_input,
    BenchAction, FrameStep, FrameTimes, WindowBenchmark, NO_SAMPLE,
};
use gpui_sys::edit::TextInputModel;
use gpui_sys::events::{Envelope, EventQueue};
use gpui_sys::http::{request_body, request_method, response_status, HttpError, ReqwestHttpClient};
use gpui_sys::input::InputMirror;
use gpui_sys::report::{
    adapter_name, benchmark_report_json_v2, p95_of, scenario_name, trace_tail_ms, NumberTexts,
};
use gpui_sys::text::decimal_text;
use gpui_sys::window::{gpui_run_window, label_panic, run_window_with_fallback, Attempt, WindowStep};

fn times(n: u64) -> FrameTimes {
    FrameTimes { since_start: n, since_previous: n + 1, since_action: n + 2, epoch: n + 3 }
}

#[test]
fn benchmark_refuses_bad_arguments() {
    for (view, scenario, target) in [(-1, 0, 1), (0, -1, 1), (0, 3, 1), (0, 0, 0), (0, 0, -1)] {
        let status = gpui_run_window_benchmark(view, scenario, target, 0, 0, |_| panic!("not started"));
        assert_eq!(status, GPUI_STATUS_INVALID_HANDLE);
    }
    let status = gpui_run_window_benchmark(0, 2, 5, 7, 9, |bench| {
        assert_eq!((bench.scenario, bench.target, bench.stride), (2, 5, 7));
        assert_eq!(bench.document_load_ms, 9);
        assert!(bench.warming_up);
        42
    });
    assert_eq!(status, 42);
}

#[test]
fn open_is_reported_with_the_second_frame() {
    let mut bench = WindowBenchmark::new(0, 3, 0, 0);
    assert_eq!(bench.benchmark_frame_tick(times(10)), FrameStep::Act { index: 0, announced: false });
    assert_eq!(bench.first_interactive_ms, 10);
    assert_eq!(bench.benchmark_frame_tick(times(20)), FrameStep::Report);
    assert_eq!(bench.work_samples, [NO_SAMPLE]);
    assert!(bench.samples.is_empty());
}

#[test]
fn measured_runs_end_after_their_target() {
    let mut bench = WindowBenchmark::new(1, 2, 0, 0);
    assert_eq!(bench.benchmark_frame_tick(times(0)), FrameStep::Act { index: 0, announced: false });
    bench.note_work(5);
    bench.note_paint(6, 7);
    assert_eq!(bench.first_interactive_ms, 7);
    assert_eq!(bench.benchmark_frame_tick(times(10)), FrameStep::Settle);
    assert_eq!(bench.benchmark_frame_tick(times(20)), FrameStep::Act { index: 1, announced: true });
    bench.note_action(100);
    bench.note_work(8);
    bench.note_paint(9, 11);
    assert_eq!(bench.first_interactive_ms, 7);
    bench.paint_work_ms = None;
    assert_eq!(bench.benchmark_frame_tick(times(30)), FrameStep::Report);
    assert_eq!(bench.work_samples, [6, 8]);
    assert_eq!(bench.dispatch_work_samples, [5, 8]);
    assert_eq!(bench.samples, [21, 31]);
    assert_eq!(bench.latencies, [22, 32]);
    assert_eq!(bench.action_timestamps_epoch_ms, [100]);
    assert_eq!(bench.action_window_end_epoch_ms, Some(33));
}

#[test]
fn actions_type_letters_or_turn_the_wheel() {
    assert_eq!(benchmark_drive_action(1, 3), BenchAction::Type);
    assert_eq!(benchmark_drive_action(2, 4), BenchAction::Wheel { upwards: true });
    assert_eq!(benchmark_drive_action(2, 5), BenchAction::Wheel { upwards: false });
    assert_eq!(benchmark_drive_action(0, 0), BenchAction::Rest);
    assert!(rebuilds_after(1) && !rebuilds_after(2) && !rebuilds_after(0));
    assert_eq!(letter(0), "a");
    assert_eq!(letter(25), "z");
    assert_eq!(letter(27), "b");
}

#[test]
fn letters_reach_inputs_or_the_application() {
    let mut inputs = InputMirror::new();
    let mut model = TextInputModel::new(1, 2, String::new());
    type_into(&mut model, &mut inputs, 0);
    type_into(&mut model, &mut inputs, 1);
    assert_eq!(model.content, "ab");
    assert_eq!(model.selected_range, 2..2);
    assert_eq!(inputs.mirror_get(1, 2).expect("mirrored").text, "ab");
    let mut queue = EventQueue::new();
    let changed = type_without_input(&mut queue, 3, 2, |queue, event| {
        assert_eq!(event, Envelope::new(EVENT_TEXT, 3, 0, 1));
        assert_eq!(queue.payload(0), Some(&b"c".to_vec()));
        1
    });
    assert_eq!(changed, 1);
    assert!(queue.payload(0).is_none());
}

fn texts(values: &[u64]) -> Vec<String> {
    values.iter().map(|bits| f64::from_bits(*bits).to_string()).collect()
}

#[test]
fn report_is_one_object() {
    let mut bench = WindowBenchmark::new(1, 12, 0, 0);
    bench.work_samples = vec![1.5f64.to_bits(), f64::NAN.to_bits()];
    bench.dispatch_work_samples = vec![2.0f64.to_bits()];
    bench.samples = vec![16.0f64.to_bits(), 17.25f64.to_bits()];
    bench.latencies = vec![3.0f64.to_bits()];
    bench.action_timestamps_epoch_ms = vec![100.0f64.to_bits()];
    let numbers = NumberTexts {
        work: texts(&bench.work_samples),
        dispatch: texts(&bench.dispatch_work_samples),
        intervals: texts(&bench.samples),
        latencies: texts(&bench.latencies),
        stamps: texts(&bench.action_timestamps_epoch_ms),
        work_mean: "1.5".to_string(),
        interval_mean: "16.625".to_string(),
        input_mean: "3".to_string(),
        window_end: "0".to_string(),
        first_interactive: "4".to_string(),
        document_load: "5".to_string(),
    };
    let report = benchmark_report_json_v2(&bench, &numbers, "gpui", false);
    assert_eq!(
        report,
        "{\"adapter\":\"gpui\",\"measurement_scope\":\"ui-frame\",\
         \"timing_source\":\"gpui-request-layout-prepaint-paint-and-on_next_frame\",\
         \"latency_source\":\"action-to-next-frame-callback\",\"scenario\":\"input\",\
         \"frame_work_samples_ms\":[1.5,null],\"dispatch_work_samples_ms\":[2],\
         \"frame_interval_samples_ms\":[16,17.25],\"input_to_visible_samples_ms\":[3],\
         \"offscreen_samples_ms\":[null,null],\"readback_samples_ms\":[null,null],\
         \"offscreen_readback_samples_ms\":[null,null],\"frame_work_ms\":1.5,\
         \"frame_interval_ms\":16.625,\"input_to_visible_ms\":3,\"offscreen_ms\":null,\
         \"readback_ms\":null,\"offscreen_readback_ms\":null,\"frame_work_p95_ms\":1.5,\
         \"frame_interval_p95_ms\":17.25,\"input_to_visible_p95_ms\":3,\
         \"dropped_display_frames\":null,\"action_count\":12,\"frame_sample_count\":2,\
         \"warmup_action_count\":1,\"action_timestamps_epoch_ms\":[100],\
         \"action_window_start_epoch_ms\":100,\"action_window_end_epoch_ms\":null,\
         \"first_interactive_ms\":4,\"document_load_ms\":5,\"window_mode\":\"native-window\",\
         \"work_scope\":\"gpui-request-layout-prepaint-paint\",\
         \"display_timestamp_source\":\"gpui-on_next_frame-callback\",\
         \"viewport\":{\"width\":1280,\"height\":800},\"font\":\"system-ui 16px\",\
         \"line_height\":1.55,\"overscan\":3,\"virtual_row_height\":66}"
    );
}

#[test]
fn report_of_an_unmeasured_start_has_nulls() {
    let mut bench = WindowBenchmark::new(0, 1, 0, 0);
    bench.work_samples = vec![NO_SAMPLE];
    let numbers = NumberTexts {
        work: vec!["NaN".to_string()],
        dispatch: vec![],
        intervals: vec![],
        latencies: vec![],
        stamps: vec![],
        work_mean: "0".to_string(),
        interval_mean: "0".to_string(),
        input_mean: "0".to_string(),
        window_end: "0".to_string(),
        first_interactive: "1".to_string(),
        document_load: "2".to_string(),
    };
    let report = benchmark_report_json_v2(&bench, &numbers, "x", true);
    assert!(report.contains("\"scenario\":\"open\""));
    assert!(report.contains("\"frame_work_samples_ms\":[null],"));
    assert!(report.contains("\"frame_work_ms\":null,"));
    assert!(report.contains("\"frame_interval_ms\":null,"));
    assert!(report.contains("\"frame_work_p95_ms\":null,"));
    assert!(report.contains("\"input_to_visible_samples_ms\":[],"));
    assert!(report.contains("\"warmup_action_count\":0,"));
    assert!(report.contains("\"action_window_start_epoch_ms\":null,"));
    assert!(report.contains("\"display_timestamp_source\":\"macos-compositor-trace\""));
}

#[test]
fn report_settings_have_defaults() {
    assert_eq!(adapter_name(None), "gpui");
    assert_eq!(adapter_name(Some("")), "gpui");
    assert_eq!(adapter_name(Some("gpui2")), "gpui2");
    assert_eq!(trace_tail_ms(None), 15_000);
    assert_eq!(trace_tail_ms(Some(7)), 7);
    assert_eq!(trace_tail_ms(Some(500_000)), 120_000);
    assert_eq!(scenario_name(2), "scroll");
    assert_eq!(decimal_text(0), "0");
    assert_eq!(decimal_text(10_203), "10203");
    assert_eq!(decimal_text(usize::MAX), usize::MAX.to_string());
}

#[test]
fn window_is_retried_once_without_wayland() {
    assert_eq!(gpui_run_window(7, |view| view as i32), 7);
    assert_eq!(run_window_with_fallback(Attempt::First, false, true), WindowStep::Finish(GPUI_STATUS_OK));
    assert_eq!(run_window_with_fallback(Attempt::First, true, true), WindowStep::RetryWithoutWayland);
    assert_eq!(
        run_window_with_fallback(Attempt::First, true, false),
        WindowStep::Finish(GPUI_STATUS_INTERNAL_PANIC)
    );
    assert_eq!(run_window_with_fallback(Attempt::Retry, false, true), WindowStep::Finish(GPUI_STATUS_OK));
    assert_eq!(
        run_window_with_fallback(Attempt::Retry, true, true),
        WindowStep::Finish(GPUI_STATUS_INTERNAL_PANIC)
    );
    assert_eq!(label_panic(Attempt::First, true), "gpui_run_window (Wayland attempt)");
    assert_eq!(label_panic(Attempt::First, false), "gpui_run_window");
    assert_eq!(label_panic(Attempt::Retry, true), "gpui_run_window (X11 retry)");
}

#[test]
fn methods_are_tokens() {
    assert_eq!(request_method("GET").as_deref(), Ok("GET"));
    assert_eq!(request_method("x-custom!").as_deref(), Ok("x-custom!"));
    for bad in ["", "GE T", "GET\n", "é", "a(b"] {
        assert_eq!(request_method(bad), Err(HttpError::InvalidMethod));
    }
    // Every byte of the token set, and none of its neighbours.
    for byte in 0u8..128 {
        let name = (byte as char).to_string();
        let token = byte.is_ascii_alphanumeric() || b"!#$%&'*+-.^_`|~".contains(&byte);
        assert_eq!(request_method(&name).is_ok(), token, "byte {byte}");
    }
}

#[test]
fn statuses_have_three_digits() {
    assert_eq!(response_status(99), Err(HttpError::InvalidStatus));
    assert_eq!(response_status(100), Ok(100));
    assert_eq!(response_status(404), Ok(404));
    assert_eq!(response_status(999), Ok(999));
    assert_eq!(response_status(1000), Err(HttpError::InvalidStatus));
}

#[test]
fn empty_bodies_are_not_sent() {
    assert_eq!(request_body(vec![]), None);
    assert_eq!(request_body(vec![0]), Some(vec![0]));
}

#[test]
fn client_answers_for_the_transport() {
    let client = ReqwestHttpClient;
    assert_eq!(client.client_name(), "ReqwestHttpClient");
    assert_eq!(client.user_agent(), None);
    assert_eq!(client.proxy(), None);
    let none: Option<Option<Result<u8, ()>>> = None;
    assert_eq!(client.send(none), Err(HttpError::Unavailable));
    let dropped: Option<Option<Result<u8, ()>>> = Some(None);
    assert_eq!(client.send(dropped), Err(HttpError::Dropped));
    assert_eq!(client.send(Some(Some(Ok::<u8, ()>(3)))), Ok(Ok(3)));
    assert_eq!(HttpError::Unavailable.message(), "gpui-sys: HTTP transport unavailable");
    assert_eq!(HttpError::Dropped.message(), "gpui-sys: HTTP worker dropped the request");
}

fn percentile(samples: &[f64]) -> f64 {
    f64::from_bits(p95_of(&samples.iter().map(|value| value.to_bits()).collect()))
}

#[test]
fn percentile_is_taken_of_what_was_measured() {
    assert_eq!(percentile(&[]), 0.0);
    assert_eq!(percentile(&[f64::NAN, f64::INFINITY]), 0.0);
    assert_eq!(percentile(&[2.5]), 2.5);
    assert_eq!(percentile(&[3.0, f64::NAN, 1.0, 2.0, f64::NEG_INFINITY]), 3.0);
    assert_eq!(percentile(&[-1.0, -2.0]), -1.0);
    assert_eq!(percentile(&[0.0, -0.0]).to_bits(), 0.0f64.to_bits());
}

#[test]
fn percentile_rank_is_rounded() {
    for count in 1..=200usize {
        let samples: Vec<f64> = (0..count).rev().map(|value| value as f64).collect();
        let rank = ((count - 1) as f64 * 0.95).round();
        assert_eq!(percentile(&samples), rank, "of {count}");
    }
    let eleven: Vec<f64> = (0..11).map(f64::from).collect();
    assert_eq!(percentile(&eleven), 10.0);
    let hundred: Vec<f64> = (0..100).map(f64::from).collect();
    assert_eq!(percentile(&hundred), 94.0);
}

#[test]
fn report_shows_the_percentile_as_its_sample() {
    let mut bench = WindowBenchmark::new(1, 3, 0, 0);
    bench.work_samples = vec![3.0f64.to_bits(), NO_SAMPLE, 7.0f64.to_bits(), 5.0f64.to_bits()];
    bench.samples = vec![NO_SAMPLE];
    bench.latencies = vec![2.0f64.to_bits(), 1.0f64.to_bits()];
    let named = |name: &str, count: usize| -> Vec<String> { (0..count).map(|i| format!("{name}{i}")).collect() };
    let numbers = NumberTexts {
        work: named("w", 4),
        dispatch: vec![],
        intervals: named("i", 1),
        latencies: named("l", 2),
        stamps: vec![],
        work_mean: "wm".to_string(),
        interval_mean: "im".to_string(),
        input_mean: "lm".to_string(),
        window_end: "0".to_string(),
        first_interactive: "1".to_string(),
        document_load: "2".to_string(),
    };
    let report = benchmark_report_json_v2(&bench, &numbers, "x", false);
    assert!(report.contains("\"frame_work_ms\":wm,\"frame_interval_ms\":0,\"input_to_visible_ms\":lm,"));
    assert!(report.contains("\"frame_work_p95_ms\":w2,\"frame_interval_p95_ms\":0,\"input_to_visible_p95_ms\":l0,"));
}
