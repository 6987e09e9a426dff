//! Text inputs: editing, what is mirrored, and composition.
use gpui_sys::abi::{
    EVENT_ASYNC, EVENT_INPUT_CHANGED, EVENT_INPUT_SUBMIT, EVENT_TEXT, GPUI_STATUS_BUSY_COMPOSING,
    GPUI_STATUS_INVALID_HANDLE, GPUI_STATUS_OK,
};
use gpui_sys::edit::{input_apply_replace, input_apply_replace_and_mark, EditOutcome, TextInputModel};
use gpui_sys::events::Envelope;
use gpui_sys::ime::{ime_preedit_payload, mouse_payload, ImeBridge, ImeMarks, IME_PREEDIT_TAG, MOUSE_TAG};
use gpui_sys::input::{
    gpui_input_copy_text, gpui_input_set_text, gpui_input_text_len, redraw_after, redraw_after_any, InputMirror,
};
use gpui_sys::probe::{gpui_probe_rect, ProbeTable};
use gpui_sys::retained::InputModels;
use gpui_sys::utf16::{offset_from_utf16, offset_to_utf16, range_from_utf16, range_to_utf16, utf16_count};

#[test]
fn utf16_offsets_round_trip_across_surrogates() {
    let s = "aあ🎉b";
    for (u8_off, u16_off) in [(0, 0), (1, 1), (4, 2), (8, 4), (9, 5)] {
        assert_eq!(offset_to_utf16(s, u8_off), u16_off, "to_utf16({u8_off})");
        assert_eq!(offset_from_utf16(s, u16_off), u8_off, "from_utf16({u16_off})");
    }
    assert_eq!(offset_to_utf16(s, 100), 5);
    assert_eq!(offset_from_utf16(s, 100), 9);
}

#[test]
fn utf16_ranges_follow_their_ends() {
    let s = "aあ🎉b";
    assert_eq!(range_from_utf16(s, &(1..4)), 1..8);
    assert_eq!(range_to_utf16(s, &(1..8)), 1..4);
    assert_eq!(utf16_count(s), 5);
}

#[test]
fn replace_commits_text_and_clears_the_mark() {
    let mut content = String::from("こんにちは");
    let mut sel = 15..15;
    let mut marked = Some(6..15);
    input_apply_replace(&mut content, &mut sel, &mut marked, 6..15, "日は");
    assert_eq!(content, "こん日は");
    assert_eq!(sel, 12..12);
    assert_eq!(marked, None);
}

#[test]
fn replace_and_mark_tracks_the_preedit_span() {
    let mut content = String::new();
    let mut sel = 0..0;
    let mut marked = None;
    input_apply_replace_and_mark(&mut content, &mut sel, &mut marked, 0..0, "に", None);
    assert_eq!(content, "に");
    assert_eq!(marked, Some(0..3));
    assert_eq!(sel, 3..3);
    input_apply_replace_and_mark(&mut content, &mut sel, &mut marked, 0..3, "にほ", None);
    assert_eq!(content, "にほ");
    assert_eq!(marked, Some(0..6));
    input_apply_replace_and_mark(&mut content, &mut sel, &mut marked, 0..6, "日本", Some(0..6));
    assert_eq!(content, "日本");
    assert_eq!(marked, Some(0..6));
    assert_eq!(sel, 0..6);
    input_apply_replace(&mut content, &mut sel, &mut marked, 0..6, "日本");
    assert_eq!(content, "日本");
    assert_eq!(marked, None);
}

#[test]
fn empty_preedit_unmarks() {
    let mut content = String::from("xにほ");
    let mut sel = 7..7;
    let mut marked = Some(1..7);
    input_apply_replace_and_mark(&mut content, &mut sel, &mut marked, 1..7, "", None);
    assert_eq!(content, "x");
    assert_eq!(marked, None);
    assert_eq!(sel, 1..1);
}

#[test]
fn pull_abi_reads_the_mirror() {
    let mut inputs = InputMirror::new();
    assert_eq!(gpui_input_text_len(&inputs, 0, 7), GPUI_STATUS_INVALID_HANDLE);
    inputs.mirror_update(0, 7, "héllo", false);
    assert_eq!(gpui_input_text_len(&inputs, 0, 7), 6);
    let mut buf = [0u8; 16];
    let n = gpui_input_copy_text(&inputs, 0, 7, Some(&mut buf), 16);
    assert_eq!(n, 6);
    assert_eq!(&buf[..6], "héllo".as_bytes());
    let n = gpui_input_copy_text(&inputs, 0, 7, Some(&mut buf), 2);
    assert_eq!(n, 2);
    assert_eq!(gpui_input_copy_text(&inputs, 0, 7, None, 4), GPUI_STATUS_INVALID_HANDLE);
    assert_eq!(gpui_input_copy_text(&inputs, 0, 7, Some(&mut buf), -1), GPUI_STATUS_INVALID_HANDLE);
}

#[test]
fn set_text_queues_and_is_rejected_mid_composition() {
    let mut inputs = InputMirror::new();
    assert_eq!(gpui_input_set_text(&mut inputs, 0, 9, Some(b"x"), 1), GPUI_STATUS_INVALID_HANDLE);
    inputs.mirror_update(0, 9, "old", false);
    assert_eq!(gpui_input_set_text(&mut inputs, 0, 9, Some(b"new"), 3), GPUI_STATUS_OK);
    assert_eq!(inputs.mirror_get(0, 9).unwrap().text, "new");
    assert_eq!(inputs.queued_len(), 1);
    assert_eq!(inputs.take_input_dirty(), 1);
    assert_eq!(inputs.take_input_dirty(), 0);
    inputs.mirror_update(0, 9, "にほ", true);
    assert_eq!(gpui_input_set_text(&mut inputs, 0, 9, Some(b"z"), 1), GPUI_STATUS_BUSY_COMPOSING);
    assert_eq!(inputs.mirror_get(0, 9).unwrap().text, "にほ");
    inputs.mirror_update(0, 9, "done", false);
    assert_eq!(gpui_input_set_text(&mut inputs, 0, 9, None, 0), GPUI_STATUS_OK);
    assert_eq!(inputs.mirror_get(0, 9).unwrap().text, "");
}

#[test]
fn queued_texts_are_taken_by_their_input_in_order() {
    let mut inputs = InputMirror::new();
    inputs.mirror_update(0, 1, "", false);
    inputs.mirror_update(0, 2, "", false);
    for (id, text) in [(1, b"a"), (2, b"b"), (1, b"c")] {
        assert_eq!(gpui_input_set_text(&mut inputs, 0, id, Some(text), 1), GPUI_STATUS_OK);
    }
    assert_eq!(inputs.take_queued(0, 1), ["a", "c"]);
    assert_eq!(inputs.queued_len(), 1);
    let mut model = TextInputModel::new(0, 2, "hint".to_string());
    model.take_writes(&mut inputs);
    assert_eq!(model.content, "b");
    assert_eq!(model.selected_range, 1..1);
    assert_eq!(inputs.queued_len(), 0);
}

#[test]
fn redraw_gates_consume_the_flag_differently() {
    let mut inputs = InputMirror::new();
    inputs.mirror_update(0, 1, "", false);
    assert_eq!(gpui_input_set_text(&mut inputs, 0, 1, Some(b"a"), 1), GPUI_STATUS_OK);
    assert!(redraw_after(1, &mut inputs));
    assert!(redraw_after(0, &mut inputs));
    assert!(!redraw_after(0, &mut inputs));
    assert_eq!(gpui_input_set_text(&mut inputs, 0, 1, Some(b"b"), 1), GPUI_STATUS_OK);
    assert!(redraw_after_any(1, &mut inputs));
    assert!(!redraw_after_any(0, &mut inputs));
}

fn typed(text: &str) -> (TextInputModel, InputMirror) {
    let mut inputs = InputMirror::new();
    let mut model = TextInputModel::new(3, 8, "hint".to_string());
    model.append_text(text, &mut inputs);
    (model, inputs)
}

#[test]
fn editing_keys_edit_by_characters() {
    let (mut model, mut inputs) = typed("aé🎉");
    assert_eq!(inputs.mirror_get(3, 8).unwrap().text, "aé🎉");
    let changed = EditOutcome::Changed { event: Envelope::new(EVENT_INPUT_CHANGED, 3, 8, 0) };
    assert_eq!(model.handle_editing_key("backspace", &mut inputs), changed);
    assert_eq!(model.content, "aé");
    assert_eq!(inputs.mirror_get(3, 8).unwrap().text, "aé");
    assert_eq!(model.handle_editing_key("left", &mut inputs), EditOutcome::Moved);
    assert_eq!(model.caret(), 1);
    assert_eq!(model.handle_editing_key("delete", &mut inputs), changed);
    assert_eq!(model.content, "a");
    model.handle_editing_key("home", &mut inputs);
    assert_eq!(model.caret(), 0);
    model.handle_editing_key("end", &mut inputs);
    assert_eq!(model.caret(), 1);
    assert_eq!(model.handle_editing_key("f1", &mut inputs), EditOutcome::Unhandled);
    assert_eq!(
        model.handle_editing_key("enter", &mut inputs),
        EditOutcome::Submitted { event: Envelope::new(EVENT_INPUT_SUBMIT, 3, 8, 0) }
    );
}

#[test]
fn boundaries_stop_at_the_ends() {
    let (model, _) = typed("é");
    assert_eq!(model.previous_boundary(0), 0);
    assert_eq!(model.previous_boundary(2), 0);
    assert_eq!(model.next_boundary(0), 2);
    assert_eq!(model.next_boundary(2), 2);
}

#[test]
fn composition_is_underlined_and_kept_from_writes() {
    let (mut model, mut inputs) = typed("ab");
    model.replace_and_mark_text_in_range(None, "に", None, &mut inputs);
    assert_eq!(model.content, "abに");
    assert_eq!(model.marked_text_range(), Some(2..3));
    assert_eq!(model.selected_text_range(), 3..3);
    let plan = model.line_plan();
    assert_eq!(plan.runs, [(2, false), (3, true)]);
    assert_eq!(gpui_input_set_text(&mut inputs, 3, 8, Some(b"x"), 1), GPUI_STATUS_BUSY_COMPOSING);
    model.unmark_text(&mut inputs);
    assert_eq!(model.marked_text_range(), None);
    assert_eq!(gpui_input_set_text(&mut inputs, 3, 8, Some(b"x"), 1), GPUI_STATUS_OK);
}

#[test]
fn text_is_read_and_replaced_by_utf16_units() {
    let (mut model, mut inputs) = typed("a🎉b");
    let (text, units) = model.text_for_range(1..3);
    assert_eq!(text, "🎉");
    assert_eq!(units, 1..3);
    model.replace_text_in_range(Some(1..3), "xy", &mut inputs);
    assert_eq!(model.content, "axyb");
    assert_eq!(model.selected_range, 3..3);
}

#[test]
fn models_outlive_rebuilds() {
    let mut inputs = InputMirror::new();
    let mut models = InputModels::new();
    assert_eq!(models.retain(0, 5, "one", &mut inputs), 0);
    assert_eq!(gpui_input_text_len(&inputs, 0, 5), 0);
    models.models[0].append_text("kept", &mut inputs);
    assert_eq!(models.retain(0, 6, "other", &mut inputs), 1);
    assert_eq!(models.retain(0, 5, "two", &mut inputs), 0);
    assert_eq!(models.models.len(), 2);
    assert_eq!(models.models[0].content, "kept");
    assert_eq!(models.models[0].placeholder, "two");
    assert_eq!(gpui_input_text_len(&inputs, 0, 5), 4);
}

#[test]
fn two_renders_keep_text_selection_and_mark() {
    let mut inputs = InputMirror::new();
    let mut models = InputModels::new();
    assert_eq!(models.retain(3, 7, "first", &mut inputs), 0);
    assert_eq!(gpui_input_text_len(&inputs, 3, 7), 0);
    models.models[0].append_text("abc", &mut inputs);
    models.models[0].selected_range = 1..2;
    models.models[0].marked_range = Some(0..2);
    assert_eq!(models.retain(3, 7, "second", &mut inputs), 0);
    let model = &models.models[0];
    assert_eq!(model.content, "abc");
    assert_eq!(model.selected_range, 1..2);
    assert_eq!(model.marked_range, Some(0..2));
    assert_eq!(model.placeholder, "second");
    assert_eq!(gpui_input_text_len(&inputs, 3, 7), 3);
}

#[test]
fn preedit_of_the_application_is_sent_and_withdrawn() {
    let mut marks = ImeMarks::new();
    let bridge = ImeBridge { view: 2 };
    let event = bridge.replace_and_mark_text_in_range(&mut marks, "に🎉");
    assert_eq!(event.kind, EVENT_ASYNC);
    assert_eq!(event.payload, ime_preedit_payload("に🎉"));
    assert_eq!(event.payload[0], IME_PREEDIT_TAG);
    assert_eq!(marks.ime_marked_get(2), Some(0..3));
    assert_eq!(marks.ime_marked_get(3), None);
    let events = bridge.replace_text_in_range(&mut marks, "日");
    assert_eq!(events.last().expect("an event").kind, EVENT_TEXT);
    assert_eq!(events.last().expect("an event").payload, "日".as_bytes());
    assert_eq!(marks.ime_marked_get(2), None);
}

#[test]
fn mouse_positions_are_rounded() {
    let payload = mouse_payload(1, 10.5f32.to_bits(), (-2.5f32).to_bits());
    let mut expected = vec![MOUSE_TAG, 1];
    expected.extend_from_slice(&11i32.to_le_bytes());
    expected.extend_from_slice(&(-3i32).to_le_bytes());
    assert_eq!(payload, expected);
    assert_eq!(mouse_payload(0, f32::NAN.to_bits(), f32::INFINITY.to_bits())[2..6], 0i32.to_le_bytes());
    assert_eq!(mouse_payload(0, f32::NAN.to_bits(), f32::INFINITY.to_bits())[6..], i32::MAX.to_le_bytes());
}

#[test]
fn probed_rectangles_are_read_by_key() {
    let mut probes = ProbeTable::new();
    let rect = (1.25f32.to_bits(), 2.0f32.to_bits(), 3.5f32.to_bits(), 4.0f32.to_bits());
    probes.observe("caret", rect);
    assert_eq!(probes.get("caret"), Some(rect));
    assert_eq!(probes.get("probe:x"), None);
    let mut buf = [0u8; 16];
    assert_eq!(gpui_probe_rect(&probes, Some(b"probe:x"), 7, Some(&mut buf)), -1);
    assert_eq!(gpui_probe_rect(&probes, None, 5, Some(&mut buf)), -1);
    assert_eq!(gpui_probe_rect(&probes, Some(b"caret"), 5, None), -1);
    assert_eq!(gpui_probe_rect(&probes, Some(b"caret"), 0, Some(&mut buf)), -1);
    assert_eq!(gpui_probe_rect(&probes, Some(&[0xFF]), 1, Some(&mut buf)), -1);
    assert_eq!(buf, [0u8; 16]);
    assert_eq!(gpui_probe_rect(&probes, Some(b"caret"), 5, Some(&mut buf)), 0);
    let words: Vec<i32> = buf.chunks_exact(4).map(|c| i32::from_le_bytes(c.try_into().unwrap())).collect();
    assert_eq!(words, [1, 2, 4, 4]);
    assert_eq!(ImeBridge { view: 0 }.bounds_for_range(&probes), Some(rect));
}
