//! Events: what is staged, posted, delivered and recorded.
use gpui_sys::abi::{
    ABI_VERSION, EVENT_ASYNC, EVENT_CLICK, EVENT_KEY, EVENT_NAMED_KEY, EVENT_TEXT, GPUI_STATUS_INVALID_HANDLE,
    GPUI_STATUS_OK, GPUI_STATUS_PAYLOAD_TOO_LARGE, GPUI_STATUS_QUEUE_FULL, KEY_BACKSPACE, KEY_DELETE, KEY_DOWN,
    KEY_END, KEY_ENTER, KEY_ESCAPE, KEY_HOME, KEY_LEFT, KEY_PAGEDOWN, KEY_PAGEUP, KEY_RIGHT, KEY_TAB, KEY_UP, MOD_CTRL,
    MOD_PLATFORM, MOD_SHIFT,
};
use gpui_sys::events::{
    dispatch_event_text, dispatch_injected, gpui_event_copy_text, notify_if_changed, Envelope, EventQueue,
};
use gpui_sys::inject::{
    gpui_post_event, next_injected, InjectQueue, INJECT_PAYLOAD_MAX_BYTES, INJECT_QUEUE_MAX_ENTRIES,
};
use gpui_sys::keys::{
    ime_owned_when_idle, key_code, mods_bits, named_key_id, route_key_down, typed_text, KeyRoute, Keystroke, Modifiers,
};
use gpui_sys::node::{InputNode, UiNode};
use gpui_sys::recorder::{install, record, set_changed, take_events, DispatchRecorder};
use gpui_sys::views::Views;

#[test]
fn notification_gate_accepts_only_changed_one() {
    let calls = std::cell::Cell::new(0);
    notify_if_changed(0, || calls.set(calls.get() + 1));
    notify_if_changed(-1, || calls.set(calls.get() + 1));
    notify_if_changed(2, || calls.set(calls.get() + 1));
    assert_eq!(calls.get(), 0);
    notify_if_changed(1, || calls.set(calls.get() + 1));
    assert_eq!(calls.get(), 1);
}

fn push_event_payload(queue: &mut EventQueue, payload: &[u8]) -> i32 {
    queue.stage(EVENT_TEXT, 0, payload.to_vec()).data_a
}

#[test]
fn copy_text_copies_payload() {
    let mut queue = EventQueue::new();
    let token = push_event_payload(&mut queue, b"hello");
    let mut buf = [0u8; 8];
    let n = gpui_event_copy_text(&queue, token, Some(&mut buf), 8);
    assert_eq!(n, 5);
    assert_eq!(&buf[..5], b"hello");
}

#[test]
fn copy_text_truncates_to_buffer_len() {
    let mut queue = EventQueue::new();
    let token = push_event_payload(&mut queue, b"hello world");
    let mut buf = [0u8; 5];
    let n = gpui_event_copy_text(&queue, token, Some(&mut buf), 5);
    assert_eq!(n, 5);
    assert_eq!(&buf, b"hello");
}

#[test]
fn copy_text_zero_len_writes_nothing() {
    let mut queue = EventQueue::new();
    let token = push_event_payload(&mut queue, b"abc");
    let mut buf = [0xAAu8; 4];
    let n = gpui_event_copy_text(&queue, token, Some(&mut buf), 0);
    assert_eq!(n, 0);
    assert_eq!(&buf, &[0xAA; 4]);
}

#[test]
fn copy_text_rejects_invalid_arguments() {
    let mut queue = EventQueue::new();
    let token = push_event_payload(&mut queue, b"abc");
    let mut buf = [0u8; 4];
    assert_eq!(gpui_event_copy_text(&queue, -1, Some(&mut buf), 4), GPUI_STATUS_INVALID_HANDLE);
    assert_eq!(gpui_event_copy_text(&queue, token, None, 4), GPUI_STATUS_INVALID_HANDLE);
    assert_eq!(gpui_event_copy_text(&queue, token, Some(&mut buf), -1), GPUI_STATUS_INVALID_HANDLE);
    assert_eq!(gpui_event_copy_text(&queue, token + 1, Some(&mut buf), 4), GPUI_STATUS_INVALID_HANDLE);
}

#[test]
fn copy_text_token_invalid_after_clear() {
    let mut queue = EventQueue::new();
    let token = push_event_payload(&mut queue, b"leak-me");
    let mut buf = [0u8; 8];
    assert_eq!(gpui_event_copy_text(&queue, token, Some(&mut buf), 8), 7);
    queue.clear();
    assert_eq!(gpui_event_copy_text(&queue, token, Some(&mut buf), 8), GPUI_STATUS_INVALID_HANDLE);
    assert!(queue.payload(0).is_none());
}

#[test]
fn delivered_payload_is_read_and_then_gone() {
    let mut queue = EventQueue::new();
    let changed = dispatch_event_text(&mut queue, 4, "né", |queue, event| {
        assert_eq!(event, Envelope::new(EVENT_TEXT, 4, 0, 3));
        assert_eq!(event.version, ABI_VERSION);
        let mut buf = [0u8; 4];
        assert_eq!(gpui_event_copy_text(queue, event.data_a, Some(&mut buf), 4), 3);
        assert_eq!(&buf[..3], "né".as_bytes());
        1
    });
    assert_eq!(changed, 1);
    assert!(queue.payload(0).is_none());
    let changed = dispatch_injected(&mut queue, 2, vec![7, 8], |queue, event| {
        assert_eq!(event, Envelope::new(EVENT_ASYNC, 2, 0, 2));
        assert_eq!(queue.payload(0), Some(&vec![7, 8]));
        0
    });
    assert_eq!(changed, 0);
}

#[test]
fn post_event_queues_payload_for_drain() {
    let mut queue = InjectQueue::new();
    let payload = b"hello";
    assert_eq!(gpui_post_event(&mut queue, 3, Some(payload), payload.len() as i32), GPUI_STATUS_OK);
    let entry = queue.pop_injected().expect("queued entry");
    assert_eq!(entry.view, 3);
    assert_eq!(entry.payload, payload);
    assert!(queue.pop_injected().is_none());
}

#[test]
fn post_event_zero_len_carries_no_payload() {
    let mut queue = InjectQueue::new();
    assert_eq!(gpui_post_event(&mut queue, 0, None, 0), GPUI_STATUS_OK);
    let entry = queue.pop_injected().expect("queued entry");
    assert_eq!(entry.view, 0);
    assert!(entry.payload.is_empty());
}

#[test]
fn post_event_rejects_invalid_arguments() {
    let mut queue = InjectQueue::new();
    let payload = b"x";
    assert_eq!(gpui_post_event(&mut queue, -1, Some(payload), 1), GPUI_STATUS_INVALID_HANDLE);
    assert_eq!(gpui_post_event(&mut queue, 0, Some(payload), -1), GPUI_STATUS_INVALID_HANDLE);
    assert_eq!(gpui_post_event(&mut queue, 0, None, 1), GPUI_STATUS_INVALID_HANDLE);
    assert!(queue.pop_injected().is_none());
}

#[test]
fn post_event_enforces_payload_limit() {
    let mut queue = InjectQueue::new();
    let max_payload = vec![0xABu8; INJECT_PAYLOAD_MAX_BYTES];
    assert_eq!(
        gpui_post_event(&mut queue, 0, Some(&max_payload), INJECT_PAYLOAD_MAX_BYTES as i32),
        GPUI_STATUS_OK
    );
    assert_eq!(queue.pop_injected().expect("queued entry").payload.len(), INJECT_PAYLOAD_MAX_BYTES);
    assert_eq!(
        gpui_post_event(&mut queue, 0, Some(&max_payload), INJECT_PAYLOAD_MAX_BYTES as i32 + 1),
        GPUI_STATUS_PAYLOAD_TOO_LARGE
    );
    assert!(queue.pop_injected().is_none());
}

#[test]
fn post_event_back_pressures_when_full() {
    let mut queue = InjectQueue::new();
    let payload = b"x";
    for _ in 0..INJECT_QUEUE_MAX_ENTRIES {
        assert_eq!(gpui_post_event(&mut queue, 0, Some(payload), 1), GPUI_STATUS_OK);
    }
    assert_eq!(gpui_post_event(&mut queue, 0, Some(payload), 1), GPUI_STATUS_QUEUE_FULL);
    assert!(queue.pop_injected().is_some());
    assert_eq!(gpui_post_event(&mut queue, 0, Some(payload), 1), GPUI_STATUS_OK);
}

#[test]
fn post_event_preserves_fifo_order() {
    let mut queue = InjectQueue::new();
    for i in 0..8u8 {
        assert_eq!(gpui_post_event(&mut queue, i as i32, Some(&[i]), 1), GPUI_STATUS_OK);
    }
    for i in 0..8u8 {
        let entry = queue.pop_injected().expect("queued entry");
        assert_eq!(entry.view, i as i32);
        assert_eq!(entry.payload, [i]);
    }
}

#[test]
fn events_for_views_without_a_tree_are_skipped() {
    let mut views = Views::new();
    views.commit(1, UiNode::TextInput(InputNode { input_id: 1, placeholder: String::new() }));
    let mut queue = InjectQueue::new();
    for view in [0, 1, 2, 1] {
        assert_eq!(gpui_post_event(&mut queue, view, Some(&[view as u8]), 1), GPUI_STATUS_OK);
    }
    assert_eq!(next_injected(&mut queue, &views).expect("an event").payload, [1]);
    assert_eq!(next_injected(&mut queue, &views).expect("an event").payload, [1]);
    assert!(next_injected(&mut queue, &views).is_none());
    assert_eq!(queue.len(), 0);
}

#[test]
fn recorder_sees_deliveries_with_their_payloads() {
    let mut recorder = DispatchRecorder::new();
    let mut queue = EventQueue::new();
    assert_eq!(record(&mut recorder, &queue, EVENT_CLICK, 0, 9, 0), 0);
    assert!(take_events(&mut recorder).is_empty());

    let guard = install(&mut recorder);
    set_changed(&mut recorder, 1);
    let token = push_event_payload(&mut queue, b"abc");
    assert_eq!(record(&mut recorder, &queue, EVENT_TEXT, 2, token, 3), 1);
    assert_eq!(record(&mut recorder, &queue, EVENT_CLICK, 2, token, 0), 1);
    let events = take_events(&mut recorder);
    assert_eq!(events.len(), 2);
    assert_eq!((events[0].kind, events[0].view, events[0].data_a, events[0].data_b), (EVENT_TEXT, 2, 0, 3));
    assert_eq!(events[0].payload, b"abc");
    assert!(events[1].payload.is_empty());
    assert!(take_events(&mut recorder).is_empty());

    guard.release(&mut recorder);
    assert_eq!(record(&mut recorder, &queue, EVENT_CLICK, 0, 9, 0), 0);
    assert!(take_events(&mut recorder).is_empty());
}

#[test]
fn named_key_id_maps_known_keys() {
    assert_eq!(named_key_id("enter"), Some(KEY_ENTER));
    assert_eq!(named_key_id("escape"), Some(KEY_ESCAPE));
    assert_eq!(named_key_id("up"), Some(KEY_UP));
    assert_eq!(named_key_id("down"), Some(KEY_DOWN));
    assert_eq!(named_key_id("left"), Some(KEY_LEFT));
    assert_eq!(named_key_id("right"), Some(KEY_RIGHT));
    assert_eq!(named_key_id("tab"), Some(KEY_TAB));
    assert_eq!(named_key_id("backspace"), Some(KEY_BACKSPACE));
    assert_eq!(named_key_id("delete"), Some(KEY_DELETE));
    assert_eq!(named_key_id("home"), Some(KEY_HOME));
    assert_eq!(named_key_id("end"), Some(KEY_END));
    assert_eq!(named_key_id("pageup"), Some(KEY_PAGEUP));
    assert_eq!(named_key_id("pagedown"), Some(KEY_PAGEDOWN));
}

#[test]
fn named_key_id_rejects_unknown() {
    assert_eq!(named_key_id("k"), None);
    assert_eq!(named_key_id("space"), None);
    assert_eq!(named_key_id(""), None);
    assert_eq!(named_key_id("f13"), None);
}

#[test]
fn ime_owned_when_idle_covers_printable_keys_but_not_enter() {
    assert!(ime_owned_when_idle("a", Some("a")));
    assert!(ime_owned_when_idle("space", Some(" ")));
    assert!(!ime_owned_when_idle("enter", Some("\n")));
    assert!(!ime_owned_when_idle("backspace", None));
    assert!(!ime_owned_when_idle("up", None));
}

fn stroke(key: &str, key_char: Option<&str>) -> Keystroke {
    Keystroke {
        key: key.to_string(),
        key_char: key_char.map(str::to_string),
        modifiers: Modifiers { control: false, alt: false, shift: false, platform: false, function: false },
    }
}

#[test]
fn key_codes_are_those_of_single_characters() {
    assert_eq!(key_code("k"), 'k' as i32);
    assert_eq!(key_code("あ"), 'あ' as i32);
    assert_eq!(key_code("enter"), 0);
    assert_eq!(key_code(""), 0);
}

#[test]
fn typed_text_prefers_the_character_of_the_key() {
    assert_eq!(typed_text(&stroke("a", Some("A"))).as_deref(), Some("A"));
    assert_eq!(typed_text(&stroke("a", Some(""))).as_deref(), Some("a"));
    assert_eq!(typed_text(&stroke("a", None)).as_deref(), Some("a"));
    assert_eq!(typed_text(&stroke("\u{7}", None)), None);
    assert_eq!(typed_text(&stroke("up", None)), None);
}

#[test]
fn modifiers_pack_into_bits() {
    let mods = Modifiers { control: true, alt: false, shift: true, platform: true, function: false };
    assert_eq!(mods_bits(&mods), MOD_CTRL | MOD_SHIFT | MOD_PLATFORM);
}

#[test]
fn strokes_are_routed() {
    let mut tab = stroke("tab", None);
    assert!(matches!(route_key_down(0, &tab, true, true), KeyRoute::FocusNext));
    tab.modifiers.shift = true;
    assert!(matches!(route_key_down(0, &tab, false, false), KeyRoute::FocusPrevious));

    let letter = stroke("a", Some("a"));
    assert!(matches!(route_key_down(0, &letter, true, true), KeyRoute::ToInput));
    match route_key_down(5, &letter, false, true) {
        KeyRoute::ToIme { event } => assert_eq!(event, Envelope::new(EVENT_NAMED_KEY, 5, 0, 0)),
        _ => panic!("expected the input method"),
    }
    match route_key_down(5, &letter, false, false) {
        KeyRoute::ToApp { key, text } => {
            assert_eq!(key, Some(Envelope::new(EVENT_KEY, 5, 'a' as i32, 0)));
            assert_eq!(text.as_deref(), Some("a"));
        }
        _ => panic!("expected the application"),
    }
    match route_key_down(5, &stroke("enter", Some("\n")), false, true) {
        KeyRoute::ToApp { key, text } => {
            assert_eq!(key, Some(Envelope::new(EVENT_NAMED_KEY, 5, KEY_ENTER, 0)));
            assert_eq!(text.as_deref(), Some("\n"));
        }
        _ => panic!("expected the application"),
    }
    let mut shortcut = stroke("c", Some("c"));
    shortcut.modifiers.platform = true;
    match route_key_down(5, &shortcut, false, true) {
        KeyRoute::ToApp { key, .. } => {
            assert_eq!(key, Some(Envelope::new(EVENT_KEY, 5, 'c' as i32, MOD_PLATFORM)));
        }
        _ => panic!("expected the application"),
    }
}
