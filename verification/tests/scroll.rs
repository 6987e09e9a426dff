//! Scroll positions: what is observed, mirrored and announced.
use gpui_sys::abi::{GPUI_STATUS_INVALID_HANDLE, GPUI_STATUS_KEY_NOT_FOUND};
use gpui_sys::retained::{scroll_handle_for, ScrollHandle, ScrollHandles};
use gpui_sys::scroll::{gpui_scroll_copy_state, settle, ScrollMirror, ScrollMirrorEntry, SCROLL_STATE_BYTES};

fn bits(pair: (f32, f32)) -> (u32, u32) {
    (pair.0.to_bits(), pair.1.to_bits())
}

#[test]
fn scroll_pull_validates_arguments_and_reads_the_mirror() {
    let mut scroll = ScrollMirror::new();
    let mut buf = [0u8; SCROLL_STATE_BYTES];
    let len = SCROLL_STATE_BYTES as i32;

    assert_eq!(gpui_scroll_copy_state(&scroll, -1, 7, Some(&mut buf), len), GPUI_STATUS_INVALID_HANDLE);
    assert_eq!(gpui_scroll_copy_state(&scroll, 0, 7, None, len), GPUI_STATUS_INVALID_HANDLE);
    assert_eq!(gpui_scroll_copy_state(&scroll, 0, 7, Some(&mut buf), len - 1), GPUI_STATUS_INVALID_HANDLE);
    assert_eq!(gpui_scroll_copy_state(&scroll, 0, 7, Some(&mut buf), len), GPUI_STATUS_KEY_NOT_FOUND);

    scroll.scroll_mirror_update(
        0,
        7,
        ScrollMirrorEntry {
            offset: bits((-1.5, -30.0)),
            max: bits((0.0, 400.0)),
            viewport: bits((200.0, 100.0)),
        },
    );
    assert_eq!(gpui_scroll_copy_state(&scroll, 0, 7, Some(&mut buf), len), len);
    let values: Vec<f32> =
        buf.chunks_exact(4).map(|c| f32::from_le_bytes(c.try_into().unwrap())).collect();
    assert_eq!(values, [-1.5, -30.0, 0.0, 400.0, 200.0, 100.0]);
}

#[test]
fn offsets_settle_within_the_content() {
    let max = 400.0f32.to_bits();
    assert_eq!(f32::from_bits(settle((-500.0f32).to_bits(), max)), -400.0);
    assert_eq!(f32::from_bits(settle((-120.5f32).to_bits(), max)), -120.5);
    assert_eq!(f32::from_bits(settle(3.0f32.to_bits(), max)), 0.0);
    let none = (-0.0f32).to_bits();
    assert_eq!(settle((-5.0f32).to_bits(), none), 0.0f32.to_bits());
    assert_eq!(settle(none, none), none);
    assert_eq!(settle((-5.0f32).to_bits(), 0), none);
    let endless = f32::INFINITY.to_bits();
    assert_eq!(f32::from_bits(settle(f32::NEG_INFINITY.to_bits(), endless)), f32::NEG_INFINITY);
}

#[test]
fn only_changes_are_announced() {
    let mut scroll = ScrollMirror::new();
    let max = bits((0.0, 400.0));
    let viewport = bits((200.0, 100.0));
    assert!(!scroll.observe(0, 7, bits((0.0, 0.0)), max, viewport));
    assert!(!scroll.observe(0, 7, bits((0.0, 0.0)), max, viewport));
    assert!(scroll.observe(0, 7, bits((0.0, -500.0)), max, viewport));
    assert!(!scroll.observe(0, 7, bits((0.0, -600.0)), max, viewport));
    let entry = scroll.scroll_mirror_get(0, 7).expect("a state");
    assert_eq!(entry.offset, bits((0.0, -400.0)));
    assert_eq!(entry.max, max);
    assert_eq!(entry.viewport, viewport);
    assert!(scroll.scroll_mirror_get(1, 7).is_none());
}

/// The offsets that handles hold, by slot. A fresh handle has one of its own.
struct Offsets(Vec<(f32, f32)>);

impl Offsets {
    fn cell(&mut self, handle: ScrollHandle) -> usize {
        match handle {
            ScrollHandle::Retained(slot) => {
                while self.0.len() <= slot {
                    self.0.push((0.0, 0.0));
                }
                slot
            }
            ScrollHandle::Fresh => {
                self.0.push((0.0, 0.0));
                self.0.len() - 1
            }
        }
    }
}

#[test]
fn keyed_scroll_handle_is_retained_across_renders() {
    let mut store = ScrollHandles::new();
    let mut offsets = Offsets(Vec::new());

    let first = scroll_handle_for(&mut store, Some("list"));
    let second = scroll_handle_for(&mut store, Some("list"));
    let (first, second) = (offsets.cell(first), offsets.cell(second));
    offsets.0[first] = (0.0, -120.0);
    assert_eq!(offsets.0[second], (0.0, -120.0));

    let other = scroll_handle_for(&mut store, Some("other"));
    let other = offsets.cell(other);
    assert_eq!(offsets.0[other], (0.0, 0.0));
    assert_eq!(store.len(), 2);

    let keyless_a = scroll_handle_for(&mut store, None);
    let keyless_b = scroll_handle_for(&mut store, None);
    let (keyless_a, keyless_b) = (offsets.cell(keyless_a), offsets.cell(keyless_b));
    offsets.0[keyless_a] = (0.0, -50.0);
    assert_eq!(offsets.0[keyless_b], (0.0, 0.0));
    assert_eq!(store.len(), 2);
}
