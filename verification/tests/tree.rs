//! Command buffers: what they build, and what is refused.
use gpui_sys::abi::{
    gpui_abi_probe, ALIGN_CENTER, BUFFER_VERSION, CURSOR_POINTER, GPUI_STATUS_BAD_BUFFER_VERSION,
    GPUI_STATUS_DEPTH_EXCEEDED, GPUI_STATUS_DUPLICATE_KEY, GPUI_STATUS_INVALID_FLOAT, GPUI_STATUS_INVALID_HANDLE,
    GPUI_STATUS_INVALID_TEXT_RUN, GPUI_STATUS_KEY_NOT_FOUND, GPUI_STATUS_NO_ROOT, GPUI_STATUS_OK,
    GPUI_STATUS_TRUNCATED_BUFFER, GPUI_STATUS_UNKNOWN_OPCODE, GPUI_STATUS_WRONG_NODE_KIND, JUSTIFY_SPACE_BETWEEN,
    OP_ADD_CHILD, OP_DIV, OP_SET_ALIGN, OP_SET_BG, OP_SET_BG_COLOR, OP_SET_BORDER, OP_SET_CENTER, OP_SET_CURSOR,
    OP_SET_FLEX, OP_SET_FLEX_ITEM, OP_SET_FOCUSABLE, OP_SET_FONT_FAMILY, OP_SET_FONT_WEIGHT, OP_SET_GAP, OP_SET_INSET,
    OP_SET_KEY, OP_SET_LINE_HEIGHT, OP_SET_MARGIN, OP_SET_MAX_SIZE, OP_SET_MIN_SIZE, OP_SET_ON_CLICK, OP_SET_OPACITY,
    OP_SET_OVERFLOW, OP_SET_PADDING, OP_SET_PADDING_SIDES, OP_SET_POSITION, OP_SET_ROOT, OP_SET_ROUNDED,
    OP_SET_SCROLL_ID, OP_SET_SHADOW, OP_SET_SIZE, OP_SET_TAB_INDEX, OP_SET_TAB_STOP, OP_SET_TEXT_ALIGN,
    OP_SET_TEXT_COLOR, OP_SET_TEXT_ROW, OP_SET_TEXT_SIZE, OP_SET_WHITESPACE, OP_TEXT, OP_TEXT_INPUT, OP_TEXT_RUN,
    OVERFLOW_HIDDEN,
    OVERFLOW_SCROLL, POSITION_ABSOLUTE, RUN_STYLE_COLOR, RUN_STYLE_ITALIC, RUN_STYLE_WEIGHT, TEXT_ALIGN_CENTER,
    TEXT_ALIGN_LEFT, WHITESPACE_NORMAL, WHITESPACE_NOWRAP,
};
use gpui_sys::commit::MAX_TREE_DEPTH;
use gpui_sys::float::{round_to_quarters, LayoutPx};
use gpui_sys::node::{DivNode, DivStyle, InputNode, TextNode, TextRow, TextRunSpec, UiNode};
use gpui_sys::probe::{gpui_probe_rect, ProbeTable};
use gpui_sys::render::{CaretPlan, ElementPlan};
use gpui_sys::retained::FfiView;
use gpui_sys::row::{
    caret_is_shown, gpui_text_char_for_position, gpui_text_x_for_char, observe_caret, RowTable, CARET_BLINK_MS,
};
use gpui_sys::scroll::{gpui_scroll_copy_state, ScrollMirror, ScrollMirrorEntry, SCROLL_STATE_BYTES};
use gpui_sys::utf16::{byte_of_char, char_of_byte};
use gpui_sys::views::{
    collect_text_contents, gpui_build_tree, gpui_debug_dump_text, gpui_update_text, Views,
};
use gpui_sys::window::gpui_run_window;

/// The committed trees and what is mirrored of their scroll positions.
struct World {
    views: Views,
    scroll: ScrollMirror,
}

impl World {
    fn new() -> Self {
        World { views: Views::new(), scroll: ScrollMirror::new() }
    }

    fn root(&self, view: i32) -> &UiNode {
        self.views.committed(view).expect("a committed tree")
    }

    fn div(&self, view: i32) -> &DivNode {
        as_div(self.root(view))
    }

    fn style(&self) -> DivStyle {
        self.div(0).style
    }

    fn update_text(&mut self, view: i32, key: &[u8], text: &[u8]) -> i32 {
        gpui_update_text(&mut self.views, view, Some(key), key.len() as i32, Some(text), text.len() as i32)
    }
}

fn as_div(node: &UiNode) -> &DivNode {
    match node {
        UiNode::Div(div) => div,
        _ => panic!("expected a div"),
    }
}

fn as_text(node: &UiNode) -> &TextNode {
    match node {
        UiNode::Text(text) => text,
        _ => panic!("expected a text"),
    }
}

fn px(value: f32) -> LayoutPx {
    LayoutPx { bits: value.to_bits() }
}

/// Thousandths as a number.
fn scaled(thousandths: i32) -> f32 {
    thousandths as f32 / 1000.0
}

fn sides(sides: Option<(i32, i32, i32, i32)>) -> (f32, f32, f32, f32) {
    let (top, right, bottom, left) = sides.expect("four sides");
    (top as f32, right as f32, bottom as f32, left as f32)
}

struct Buf(Vec<u8>);

impl Buf {
    fn new() -> Self {
        let mut b = Buf(Vec::new());
        b.0.extend_from_slice(b"GPUI");
        b.u32(BUFFER_VERSION as u32);
        b
    }

    fn u8(&mut self, v: u8) -> &mut Self {
        self.0.push(v);
        self
    }

    fn u32(&mut self, v: u32) -> &mut Self {
        self.0.extend_from_slice(&v.to_le_bytes());
        self
    }

    fn i32(&mut self, v: i32) -> &mut Self {
        self.u32(v as u32)
    }

    fn f32(&mut self, v: f32) -> &mut Self {
        self.u32(v.to_bits())
    }

    fn op(&mut self, opcode: i32) -> &mut Self {
        self.u8(opcode as u8)
    }

    fn str(&mut self, s: &str) -> &mut Self {
        let bytes = s.as_bytes();
        self.u32(bytes.len() as u32);
        self.0.extend_from_slice(bytes);
        self
    }

    fn div(&mut self) -> &mut Self {
        self.op(OP_DIV)
    }

    fn text(&mut self, content: &str, r: u8, g: u8, b: u8, size: f32) -> &mut Self {
        self.op(OP_TEXT).str(content).u8(r).u8(g).u8(b).f32(size)
    }

    fn key(&mut self, key: &str) -> &mut Self {
        self.op(OP_SET_KEY).str(key)
    }

    fn size(&mut self, w: f32, h: f32) -> &mut Self {
        self.op(OP_SET_SIZE).f32(w).f32(h)
    }

    fn set_root(&mut self) -> &mut Self {
        self.op(OP_SET_ROOT)
    }

    fn add_child(&mut self) -> &mut Self {
        self.op(OP_ADD_CHILD)
    }

    fn text_run(
        &mut self,
        start: u32,
        len: u32,
        flags: i32,
        color: (u8, u8, u8, u8),
        weight: i32,
        background: (u8, u8, u8, u8),
    ) -> &mut Self {
        self.op(OP_TEXT_RUN)
            .u32(start)
            .u32(len)
            .u8(flags as u8)
            .u8(color.0)
            .u8(color.1)
            .u8(color.2)
            .u8(color.3)
            .i32(weight)
            .u8(background.0)
            .u8(background.1)
            .u8(background.2)
            .u8(background.3)
    }

    fn text_row(&mut self, key: &str, caret: Option<u32>, color: (u8, u8, u8), blink: bool) -> &mut Self {
        self.op(OP_SET_TEXT_ROW)
            .str(key)
            .u8(caret.is_some() as u8)
            .u32(caret.unwrap_or(0))
            .u8(color.0)
            .u8(color.1)
            .u8(color.2)
            .u8(blink as u8)
    }

    fn build(&self, world: &mut World, view: i32) -> i32 {
        gpui_build_tree(&mut world.views, &mut world.scroll, view, Some(&self.0), self.0.len() as i32)
    }
}

/// Builds a buffer for the first view of a fresh world.
fn built(b: &Buf) -> World {
    let mut world = World::new();
    assert_eq!(b.build(&mut world, 0), GPUI_STATUS_OK);
    world
}

/// The status of a buffer that is refused. Nothing is committed.
fn refused(b: &Buf) -> i32 {
    let mut world = World::new();
    let status = b.build(&mut world, 0);
    assert!(world.views.committed(0).is_none());
    status
}

#[test]
fn builds_and_commits_a_full_tree() {
    let mut b = Buf::new();
    b.div()
        .op(OP_SET_BG)
        .u8(1)
        .u8(2)
        .u8(3)
        .op(OP_SET_FLEX)
        .u8(1)
        .op(OP_SET_CENTER)
        .op(OP_SET_GAP)
        .f32(7.0)
        .op(OP_SET_ROUNDED)
        .f32(8.0)
        .op(OP_SET_PADDING)
        .f32(5.0)
        .op(OP_SET_BORDER)
        .f32(2.0)
        .u8(9)
        .u8(9)
        .u8(9)
        .op(OP_SET_SIZE)
        .f32(100.0)
        .f32(50.0)
        .op(OP_SET_KEY)
        .str("root");
    b.div().op(OP_SET_ON_CLICK).i32(9).op(OP_SET_KEY).str("btn");
    b.add_child();
    b.text("A\0あ", 4, 5, 6, 14.0);
    b.add_child();
    b.set_root();

    let world = built(&b);
    let div = world.div(0);
    assert_eq!(div.style.bg, Some((1, 2, 3)));
    assert!(div.style.flex);
    assert!(div.style.flex_col);
    assert!(div.style.center);
    assert_eq!(div.style.border_color, Some((9, 9, 9)));
    assert_eq!(div.style.on_click, None);
    assert_eq!(div.style.width, px(100.0));
    assert_eq!(div.style.height, px(50.0));
    assert_eq!(div.style.gap, px(7.0));
    assert_eq!(div.style.rounded, px(8.0));
    assert_eq!(div.style.padding, px(5.0));
    assert_eq!(div.style.border_width, px(2.0));
    assert_eq!(div.key.as_deref(), Some("root"));
    assert_eq!(div.children.len(), 2);
    let button = as_div(&div.children[0]);
    assert_eq!(button.style.on_click, Some(9));
    assert_eq!(button.key.as_deref(), Some("btn"));
    let text = as_text(&div.children[1]);
    assert_eq!(text.content, "A\0あ");
    assert_eq!(text.color, (4, 5, 6));
    assert_eq!(text.size, px(14.0));
}

#[test]
fn commit_replaces_previous_tree() {
    let mut world = World::new();
    let mut first = Buf::new();
    first.div().op(OP_SET_BG).u8(1).u8(2).u8(3).set_root();
    assert_eq!(first.build(&mut world, 0), GPUI_STATUS_OK);

    let mut second = Buf::new();
    second.div().op(OP_SET_BG).u8(4).u8(5).u8(6).set_root();
    assert_eq!(second.build(&mut world, 0), GPUI_STATUS_OK);
    assert_eq!(world.style().bg, Some((4, 5, 6)));
}

#[test]
fn commits_to_distinct_views() {
    let mut world = World::new();
    let mut v0 = Buf::new();
    v0.div().op(OP_SET_BG).u8(1).u8(0).u8(0).set_root();
    assert_eq!(v0.build(&mut world, 0), GPUI_STATUS_OK);

    let mut v1 = Buf::new();
    v1.div().op(OP_SET_BG).u8(0).u8(1).u8(0).set_root();
    assert_eq!(v1.build(&mut world, 1), GPUI_STATUS_OK);

    assert_eq!(world.div(0).style.bg, Some((1, 0, 0)));
    assert_eq!(world.div(1).style.bg, Some((0, 1, 0)));
}

#[test]
fn refused_buffer_leaves_the_committed_tree() {
    let mut world = World::new();
    let mut good = Buf::new();
    good.div().op(OP_SET_BG).u8(1).u8(2).u8(3).set_root();
    assert_eq!(good.build(&mut world, 0), GPUI_STATUS_OK);
    let mut bad = Buf::new();
    bad.div().op(OP_SET_BG).u8(4).u8(5).u8(6).set_root().u8(0xFE);
    assert_eq!(bad.build(&mut world, 0), GPUI_STATUS_UNKNOWN_OPCODE);
    assert_eq!(world.style().bg, Some((1, 2, 3)));
}

#[test]
fn rejects_bad_magic_and_version() {
    let mut bad_magic = Buf::new();
    bad_magic.0[0] = b'X';
    bad_magic.div().set_root();
    assert_eq!(refused(&bad_magic), GPUI_STATUS_BAD_BUFFER_VERSION);

    let mut bad_version = Buf::new();
    bad_version.0[4] = 0xFF;
    bad_version.div().set_root();
    assert_eq!(refused(&bad_version), GPUI_STATUS_BAD_BUFFER_VERSION);
}

#[test]
fn rejects_null_pointer_and_negative_length() {
    let mut world = World::new();
    assert_eq!(
        gpui_build_tree(&mut world.views, &mut world.scroll, 0, None, 8),
        GPUI_STATUS_TRUNCATED_BUFFER
    );
    let b = Buf::new();
    assert_eq!(
        gpui_build_tree(&mut world.views, &mut world.scroll, 0, Some(&b.0), -1),
        GPUI_STATUS_TRUNCATED_BUFFER
    );
}

#[test]
fn rejects_truncated_operand() {
    let mut b = Buf::new();
    b.div().op(OP_SET_BG).u8(1).u8(2);
    assert_eq!(refused(&b), GPUI_STATUS_TRUNCATED_BUFFER);

    let mut t = Buf::new();
    t.op(OP_TEXT).u32(999).u8(b'a').set_root();
    assert_eq!(refused(&t), GPUI_STATUS_TRUNCATED_BUFFER);

    let mut p = Buf::new();
    p.div().op(OP_SET_PADDING);
    assert_eq!(refused(&p), GPUI_STATUS_TRUNCATED_BUFFER);

    let mut br = Buf::new();
    br.div().op(OP_SET_BORDER).f32(1.0).u8(1).u8(2);
    assert_eq!(refused(&br), GPUI_STATUS_TRUNCATED_BUFFER);
}

#[test]
fn rejects_huge_string_length_without_panic() {
    let mut t = Buf::new();
    t.op(OP_TEXT).u32(u32::MAX).u8(b'a').set_root();
    assert_eq!(refused(&t), GPUI_STATUS_TRUNCATED_BUFFER);

    let mut k = Buf::new();
    k.div().op(OP_SET_KEY).u32(0x7FFF_FFFF);
    assert_eq!(refused(&k), GPUI_STATUS_TRUNCATED_BUFFER);
}

#[test]
fn invalid_utf8_text_is_lossy_not_fatal() {
    let mut b = Buf::new();
    b.op(OP_TEXT).u32(2).u8(0xFF).u8(0xFE).u8(1).u8(2).u8(3).f32(10.0).set_root();
    let world = built(&b);
    let text = as_text(world.root(0));
    assert_eq!(text.content, "\u{FFFD}\u{FFFD}");
    assert_eq!(text.color, (1, 2, 3));
    assert_eq!(text.size, px(10.0));
}

#[test]
fn rejects_unknown_opcode() {
    let mut b = Buf::new();
    b.div().u8(0xFE).set_root();
    assert_eq!(refused(&b), GPUI_STATUS_UNKNOWN_OPCODE);
}

#[test]
fn rejects_negative_view() {
    let mut world = World::new();
    assert_eq!(Buf::new().build(&mut world, -1), GPUI_STATUS_INVALID_HANDLE);
}

#[test]
fn run_window_rejects_negative_view() {
    assert_eq!(gpui_run_window(-1, |_| panic!("not started")), GPUI_STATUS_INVALID_HANDLE);
}

#[test]
fn setter_on_empty_stack_fails() {
    let mut b = Buf::new();
    b.op(OP_SET_CENTER).set_root();
    assert_eq!(refused(&b), GPUI_STATUS_INVALID_HANDLE);
}

#[test]
fn setter_on_text_top_fails() {
    let mut b = Buf::new();
    b.text("x", 0, 0, 0, 12.0).op(OP_SET_CENTER);
    assert_eq!(refused(&b), GPUI_STATUS_WRONG_NODE_KIND);
}

#[test]
fn padding_and_border_apply_to_div() {
    let mut b = Buf::new();
    b.div()
        .op(OP_SET_PADDING)
        .f32(12.0)
        .op(OP_SET_BORDER)
        .f32(3.0)
        .u8(10)
        .u8(20)
        .u8(30)
        .set_root();
    let style = built(&b).style();
    assert_eq!(style.padding, px(12.0));
    assert_eq!(style.border_width, px(3.0));
    assert_eq!(style.border_color, Some((10, 20, 30)));
}

#[test]
fn padding_and_border_on_text_top_fail() {
    let mut p = Buf::new();
    p.text("x", 0, 0, 0, 12.0).op(OP_SET_PADDING).f32(4.0);
    assert_eq!(refused(&p), GPUI_STATUS_WRONG_NODE_KIND);

    let mut br = Buf::new();
    br.text("x", 0, 0, 0, 12.0).op(OP_SET_BORDER).f32(1.0).u8(0).u8(0).u8(0);
    assert_eq!(refused(&br), GPUI_STATUS_WRONG_NODE_KIND);
}

#[test]
fn add_child_underflow_fails() {
    let mut one = Buf::new();
    one.div().add_child();
    assert_eq!(refused(&one), GPUI_STATUS_INVALID_HANDLE);

    let mut zero = Buf::new();
    zero.add_child();
    assert_eq!(refused(&zero), GPUI_STATUS_INVALID_HANDLE);
}

#[test]
fn add_child_to_text_parent_fails() {
    let mut b = Buf::new();
    b.text("p", 0, 0, 0, 12.0).div().add_child();
    assert_eq!(refused(&b), GPUI_STATUS_WRONG_NODE_KIND);
}

#[test]
fn set_root_on_empty_stack_fails() {
    let mut b = Buf::new();
    b.set_root();
    assert_eq!(refused(&b), GPUI_STATUS_INVALID_HANDLE);
}

#[test]
fn build_without_root_fails() {
    let mut b = Buf::new();
    b.div();
    assert_eq!(refused(&b), GPUI_STATUS_NO_ROOT);
}

#[test]
fn nested_attachment_commits() {
    let mut b = Buf::new();
    b.div();
    b.div();
    b.div();
    b.add_child();
    b.add_child();
    b.set_root();
    let world = built(&b);
    let grandparent = world.div(0);
    assert_eq!(grandparent.children.len(), 1);
    let parent = as_div(&grandparent.children[0]);
    assert_eq!(parent.children.len(), 1);
    assert!(matches!(&parent.children[0], UiNode::Div(_)));
}

#[test]
fn add_child_moves_not_copies() {
    let mut b = Buf::new();
    b.div();
    b.div().op(OP_SET_BG).u8(1).u8(0).u8(0);
    b.add_child();
    b.div().op(OP_SET_BG).u8(0).u8(1).u8(0);
    b.add_child();
    b.set_root();
    let world = built(&b);
    let children = &world.div(0).children;
    assert_eq!(children.len(), 2);
    assert_eq!(as_div(&children[0]).style.bg, Some((1, 0, 0)));
    assert!(as_div(&children[0]).children.is_empty());
    assert_eq!(as_div(&children[1]).style.bg, Some((0, 1, 0)));
    assert!(as_div(&children[1]).children.is_empty());
}

#[test]
fn subtree_moves_intact() {
    let mut b = Buf::new();
    b.div();
    b.div();
    b.div().op(OP_SET_BG).u8(7).u8(7).u8(7);
    b.add_child();
    b.add_child();
    b.set_root();
    let world = built(&b);
    let root = world.div(0);
    assert_eq!(root.children.len(), 1);
    let child = as_div(&root.children[0]);
    assert_eq!(child.children.len(), 1);
    let leaf = as_div(&child.children[0]);
    assert_eq!(leaf.style.bg, Some((7, 7, 7)));
    assert!(leaf.children.is_empty());
}

#[test]
fn unattached_nodes_are_dropped_from_commit() {
    let mut b = Buf::new();
    b.div().op(OP_SET_BG).u8(9).u8(9).u8(9);
    b.div().op(OP_SET_BG).u8(1).u8(2).u8(3);
    b.set_root();
    let world = built(&b);
    assert_eq!(world.style().bg, Some((1, 2, 3)));
    assert!(world.div(0).children.is_empty());
}

#[test]
fn last_set_root_wins() {
    let mut b = Buf::new();
    b.div().op(OP_SET_BG).u8(1).u8(0).u8(0);
    b.set_root();
    b.div().op(OP_SET_BG).u8(0).u8(1).u8(0);
    b.set_root();
    assert_eq!(built(&b).style().bg, Some((0, 1, 0)));
}

#[test]
fn commit_rejects_duplicate_keys_in_tree() {
    let mut b = Buf::new();
    b.div();
    b.div().op(OP_SET_KEY).str("same");
    b.add_child();
    b.div().op(OP_SET_KEY).str("same");
    b.add_child();
    b.set_root();
    assert_eq!(refused(&b), GPUI_STATUS_DUPLICATE_KEY);
}

#[test]
fn commit_allows_distinct_keys() {
    let mut b = Buf::new();
    b.div();
    b.div().op(OP_SET_KEY).str("a");
    b.add_child();
    b.div().op(OP_SET_KEY).str("b");
    b.add_child();
    b.set_root();
    built(&b);
}

#[test]
fn commit_allows_duplicate_click_ids() {
    let mut b = Buf::new();
    b.div();
    b.div().op(OP_SET_ON_CLICK).i32(7);
    b.add_child();
    b.div().op(OP_SET_ON_CLICK).i32(7);
    b.add_child();
    b.set_root();
    built(&b);
}

#[test]
fn debug_dump_text_round_trips() {
    let mut b = Buf::new();
    b.div()
        .text("A\0あ", 255, 255, 255, 16.0)
        .add_child()
        .text("🎉", 255, 255, 255, 16.0)
        .add_child()
        .set_root();
    let world = built(&b);

    let mut expected = Vec::new();
    for s in ["A\0あ", "🎉"] {
        let bytes = s.as_bytes();
        expected.extend_from_slice(&(bytes.len() as u32).to_le_bytes());
        expected.extend_from_slice(bytes);
    }

    let mut buf = vec![0u8; 256];
    let n = gpui_debug_dump_text(&world.views, 0, Some(&mut buf), 256);
    assert_eq!(n, expected.len() as i32);
    assert_eq!(&buf[..n as usize], &expected[..]);
}

#[test]
fn debug_dump_text_rejects_bad_args() {
    let world = World::new();
    let mut buf = [0u8; 8];
    assert_eq!(gpui_debug_dump_text(&world.views, -1, Some(&mut buf), 8), GPUI_STATUS_INVALID_HANDLE);
    assert_eq!(gpui_debug_dump_text(&world.views, 0, None, 8), GPUI_STATUS_INVALID_HANDLE);
    assert_eq!(gpui_debug_dump_text(&world.views, 0, Some(&mut buf), -1), GPUI_STATUS_INVALID_HANDLE);
    assert_eq!(gpui_debug_dump_text(&world.views, 0, Some(&mut buf), 8), GPUI_STATUS_INVALID_HANDLE);
}

#[test]
fn debug_dump_is_cut_to_the_buffer() {
    let mut b = Buf::new();
    b.text("abc", 0, 0, 0, 1.0).set_root();
    let world = built(&b);
    let mut buf = [0xAAu8; 8];
    assert_eq!(gpui_debug_dump_text(&world.views, 0, Some(&mut buf), 5), 5);
    assert_eq!(buf, [3, 0, 0, 0, b'a', 0xAA, 0xAA, 0xAA]);
}

#[test]
fn text_input_decodes_as_a_leaf() {
    let mut buf: Vec<u8> = Vec::new();
    buf.extend_from_slice(b"GPUI");
    buf.extend_from_slice(&(BUFFER_VERSION as u32).to_le_bytes());
    buf.push(OP_TEXT_INPUT as u8);
    buf.extend_from_slice(&5i32.to_le_bytes());
    buf.extend_from_slice(&(4u32).to_le_bytes());
    buf.extend_from_slice(b"hint");
    buf.push(OP_SET_ROOT as u8);
    let world = built(&Buf(buf));
    match world.root(0) {
        UiNode::TextInput(input) => {
            assert_eq!(input.input_id, 5);
            assert_eq!(input.placeholder, "hint");
        }
        _ => panic!("expected a text input"),
    }
}

#[test]
fn text_input_content_is_not_in_the_debug_dump() {
    let node = UiNode::TextInput(InputNode { input_id: 1, placeholder: "p".into() });
    assert!(collect_text_contents(&node, Vec::new()).is_empty());
}

#[test]
fn abi_probe_echoes_boundary_values() {
    for v in [i32::MAX, i32::MIN, 0, -1, 42, -42] {
        assert_eq!(gpui_abi_probe(v), v);
    }
}

#[test]
fn set_bg_color_decodes_rgba() {
    let mut b = Buf::new();
    b.div().op(OP_SET_BG_COLOR).u8(1).u8(2).u8(3).u8(128).set_root();
    let style = built(&b).style();
    assert_eq!(style.bg_color, Some((1, 2, 3, 128)));
    assert_eq!(style.bg, None);
}

#[test]
fn set_bg_color_truncated_fails() {
    let mut b = Buf::new();
    b.div().op(OP_SET_BG_COLOR).u8(1).u8(2).u8(3);
    assert_eq!(refused(&b), GPUI_STATUS_TRUNCATED_BUFFER);
}

#[test]
fn set_margin_decodes_four_sides() {
    let mut b = Buf::new();
    b.div().op(OP_SET_MARGIN).i32(1).i32(2).i32(3).i32(4).set_root();
    assert_eq!(sides(built(&b).style().margin), (1.0, 2.0, 3.0, 4.0));
}

#[test]
fn set_margin_truncated_fails() {
    let mut b = Buf::new();
    b.div().op(OP_SET_MARGIN).i32(1).i32(2).i32(3);
    assert_eq!(refused(&b), GPUI_STATUS_TRUNCATED_BUFFER);
}

#[test]
fn set_padding_sides_decodes_four_sides() {
    let mut b = Buf::new();
    b.div().op(OP_SET_PADDING_SIDES).i32(5).i32(6).i32(7).i32(8).set_root();
    assert_eq!(sides(built(&b).style().padding_sides), (5.0, 6.0, 7.0, 8.0));
}

#[test]
fn set_padding_sides_truncated_fails() {
    let mut b = Buf::new();
    b.div().op(OP_SET_PADDING_SIDES).i32(1).i32(2).i32(3);
    assert_eq!(refused(&b), GPUI_STATUS_TRUNCATED_BUFFER);
}

#[test]
fn set_flex_item_scales_milliunits() {
    let mut b = Buf::new();
    b.div().op(OP_SET_FLEX_ITEM).i32(1500).i32(500).i32(100).set_root();
    let (grow, shrink, basis) = built(&b).style().flex_item.expect("a flex item");
    assert_eq!((scaled(grow), scaled(shrink), basis as f32), (1.5, 0.5, 100.0));
}

#[test]
fn set_flex_item_truncated_fails() {
    let mut b = Buf::new();
    b.div().op(OP_SET_FLEX_ITEM).i32(1000).i32(1000);
    assert_eq!(refused(&b), GPUI_STATUS_TRUNCATED_BUFFER);
}

#[test]
fn set_opacity_scales_milliunits() {
    let mut b = Buf::new();
    b.div().op(OP_SET_OPACITY).i32(500).set_root();
    let opacity = scaled(built(&b).style().opacity.expect("an opacity"));
    assert!((opacity - 0.5).abs() < 1e-6);
}

#[test]
fn set_opacity_truncated_fails() {
    let mut b = Buf::new();
    b.div().op(OP_SET_OPACITY);
    assert_eq!(refused(&b), GPUI_STATUS_TRUNCATED_BUFFER);
}

#[test]
fn set_shadow_decodes_geometry_and_color() {
    let mut b = Buf::new();
    b.div()
        .op(OP_SET_SHADOW)
        .i32(0)
        .i32(4)
        .i32(6)
        .i32(-1)
        .u8(0)
        .u8(0)
        .u8(0)
        .u8(64)
        .set_root();
    let shadow = built(&b).style().shadow.expect("a shadow");
    assert_eq!(shadow.x as f32, 0.0);
    assert_eq!(shadow.y as f32, 4.0);
    assert_eq!(shadow.blur as f32, 6.0);
    assert_eq!(shadow.spread as f32, -1.0);
    assert_eq!(shadow.color, (0, 0, 0, 64));
}

#[test]
fn set_shadow_truncated_fails() {
    let mut b = Buf::new();
    b.div().op(OP_SET_SHADOW).i32(0).i32(0).i32(0).i32(0).u8(0).u8(0);
    assert_eq!(refused(&b), GPUI_STATUS_TRUNCATED_BUFFER);
}

#[test]
fn set_align_overflow_cursor_position_inset_decode() {
    let mut b = Buf::new();
    b.div()
        .op(OP_SET_ALIGN)
        .i32(ALIGN_CENTER)
        .i32(JUSTIFY_SPACE_BETWEEN)
        .op(OP_SET_OVERFLOW)
        .i32(OVERFLOW_HIDDEN)
        .i32(OVERFLOW_SCROLL)
        .op(OP_SET_CURSOR)
        .i32(CURSOR_POINTER)
        .op(OP_SET_POSITION)
        .i32(POSITION_ABSOLUTE)
        .op(OP_SET_INSET)
        .i32(10)
        .i32(-1)
        .i32(20)
        .i32(-1)
        .set_root();
    let style = built(&b).style();
    assert_eq!(style.align, Some((ALIGN_CENTER, JUSTIFY_SPACE_BETWEEN)));
    assert_eq!(style.overflow, Some((OVERFLOW_HIDDEN, OVERFLOW_SCROLL)));
    assert_eq!(style.cursor, Some(CURSOR_POINTER));
    assert_eq!(style.position, Some(POSITION_ABSOLUTE));
    assert_eq!(sides(style.inset), (10.0, -1.0, 20.0, -1.0));
}

#[test]
fn set_min_max_size_decode_with_auto_sentinel() {
    let mut b = Buf::new();
    b.div()
        .op(OP_SET_MIN_SIZE)
        .i32(100)
        .i32(-1)
        .op(OP_SET_MAX_SIZE)
        .i32(-1)
        .i32(400)
        .set_root();
    let style = built(&b).style();
    let (min_w, min_h) = style.min_size.expect("a minimum");
    let (max_w, max_h) = style.max_size.expect("a maximum");
    assert_eq!((min_w as f32, min_h as f32), (100.0, -1.0));
    assert_eq!((max_w as f32, max_h as f32), (-1.0, 400.0));
}

#[test]
fn new_setters_on_text_top_fail() {
    let cases: Vec<Box<dyn Fn(&mut Buf)>> = vec![
        Box::new(|b| {
            b.op(OP_SET_BG_COLOR).u8(0).u8(0).u8(0).u8(0);
        }),
        Box::new(|b| {
            b.op(OP_SET_MARGIN).i32(0).i32(0).i32(0).i32(0);
        }),
        Box::new(|b| {
            b.op(OP_SET_OPACITY).i32(1000);
        }),
        Box::new(|b| {
            b.op(OP_SET_CURSOR).i32(CURSOR_POINTER);
        }),
        Box::new(|b| {
            b.op(OP_SET_TEXT_SIZE).i32(14);
        }),
        Box::new(|b| {
            b.op(OP_SET_FONT_FAMILY).str("Arial");
        }),
    ];
    for apply in cases {
        let mut b = Buf::new();
        b.text("x", 0, 0, 0, 12.0);
        apply(&mut b);
        assert_eq!(refused(&b), GPUI_STATUS_WRONG_NODE_KIND);
    }
}

#[test]
fn set_text_size_decodes_px() {
    let mut b = Buf::new();
    b.div().op(OP_SET_TEXT_SIZE).i32(18).set_root();
    assert_eq!(built(&b).style().text_size.expect("a size") as f32, 18.0);
}

#[test]
fn set_text_size_truncated_fails() {
    let mut b = Buf::new();
    b.div().op(OP_SET_TEXT_SIZE);
    assert_eq!(refused(&b), GPUI_STATUS_TRUNCATED_BUFFER);
}

#[test]
fn set_text_color_decodes_rgba() {
    let mut b = Buf::new();
    b.div().op(OP_SET_TEXT_COLOR).u8(10).u8(20).u8(30).u8(128).set_root();
    assert_eq!(built(&b).style().text_color, Some((10, 20, 30, 128)));
}

#[test]
fn set_text_color_truncated_fails() {
    let mut b = Buf::new();
    b.div().op(OP_SET_TEXT_COLOR).u8(1).u8(2).u8(3);
    assert_eq!(refused(&b), GPUI_STATUS_TRUNCATED_BUFFER);
}

#[test]
fn set_font_weight_clamps_out_of_range() {
    let mut b = Buf::new();
    b.div()
        .op(OP_SET_FONT_WEIGHT)
        .i32(50)
        .op(OP_SET_FONT_WEIGHT)
        .i32(1000)
        .op(OP_SET_FONT_WEIGHT)
        .i32(700)
        .set_root();
    assert_eq!(built(&b).style().font_weight, Some(700));
    let mut lo = Buf::new();
    lo.div().op(OP_SET_FONT_WEIGHT).i32(50).set_root();
    assert_eq!(built(&lo).style().font_weight, Some(100));
    let mut hi = Buf::new();
    hi.div().op(OP_SET_FONT_WEIGHT).i32(1000).set_root();
    assert_eq!(built(&hi).style().font_weight, Some(900));
}

#[test]
fn set_font_weight_truncated_fails() {
    let mut b = Buf::new();
    b.div().op(OP_SET_FONT_WEIGHT);
    assert_eq!(refused(&b), GPUI_STATUS_TRUNCATED_BUFFER);
}

#[test]
fn set_line_height_scales_milliunits_and_negative_unsets() {
    let mut b = Buf::new();
    b.div().op(OP_SET_LINE_HEIGHT).i32(1500).op(OP_SET_LINE_HEIGHT).i32(-1).set_root();
    assert_eq!(built(&b).style().line_height, None);
    let mut set = Buf::new();
    set.div().op(OP_SET_LINE_HEIGHT).i32(2250).set_root();
    assert_eq!(scaled(built(&set).style().line_height.expect("a line height")), 2.25);
}

#[test]
fn set_line_height_truncated_fails() {
    let mut b = Buf::new();
    b.div().op(OP_SET_LINE_HEIGHT);
    assert_eq!(refused(&b), GPUI_STATUS_TRUNCATED_BUFFER);
}

#[test]
fn set_text_align_and_whitespace_decode_ids() {
    let mut b = Buf::new();
    b.div()
        .op(OP_SET_TEXT_ALIGN)
        .i32(TEXT_ALIGN_CENTER)
        .op(OP_SET_WHITESPACE)
        .i32(WHITESPACE_NOWRAP)
        .set_root();
    let style = built(&b).style();
    assert_eq!(style.text_align, Some(TEXT_ALIGN_CENTER));
    assert_eq!(style.whitespace, Some(WHITESPACE_NOWRAP));
}

#[test]
fn set_text_align_truncated_fails() {
    let mut b = Buf::new();
    b.div().op(OP_SET_TEXT_ALIGN);
    assert_eq!(refused(&b), GPUI_STATUS_TRUNCATED_BUFFER);
}

#[test]
fn set_font_family_decodes_string() {
    let mut b = Buf::new();
    b.div().op(OP_SET_FONT_FAMILY).str("Fira Code").set_root();
    assert_eq!(built(&b).div(0).font_family.as_deref(), Some("Fira Code"));
}

#[test]
fn set_font_family_truncated_fails() {
    let mut b = Buf::new();
    b.div().op(OP_SET_FONT_FAMILY).u32(16);
    assert_eq!(refused(&b), GPUI_STATUS_TRUNCATED_BUFFER);
}

#[test]
fn typography_setters_on_text_top_fail() {
    let cases: Vec<Box<dyn Fn(&mut Buf)>> = vec![
        Box::new(|b| {
            b.op(OP_SET_TEXT_SIZE).i32(14);
        }),
        Box::new(|b| {
            b.op(OP_SET_TEXT_COLOR).u8(0).u8(0).u8(0).u8(0);
        }),
        Box::new(|b| {
            b.op(OP_SET_FONT_WEIGHT).i32(400);
        }),
        Box::new(|b| {
            b.op(OP_SET_LINE_HEIGHT).i32(1500);
        }),
        Box::new(|b| {
            b.op(OP_SET_TEXT_ALIGN).i32(TEXT_ALIGN_LEFT);
        }),
        Box::new(|b| {
            b.op(OP_SET_WHITESPACE).i32(WHITESPACE_NORMAL);
        }),
        Box::new(|b| {
            b.op(OP_SET_FONT_FAMILY).str("Arial");
        }),
    ];
    for apply in cases {
        let mut b = Buf::new();
        b.text("x", 0, 0, 0, 12.0);
        apply(&mut b);
        assert_eq!(refused(&b), GPUI_STATUS_WRONG_NODE_KIND);
    }
}

#[test]
fn set_focusable_decodes_mode() {
    let mut b = Buf::new();
    b.div().op(OP_SET_FOCUSABLE).i32(1).op(OP_SET_FOCUSABLE).i32(0).set_root();
    assert_eq!(built(&b).style().focusable, Some(false));
    let mut on = Buf::new();
    on.div().op(OP_SET_FOCUSABLE).i32(1).set_root();
    assert_eq!(built(&on).style().focusable, Some(true));
}

#[test]
fn set_tab_index_decodes_value() {
    let mut b = Buf::new();
    b.div().op(OP_SET_TAB_INDEX).i32(3).set_root();
    assert_eq!(built(&b).style().tab_index, Some(3));
}

#[test]
fn set_tab_stop_decodes_mode() {
    let mut b = Buf::new();
    b.div().op(OP_SET_TAB_STOP).i32(0).set_root();
    assert_eq!(built(&b).style().tab_stop, Some(false));
    let mut on = Buf::new();
    on.div().op(OP_SET_TAB_STOP).i32(1).set_root();
    assert_eq!(built(&on).style().tab_stop, Some(true));
}

#[test]
fn focus_setters_truncated_fail() {
    for opcode in [OP_SET_FOCUSABLE, OP_SET_TAB_INDEX, OP_SET_TAB_STOP] {
        let mut b = Buf::new();
        b.div().op(opcode);
        assert_eq!(refused(&b), GPUI_STATUS_TRUNCATED_BUFFER);
    }
}

#[test]
fn focus_setters_on_text_top_fail() {
    for opcode in [OP_SET_FOCUSABLE, OP_SET_TAB_INDEX, OP_SET_TAB_STOP] {
        let mut b = Buf::new();
        b.text("x", 0, 0, 0, 12.0).op(opcode).i32(1);
        assert_eq!(refused(&b), GPUI_STATUS_WRONG_NODE_KIND);
    }
}

/// A keyed `count` div around one text, beside a keyed `static` div with its
/// own text.
fn count_tree() -> World {
    let mut b = Buf::new();
    b.div().op(OP_SET_KEY).str("root");
    b.div().op(OP_SET_KEY).str("count");
    b.text("Count: 0", 120, 200, 255, 44.0);
    b.add_child();
    b.add_child();
    b.div().op(OP_SET_KEY).str("static");
    b.text("keys: k j r", 130, 135, 148, 14.0);
    b.add_child();
    b.add_child();
    b.set_root();
    built(&b)
}

fn find<'a>(node: &'a UiNode, key: &str) -> Option<&'a str> {
    let UiNode::Div(div) = node else {
        return None;
    };
    if div.key.as_deref() == Some(key) {
        return match div.children.first() {
            Some(UiNode::Text(text)) => Some(text.content.as_str()),
            _ => None,
        };
    }
    div.children.iter().find_map(|child| find(child, key))
}

fn keyed_text(world: &World, key: &str) -> Option<String> {
    world.views.committed(0).and_then(|root| find(root, key)).map(str::to_string)
}

#[test]
fn update_text_updates_keyed_node_in_place() {
    let mut world = count_tree();
    assert_eq!(keyed_text(&world, "count").as_deref(), Some("Count: 0"));
    assert_eq!(world.update_text(0, b"count", b"Count: 42"), GPUI_STATUS_OK);
    assert_eq!(keyed_text(&world, "count").as_deref(), Some("Count: 42"));
    assert_eq!(keyed_text(&world, "static").as_deref(), Some("keys: k j r"));
}

#[test]
fn update_text_missing_key_returns_not_found() {
    let mut world = count_tree();
    assert_eq!(world.update_text(0, b"does-not-exist", b"x"), GPUI_STATUS_KEY_NOT_FOUND);
    assert_eq!(keyed_text(&world, "count").as_deref(), Some("Count: 0"));
}

#[test]
fn update_text_no_committed_tree_returns_not_found() {
    let mut world = World::new();
    assert_eq!(world.update_text(0, b"count", b"x"), GPUI_STATUS_KEY_NOT_FOUND);
}

#[test]
fn update_text_rejects_bad_handles() {
    let mut world = count_tree();
    assert_eq!(world.update_text(-1, b"count", b"x"), GPUI_STATUS_INVALID_HANDLE);
    assert_eq!(
        gpui_update_text(&mut world.views, 0, None, 0, Some(b"x"), 1),
        GPUI_STATUS_TRUNCATED_BUFFER
    );
    assert_eq!(
        gpui_update_text(&mut world.views, 0, Some(b"count"), -1, Some(b"x"), 1),
        GPUI_STATUS_TRUNCATED_BUFFER
    );
}

#[test]
fn update_text_rejects_what_is_not_utf8() {
    let mut world = count_tree();
    assert_eq!(world.update_text(0, b"count", &[0xFF]), GPUI_STATUS_TRUNCATED_BUFFER);
    assert_eq!(world.update_text(0, &[0xC3], b"x"), GPUI_STATUS_TRUNCATED_BUFFER);
    assert_eq!(world.update_text(0, b"count", "é".as_bytes()), GPUI_STATUS_OK);
    assert_eq!(keyed_text(&world, "count").as_deref(), Some("é"));
}

#[test]
fn update_text_keyed_div_without_text_child_returns_not_found() {
    let mut b = Buf::new();
    b.div().op(OP_SET_KEY).str("root");
    b.div().op(OP_SET_KEY).str("empty");
    b.div();
    b.add_child();
    b.add_child();
    b.set_root();
    let mut world = built(&b);
    assert_eq!(world.update_text(0, b"empty", b"x"), GPUI_STATUS_KEY_NOT_FOUND);
}

#[test]
fn update_text_finds_the_first_text_child_wherever_it_stands() {
    let mut b = Buf::new();
    b.div().key("k");
    b.div().size(3.0, 4.0).add_child();
    b.text("a", 1, 2, 3, 12.0).add_child();
    b.text("later", 1, 2, 3, 12.0).add_child();
    b.set_root();
    let mut world = built(&b);
    assert_eq!(world.update_text(0, b"k", b"b"), GPUI_STATUS_OK);
    let children = &world.div(0).children;
    assert_eq!(children.len(), 3);
    assert_eq!(as_div(&children[0]).style.width, px(3.0));
    assert_eq!(as_text(&children[1]).content, "b");
    assert_eq!(as_text(&children[1]).color, (1, 2, 3));
    assert_eq!(as_text(&children[2]).content, "later");
}

#[test]
fn update_text_drops_runs_that_no_longer_fit() {
    let mut b = Buf::new();
    b.div().key("k");
    b.text("abcdef", 0, 0, 0, 12.0)
        .text_run(0, 1, RUN_STYLE_COLOR, (1, 2, 3, 4), 0, (0, 0, 0, 0))
        .text_run(4, 2, RUN_STYLE_ITALIC, (0, 0, 0, 0), 0, (0, 0, 0, 0))
        .add_child();
    b.set_root();
    let mut world = built(&b);
    let runs = |world: &World| -> Vec<(usize, usize)> {
        as_text(&world.div(0).children[0]).runs.iter().map(|run| (run.start, run.len)).collect()
    };
    assert_eq!(world.update_text(0, b"k", b"uvwxyz"), GPUI_STATUS_OK);
    assert_eq!(runs(&world), [(0, 1), (4, 2)]);
    assert_eq!(world.update_text(0, b"k", b"x"), GPUI_STATUS_OK);
    assert_eq!(runs(&world), [(0, 1)]);
    // The only boundaries of this text are its ends.
    assert_eq!(world.update_text(0, b"k", "é".as_bytes()), GPUI_STATUS_OK);
    assert_eq!(runs(&world), []);
    assert!(FfiView::new(0).render(&world.views).is_some());
}

#[test]
fn scroll_id_decodes_onto_div() {
    let mut b = Buf::new();
    b.div().op(OP_SET_SCROLL_ID).i32(7).set_root();
    assert_eq!(built(&b).style().scroll_id, Some(7));
}

#[test]
fn text_run_decodes_onto_text_node_in_order() {
    let mut b = Buf::new();
    b.text("abcdef", 0, 0, 0, 12.0)
        .text_run(0, 2, RUN_STYLE_COLOR | RUN_STYLE_WEIGHT, (1, 2, 3, 4), 700, (0, 0, 0, 0))
        .text_run(3, 2, RUN_STYLE_ITALIC, (0, 0, 0, 0), 0, (0, 0, 0, 0))
        .set_root();
    let world = built(&b);
    assert_eq!(
        as_text(world.root(0)).runs,
        vec![
            TextRunSpec {
                start: 0,
                len: 2,
                flags: RUN_STYLE_COLOR | RUN_STYLE_WEIGHT,
                color: (1, 2, 3, 4),
                weight: 700,
                background: (0, 0, 0, 0),
            },
            TextRunSpec {
                start: 3,
                len: 2,
                flags: RUN_STYLE_ITALIC,
                color: (0, 0, 0, 0),
                weight: 0,
                background: (0, 0, 0, 0),
            },
        ]
    );
}

#[test]
fn scroll_id_on_text_is_wrong_node_kind() {
    let mut b = Buf::new();
    b.text("x", 0, 0, 0, 1.0).op(OP_SET_SCROLL_ID).i32(1);
    assert_eq!(refused(&b), GPUI_STATUS_WRONG_NODE_KIND);
}

#[test]
fn text_run_accepts_multibyte_char_boundaries() {
    let mut b = Buf::new();
    b.text("あいう", 0, 0, 0, 12.0)
        .text_run(3, 3, RUN_STYLE_WEIGHT, (0, 0, 0, 0), 700, (0, 0, 0, 0))
        .set_root();
    built(&b);
}

#[test]
fn text_run_on_div_is_wrong_node_kind() {
    let mut b = Buf::new();
    b.div().text_run(0, 0, 0, (0, 0, 0, 0), 0, (0, 0, 0, 0));
    assert_eq!(refused(&b), GPUI_STATUS_WRONG_NODE_KIND);
}

#[test]
fn scroll_id_truncated_operand_is_rejected() {
    let mut b = Buf::new();
    b.div().op(OP_SET_SCROLL_ID).u8(1);
    assert_eq!(refused(&b), GPUI_STATUS_TRUNCATED_BUFFER);
}

#[test]
fn text_run_rejects_out_of_bounds() {
    let mut b = Buf::new();
    b.text("ab", 0, 0, 0, 12.0).text_run(1, 5, 0, (0, 0, 0, 0), 0, (0, 0, 0, 0));
    assert_eq!(refused(&b), GPUI_STATUS_INVALID_TEXT_RUN);
}

#[test]
fn text_run_rejects_an_end_out_of_memory() {
    let mut b = Buf::new();
    b.text("ab", 0, 0, 0, 12.0).text_run(u32::MAX, u32::MAX, 0, (0, 0, 0, 0), 0, (0, 0, 0, 0));
    assert_eq!(refused(&b), GPUI_STATUS_INVALID_TEXT_RUN);
}

#[test]
fn text_run_rejects_non_char_boundary() {
    let mut b = Buf::new();
    b.text("あ", 0, 0, 0, 12.0).text_run(1, 1, 0, (0, 0, 0, 0), 0, (0, 0, 0, 0));
    assert_eq!(refused(&b), GPUI_STATUS_INVALID_TEXT_RUN);
}

#[test]
fn text_run_rejects_overlapping_or_unsorted_runs() {
    let mut b = Buf::new();
    b.text("abcdef", 0, 0, 0, 12.0)
        .text_run(0, 3, 0, (0, 0, 0, 0), 0, (0, 0, 0, 0))
        .text_run(2, 2, 0, (0, 0, 0, 0), 0, (0, 0, 0, 0));
    assert_eq!(refused(&b), GPUI_STATUS_INVALID_TEXT_RUN);
}

#[test]
fn text_run_rejects_unknown_flag_bits() {
    let mut b = Buf::new();
    b.text("ab", 0, 0, 0, 12.0).text_run(0, 1, 0x40, (0, 0, 0, 0), 0, (0, 0, 0, 0));
    assert_eq!(refused(&b), GPUI_STATUS_INVALID_TEXT_RUN);
}

#[test]
fn text_run_truncated_operands_are_rejected() {
    let mut b = Buf::new();
    b.text("ab", 0, 0, 0, 12.0).op(OP_TEXT_RUN).u32(0);
    assert_eq!(refused(&b), GPUI_STATUS_TRUNCATED_BUFFER);
}

#[test]
fn rebuild_prunes_removed_scroll_ids_per_view() {
    let mut world = World::new();
    let mut buf = [0u8; SCROLL_STATE_BYTES];
    let nothing = ScrollMirrorEntry { offset: (0, 0), max: (0, 0), viewport: (0, 0) };

    let mut with_id = Buf::new();
    with_id.div().op(OP_SET_SCROLL_ID).i32(7).set_root();
    assert_eq!(with_id.build(&mut world, 0), GPUI_STATUS_OK);
    assert!(!world.scroll.observe(0, 7, (0, 0), (0, 0), (0, 0)));
    world.scroll.scroll_mirror_update(1, 7, nothing);

    assert_eq!(with_id.build(&mut world, 0), GPUI_STATUS_OK);
    assert_eq!(
        gpui_scroll_copy_state(&world.scroll, 0, 7, Some(&mut buf), SCROLL_STATE_BYTES as i32),
        SCROLL_STATE_BYTES as i32
    );

    let mut without_id = Buf::new();
    without_id.div().set_root();
    assert_eq!(without_id.build(&mut world, 0), GPUI_STATUS_OK);
    assert_eq!(
        gpui_scroll_copy_state(&world.scroll, 0, 7, Some(&mut buf), SCROLL_STATE_BYTES as i32),
        GPUI_STATUS_KEY_NOT_FOUND
    );
    // What was announced is forgotten too: another offset is seen for the
    // first time, and is not announced.
    let max = 100.0f32.to_bits();
    assert!(!world.scroll.observe(0, 7, ((-5.0f32).to_bits(), 0), (max, max), (0, 0)));
    assert_eq!(
        gpui_scroll_copy_state(&world.scroll, 1, 7, Some(&mut buf), SCROLL_STATE_BYTES as i32),
        SCROLL_STATE_BYTES as i32
    );
}

#[test]
fn decoder_rejection_surfaces_status() {
    let mut buf = Buf::new();
    buf.div().key("box").size(10.0, 10.0).set_root();
    buf.0[0] = b'X';
    assert_eq!(refused(&buf), GPUI_STATUS_BAD_BUFFER_VERSION);
    buf.0[0] = b'G';
    let style = built(&buf).style();
    assert_eq!((style.width, style.height), (px(10.0), px(10.0)));
}

const NON_FINITE_PROBES: [(&str, f32); 3] =
    [("+inf", f32::INFINITY), ("-inf", f32::NEG_INFINITY), ("NaN", f32::NAN)];

#[test]
fn op_text_rejects_non_finite_size() {
    for (label, v) in NON_FINITE_PROBES {
        let mut b = Buf::new();
        b.text("Hello", 255, 255, 255, v).set_root();
        assert_eq!(refused(&b), GPUI_STATUS_INVALID_FLOAT, "OP_TEXT size={label}");
    }
}

#[test]
fn op_set_size_rejects_non_finite() {
    for (label, v) in NON_FINITE_PROBES {
        let mut b = Buf::new();
        b.div().key("box").size(v, v).set_root();
        assert_eq!(refused(&b), GPUI_STATUS_INVALID_FLOAT, "OP_SET_SIZE w=h={label}");
    }
}

#[test]
fn op_set_gap_rejects_non_finite() {
    for (label, v) in NON_FINITE_PROBES {
        let mut b = Buf::new();
        b.div().key("box").op(OP_SET_FLEX).u8(0).op(OP_SET_GAP).f32(v).set_root();
        assert_eq!(refused(&b), GPUI_STATUS_INVALID_FLOAT, "OP_SET_GAP={label}");
    }
}

#[test]
fn op_set_rounded_rejects_non_finite() {
    for (label, v) in NON_FINITE_PROBES {
        let mut b = Buf::new();
        b.div().key("box").size(100.0, 50.0).op(OP_SET_ROUNDED).f32(v).set_root();
        assert_eq!(refused(&b), GPUI_STATUS_INVALID_FLOAT, "OP_SET_ROUNDED radius={label}");
    }
}

#[test]
fn op_set_padding_rejects_non_finite() {
    for (label, v) in NON_FINITE_PROBES {
        let mut b = Buf::new();
        b.div().key("box").size(100.0, 50.0).op(OP_SET_PADDING).f32(v).set_root();
        assert_eq!(refused(&b), GPUI_STATUS_INVALID_FLOAT, "OP_SET_PADDING padding={label}");
    }
}

#[test]
fn op_set_border_rejects_non_finite() {
    for (label, v) in NON_FINITE_PROBES {
        let mut b = Buf::new();
        b.div()
            .key("box")
            .size(100.0, 50.0)
            .op(OP_SET_BORDER)
            .f32(v)
            .u8(0)
            .u8(0)
            .u8(0)
            .set_root();
        assert_eq!(refused(&b), GPUI_STATUS_INVALID_FLOAT, "OP_SET_BORDER width={label}");
    }
}

#[test]
fn op_set_size_clamps_extreme_to_finite() {
    let mut b = Buf::new();
    b.div().key("box").size(f32::MAX, f32::MAX).set_root();
    let style = built(&b).style();
    assert_eq!(style.width, px(1_000_000.0));
    assert_eq!(style.height, px(1_000_000.0));
}

#[test]
fn op_set_gap_clamps_extreme_to_finite() {
    let mut b = Buf::new();
    b.div()
        .key("row")
        .op(OP_SET_FLEX)
        .u8(0)
        .op(OP_SET_GAP)
        .f32(f32::MAX)
        .div()
        .key("a")
        .size(30.0, 20.0)
        .add_child()
        .div()
        .key("b")
        .size(40.0, 25.0)
        .add_child()
        .set_root();
    assert_eq!(built(&b).style().gap, px(1_000_000.0));
}

#[test]
fn negative_extreme_is_clamped_too() {
    let mut b = Buf::new();
    b.div().size(f32::MIN, -999_999.5).set_root();
    let style = built(&b).style();
    assert_eq!(style.width, px(-1_000_000.0));
    assert_eq!(style.height, px(-999_999.5));
}

#[test]
fn op_set_size_negative_is_ignored() {
    let mut b = Buf::new();
    b.div().key("box").size(-1.0, -1.0).set_root();
    let world = built(&b);
    assert_eq!(world.style().width, px(-1.0));
    let plan = FfiView::new(0).render(&world.views).expect("a plan");
    match plan {
        gpui_sys::render::ElementPlan::Div(div) => {
            assert_eq!(div.traits.style.size, None);
            assert!(div.traits.style.fills);
        }
        _ => panic!("expected a div"),
    }
}

/// Divs nested to a depth, the outermost being the root.
fn nested_chain(depth: usize) -> Buf {
    let mut b = Buf::new();
    for _ in 0..depth {
        b.div();
    }
    for _ in 1..depth {
        b.add_child();
    }
    b.key("leaf").set_root();
    b
}

#[test]
fn tree_at_max_depth_renders() {
    let world = built(&nested_chain(MAX_TREE_DEPTH as usize));
    assert!(FfiView::new(0).render(&world.views).is_some());
}

#[test]
fn tree_past_max_depth_is_rejected() {
    assert_eq!(refused(&nested_chain(MAX_TREE_DEPTH as usize + 1)), GPUI_STATUS_DEPTH_EXCEEDED);
}

/// Writes a node as commands: the node, what describes it, its children.
fn write_node(b: &mut Buf, node: &UiNode) {
    match node {
        UiNode::Div(div) => {
            b.div();
            write_style(b, &div.style);
            if let Some(key) = &div.key {
                b.key(key);
            }
            if let Some(family) = &div.font_family {
                b.op(OP_SET_FONT_FAMILY).str(family);
            }
            for child in &div.children {
                write_node(b, child);
                b.add_child();
            }
        }
        UiNode::Text(text) => {
            let (red, green, blue) = text.color;
            b.text(&text.content, red, green, blue, f32::from_bits(text.size.bits));
            for run in &text.runs {
                b.text_run(
                    run.start as u32,
                    run.len as u32,
                    run.flags,
                    run.color,
                    run.weight,
                    run.background,
                );
            }
            if let Some(row) = &text.row {
                b.text_row(&row.key, row.caret, row.color, row.blink);
            }
        }
        UiNode::TextInput(input) => {
            b.op(OP_TEXT_INPUT).i32(input.input_id).str(&input.placeholder);
        }
    }
}

fn write_style(b: &mut Buf, style: &DivStyle) {
    b.op(OP_SET_SIZE).u32(style.width.bits).u32(style.height.bits);
    if let Some((red, green, blue)) = style.bg {
        b.op(OP_SET_BG).u8(red).u8(green).u8(blue);
    }
    if style.flex {
        b.op(OP_SET_FLEX).u8(style.flex_col as u8);
    }
    if style.center {
        b.op(OP_SET_CENTER);
    }
    b.op(OP_SET_GAP).u32(style.gap.bits);
    b.op(OP_SET_ROUNDED).u32(style.rounded.bits);
    b.op(OP_SET_PADDING).u32(style.padding.bits);
    if let Some((red, green, blue)) = style.border_color {
        b.op(OP_SET_BORDER).u32(style.border_width.bits).u8(red).u8(green).u8(blue);
    }
    for (opcode, color) in [(OP_SET_BG_COLOR, style.bg_color), (OP_SET_TEXT_COLOR, style.text_color)] {
        if let Some((red, green, blue, alpha)) = color {
            b.op(opcode).u8(red).u8(green).u8(blue).u8(alpha);
        }
    }
    for (opcode, sides) in [
        (OP_SET_MARGIN, style.margin),
        (OP_SET_INSET, style.inset),
        (OP_SET_PADDING_SIDES, style.padding_sides),
    ] {
        if let Some((top, right, bottom, left)) = sides {
            b.op(opcode).i32(top).i32(right).i32(bottom).i32(left);
        }
    }
    for (opcode, pair) in [
        (OP_SET_MIN_SIZE, style.min_size),
        (OP_SET_MAX_SIZE, style.max_size),
        (OP_SET_ALIGN, style.align),
        (OP_SET_OVERFLOW, style.overflow),
    ] {
        if let Some((first, second)) = pair {
            b.op(opcode).i32(first).i32(second);
        }
    }
    if let Some((grow, shrink, basis)) = style.flex_item {
        b.op(OP_SET_FLEX_ITEM).i32(grow).i32(shrink).i32(basis);
    }
    if let Some(shadow) = style.shadow {
        b.op(OP_SET_SHADOW).i32(shadow.x).i32(shadow.y).i32(shadow.blur).i32(shadow.spread);
        b.u8(shadow.color.0).u8(shadow.color.1).u8(shadow.color.2).u8(shadow.color.3);
    }
    for (opcode, word) in [
        (OP_SET_OPACITY, style.opacity),
        (OP_SET_CURSOR, style.cursor),
        (OP_SET_POSITION, style.position),
        (OP_SET_TEXT_SIZE, style.text_size),
        (OP_SET_FONT_WEIGHT, style.font_weight),
        (OP_SET_LINE_HEIGHT, style.line_height),
        (OP_SET_TEXT_ALIGN, style.text_align),
        (OP_SET_WHITESPACE, style.whitespace),
        (OP_SET_ON_CLICK, style.on_click),
        (OP_SET_FOCUSABLE, style.focusable.map(i32::from)),
        (OP_SET_TAB_INDEX, style.tab_index.map(|index| index as i32)),
        (OP_SET_TAB_STOP, style.tab_stop.map(i32::from)),
        (OP_SET_SCROLL_ID, style.scroll_id),
    ] {
        if let Some(word) = word {
            b.op(opcode).i32(word);
        }
    }
}

/// A tree with every kind of node and every setter.
fn full_tree() -> Buf {
    let mut b = Buf::new();
    b.div().key("root").size(640.0, 480.0);
    b.op(OP_SET_BG).u8(1).u8(2).u8(3);
    b.op(OP_SET_FLEX).u8(1);
    b.op(OP_SET_CENTER);
    b.op(OP_SET_GAP).f32(1.5).op(OP_SET_ROUNDED).f32(2.5).op(OP_SET_PADDING).f32(3.5);
    b.op(OP_SET_BORDER).f32(4.5).u8(4).u8(5).u8(6);
    b.op(OP_SET_BG_COLOR).u8(7).u8(8).u8(9).u8(10);
    b.op(OP_SET_MARGIN).i32(-1).i32(2).i32(-3).i32(4);
    b.op(OP_SET_MIN_SIZE).i32(11).i32(12).op(OP_SET_MAX_SIZE).i32(13).i32(14);
    b.op(OP_SET_FLEX_ITEM).i32(1).i32(0).i32(-1);
    b.op(OP_SET_ALIGN).i32(ALIGN_CENTER).i32(JUSTIFY_SPACE_BETWEEN);
    b.op(OP_SET_OVERFLOW).i32(OVERFLOW_HIDDEN).i32(OVERFLOW_SCROLL);
    b.op(OP_SET_OPACITY).i32(500).op(OP_SET_CURSOR).i32(CURSOR_POINTER);
    b.op(OP_SET_SHADOW).i32(1).i32(-2).i32(3).i32(4).u8(1).u8(2).u8(3).u8(4);
    b.op(OP_SET_POSITION).i32(POSITION_ABSOLUTE);
    b.op(OP_SET_INSET).i32(1).i32(2).i32(3).i32(4);
    b.op(OP_SET_PADDING_SIDES).i32(5).i32(6).i32(7).i32(8);
    b.div().op(OP_SET_FONT_FAMILY).str("monospace");
    b.op(OP_SET_TEXT_SIZE).i32(14).op(OP_SET_TEXT_COLOR).u8(1).u8(2).u8(3).u8(255);
    b.op(OP_SET_FONT_WEIGHT).i32(700).op(OP_SET_LINE_HEIGHT).i32(1500);
    b.op(OP_SET_TEXT_ALIGN).i32(TEXT_ALIGN_CENTER).op(OP_SET_WHITESPACE).i32(WHITESPACE_NOWRAP);
    b.op(OP_SET_ON_CLICK).i32(21).op(OP_SET_FOCUSABLE).i32(1).op(OP_SET_TAB_INDEX).i32(-1);
    b.op(OP_SET_TAB_STOP).i32(0).op(OP_SET_SCROLL_ID).i32(9);
    b.text("aé🎉z", 9, 8, 7, 12.5)
        .text_run(0, 3, RUN_STYLE_COLOR | RUN_STYLE_WEIGHT, (1, 2, 3, 4), 700, (0, 0, 0, 0))
        .text_run(3, 4, RUN_STYLE_ITALIC, (0, 0, 0, 0), 0, (5, 6, 7, 8))
        .text_row("row", Some(3), (10, 20, 30), true)
        .add_child();
    b.add_child();
    b.op(OP_TEXT_INPUT).i32(5).str("type here").add_child();
    b.set_root();
    b
}

#[test]
fn a_written_tree_is_decoded_to_itself() {
    let first = built(&full_tree());
    let mut b = Buf::new();
    write_node(&mut b, first.root(0));
    b.set_root();
    let second = built(&b);
    assert_eq!(first.root(0), second.root(0));
    assert_eq!(second.style().shadow.map(|shadow| shadow.blur), Some(3));
    assert_eq!(as_div(&second.div(0).children[0]).style.tab_index, Some(-1));
}

#[test]
fn a_buffer_cut_within_a_command_is_truncated_and_commits_nothing() {
    let mut b = Buf::new();
    b.text("kept", 0, 0, 0, 12.0).set_root();
    let commands = [
        (OP_TEXT, {
            let mut tail = Buf(Vec::new());
            tail.text("abc", 1, 2, 3, 4.0);
            tail
        }),
        (OP_SET_SHADOW, {
            let mut tail = Buf(Vec::new());
            tail.op(OP_SET_SHADOW).i32(1).i32(2).i32(3).i32(4).u8(1).u8(2).u8(3).u8(4);
            tail
        }),
        (OP_SET_KEY, {
            let mut tail = Buf(Vec::new());
            tail.key("k");
            tail
        }),
        (OP_SET_TEXT_ROW, {
            let mut tail = Buf(Vec::new());
            tail.text_row("row", Some(4), (10, 20, 30), false);
            tail
        }),
        (OP_TEXT_INPUT, {
            let mut tail = Buf(Vec::new());
            tail.op(OP_TEXT_INPUT).i32(1).str("p");
            tail
        }),
    ];
    for (opcode, command) in commands {
        let mut world = built(&b);
        for cut in 1..command.0.len() {
            let mut whole = Buf::new();
            whole.div();
            whole.0.extend_from_slice(&command.0[..cut]);
            assert_eq!(whole.build(&mut world, 0), GPUI_STATUS_TRUNCATED_BUFFER, "{opcode} at {cut}");
            assert_eq!(as_text(world.root(0)).content, "kept");
        }
    }
}

/// The row of the text at the root.
fn root_row(world: &World) -> Option<&TextRow> {
    as_text(world.root(0)).row.as_ref()
}

#[test]
fn a_row_record_makes_the_text_on_top_a_row() {
    let mut b = Buf::new();
    b.text("aあbc", 0, 0, 0, 20.0).text_row("first", None, (1, 2, 3), true);
    b.text_row("row", Some(4), (10, 20, 30), false).set_root();
    let world = built(&b);
    let expected = TextRow { key: "row".to_string(), caret: Some(4), color: (10, 20, 30), blink: false };
    assert_eq!(root_row(&world), Some(&expected));
    // Without a caret the offset is not looked at, and any other byte than zero
    // is a yes.
    let mut b = Buf::new();
    b.text("a", 0, 0, 0, 20.0);
    b.op(OP_SET_TEXT_ROW).str("k").u8(0).u32(77).u8(1).u8(2).u8(3).u8(9).set_root();
    let expected = TextRow { key: "k".to_string(), caret: None, color: (1, 2, 3), blink: true };
    assert_eq!(root_row(&built(&b)), Some(&expected));
    let mut b = Buf::new();
    b.text("a", 0, 0, 0, 20.0).op(OP_SET_TEXT_ROW).u32(1).u8(0xFF).u8(7).u32(0).u8(0).u8(0).u8(0).u8(0).set_root();
    let expected = TextRow { key: "\u{FFFD}".to_string(), caret: Some(0), color: (0, 0, 0), blink: false };
    assert_eq!(root_row(&built(&b)), Some(&expected));
}

#[test]
fn a_row_record_belongs_to_a_text() {
    let mut b = Buf::new();
    b.text_row("row", None, (0, 0, 0), false).set_root();
    assert_eq!(refused(&b), GPUI_STATUS_INVALID_HANDLE);
    let mut b = Buf::new();
    b.div().text_row("row", None, (0, 0, 0), false).set_root();
    assert_eq!(refused(&b), GPUI_STATUS_WRONG_NODE_KIND);
    let mut b = Buf::new();
    b.op(OP_TEXT_INPUT).i32(1).str("p").text_row("row", None, (0, 0, 0), false).set_root();
    assert_eq!(refused(&b), GPUI_STATUS_WRONG_NODE_KIND);
    let mut b = Buf::new();
    b.div().op(OP_SET_TEXT_ROW + 1).set_root();
    assert_eq!(refused(&b), GPUI_STATUS_UNKNOWN_OPCODE);
}

/// The plan of the row of the only child.
fn planned_row(world: &World) -> Option<(String, Option<CaretPlan>)> {
    let plan = FfiView::new(0).render(&world.views).expect("a plan");
    match plan {
        ElementPlan::Div(div) => match &div.children[0] {
            ElementPlan::Text(text) => text.row.as_ref().map(|row| (row.key.clone(), row.caret)),
            _ => panic!("expected a text"),
        },
        _ => panic!("expected a div"),
    }
}

#[test]
fn a_caret_is_planned_only_between_characters() {
    let mut b = Buf::new();
    b.div().key("k");
    b.text("aあbc", 0, 0, 0, 20.0).text_row("row", Some(4), (1, 2, 3), true).add_child();
    b.set_root();
    let mut world = built(&b);
    let caret = CaretPlan { at: 4, color: 0x010203, blink: true };
    assert_eq!(planned_row(&world), Some(("row".to_string(), Some(caret))));
    // The row outlives the text; its caret is painted where it fits.
    assert_eq!(world.update_text(0, b"k", "aaあ".as_bytes()), GPUI_STATUS_OK);
    assert_eq!(planned_row(&world), Some(("row".to_string(), None)));
    assert_eq!(world.update_text(0, b"k", b"abc"), GPUI_STATUS_OK);
    assert_eq!(planned_row(&world), Some(("row".to_string(), None)));
    assert_eq!(world.update_text(0, b"k", b"abcd"), GPUI_STATUS_OK);
    assert_eq!(planned_row(&world), Some(("row".to_string(), Some(caret))));
}

/// Lays a row out on one line, every character twelve pixels wide.
fn stub_position(content: &str, at: usize) -> Option<(u32, u32)> {
    let before = content.get(..at)?.chars().count();
    Some(((before as f32 * 12.0).to_bits(), 40.0f32.to_bits()))
}

/// The offset that is nearest to a position on that line.
fn stub_index(content: &str, x: f32, y: f32) -> usize {
    let count = content.chars().count();
    let before = if y < 40.0 || x < 0.0 { 0 } else { ((x / 12.0) as usize).min(count) };
    content.char_indices().nth(before).map_or(content.len(), |(at, _)| at)
}

#[test]
fn text_row_metrics_and_caret_roundtrip() {
    let content = "aあbc"; // bytes: a=0, あ=1..4, b=4, c=5; len 6
    let mut b = Buf::new();
    b.div();
    b.div().key("probe:clear").add_child();
    b.div().key("row").op(OP_TEXT).u32(content.len() as u32);
    b.0.extend_from_slice(content.as_bytes());
    b.u8(0).u8(0).u8(0).f32(20.0);
    b.op(OP_SET_TEXT_ROW).u32(3);
    b.0.extend_from_slice(b"row");
    b.u8(1).u32(4).u8(10).u8(20).u8(30).u8(0);
    b.add_child().add_child().set_root();
    let world = built(&b);
    let div = as_div(&world.div(0).children[1]);
    let text = as_text(&div.children[0]);
    let row = text.row.as_ref().expect("a row");
    assert_eq!((row.key.as_str(), row.caret, row.color, row.blink), ("row", Some(4), (10, 20, 30), false));

    // The frame: the clearing div is laid out first, then the row.
    let (mut rows, mut probes) = (RowTable::new(), ProbeTable::new());
    rows.observe("stale", "x");
    rows.observe_div("probe:clear");
    probes.observe("probe:clear", (0, 0, 0, 0));
    rows.observe(&row.key, &text.content);
    let (x, y) = stub_position(&text.content, 4).expect("a position");
    observe_caret(&mut probes, (x, y), 24.0f32.to_bits());

    let key = b"row";
    let x_for_char = |idx: i32| -> Option<(f32, f32)> {
        let mut out = [0u8; 8];
        let place = |key: &str, at: usize| {
            assert_eq!(key, "row");
            stub_position(content, at)
        };
        if gpui_text_x_for_char(&rows, Some(key), key.len() as i32, idx, Some(&mut out), place) != 0 {
            return None;
        }
        let quarter =
            |i: usize| -> f32 { i32::from_le_bytes(out[i * 4..i * 4 + 4].try_into().unwrap()) as f32 / 4.0 };
        Some((quarter(0), quarter(1)))
    };
    let (x0, y0) = x_for_char(0).expect("char 0");
    let (x1, _) = x_for_char(1).expect("char 1 (multibyte start)");
    let (x2, y2) = x_for_char(2).expect("char 2");
    let (x3, _) = x_for_char(3).expect("char 3");
    let (x4, _) = x_for_char(4).expect("char count == row-end insertion point");
    assert_eq!(x_for_char(5), None, "char past the end must miss");
    assert_eq!(x_for_char(-1), None);
    for unknown in [&b"never-painted"[..], &b"stale"[..]] {
        assert_eq!(
            gpui_text_x_for_char(&rows, Some(unknown), unknown.len() as i32, 0, Some(&mut [0u8; 8]), |_, _| panic!()),
            -1,
            "unknown key must miss"
        );
    }
    for (label, a, b) in [("0→1", x0, x1), ("1→2", x1, x2), ("2→3", x2, x3), ("3→end", x3, x4)] {
        assert!((b - a - 12.0).abs() < 0.26, "{label}: expected one 12px glyph, got {:.3}", b - a);
    }
    assert_eq!(y0, y2, "single wrapped line shares y");

    let char_at = |x: f32, y: f32| -> Option<i32> {
        let mut out = [0u8; 4];
        let status = gpui_text_char_for_position(
            &rows,
            Some(key),
            key.len() as i32,
            (x * 4.0).round() as i32,
            (y * 4.0).round() as i32,
            Some(&mut out),
            |key, x, y| {
                assert_eq!(key, "row");
                Some(stub_index(content, x as f32 / 4.0, y as f32 / 4.0))
            },
        );
        (status == 0).then(|| i32::from_le_bytes(out))
    };
    assert_eq!(char_at(x0 + 6.0, y0), Some(0));
    assert_eq!(char_at(x1 + 6.0, y0), Some(1));
    assert_eq!(char_at(x2 + 6.0, y2), Some(2));
    assert_eq!(char_at(x4 + 200.0, y0), Some(4));
    assert_eq!(char_at(x0 - 500.0, y0), Some(0));
    assert_eq!(char_at(x2, y0 - 500.0), Some(0));

    let mut probe = [0u8; 16];
    assert_eq!(
        gpui_probe_rect(&probes, Some(b"caret"), 5, Some(&mut probe)),
        0,
        "the caret must publish its rect under the IME anchor key"
    );
    let caret_x = i32::from_le_bytes(probe[0..4].try_into().unwrap()) as f32;
    let caret_w = i32::from_le_bytes(probe[8..12].try_into().unwrap()) as f32;
    assert!((caret_x - x2).abs() < 1.0, "caret x {caret_x} must sit at char 2's x {x2}");
    assert_eq!(caret_w, 2.0, "caret is the 2px bar");
}

#[test]
fn row_metrics_refuse_what_they_cannot_answer() {
    let mut rows = RowTable::new();
    rows.observe("row", "aあ");
    let mut point = [7u8; 8];
    let none = |_: &str, _: usize| -> Option<(u32, u32)> { None };
    assert_eq!(gpui_text_x_for_char(&rows, None, 3, 0, Some(&mut point), none), -1);
    assert_eq!(gpui_text_x_for_char(&rows, Some(b"row"), 3, 0, None, none), -1);
    assert_eq!(gpui_text_x_for_char(&rows, Some(b"row"), 0, 0, Some(&mut point), none), -1);
    assert_eq!(gpui_text_x_for_char(&rows, Some(&[0xFF]), 1, 0, Some(&mut point), none), -1);
    assert_eq!(gpui_text_x_for_char(&rows, Some(b"row"), 3, 0, Some(&mut point), none), -1);
    assert_eq!(point, [7u8; 8]);
    let mut index = [7u8; 4];
    for found in [None, Some(2), Some(5)] {
        let status =
            gpui_text_char_for_position(&rows, Some(b"row"), 3, 0, 0, Some(&mut index), |_, _, _| found);
        assert_eq!(status, -1);
        assert_eq!(index, [7u8; 4]);
    }
    let status = gpui_text_char_for_position(&rows, Some(b"row"), 3, 0, 0, Some(&mut index), |_, _, _| Some(4));
    assert_eq!((status, i32::from_le_bytes(index)), (0, 2));
    assert!(rows.text("row").is_some());
    rows.observe_div("probe:other");
    assert!(rows.text("row").is_some());
    rows.observe_div("probe:clear");
    assert!(rows.text("row").is_none());
}

#[test]
fn characters_and_bytes_lead_to_each_other() {
    let content = "aあ🎉";
    let offsets = [0, 1, 4, 8];
    for (index, at) in offsets.iter().enumerate() {
        assert_eq!(byte_of_char(content, index as i32), Some(*at));
        assert_eq!(char_of_byte(content, *at), Some(index));
    }
    assert_eq!(byte_of_char(content, 4), None);
    assert_eq!(byte_of_char(content, -1), None);
    for at in [2, 3, 5, 6, 7, 9, usize::MAX] {
        assert_eq!(char_of_byte(content, at), None);
    }
    assert_eq!(byte_of_char("", 0), Some(0));
    assert_eq!(char_of_byte("", 0), Some(0));
}

#[test]
fn positions_are_counted_in_quarter_pixels() {
    for (value, expected) in [
        (0.0f32, 0),
        (-0.0, 0),
        (12.0, 48),
        (0.125, 1),
        (0.124, 0),
        (-0.125, -1),
        (-12.3, -49),
        (1.0e9, i32::MAX),
        (-1.0e9, i32::MIN),
        (f32::MAX, i32::MAX),
        (f32::MIN, i32::MIN),
        (f32::MIN_POSITIVE / 2.0, 0),
        (f32::INFINITY, i32::MAX),
        (f32::NEG_INFINITY, i32::MIN),
        (f32::NAN, 0),
    ] {
        assert_eq!(round_to_quarters(value.to_bits()), expected, "{value}");
        assert_eq!(round_to_quarters(value.to_bits()), (value * 4.0).round() as i32, "{value}");
    }
}

#[test]
fn a_caret_blinks_where_it_is_asked_to() {
    assert!(caret_is_shown(false, 700));
    assert!(caret_is_shown(true, 0));
    assert!(caret_is_shown(true, CARET_BLINK_MS - 1));
    assert!(!caret_is_shown(true, CARET_BLINK_MS));
    assert!(caret_is_shown(true, 2 * CARET_BLINK_MS));
}
