//! What a tree becomes: styles, identities, spans.
use gpui_sys::abi::{
    ALIGN_DEFAULT, ALIGN_STRETCH, CURSOR_NONE, JUSTIFY_SPACE_AROUND, OVERFLOW_HIDDEN, OVERFLOW_SCROLL,
    OVERFLOW_VISIBLE, POSITION_ABSOLUTE, RUN_STYLE_BACKGROUND, RUN_STYLE_COLOR, RUN_STYLE_ITALIC,
    RUN_STYLE_STRIKETHROUGH, RUN_STYLE_UNDERLINE, RUN_STYLE_WEIGHT, TEXT_ALIGN_JUSTIFY, WHITESPACE_PRE,
    WHITESPACE_PRE_WRAP,
};
use gpui_sys::float::LayoutPx;
use gpui_sys::node::{DivNode, DivStyle, InputNode, TextNode, TextRunSpec, UiNode};
use gpui_sys::plan::{plan_box_style, Background, Padding};
use gpui_sys::render::{key_identity, probes, render_node, Counters, DivPlan, ElementPlan, Identity};
use gpui_sys::style::{
    highlight_for_run, map_align_items, map_cursor, map_justify_content, map_overflow, map_position, map_text_align,
    map_whitespace, pack_rgb, pack_rgba, px_or_auto, AlignItems, CursorStyle, JustifyContent, Length, Overflow,
    Position, TextAlign, WhiteSpace,
};

fn px(value: f32) -> LayoutPx {
    LayoutPx { bits: value.to_bits() }
}

fn div(style: DivStyle, key: Option<&str>, children: Vec<UiNode>) -> UiNode {
    UiNode::Div(DivNode { style, font_family: None, key: key.map(str::to_string), children })
}

fn scrolling() -> DivStyle {
    let mut style = DivStyle::plain();
    style.overflow = Some((OVERFLOW_HIDDEN, OVERFLOW_SCROLL));
    style
}

fn focusable() -> DivStyle {
    let mut style = DivStyle::plain();
    style.focusable = Some(true);
    style
}

fn planned(node: &UiNode) -> DivPlan {
    match render_node(node, true, Counters { scroll: 0, focus: 0 }).0 {
        ElementPlan::Div(plan) => plan,
        _ => panic!("expected a div"),
    }
}

fn child(plan: &DivPlan, i: usize) -> &DivPlan {
    match &plan.children[i] {
        ElementPlan::Div(plan) => plan,
        _ => panic!("expected a div"),
    }
}

#[test]
fn style_ids_are_mapped() {
    assert_eq!(map_align_items(ALIGN_DEFAULT), None);
    assert_eq!(map_align_items(ALIGN_STRETCH), Some(AlignItems::Stretch));
    assert_eq!(map_align_items(99), None);
    assert_eq!(map_justify_content(JUSTIFY_SPACE_AROUND), Some(JustifyContent::SpaceAround));
    assert_eq!(map_overflow(OVERFLOW_VISIBLE), Some(Overflow::Visible));
    assert_eq!(map_overflow(-1), None);
    assert_eq!(map_cursor(CURSOR_NONE), Some(CursorStyle::Hidden));
    assert_eq!(map_cursor(99), None);
    assert_eq!(map_text_align(TEXT_ALIGN_JUSTIFY), Some(TextAlign::Left));
    assert_eq!(map_whitespace(WHITESPACE_PRE), Some(WhiteSpace::Nowrap));
    assert_eq!(map_whitespace(WHITESPACE_PRE_WRAP), Some(WhiteSpace::Normal));
    assert_eq!(map_position(POSITION_ABSOLUTE), Some(Position::Absolute));
    assert_eq!(px_or_auto(0), Length::Pixels(0));
    assert_eq!(px_or_auto(-1), Length::Auto);
}

#[test]
fn colors_are_packed() {
    assert_eq!(pack_rgb((0x12, 0x34, 0x56)), 0x12_34_56);
    assert_eq!(pack_rgba((0x12, 0x34, 0x56, 0x78)), 0x12_34_56_78);
}

#[test]
fn runs_override_what_their_flags_name() {
    let mut run = TextRunSpec {
        start: 0,
        len: 1,
        flags: 0,
        color: (1, 2, 3, 4),
        weight: 1000,
        background: (5, 6, 7, 8),
    };
    let plain = highlight_for_run(&run);
    assert_eq!((plain.color, plain.font_weight, plain.background_color), (None, None, None));
    assert!(!plain.italic && !plain.underline && !plain.strikethrough);
    run.flags = RUN_STYLE_COLOR | RUN_STYLE_WEIGHT | RUN_STYLE_UNDERLINE;
    let some = highlight_for_run(&run);
    assert_eq!(some.color, Some(0x01_02_03_04));
    assert_eq!(some.font_weight, Some(900));
    assert!(some.underline && !some.italic && !some.strikethrough);
    assert_eq!(some.background_color, None);
    run.flags = RUN_STYLE_ITALIC | RUN_STYLE_STRIKETHROUGH | RUN_STYLE_BACKGROUND;
    let others = highlight_for_run(&run);
    assert_eq!(others.background_color, Some(0x05_06_07_08));
    assert!(others.italic && others.strikethrough && !others.underline);
    assert_eq!((others.color, others.font_weight), (None, None));
}

#[test]
fn sizes_and_lengths_count_where_they_are_positive() {
    let mut style = DivStyle::plain();
    style.width = px(10.0);
    style.height = px(0.0);
    style.gap = px(-1.0);
    style.rounded = px(2.5);
    style.padding = px(3.0);
    let plan = plan_box_style(&style, false);
    assert_eq!(plan.size, None);
    assert_eq!(plan.gap, None);
    assert_eq!(plan.rounded, Some(px(2.5)));
    assert_eq!(plan.padding, Some(Padding::Uniform(px(3.0))));
    style.height = px(20.0);
    style.padding_sides = Some((1, 2, 3, 4));
    let plan = plan_box_style(&style, true);
    assert_eq!(plan.size, Some((px(10.0), px(20.0))));
    assert_eq!(plan.padding, Some(Padding::BySide((1, 2, 3, 4))));
    assert!(plan.fills);
}

#[test]
fn color_with_alpha_goes_before_the_other() {
    let mut style = DivStyle::plain();
    style.bg = Some((1, 2, 3));
    assert_eq!(plan_box_style(&style, false).background, Some(Background::Opaque(0x01_02_03)));
    style.bg_color = Some((4, 5, 6, 7));
    assert_eq!(plan_box_style(&style, false).background, Some(Background::WithAlpha(0x04_05_06_07)));
}

#[test]
fn negative_sizes_are_left_to_the_layout() {
    let mut style = DivStyle::plain();
    style.min_size = Some((100, -1));
    style.max_size = Some((-1, 400));
    style.flex_item = Some((1500, 500, -1));
    style.inset = Some((10, -1, 20, -1));
    let plan = plan_box_style(&style, false);
    assert_eq!((plan.min_width, plan.min_height), (Some(100), None));
    assert_eq!((plan.max_width, plan.max_height), (None, Some(400)));
    assert_eq!(plan.flex_item.expect("a flex item").basis, Length::Auto);
    let inset = plan.inset.expect("an inset");
    assert_eq!((inset.top, inset.right), (Length::Pixels(10), Length::Auto));
    assert_eq!((inset.bottom, inset.left), (Length::Pixels(20), Length::Auto));
}

#[test]
fn identities_follow_keys_then_clicks_then_numbers() {
    let mut clickable = scrolling();
    clickable.on_click = Some(9);
    let mut placed = DivStyle::plain();
    placed.tab_index = Some(2);
    let root = div(
        scrolling(),
        None,
        vec![
            div(clickable, Some("k"), vec![]),
            div(clickable, None, vec![]),
            div(scrolling(), None, vec![]),
            div(focusable(), None, vec![div(placed, None, vec![])]),
            div(DivStyle::plain(), None, vec![]),
        ],
    );
    let plan = planned(&root);
    assert_eq!(child(&plan, 0).traits.identity, Identity::Key);
    assert_eq!(child(&plan, 0).traits.click, Some(9));
    assert_eq!(child(&plan, 1).traits.identity, Identity::Click(9));
    assert_eq!(child(&plan, 2).traits.identity, Identity::Scroll(0));
    assert_eq!(child(child(&plan, 3), 0).traits.identity, Identity::Focus(0));
    assert_eq!(child(&plan, 3).traits.identity, Identity::Focus(1));
    assert_eq!(child(&plan, 4).traits.identity, Identity::Anonymous);
    assert_eq!(plan.traits.identity, Identity::Scroll(1));
    assert!(plan.traits.style.fills);
    assert!(!child(&plan, 0).traits.style.fills);
    assert_eq!(key_identity("k"), "gpui_key:k");
}

#[test]
fn scroll_feedback_needs_a_scrolling_axis() {
    let mut style = DivStyle::plain();
    style.scroll_id = Some(7);
    assert_eq!(planned(&div(style, None, vec![])).traits.feedback, None);
    style.overflow = Some((OVERFLOW_SCROLL, OVERFLOW_VISIBLE));
    let plan = planned(&div(style, None, vec![]));
    assert_eq!(plan.traits.feedback, Some(7));
    assert!(plan.traits.scrolls);
}

#[test]
fn focus_is_implied_by_the_tab_order() {
    let mut style = DivStyle::plain();
    style.focusable = Some(false);
    assert!(!planned(&div(style, None, vec![])).traits.focus.focusable);
    style.tab_stop = Some(false);
    let plan = planned(&div(style, None, vec![]));
    assert!(plan.traits.focus.focusable);
    assert_eq!(plan.traits.focus.tab_stop, Some(false));
}

#[test]
fn probe_keys_are_recorded() {
    assert!(probes("caret"));
    assert!(probes("probe:"));
    assert!(probes("probe:line"));
    assert!(!probes("carets"));
    assert!(!probes("probe"));
    assert!(!probes(""));
    assert!(planned(&div(DivStyle::plain(), Some("probe:x"), vec![])).traits.probed);
    assert!(!planned(&div(DivStyle::plain(), Some("x"), vec![])).traits.probed);
}

#[test]
fn texts_and_inputs_are_passed_on() {
    let text = UiNode::Text(TextNode {
        content: "abcdef".to_string(),
        color: (1, 2, 3),
        size: px(12.0),
        runs: vec![TextRunSpec {
            start: 2,
            len: 3,
            flags: RUN_STYLE_ITALIC,
            color: (0, 0, 0, 0),
            weight: 0,
            background: (0, 0, 0, 0),
        }],
        row: None,
    });
    let input = UiNode::TextInput(InputNode { input_id: 4, placeholder: "hint".to_string() });
    let plan = planned(&div(DivStyle::plain(), None, vec![text, input]));
    match &plan.children[0] {
        ElementPlan::Text(text) => {
            assert_eq!(text.content, "abcdef");
            assert_eq!(text.color, 0x01_02_03);
            assert_eq!(text.size, px(12.0));
            assert_eq!(text.spans.len(), 1);
            assert_eq!((text.spans[0].start, text.spans[0].end), (2, 5));
            assert!(text.spans[0].style.italic);
            assert!(text.row.is_none());
        }
        _ => panic!("expected a text"),
    }
    match &plan.children[1] {
        ElementPlan::Input(input) => {
            assert_eq!(input.input_id, 4);
            assert_eq!(input.placeholder, "hint");
        }
        _ => panic!("expected an input"),
    }
}
