//! The elements that a tree becomes: the style decisions of each box, the
//! identities that elements keep or are given, and what wraps them.
use crate::abi::{GPUI_STATUS_OK, OVERFLOW_SCROLL};
use crate::commit::{check_tree, key_of, keys_are_fresh, law_check_accepts, walk, walk_all};
use crate::float::LayoutPx;
use crate::grow::{STACK_GROW_BY, STACK_RED_ZONE};
use crate::node::{
    lemma_div_tree, plain_style, row_of, spans_fit, style_after, text_of, trees_of, DivStyle,
    InputNode, RowSpec, StyleChange, TextNode, TextRow, TextRunSpec, Tree, UiNode,
};
use crate::plan::{box_style, plan_box_style, BoxStyle};
use crate::probe::CARET_KEY;
use crate::style::{highlight, highlight_for_run, pack_rgb, rgb_word, HighlightStyle};
use crate::text::same_text;
use crate::utf16::{lemma_prefix_is_boundary, len8};
use vstd::prelude::*;
use vstd::string::StrSliceExecFns;
use vstd::string::StringExecFns;
use vstd::utf8::{encode_utf8, encode_utf8_valid_utf8, is_char_boundary};

verus! {

/// What keeps the state of an element from one frame to the next.
#[derive(Clone, Copy, PartialEq, Eq, Structural, Debug)]
pub enum Identity {
    /// The key of the div.
    Key,
    /// The id that a click reports.
    Click(i32),
    /// A number given out in this frame, because the div scrolls.
    Scroll(usize),
    /// A number given out in this frame, because the div can have the focus.
    Focus(usize),
    /// The element keeps no state.
    Anonymous,
}

/// How a div takes part in keyboard navigation.
#[derive(Clone, Copy, PartialEq, Eq, Structural, Debug)]
pub struct FocusPlan {
    pub focusable: bool,
    pub tab_index: Option<isize>,
    pub tab_stop: Option<bool>,
}

/// The next numbers to give out in a frame.
#[derive(Clone, Copy, PartialEq, Eq, Structural, Debug)]
pub struct Counters {
    pub scroll: usize,
    pub focus: usize,
}

/// Everything about the element of a div besides its texts and its children.
#[derive(Clone, Copy, PartialEq, Eq, Debug)]
pub struct DivTraits {
    pub style: BoxStyle,
    pub identity: Identity,
    /// The element scrolls and tracks a scroll handle.
    pub scrolls: bool,
    pub focus: FocusPlan,
    /// The id that a click reports.
    pub click: Option<i32>,
    /// The rectangle of the element is recorded under the key.
    pub probed: bool,
    /// The id under which the scroll position is reported.
    pub feedback: Option<i32>,
}

/// A stretch of text with what it overrides, by byte offsets.
#[derive(Clone, Copy, PartialEq, Eq, Debug)]
pub struct Span {
    pub start: usize,
    pub end: usize,
    pub style: HighlightStyle,
}

/// The element of a div.
pub struct DivPlan {
    pub traits: DivTraits,
    pub font_family: Option<String>,
    pub key: Option<String>,
    pub children: Vec<ElementPlan>,
}

/// A caret that is painted in a text.
#[derive(Clone, Copy, PartialEq, Eq, Debug)]
pub struct CaretPlan {
    /// The byte offset before which it stands.
    pub at: usize,
    /// Packed color.
    pub color: u32,
    pub blink: bool,
}

/// A text whose layout is kept under a key.
pub struct RowPlan {
    pub key: String,
    pub caret: Option<CaretPlan>,
}

/// What a row plan says.
#[verifier::ext_equal]
pub struct PlannedRow {
    pub key: Seq<char>,
    pub caret: Option<CaretPlan>,
}

/// What an optional row plan says.
pub open spec fn row_plan_of(row: Option<RowPlan>) -> Option<PlannedRow> {
    match row {
        Some(row) => Some(PlannedRow { key: row.key@, caret: row.caret }),
        None => None,
    }
}

/// The element of a text. Without spans it has one style throughout.
pub struct TextPlan {
    pub content: String,
    /// Packed color.
    pub color: u32,
    pub size: LayoutPx,
    pub spans: Vec<Span>,
    pub row: Option<RowPlan>,
}

/// The element of a node.
pub enum ElementPlan {
    Div(DivPlan),
    Text(TextPlan),
    Input(InputNode),
}

/// What an element plan says.
#[verifier::ext_equal]
pub enum Planned {
    Div {
        traits: DivTraits,
        font_family: Option<Seq<char>>,
        key: Option<Seq<char>>,
        children: Seq<Planned>,
    },
    Text {
        content: Seq<char>,
        color: u32,
        size: LayoutPx,
        spans: Seq<Span>,
        row: Option<PlannedRow>,
    },
    Input { input_id: i32, placeholder: Seq<char> },
}

/// What an element plan says.
pub open spec fn plan_of(plan: ElementPlan) -> Planned
    decreases plan,
{
    match plan {
        ElementPlan::Div(div) => Planned::Div {
            traits: div.traits,
            font_family: text_of(div.font_family),
            key: text_of(div.key),
            children: Seq::new(
                div.children@.len(),
                |i: int|
                    if 0 <= i < div.children@.len() {
                        plan_of(div.children@[i])
                    } else {
                        arbitrary()
                    },
            ),
        },
        ElementPlan::Text(text) => Planned::Text {
            content: text.content@,
            color: text.color,
            size: text.size,
            spans: text.spans@,
            row: row_plan_of(text.row),
        },
        ElementPlan::Input(input) => Planned::Input {
            input_id: input.input_id,
            placeholder: input.placeholder@,
        },
    }
}

/// What a sequence of element plans says.
pub open spec fn plans_of(plans: Seq<ElementPlan>) -> Seq<Planned> {
    Seq::new(plans.len(), |i: int| plan_of(plans[i]))
}

impl View for ElementPlan {
    type V = Planned;

    open spec fn view(&self) -> Planned {
        plan_of(*self)
    }
}

proof fn lemma_div_plan(div: DivPlan)
    ensures
        plan_of(ElementPlan::Div(div)) == (Planned::Div {
            traits: div.traits,
            font_family: text_of(div.font_family),
            key: text_of(div.key),
            children: plans_of(div.children@),
        }),
{
    let plan = plan_of(ElementPlan::Div(div));
    assert(plan->Div_children =~= plans_of(div.children@));
}

/// Does the style ask for scrolling along an axis?
pub open spec fn scrolls(style: DivStyle) -> bool {
    style.overflow matches Some((x, y)) && (x == OVERFLOW_SCROLL || y == OVERFLOW_SCROLL)
}

/// Can the div have the focus? A place in the tab order implies it.
pub open spec fn takes_focus(style: DivStyle) -> bool {
    style.focusable == Some(true) || style.tab_index is Some || style.tab_stop is Some
}

/// Is the rectangle under a key recorded?
pub open spec fn is_probe_key(key: Seq<char>) -> bool {
    key == CARET_KEY@ || "probe:"@.is_prefix_of(key)
}

/// The identity of a div: its key, else the id of its click, else a number where
/// it needs state at all.
pub open spec fn identity_of(style: DivStyle, key: Option<Seq<char>>, next: Counters) -> Identity {
    if key is Some {
        Identity::Key
    } else if style.on_click is Some {
        Identity::Click(style.on_click->0)
    } else if scrolls(style) {
        Identity::Scroll(next.scroll)
    } else if takes_focus(style) {
        Identity::Focus(next.focus)
    } else {
        Identity::Anonymous
    }
}

/// The number after another. It starts over once all are used.
pub open spec fn number_after(number: usize) -> usize {
    if number == usize::MAX {
        0
    } else {
        (number + 1) as usize
    }
}

/// The next numbers once an identity is given out.
pub open spec fn counters_after(next: Counters, identity: Identity) -> Counters {
    match identity {
        Identity::Scroll(_) => Counters { scroll: number_after(next.scroll), ..next },
        Identity::Focus(_) => Counters { focus: number_after(next.focus), ..next },
        _ => next,
    }
}

/// What the element of a div is like.
pub open spec fn traits_of(
    style: DivStyle,
    key: Option<Seq<char>>,
    fills: bool,
    next: Counters,
) -> DivTraits {
    DivTraits {
        style: box_style(style, fills),
        identity: identity_of(style, key, next),
        scrolls: scrolls(style),
        focus: FocusPlan {
            focusable: takes_focus(style),
            tab_index: style.tab_index,
            tab_stop: style.tab_stop,
        },
        click: style.on_click,
        probed: key matches Some(key) && is_probe_key(key),
        feedback: if scrolls(style) {
            style.scroll_id
        } else {
            None
        },
    }
}

/// The span of a run.
pub open spec fn span_of(run: TextRunSpec) -> Span {
    Span { start: run.start, end: (run.start + run.len) as usize, style: highlight(run) }
}

/// The spans of runs.
pub open spec fn spans_of(runs: Seq<TextRunSpec>) -> Seq<Span> {
    Seq::new(runs.len(), |i: int| span_of(runs[i]))
}

/// The caret that is painted of a row: none where its offset does not stand
/// between two characters of the text.
pub open spec fn caret_of(row: RowSpec, content: Seq<char>) -> Option<CaretPlan> {
    match row.caret {
        Some(at) => if is_char_boundary(encode_utf8(content), at as int) {
            Some(CaretPlan { at: at as usize, color: rgb_word(row.color), blink: row.blink })
        } else {
            None
        },
        None => None,
    }
}

/// The plan of a row.
pub open spec fn planned_row(row: Option<RowSpec>, content: Seq<char>) -> Option<PlannedRow> {
    match row {
        Some(row) => Some(PlannedRow { key: row.key, caret: caret_of(row, content) }),
        None => None,
    }
}

/// The element of a tree, and the next numbers after it. Children come before
/// their parent.
pub open spec fn planned(tree: Tree, fills: bool, next: Counters) -> (Planned, Counters)
    decreases tree, 0int,
{
    match tree {
        Tree::Div { style, font_family, key, children } => {
            let (elements, after) = planned_all(children, next);
            let traits = traits_of(style, key, fills, after);
            (
                Planned::Div { traits, font_family, key, children: elements },
                counters_after(after, traits.identity),
            )
        },
        Tree::Text { content, color, size, runs, row } => (
            Planned::Text {
                content,
                color: rgb_word(color),
                size,
                spans: spans_of(runs),
                row: planned_row(row, content),
            },
            next,
        ),
        Tree::Input { input_id, placeholder } => (Planned::Input { input_id, placeholder }, next),
    }
}

/// The elements of trees side by side. None of them fills the space.
pub open spec fn planned_all(trees: Seq<Tree>, next: Counters) -> (Seq<Planned>, Counters)
    decreases trees, 1int,
{
    if trees.len() == 0 {
        (Seq::empty(), next)
    } else {
        let (earlier, between) = planned_all(trees.drop_last(), next);
        let (last, after) = planned(trees.last(), false, between);
        (earlier.push(last), after)
    }
}

fn next_number(number: usize) -> (after: usize)
    ensures
        after == number_after(number),
{
    if number == usize::MAX {
        0
    } else {
        number + 1
    }
}

/// Does a text start with another?
fn starts_with(text: &str, prefix: &str) -> (starts: bool)
    ensures
        starts == prefix@.is_prefix_of(text@),
{
    let count: usize = prefix.unicode_len();
    if text.unicode_len() < count {
        return false;
    }
    let mut i: usize = 0;
    while i < count
        invariant
            i <= count == prefix@.len(),
            count <= text@.len(),
            forall|j: int| 0 <= j < i ==> text@[j] == prefix@[j],
        decreases count - i,
    {
        if text.get_char(i) != prefix.get_char(i) {
            return false;
        }
        i = i + 1;
    }
    assert(prefix@ =~= text@.subrange(0, count as int));
    true
}

/// Is the rectangle under a key recorded?
pub fn probes(key: &str) -> (probed: bool)
    ensures
        probed == is_probe_key(key@),
{
    same_text(key, CARET_KEY) || starts_with(key, "probe:")
}

/// The name under which an element with a key keeps its state.
pub fn key_identity(key: &str) -> (name: String)
    ensures
        name@ == "gpui_key:"@ + key@,
{
    let mut name: String = "gpui_key:".to_owned();
    name.append(key);
    name
}

/// Decides what the element of one div is like.
pub fn plan_div(
    style: &DivStyle,
    key: Option<&str>,
    fills: bool,
    next: Counters,
) -> (plan: (DivTraits, Counters))
    ensures
        plan.0 == traits_of(
            *style,
            match key {
                Some(key) => Some(key@),
                None => None,
            },
            fills,
            next,
        ),
        plan.1 == counters_after(next, plan.0.identity),
{
    let scrolling = match style.overflow {
        Some((x, y)) => x == OVERFLOW_SCROLL || y == OVERFLOW_SCROLL,
        None => false,
    };
    let focusable = match style.focusable {
        Some(on) => on,
        None => false,
    } || style.tab_index.is_some() || style.tab_stop.is_some();
    let (identity, after) = match (key, style.on_click) {
        (Some(_), _) => (Identity::Key, next),
        (None, Some(click_id)) => (Identity::Click(click_id), next),
        (None, None) => if scrolling {
            let after = Counters { scroll: next_number(next.scroll), focus: next.focus };
            (Identity::Scroll(next.scroll), after)
        } else if focusable {
            let after = Counters { scroll: next.scroll, focus: next_number(next.focus) };
            (Identity::Focus(next.focus), after)
        } else {
            (Identity::Anonymous, next)
        },
    };
    let probed = match key {
        Some(key) => probes(key),
        None => false,
    };
    let traits = DivTraits {
        style: plan_box_style(style, fills),
        identity,
        scrolls: scrolling,
        focus: FocusPlan {
            focusable,
            tab_index: style.tab_index,
            tab_stop: style.tab_stop,
        },
        click: style.on_click,
        probed,
        feedback: if scrolling {
            style.scroll_id
        } else {
            None
        },
    };
    (traits, after)
}

fn copy_text(text: &Option<String>) -> (copy: Option<String>)
    ensures
        text_of(copy) == text_of(*text),
{
    match text {
        Some(text) => Some(text.as_str().to_owned()),
        None => None,
    }
}

fn plan_row(row: &Option<TextRow>, content: &str) -> (plan: Option<RowPlan>)
    ensures
        row_plan_of(plan) == planned_row(row_of(*row), content@),
{
    match row {
        None => None,
        Some(row) => {
            let caret = match row.caret {
                None => None,
                Some(at) => if content.is_char_boundary(at as usize) {
                    Some(
                        CaretPlan {
                            at: at as usize,
                            color: pack_rgb(row.color),
                            blink: row.blink,
                        },
                    )
                } else {
                    None
                },
            };
            Some(RowPlan { key: row.key.as_str().to_owned(), caret })
        },
    }
}

fn plan_text(text: &TextNode) -> (plan: TextPlan)
    requires
        spans_fit(text@),
    ensures
        plan.content@ == text.content@,
        plan.color == rgb_word(text.color),
        plan.size == text.size,
        plan.spans@ == spans_of(text.runs@),
        row_plan_of(plan.row) == planned_row(row_of(text.row), text.content@),
{
    let mut spans: Vec<Span> = Vec::new();
    let mut i: usize = 0;
    while i < text.runs.len()
        invariant
            i <= text.runs@.len(),
            spans_fit(text@),
            spans@ == spans_of(text.runs@.take(i as int)),
        decreases text.runs@.len() - i,
    {
        let run: &TextRunSpec = &text.runs[i];
        assert(run.start + run.len <= usize::MAX) by {
            match text@ {
                Tree::Text { runs, .. } => {
                    assert(runs[i as int] == *run);
                },
                _ => {},
            }
        }
        spans.push(
            Span { start: run.start, end: run.start + run.len, style: highlight_for_run(run) },
        );
        i = i + 1;
        assert(spans@ =~= spans_of(text.runs@.take(i as int)));
    }
    assert(text.runs@.take(i as int) =~= text.runs@);
    TextPlan {
        content: text.content.as_str().to_owned(),
        color: pack_rgb(text.color),
        size: text.size,
        spans,
        row: plan_row(&text.row, text.content.as_str()),
    }
}

/// Decides what a node becomes. Each level makes sure of room on the stack.
pub fn render_node(node: &UiNode, fills: bool, next: Counters) -> (rendered: (
    ElementPlan,
    Counters,
))
    requires
        spans_fit(node@),
    ensures
        (rendered.0@, rendered.1) == planned(node@, fills, next),
    decreases node, 1int,
{
    stacker::maybe_grow(
        STACK_RED_ZONE,
        STACK_GROW_BY,
        move || -> (rendered: (ElementPlan, Counters))
            requires spans_fit(node@)
            ensures (rendered.0@, rendered.1) == planned(node@, fills, next)
        {
            render_node_inner(node, fills, next)
        },
    )
}

fn render_node_inner(node: &UiNode, fills: bool, next: Counters) -> (rendered: (
    ElementPlan,
    Counters,
))
    requires
        spans_fit(node@),
    ensures
        (rendered.0@, rendered.1) == planned(node@, fills, next),
    decreases node, 0int,
{
    match node {
        UiNode::Div(div) => {
            let ghost trees = trees_of(div.children@);
            proof {
                lemma_div_tree(*div);
                assert(trees.take(0) =~= Seq::empty());
            }
            let mut children: Vec<ElementPlan> = Vec::new();
            let mut counters: Counters = next;
            assert(plans_of(children@) =~= Seq::empty());
            let mut i: usize = 0;
            while i < div.children.len()
                invariant
                    i <= div.children@.len(),
                    *node == UiNode::Div(*div),
                    spans_fit(node@),
                    node@ == div@,
                    trees == trees_of(div.children@),
                    (plans_of(children@), counters) == planned_all(trees.take(i as int), next),
                decreases div.children@.len() - i,
            {
                let child: &UiNode = &div.children[i];
                assert(decreases_to!(*node => node->Div_0.children@[i as int]));
                assert(spans_fit(node@->Div_children[i as int]));
                let ghost before = children@;
                let (element, after) = render_node(child, false, counters);
                children.push(element);
                counters = after;
                i = i + 1;
                proof {
                    let upto = trees.take(i as int);
                    assert(upto.drop_last() =~= trees.take(i - 1));
                    assert(upto.last() == child@);
                    assert(plans_of(children@) =~= plans_of(before).push(element@));
                }
            }
            assert(trees.take(i as int) =~= trees);
            let key = match &div.key {
                Some(key) => Some(key.as_str()),
                None => None,
            };
            let (traits, after) = plan_div(&div.style, key, fills, counters);
            let plan = DivPlan {
                traits,
                font_family: copy_text(&div.font_family),
                key: copy_text(&div.key),
                children,
            };
            proof {
                lemma_div_plan(plan);
            }
            (ElementPlan::Div(plan), after)
        },
        UiNode::Text(text) => (ElementPlan::Text(plan_text(text)), next),
        UiNode::TextInput(input) => (
            ElementPlan::Input(
                InputNode {
                    input_id: input.input_id,
                    placeholder: input.placeholder.as_str().to_owned(),
                },
            ),
            next,
        ),
    }
}

/// The identity of a div with a key, or with a click, does not depend on what
/// else is drawn.
pub proof fn law_own_identity_is_stable(
    style: DivStyle,
    key: Option<Seq<char>>,
    one: Counters,
    other: Counters,
)
    requires
        key is Some || style.on_click is Some,
    ensures
        identity_of(style, key, one) == identity_of(style, key, other),
{
}

/// A scroll position is reported exactly where a div has an id for it and
/// scrolls.
pub proof fn law_feedback_needs_scrolling(
    style: DivStyle,
    key: Option<Seq<char>>,
    fills: bool,
    next: Counters,
)
    ensures
        traits_of(style, key, fills, next).feedback is Some <==> style.scroll_id is Some && scrolls(
            style,
        ),
        traits_of(style, key, fills, next).feedback matches Some(id) ==> style.scroll_id == Some(id),
{
}

/// Whatever needs state has an identity: a div that scrolls, can be clicked or
/// can have the focus is not anonymous.
pub proof fn law_state_has_an_identity(
    style: DivStyle,
    key: Option<Seq<char>>,
    fills: bool,
    next: Counters,
)
    ensures
        ({
            let traits = traits_of(style, key, fills, next);
            traits.identity is Anonymous <==> key is None && traits.click is None && !traits.scrolls
                && !traits.focus.focusable
        }),
        style.tab_index is Some || style.tab_stop is Some ==> traits_of(
            style,
            key,
            fills,
            next,
        ).focus.focusable,
{
}

/// The two runs of numbers that a frame gives out.
pub enum Pool {
    Scroll,
    Focus,
}

/// The number that an identity takes from a pool.
pub open spec fn number_from(identity: Identity, pool: Pool) -> Option<usize> {
    match (identity, pool) {
        (Identity::Scroll(number), Pool::Scroll) => Some(number),
        (Identity::Focus(number), Pool::Focus) => Some(number),
        _ => None,
    }
}

/// The next number of a pool.
pub open spec fn next_of(next: Counters, pool: Pool) -> usize {
    match pool {
        Pool::Scroll => next.scroll,
        Pool::Focus => next.focus,
    }
}

/// The numbers from a pool that an element and those inside it have, children
/// before their parent.
pub open spec fn numbers_in(plan: Planned, pool: Pool) -> Seq<usize>
    decreases plan, 0int,
{
    match plan {
        Planned::Div { traits, children, .. } => {
            let inside = numbers_in_all(children, pool);
            match number_from(traits.identity, pool) {
                Some(number) => inside.push(number),
                None => inside,
            }
        },
        _ => Seq::empty(),
    }
}

/// The same for elements side by side.
pub open spec fn numbers_in_all(plans: Seq<Planned>, pool: Pool) -> Seq<usize>
    decreases plans, 1int,
{
    if plans.len() == 0 {
        Seq::empty()
    } else {
        numbers_in_all(plans.drop_last(), pool) + numbers_in(plans.last(), pool)
    }
}

/// Numbers that run upwards from a start.
pub open spec fn counts_from(numbers: Seq<usize>, start: int) -> bool {
    forall|i: int| 0 <= i < numbers.len() ==> #[trigger] numbers[i] == start + i
}

/// The numbers that a frame gives out run upwards without a gap, so no two
/// elements of the frame share one.
pub proof fn law_given_numbers_are_consecutive(
    tree: Tree,
    fills: bool,
    next: Counters,
    pool: Pool,
)
    requires
        next_of(next, pool) + numbers_in(planned(tree, fills, next).0, pool).len() <= usize::MAX,
    ensures
        counts_from(numbers_in(planned(tree, fills, next).0, pool), next_of(next, pool) as int),
        next_of(planned(tree, fills, next).1, pool) == next_of(next, pool) + numbers_in(
            planned(tree, fills, next).0,
            pool,
        ).len(),
    decreases tree, 0int,
{
    match tree {
        Tree::Div { style, font_family, key, children } => {
            let (elements, after) = planned_all(children, next);
            let traits = traits_of(style, key, fills, after);
            let inside = numbers_in_all(elements, pool);
            assert(planned(tree, fills, next).0 == Planned::Div {
                traits,
                font_family,
                key,
                children: elements,
            });
            lemma_numbers_side_by_side(children, next, pool);
        },
        _ => {},
    }
}

proof fn lemma_numbers_side_by_side(trees: Seq<Tree>, next: Counters, pool: Pool)
    requires
        next_of(next, pool) + numbers_in_all(planned_all(trees, next).0, pool).len() <= usize::MAX,
    ensures
        counts_from(numbers_in_all(planned_all(trees, next).0, pool), next_of(next, pool) as int),
        next_of(planned_all(trees, next).1, pool) == next_of(next, pool) + numbers_in_all(
            planned_all(trees, next).0,
            pool,
        ).len(),
    decreases trees, 1int,
{
    if trees.len() > 0 {
        let (earlier, between) = planned_all(trees.drop_last(), next);
        let (last, after) = planned(trees.last(), false, between);
        let all = earlier.push(last);
        assert(all.drop_last() =~= earlier);
        lemma_numbers_side_by_side(trees.drop_last(), next, pool);
        law_given_numbers_are_consecutive(trees.last(), false, between, pool);
    }
}

/// The keys of an element and those inside it, parents before children and
/// later children before earlier.
pub open spec fn keys_in(plan: Planned) -> Seq<Seq<char>>
    decreases plan, 0int,
{
    match plan {
        Planned::Div { key, children, .. } => match key {
            Some(key) => seq![key] + keys_in_all(children),
            None => keys_in_all(children),
        },
        _ => Seq::empty(),
    }
}

/// The same for elements side by side.
pub open spec fn keys_in_all(plans: Seq<Planned>) -> Seq<Seq<char>>
    decreases plans, 1int,
{
    if plans.len() == 0 {
        Seq::empty()
    } else {
        keys_in(plans.last()) + keys_in_all(plans.drop_last())
    }
}

/// The keys that a walk meets.
pub open spec fn keys_along(visits: Seq<(Tree, nat)>) -> Seq<Seq<char>>
    decreases visits.len(),
{
    if visits.len() == 0 {
        Seq::empty()
    } else {
        match key_of(visits[0].0) {
            Some(key) => seq![key] + keys_along(visits.drop_first()),
            None => keys_along(visits.drop_first()),
        }
    }
}

proof fn lemma_keys_along_both(first: Seq<(Tree, nat)>, second: Seq<(Tree, nat)>)
    ensures
        keys_along(first + second) == keys_along(first) + keys_along(second),
    decreases first.len(),
{
    if first.len() == 0 {
        assert(first + second =~= second);
        assert(keys_along(first) + keys_along(second) =~= keys_along(second));
    } else {
        lemma_keys_along_both(first.drop_first(), second);
        assert((first + second).drop_first() =~= first.drop_first() + second);
        assert(keys_along(first + second) =~= keys_along(first) + keys_along(second));
    }
}

proof fn lemma_plan_has_the_keys(tree: Tree, fills: bool, next: Counters, depth: nat)
    ensures
        keys_in(planned(tree, fills, next).0) == keys_along(walk(tree, depth)),
    decreases tree, 0int,
{
    match tree {
        Tree::Div { style, font_family, key, children } => {
            let (elements, after) = planned_all(children, next);
            let rest = walk_all(children, depth + 1);
            let visits = walk(tree, depth);
            lemma_plans_have_the_keys(children, next, depth + 1);
            assert(visits =~= seq![(tree, depth)] + rest);
            assert(visits.drop_first() =~= rest);
            assert(visits[0].0 == tree);
            assert(key_of(tree) == key);
            assert(planned(tree, fills, next).0 == Planned::Div {
                traits: traits_of(style, key, fills, after),
                font_family,
                key,
                children: elements,
            });
        },
        _ => {
            let visits = walk(tree, depth);
            assert(visits =~= seq![(tree, depth)]);
            assert(visits.drop_first() =~= Seq::empty());
            assert(visits[0].0 == tree);
            assert(keys_along(visits) == keys_along(visits.drop_first()));
        },
    }
}

proof fn lemma_plans_have_the_keys(trees: Seq<Tree>, next: Counters, depth: nat)
    ensures
        keys_in_all(planned_all(trees, next).0) == keys_along(walk_all(trees, depth)),
    decreases trees, 1int,
{
    if trees.len() > 0 {
        let (earlier, between) = planned_all(trees.drop_last(), next);
        let (last, after) = planned(trees.last(), false, between);
        assert(earlier.push(last).drop_last() =~= earlier);
        lemma_plans_have_the_keys(trees.drop_last(), next, depth);
        lemma_plan_has_the_keys(trees.last(), false, between, depth);
        lemma_keys_along_both(walk(trees.last(), depth), walk_all(trees.drop_last(), depth));
    }
}

proof fn lemma_fresh_keys_differ(visits: Seq<(Tree, nat)>)
    requires
        keys_are_fresh(visits, Set::empty()),
    ensures
        keys_along(visits).no_duplicates(),
        forall|i: int|
            0 <= i < keys_along(visits).len() ==> exists|j: int|
                0 <= j < visits.len() && key_of((#[trigger] visits[j]).0) == Some(
                    #[trigger] keys_along(visits)[i],
                ),
    decreases visits.len(),
{
    if visits.len() > 0 {
        let rest = visits.drop_first();
        let keys = keys_along(visits);
        let others = keys_along(rest);
        assert(forall|j: int| 0 <= j < rest.len() ==> rest[j] == visits[j + 1]);
        assert forall|i: int, j: int|
            #![trigger rest[i], rest[j]]
            0 <= i < j < rest.len() && key_of(rest[i].0) is Some implies key_of(rest[i].0)
            != key_of(rest[j].0) by {
            assert(visits[i + 1] == rest[i]);
            assert(visits[j + 1] == rest[j]);
        }
        lemma_fresh_keys_differ(rest);
        let shift: int = if key_of(visits[0].0) is Some {
            1
        } else {
            0
        };
        assert forall|i: int| 0 <= i < keys.len() implies exists|j: int|
            0 <= j < visits.len() && key_of((#[trigger] visits[j]).0) == Some(#[trigger] keys[i]) by {
            if i < shift {
                assert(key_of(visits[0].0) == Some(keys[i]));
            } else {
                assert(keys[i] == others[i - shift]);
                let j = choose|j: int|
                    0 <= j < rest.len() && key_of((#[trigger] rest[j]).0) == Some(
                        others[i - shift],
                    );
                assert(visits[j + 1] == rest[j]);
            }
        }
        assert forall|i: int, j: int| 0 <= i < j < keys.len() implies keys[i] != keys[j] by {
            assert(keys[j] == others[j - shift]);
            if i >= shift {
                assert(keys[i] == others[i - shift]);
            } else {
                let k = choose|k: int|
                    0 <= k < rest.len() && key_of((#[trigger] rest[k]).0) == Some(
                        others[j - shift],
                    );
                assert(visits[k + 1] == rest[k]);
                assert(key_of(visits[0].0) != key_of(visits[k + 1].0));
            }
        }
    }
}

/// No two elements of a frame have the same key, because a tree with a repeated
/// key is not committed.
pub proof fn law_keys_do_not_collide(tree: Tree, fills: bool, next: Counters)
    requires
        check_tree(tree) == GPUI_STATUS_OK,
    ensures
        keys_in(planned(tree, fills, next).0).no_duplicates(),
{
    law_check_accepts(tree);
    lemma_fresh_keys_differ(walk(tree, 1));
    lemma_plan_has_the_keys(tree, fills, next, 1);
}

/// A fresh div without a key has no state and takes part in nothing.
pub proof fn law_plain_div_is_inert(fills: bool, next: Counters)
    ensures
        ({
            let traits = traits_of(plain_style(), None, fills, next);
            &&& traits.identity is Anonymous
            &&& !traits.scrolls && !traits.focus.focusable && !traits.probed
            &&& traits.focus.tab_index is None && traits.focus.tab_stop is None
            &&& traits.click is None && traits.feedback is None
            &&& traits.style.fills == fills
        }),
{
}

/// Setters give a div what they are about and leave its other traits alone: the
/// click, the focus and its order, scrolling and the report of it.
pub proof fn law_setters_give_traits(
    style: DivStyle,
    change: StyleChange,
    key: Option<Seq<char>>,
    fills: bool,
    next: Counters,
)
    ensures
        ({
            let before = traits_of(style, key, fills, next);
            let after = traits_of(style_after(style, change), key, fills, next);
            &&& after.style == box_style(style_after(style, change), fills)
            &&& after.probed == before.probed
            &&& !(change is OnClick) ==> after.click == before.click
            &&& change matches StyleChange::OnClick { click_id } ==> after.click == Some(click_id)
            &&& !(change is Overflow) ==> after.scrolls == before.scrolls
            &&& change matches StyleChange::Overflow { x, y } ==> (after.scrolls <==> x
                == OVERFLOW_SCROLL || y == OVERFLOW_SCROLL)
            &&& !(change is Overflow) && !(change is ScrollId) ==> after.feedback == before.feedback
            &&& change matches StyleChange::ScrollId { scroll_id } ==> after.feedback == if after.scrolls {
                Some(scroll_id)
            } else {
                None
            }
            &&& !(change is Focusable) && !(change is TabIndex) && !(change is TabStop)
                ==> after.focus == before.focus
            &&& change matches StyleChange::TabIndex { index } ==> {
                &&& after.focus.focusable
                &&& after.focus.tab_index is Some && after.focus.tab_index->0 == index
                &&& after.focus.tab_stop == before.focus.tab_stop
            }
            &&& change matches StyleChange::TabStop { on } ==> {
                &&& after.focus.focusable
                &&& after.focus.tab_stop == Some(on)
                &&& after.focus.tab_index == before.focus.tab_index
            }
            &&& change matches StyleChange::Focusable { on } ==> {
                &&& on ==> after.focus.focusable
                &&& !on && before.focus.tab_index is None && before.focus.tab_stop is None
                    ==> !after.focus.focusable
                &&& after.focus.tab_index == before.focus.tab_index
                &&& after.focus.tab_stop == before.focus.tab_stop
            }
        }),
{
}

/// A div is known by its key, else by its click, else by a number where it
/// scrolls, and else by one where it can have the focus.
pub proof fn law_identities_have_an_order(
    style: DivStyle,
    key: Option<Seq<char>>,
    fills: bool,
    next: Counters,
)
    ensures
        ({
            let traits = traits_of(style, key, fills, next);
            let known = key is Some || traits.click is Some;
            &&& traits.identity is Key <==> key is Some
            &&& traits.identity is Click <==> key is None && traits.click is Some
            &&& traits.identity matches Identity::Click(id) ==> traits.click == Some(id)
            &&& traits.identity is Scroll <==> !known && traits.scrolls
            &&& traits.identity matches Identity::Scroll(number) ==> number == next.scroll
            &&& traits.identity is Focus <==> !known && !traits.scrolls && traits.focus.focusable
            &&& traits.identity matches Identity::Focus(number) ==> number == next.focus
        }),
{
}

/// The rectangle of a div is recorded where its key is that of the caret or
/// starts as the keys of probes do, and nowhere else.
pub proof fn law_probe_keys(key: Seq<char>, rest: Seq<char>, style: DivStyle, next: Counters)
    ensures
        is_probe_key("caret"@),
        is_probe_key("probe:"@ + rest),
        is_probe_key(key) && key != "caret"@ ==> key.len() >= 6 && key[0] == 'p' && key[1] == 'r'
            && key[2] == 'o' && key[3] == 'b' && key[4] == 'e' && key[5] == ':',
        traits_of(style, Some(key), false, next).probed == is_probe_key(key),
        !traits_of(style, None, false, next).probed,
{
    reveal_strlit("probe:");
    assert("probe:"@ =~= ("probe:"@ + rest).subrange(0, 6));
    if "probe:"@.is_prefix_of(key) {
        assert(key.subrange(0, 6)[0] == key[0] && key.subrange(0, 6)[1] == key[1]);
        assert(key.subrange(0, 6)[2] == key[2] && key.subrange(0, 6)[3] == key[3]);
        assert(key.subrange(0, 6)[4] == key[4] && key.subrange(0, 6)[5] == key[5]);
    }
}

/// Is this the element of a tree that stands below another?
pub open spec fn stands_for(element: Planned, tree: Tree) -> bool {
    exists|numbers: Counters| element == (#[trigger] planned(tree, false, numbers)).0
}

/// A div becomes an element with its key and its font family, and with one
/// element for each child, in order; only the outermost element fills the space.
pub proof fn law_divs_become_elements(tree: Tree, fills: bool, next: Counters)
    requires
        tree is Div,
    ensures
        ({
            let element = planned(tree, fills, next).0;
            &&& element is Div
            &&& element->key == tree->key
            &&& element->font_family == tree->font_family
            &&& element->traits.style == box_style(tree->Div_style, fills)
            &&& element->traits.style.fills == fills
            &&& element->children.len() == tree->children.len()
            &&& forall|i: int|
                0 <= i < tree->children.len() ==> stands_for(
                    #[trigger] element->children[i],
                    tree->children[i],
                )
        }),
{
    lemma_children_become_elements(tree->children, next);
    assert(planned(tree, fills, next).0->children == planned_all(tree->children, next).0);
}

proof fn lemma_children_become_elements(trees: Seq<Tree>, next: Counters)
    ensures
        planned_all(trees, next).0.len() == trees.len(),
        forall|i: int|
            0 <= i < trees.len() ==> stands_for(
                #[trigger] planned_all(trees, next).0[i],
                trees[i],
            ),
    decreases trees.len(),
{
    if trees.len() > 0 {
        let fewer = trees.drop_last();
        lemma_children_become_elements(fewer, next);
        let (earlier, between) = planned_all(fewer, next);
        let all = planned_all(trees, next).0;
        let last = planned(trees.last(), false, between).0;
        assert(stands_for(last, trees.last()));
        assert(all == earlier.push(last));
        assert forall|i: int| 0 <= i < trees.len() implies stands_for(#[trigger] all[i], trees[i]) by {
            if i < fewer.len() {
                assert(all[i] == earlier[i]);
                assert(fewer[i] == trees[i]);
            }
        }
    }
}

/// A text becomes an element with its content, its size and its color, and with
/// one span for each run, over the bytes of the run; a row keeps its key.
pub proof fn law_texts_become_elements(tree: Tree, fills: bool, next: Counters)
    requires
        tree is Text,
        spans_fit(tree),
    ensures
        ({
            let (element, after) = planned(tree, fills, next);
            let color = tree->color;
            &&& after == next
            &&& element is Text
            &&& element->content == tree->content
            &&& element->Text_size == tree->Text_size
            &&& element->color == 0x1_0000 * color.0 + 0x100 * color.1 + color.2
            &&& element->spans.len() == tree->runs.len()
            &&& forall|i: int| #![trigger element->spans[i]]
                0 <= i < tree->runs.len() ==> {
                    &&& element->spans[i].start == tree->runs[i].start
                    &&& element->spans[i].end == tree->runs[i].start + tree->runs[i].len
                    &&& element->spans[i].style == highlight(tree->runs[i])
                }
            &&& element->row is Some <==> tree->row is Some
            &&& tree->row is Some ==> element->row->0.key == tree->row->0.key
        }),
{
    let element = planned(tree, fills, next).0;
    assert forall|i: int| #![trigger element->spans[i]] 0 <= i < tree->runs.len() implies {
        &&& element->spans[i].start == tree->runs[i].start
        &&& element->spans[i].end == tree->runs[i].start + tree->runs[i].len
        &&& element->spans[i].style == highlight(tree->runs[i])
    } by {
        assert(tree->runs[i].start + tree->runs[i].len <= usize::MAX);
    }
}

/// A caret is painted where its offset is the end of some characters of the text:
/// at that offset, in its color and blinking as it was asked to. It is painted
/// nowhere else.
pub proof fn law_carets_are_painted(row: RowSpec, before: Seq<char>, after: Seq<char>)
    ensures
        row.caret matches Some(at) ==> at == len8(before) ==> {
            let caret = caret_of(row, before + after);
            &&& caret is Some
            &&& caret->0.at == at
            &&& caret->0.color == 0x1_0000 * row.color.0 + 0x100 * row.color.1 + row.color.2
            &&& caret->0.blink == row.blink
        },
        row.caret is None ==> caret_of(row, before) is None,
        caret_of(row, before) matches Some(caret) ==> row.caret is Some && caret.at == row.caret->0
            && caret.at <= len8(before),
{
    let text = before + after;
    let k = before.len() as int;
    assert(text.take(k) =~= before);
    lemma_prefix_is_boundary(text, k);
    if caret_of(row, before) is Some {
        encode_utf8_valid_utf8(before);
    }
}

/// A text input becomes an element with its id and its placeholder.
pub proof fn law_inputs_become_elements(tree: Tree, fills: bool, next: Counters)
    requires
        tree is Input,
    ensures
        planned(tree, fills, next).1 == next,
        planned(tree, fills, next).0 is Input,
        planned(tree, fills, next).0->input_id == tree->input_id,
        planned(tree, fills, next).0->placeholder == tree->placeholder,
{
}

} // verus!
