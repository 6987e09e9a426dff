//! The stack machine that the commands of a buffer drive.
//!
//! Mathematically the machine holds a stack of trees and a root. In memory the
//! nodes stand in an arena of slots, the stack holds handles into it, and
//! attaching a child moves it out of its slot.
use crate::abi::{
    GPUI_STATUS_INVALID_HANDLE, GPUI_STATUS_INVALID_TEXT_RUN, GPUI_STATUS_NODE_ABSENT,
    GPUI_STATUS_OK, GPUI_STATUS_WRONG_NODE_KIND,
};
use crate::node::{
    change_is_sound, fits_in, law_changes_keep_styles_sound, law_setters_commute, lemma_div_tree,
    lemma_text_tree, plain_style, run_fits, runs_are_sound, same_setter, style_after, tree_is_sound, tree_of, trees_of, DivNode,
    DivStyle, InputNode, RowSpec, StyleChange, TextNode, TextRow, TextRunSpec, Tree, UiNode,
};
use crate::wire::{command_is_sound, Command, CommandSpec, RunOperands};
use vstd::prelude::*;
use vstd::utf8::{encode_utf8, is_char_boundary};

verus! {

/// The state of the machine: how many nodes were created, the stack, and the
/// root that was named last.
#[verifier::ext_equal]
pub struct Machine {
    pub created: nat,
    pub stack: Seq<Tree>,
    pub root: Option<Tree>,
}

/// The machine before the first command.
pub open spec fn empty_machine() -> Machine {
    Machine { created: 0, stack: Seq::empty(), root: None }
}

/// A machine after a command, or the status that rejects the buffer.
pub type Stepped = Result<Machine, i32>;

/// Pushes a fresh node. Handles are 31-bit, so there is a last one.
pub open spec fn push_tree(machine: Machine, tree: Tree) -> Stepped {
    if machine.created > i32::MAX {
        Err(GPUI_STATUS_INVALID_HANDLE)
    } else {
        Ok(
            Machine {
                created: machine.created + 1,
                stack: machine.stack.push(tree),
                root: machine.root,
            },
        )
    }
}

/// Puts another tree in place of the top one.
pub open spec fn with_top(machine: Machine, tree: Tree) -> Stepped {
    Ok(Machine { stack: machine.stack.drop_last().push(tree), ..machine })
}

/// The run that operands describe.
pub open spec fn run_of(run: RunOperands) -> TextRunSpec {
    TextRunSpec {
        start: run.start as usize,
        len: run.len as usize,
        flags: run.flags as i32,
        color: run.color,
        weight: run.weight,
        background: run.background,
    }
}

/// Only the six style bits may be set.
pub open spec fn run_flags_known(flags: u8) -> bool {
    flags & 0xc0 == 0
}

/// A run may be appended where it fits the text and starts no earlier than the
/// last one ends.
pub open spec fn run_admitted(
    run: TextRunSpec,
    content: Seq<char>,
    runs: Seq<TextRunSpec>,
) -> bool {
    &&& run_fits(run, content)
    &&& runs.len() > 0 ==> runs.last().start + runs.last().len <= run.start
}

/// Appends a run to the text on top.
pub open spec fn add_run(machine: Machine, run: RunOperands) -> Stepped {
    if !run_flags_known(run.flags) {
        Err(GPUI_STATUS_INVALID_TEXT_RUN)
    } else if machine.stack.len() == 0 {
        Err(GPUI_STATUS_INVALID_HANDLE)
    } else {
        match machine.stack.last() {
            Tree::Text { content, color, size, runs, row } => if run_admitted(
                run_of(run),
                content,
                runs,
            ) {
                let more = runs.push(run_of(run));
                with_top(machine, Tree::Text { content, color, size, runs: more, row })
            } else {
                Err(GPUI_STATUS_INVALID_TEXT_RUN)
            },
            _ => Err(GPUI_STATUS_WRONG_NODE_KIND),
        }
    }
}

/// Makes the text on top a row. The last one named counts.
pub open spec fn set_row(machine: Machine, named: RowSpec) -> Stepped {
    if machine.stack.len() == 0 {
        Err(GPUI_STATUS_INVALID_HANDLE)
    } else {
        match machine.stack.last() {
            Tree::Text { content, color, size, runs, .. } => with_top(
                machine,
                Tree::Text { content, color, size, runs, row: Some(named) },
            ),
            _ => Err(GPUI_STATUS_WRONG_NODE_KIND),
        }
    }
}

/// Changes the div on top.
pub open spec fn change_top_div(machine: Machine, change: spec_fn(Tree) -> Tree) -> Stepped {
    if machine.stack.len() == 0 {
        Err(GPUI_STATUS_INVALID_HANDLE)
    } else if !(machine.stack.last() is Div) {
        Err(GPUI_STATUS_WRONG_NODE_KIND)
    } else {
        with_top(machine, change(machine.stack.last()))
    }
}

/// Pops the child and appends it to the div below it.
pub open spec fn add_child(machine: Machine) -> Stepped {
    if machine.stack.len() < 2 {
        Err(GPUI_STATUS_INVALID_HANDLE)
    } else {
        let child = machine.stack.last();
        match machine.stack[machine.stack.len() - 2] {
            Tree::Div { style, font_family, key, children } => Ok(
                Machine {
                    stack: machine.stack.drop_last().drop_last().push(
                        Tree::Div { style, font_family, key, children: children.push(child) },
                    ),
                    ..machine
                },
            ),
            _ => Err(GPUI_STATUS_WRONG_NODE_KIND),
        }
    }
}

/// Pops the root.
pub open spec fn set_root(machine: Machine) -> Stepped {
    if machine.stack.len() == 0 {
        Err(GPUI_STATUS_INVALID_HANDLE)
    } else {
        Ok(
            Machine {
                stack: machine.stack.drop_last(),
                root: Some(machine.stack.last()),
                ..machine
            },
        )
    }
}

/// A div with a changed style.
pub open spec fn restyled(tree: Tree, style: DivStyle) -> Tree {
    match tree {
        Tree::Div { font_family, key, children, .. } => Tree::Div { style, font_family, key, children },
        _ => tree,
    }
}

/// A div with another key.
pub open spec fn rekeyed(tree: Tree, new_key: Seq<char>) -> Tree {
    match tree {
        Tree::Div { style, font_family, children, .. } => Tree::Div {
            style,
            font_family,
            key: Some(new_key),
            children,
        },
        _ => tree,
    }
}

/// A div with another font family.
pub open spec fn with_family(tree: Tree, family: Seq<char>) -> Tree {
    match tree {
        Tree::Div { style, key, children, .. } => Tree::Div {
            style,
            font_family: Some(family),
            key,
            children,
        },
        _ => tree,
    }
}

/// The machine after a command.
pub open spec fn step(machine: Machine, command: CommandSpec) -> Stepped {
    match command {
        CommandSpec::PushDiv => push_tree(
            machine,
            Tree::Div { style: plain_style(), font_family: None, key: None, children: Seq::empty() },
        ),
        CommandSpec::PushText { content, color, size } => push_tree(
            machine,
            Tree::Text { content, color, size, runs: Seq::empty(), row: None },
        ),
        CommandSpec::PushInput { input_id, placeholder } => push_tree(
            machine,
            Tree::Input { input_id, placeholder },
        ),
        CommandSpec::AddRun { run } => add_run(machine, run),
        CommandSpec::SetRow { row } => set_row(machine, row),
        CommandSpec::Style { change } => change_top_div(
            machine,
            |tree: Tree| restyled(tree, style_after(tree->Div_style, change)),
        ),
        CommandSpec::SetKey { key } => change_top_div(machine, |tree: Tree| rekeyed(tree, key)),
        CommandSpec::SetFontFamily { family } => change_top_div(
            machine,
            |tree: Tree| with_family(tree, family),
        ),
        CommandSpec::AddChild => add_child(machine),
        CommandSpec::SetRoot => set_root(machine),
    }
}

/// Every tree that the machine holds is sound.
pub open spec fn machine_is_sound(machine: Machine) -> bool {
    &&& forall|i: int|
        0 <= i < machine.stack.len() ==> #[trigger] tree_is_sound(machine.stack[i])
    &&& machine.root matches Some(root) ==> tree_is_sound(root)
}

/// Appending an admitted run keeps runs sound.
proof fn lemma_admitted_run_is_sound(
    run: TextRunSpec,
    content: Seq<char>,
    runs: Seq<TextRunSpec>,
)
    requires
        runs_are_sound(runs, content),
        run_admitted(run, content, runs),
    ensures
        runs_are_sound(runs.push(run), content),
{
    let more = runs.push(run);
    assert forall|i: int| 0 <= i < more.len() implies #[trigger] run_fits(more[i], content) by {
        if i < runs.len() {
            assert(run_fits(runs[i], content));
        }
    }
    assert forall|i: int, j: int|
        #![trigger more[i], more[j]]
        0 <= i < j < more.len() implies more[i].start + more[i].len <= more[j].start by {
        if j == runs.len() && i < runs.len() - 1 {
            let last = runs.len() - 1;
            assert(runs[i].start + runs[i].len <= runs[last].start);
        }
    }
}

/// Commands keep the machine sound.
pub proof fn lemma_step_keeps_sound(machine: Machine, command: CommandSpec)
    requires
        machine_is_sound(machine),
        command_is_sound(command),
    ensures
        step(machine, command) matches Ok(next) ==> machine_is_sound(next),
{
    let result = step(machine, command);
    if result is Ok {
        let next = result->Ok_0;
        if machine.stack.len() > 0 {
            assert(tree_is_sound(machine.stack.last()));
        }
        match command {
            CommandSpec::AddRun { run } => {
                let top = machine.stack.last();
                lemma_admitted_run_is_sound(run_of(run), top->content, top->runs);
            },
            CommandSpec::Style { change } => {
                law_changes_keep_styles_sound(machine.stack.last()->Div_style, change);
            },
            CommandSpec::AddChild => {
                let parent = machine.stack[machine.stack.len() - 2];
                assert(tree_is_sound(parent));
            },
            _ => {},
        }
        assert forall|i: int| 0 <= i < next.stack.len() implies #[trigger] tree_is_sound(
            next.stack[i],
        ) by {
            if i < machine.stack.len() {
                assert(tree_is_sound(machine.stack[i]));
            }
        }
    }
}

/// The machine in memory.
pub struct Builder {
    nodes: Vec<Option<UiNode>>,
    stack: Vec<i32>,
    root: Option<usize>,
}

/// The tree in a slot of the arena.
pub open spec fn slot_tree(nodes: Seq<Option<UiNode>>, handle: int) -> Tree {
    tree_of(nodes[handle]->0)
}

/// Finds the div that a handle names.
fn div_mut(nodes: &mut Vec<Option<UiNode>>, handle: i32) -> (found: Result<&mut DivNode, i32>)
    ensures
        match found {
            Ok(div) => {
                &&& 0 <= handle < old(nodes)@.len()
                &&& old(nodes)@[handle as int] == Some(UiNode::Div(*div))
                &&& final(nodes)@ == old(nodes)@.update(
                    handle as int,
                    Some(UiNode::Div(*final(div))),
                )
            },
            Err(status) => {
                &&& final(nodes)@ == old(nodes)@
                &&& if !(0 <= handle < old(nodes)@.len()) {
                    status == GPUI_STATUS_INVALID_HANDLE
                } else {
                    match old(nodes)@[handle as int] {
                        None => status == GPUI_STATUS_NODE_ABSENT,
                        Some(node) => node !is Div && status == GPUI_STATUS_WRONG_NODE_KIND,
                    }
                }
            },
        },
{
    if handle < 0 || handle as usize >= nodes.len() {
        return Err(GPUI_STATUS_INVALID_HANDLE);
    }
    match &mut nodes[handle as usize] {
        None => Err(GPUI_STATUS_NODE_ABSENT),
        Some(UiNode::Div(div)) => Ok(div),
        Some(_) => Err(GPUI_STATUS_WRONG_NODE_KIND),
    }
}

impl View for Builder {
    type V = Machine;

    closed spec fn view(&self) -> Machine {
        Machine {
            created: self.nodes@.len(),
            stack: Seq::new(
                self.stack@.len(),
                |i: int| slot_tree(self.nodes@, self.stack@[i] as int),
            ),
            root: match self.root {
                Some(root) => Some(slot_tree(self.nodes@, root as int)),
                None => None,
            },
        }
    }
}

impl Builder {
    /// Every handle on the stack, and the root, names a node that is present;
    /// no handle occurs twice.
    pub closed spec fn wf(&self) -> bool {
        &&& self.nodes@.len() <= i32::MAX + 1
        &&& forall|i: int|
            #![trigger self.stack@[i]]
            0 <= i < self.stack@.len() ==> {
                &&& 0 <= self.stack@[i] < self.nodes@.len()
                &&& self.nodes@[self.stack@[i] as int] is Some
            }
        &&& forall|i: int, j: int|
            #![trigger self.stack@[i], self.stack@[j]]
            0 <= i < j < self.stack@.len() ==> self.stack@[i] != self.stack@[j]
        &&& self.root matches Some(root) ==> {
            &&& root < self.nodes@.len()
            &&& self.nodes@[root as int] is Some
            &&& forall|i: int|
                #![trigger self.stack@[i]]
                0 <= i < self.stack@.len() ==> self.stack@[i] != root
        }
        &&& machine_is_sound(self@)
    }

    /// A machine before its first command.
    pub fn new() -> (builder: Builder)
        ensures
            builder.wf(),
            builder@ == empty_machine(),
    {
        let builder = Builder { nodes: Vec::new(), stack: Vec::new(), root: None };
        assert(builder@.stack =~= Seq::empty());
        builder
    }

    /// Creates a node and pushes its handle.
    fn push_node(&mut self, node: UiNode) -> (status: i32)
        requires
            old(self).wf(),
            tree_is_sound(node@),
        ensures
            stepped(*old(self), *final(self), status, push_tree(old(self)@, node@)),
    {
        let handle: usize = self.nodes.len();
        if handle > i32::MAX as usize {
            return GPUI_STATUS_INVALID_HANDLE;
        }
        self.nodes.push(Some(node));
        self.stack.push(handle as i32);
        proof {
            let before = old(self)@;
            assert(self@.stack =~= before.stack.push(node@));
            assert forall|i: int| 0 <= i < self@.stack.len() implies #[trigger] tree_is_sound(
                self@.stack[i],
            ) by {
                if i < before.stack.len() {
                    assert(tree_is_sound(before.stack[i]));
                }
            }
        }
        GPUI_STATUS_OK
    }

    /// The arena with another node in the top slot.
    proof fn lemma_top_replaced(before: Builder, after: Builder, node: UiNode)
        requires
            before.wf(),
            before.stack@.len() > 0,
            after.stack@ == before.stack@,
            after.root == before.root,
            after.nodes@ == before.nodes@.update(before.stack@.last() as int, Some(node)),
            tree_is_sound(node@),
        ensures
            after.wf(),
            with_top(before@, node@) == Ok::<Machine, i32>(after@),
    {
        let expected = before@.stack.drop_last().push(node@);
        assert(after@.stack =~= expected) by {
            assert forall|i: int| 0 <= i < expected.len() implies after@.stack[i] == expected[i] by {
                if i < expected.len() - 1 {
                    assert(before.stack@[i] != before.stack@.last());
                }
            }
        }
        assert forall|i: int| 0 <= i < after@.stack.len() implies #[trigger] tree_is_sound(
            after@.stack[i],
        ) by {
            assert(tree_is_sound(before@.stack[i]));
        }
    }

    /// Finds the div on top of the stack.
    fn top_div(&mut self) -> (found: Result<&mut DivNode, i32>)
        requires
            old(self).wf(),
        ensures
            final(self).stack@ == old(self).stack@,
            final(self).root == old(self).root,
            match found {
                Ok(div) => {
                    &&& old(self).stack@.len() > 0
                    &&& old(self)@.stack.last() == div@
                    &&& final(self).nodes@ == old(self).nodes@.update(
                        old(self).stack@.last() as int,
                        Some(UiNode::Div(*final(div))),
                    )
                },
                Err(status) => {
                    &&& final(self).nodes@ == old(self).nodes@
                    &&& status == if old(self)@.stack.len() == 0 {
                        GPUI_STATUS_INVALID_HANDLE
                    } else {
                        GPUI_STATUS_WRONG_NODE_KIND
                    }
                    &&& old(self)@.stack.len() > 0 ==> !(old(self)@.stack.last() is Div)
                },
            },
    {
        broadcast use lemma_div_tree;

        if self.stack.len() == 0 {
            return Err(GPUI_STATUS_INVALID_HANDLE);
        }
        let handle: i32 = self.stack[self.stack.len() - 1];
        div_mut(&mut self.nodes, handle)
    }
}

/// Does a status and a machine in memory agree with a step?
pub open spec fn stepped(before: Builder, after: Builder, status: i32, expected: Stepped) -> bool {
    match expected {
        Ok(machine) => status == GPUI_STATUS_OK && after.wf() && after@ == machine,
        Err(rejected) => status == rejected && status != GPUI_STATUS_OK,
    }
}

impl Builder {
    /// Changes the style of the div on top.
    fn style_top(&mut self, change: StyleChange) -> (status: i32)
        requires
            old(self).wf(),
            change_is_sound(change),
        ensures
            stepped(
                *old(self),
                *final(self),
                status,
                step(old(self)@, CommandSpec::Style { change }),
            ),
    {
        broadcast use lemma_div_tree;

        match self.top_div() {
            Err(status) => status,
            Ok(div) => {
                proof {
                    assert(tree_is_sound(old(self)@.stack.last()));
                    law_changes_keep_styles_sound(div.style, change);
                }
                div.style.apply(change);
                proof {
                    Self::lemma_top_replaced(*old(self), *self, UiNode::Div(*div));
                }
                GPUI_STATUS_OK
            },
        }
    }

    /// Gives the div on top a key.
    fn key_top(&mut self, key: String) -> (status: i32)
        requires
            old(self).wf(),
        ensures
            stepped(
                *old(self),
                *final(self),
                status,
                step(old(self)@, CommandSpec::SetKey { key: key@ }),
            ),
    {
        broadcast use lemma_div_tree;

        match self.top_div() {
            Err(status) => status,
            Ok(div) => {
                assert(tree_is_sound(old(self)@.stack.last()));
                div.key = Some(key);
                proof {
                    Self::lemma_top_replaced(*old(self), *self, UiNode::Div(*div));
                }
                GPUI_STATUS_OK
            },
        }
    }

    /// Gives the div on top a font family.
    fn family_top(&mut self, family: String) -> (status: i32)
        requires
            old(self).wf(),
        ensures
            stepped(
                *old(self),
                *final(self),
                status,
                step(old(self)@, CommandSpec::SetFontFamily { family: family@ }),
            ),
    {
        broadcast use lemma_div_tree;

        match self.top_div() {
            Err(status) => status,
            Ok(div) => {
                assert(tree_is_sound(old(self)@.stack.last()));
                div.font_family = Some(family);
                proof {
                    Self::lemma_top_replaced(*old(self), *self, UiNode::Div(*div));
                }
                GPUI_STATUS_OK
            },
        }
    }

    /// Appends a run to the text on top. The range is checked here, against the
    /// text that owns it, so that no later stage can meet a bad one.
    fn run_top(&mut self, run: RunOperands) -> (status: i32)
        requires
            old(self).wf(),
        ensures
            stepped(*old(self), *final(self), status, add_run(old(self)@, run)),
    {
        broadcast use lemma_text_tree;

        if run.flags & 0xc0 != 0 {
            return GPUI_STATUS_INVALID_TEXT_RUN;
        }
        if self.stack.len() == 0 {
            return GPUI_STATUS_INVALID_HANDLE;
        }
        let handle: usize = self.stack[self.stack.len() - 1] as usize;
        assert(tree_is_sound(old(self)@.stack.last()));
        match &mut self.nodes[handle] {
            None => GPUI_STATUS_NODE_ABSENT,
            Some(UiNode::Text(text)) => {
                let spec = TextRunSpec {
                    start: run.start as usize,
                    len: run.len as usize,
                    flags: run.flags as i32,
                    color: run.color,
                    weight: run.weight,
                    background: run.background,
                };
                if !admits(text, spec) {
                    return GPUI_STATUS_INVALID_TEXT_RUN;
                }
                proof {
                    lemma_admitted_run_is_sound(spec, text.content@, text.runs@);
                }
                text.runs.push(spec);
                proof {
                    Self::lemma_top_replaced(*old(self), *self, UiNode::Text(*text));
                }
                GPUI_STATUS_OK
            },
            Some(_) => GPUI_STATUS_WRONG_NODE_KIND,
        }
    }

    /// Makes the text on top a row.
    fn row_top(&mut self, row: TextRow) -> (status: i32)
        requires
            old(self).wf(),
        ensures
            stepped(*old(self), *final(self), status, set_row(old(self)@, row@)),
    {
        broadcast use lemma_text_tree;

        if self.stack.len() == 0 {
            return GPUI_STATUS_INVALID_HANDLE;
        }
        let handle: usize = self.stack[self.stack.len() - 1] as usize;
        assert(tree_is_sound(old(self)@.stack.last()));
        match &mut self.nodes[handle] {
            None => GPUI_STATUS_NODE_ABSENT,
            Some(UiNode::Text(text)) => {
                text.row = Some(row);
                proof {
                    Self::lemma_top_replaced(*old(self), *self, UiNode::Text(*text));
                }
                GPUI_STATUS_OK
            },
            Some(_) => GPUI_STATUS_WRONG_NODE_KIND,
        }
    }

    /// Moves the node on top into the div below it.
    fn attach_top(&mut self) -> (status: i32)
        requires
            old(self).wf(),
        ensures
            stepped(*old(self), *final(self), status, add_child(old(self)@)),
    {
        broadcast use lemma_div_tree;

        let depth: usize = self.stack.len();
        if depth < 2 {
            return GPUI_STATUS_INVALID_HANDLE;
        }
        let child: i32 = self.stack[depth - 1];
        let parent: i32 = self.stack[depth - 2];
        assert(tree_is_sound(self@.stack[depth - 1]));
        assert(tree_is_sound(self@.stack[depth - 2]));
        match &self.nodes[parent as usize] {
            None => return GPUI_STATUS_NODE_ABSENT,
            Some(UiNode::Div(_)) => {},
            Some(_) => return GPUI_STATUS_WRONG_NODE_KIND,
        }
        let moved = match self.nodes[child as usize].take() {
            None => return GPUI_STATUS_NODE_ABSENT,
            Some(node) => node,
        };
        match div_mut(&mut self.nodes, parent) {
            Err(status) => status,
            Ok(div) => {
                let ghost before_children = div.children@;
                div.children.push(moved);
                proof {
                    assert(trees_of(div.children@) =~= trees_of(before_children).push(moved@));
                }
                let _ = self.stack.pop();
                proof {
                    let before = old(self)@;
                    let expected = add_child(before)->Ok_0;
                    assert(self@.stack =~= expected.stack) by {
                        assert forall|i: int| 0 <= i < expected.stack.len() implies self@.stack[i]
                            == expected.stack[i] by {
                            assert(old(self).stack@[i] != child);
                            if i < expected.stack.len() - 1 {
                                assert(old(self).stack@[i] != parent);
                            }
                        }
                    }
                    lemma_step_keeps_sound(before, CommandSpec::AddChild);
                    assert forall|i: int|
                        #![trigger self.stack@[i]]
                        0 <= i < self.stack@.len() implies self.nodes@[self.stack@[i] as int] is Some by {
                        assert(old(self).stack@[i] != child);
                    }
                    assert(self@ == expected);
                }
                GPUI_STATUS_OK
            },
        }
    }

    /// Takes the node on top as the root. The last one named counts.
    fn root_top(&mut self) -> (status: i32)
        requires
            old(self).wf(),
        ensures
            stepped(*old(self), *final(self), status, set_root(old(self)@)),
    {
        match self.stack.pop() {
            None => GPUI_STATUS_INVALID_HANDLE,
            Some(handle) => {
                self.root = Some(handle as usize);
                proof {
                    assert(old(self).stack@.last() == handle);
                    assert(self@.stack =~= old(self)@.stack.drop_last());
                    lemma_step_keeps_sound(old(self)@, CommandSpec::SetRoot);
                    assert(self@ == set_root(old(self)@)->Ok_0);
                }
                GPUI_STATUS_OK
            },
        }
    }

    /// Carries out one command.
    pub fn apply(&mut self, command: Command) -> (status: i32)
        requires
            old(self).wf(),
            command_is_sound(command@),
        ensures
            stepped(*old(self), *final(self), status, step(old(self)@, command@)),
    {
        broadcast use {lemma_div_tree, lemma_text_tree};

        match command {
            Command::PushDiv => {
                let div = DivNode {
                    style: DivStyle::plain(),
                    font_family: None,
                    key: None,
                    children: Vec::new(),
                };
                assert(trees_of(div.children@) =~= Seq::empty());
                self.push_node(UiNode::Div(div))
            },
            Command::PushText { content, color, size } => {
                let text = TextNode { content, color, size, runs: Vec::new(), row: None };
                self.push_node(UiNode::Text(text))
            },
            Command::PushInput { input_id, placeholder } => {
                self.push_node(UiNode::TextInput(InputNode { input_id, placeholder }))
            },
            Command::AddRun { run } => self.run_top(run),
            Command::SetRow { row } => self.row_top(row),
            Command::Style { change } => self.style_top(change),
            Command::SetKey { key } => self.key_top(key),
            Command::SetFontFamily { family } => self.family_top(family),
            Command::AddChild => self.attach_top(),
            Command::SetRoot => self.root_top(),
        }
    }

    /// Hands out the root that was named.
    pub fn finish(self) -> (root: Option<UiNode>)
        requires
            self.wf(),
        ensures
            root is Some <==> self@.root is Some,
            root is Some ==> self@.root == Some(root->0@) && tree_is_sound(root->0@),
    {
        let mut builder = self;
        match builder.root {
            None => None,
            Some(index) => builder.nodes[index].take(),
        }
    }
}

/// May a run be appended to a text?
fn admits(text: &TextNode, run: TextRunSpec) -> (admitted: bool)
    requires
        runs_are_sound(text.runs@, text.content@),
    ensures
        admitted == run_admitted(run, text.content@, text.runs@),
{
    if !fits_in(&run, text.content.as_str()) {
        return false;
    }
    if text.runs.len() > 0 {
        let last: TextRunSpec = text.runs[text.runs.len() - 1];
        assert(run_fits(text.runs@[text.runs@.len() - 1], text.content@));
        if run.start < last.start + last.len {
            return false;
        }
    }
    true
}

/// Commands act on the top of the stack and on nothing else: the rest of the
/// stack, the root and the number of nodes change only where the command is
/// about them.
pub proof fn law_commands_act_on_the_top(machine: Machine, command: CommandSpec)
    ensures
        step(machine, command) matches Ok(next) ==> {
            let depth = machine.stack.len();
            let pushes = command is PushDiv || command is PushText || command is PushInput;
            &&& next.created == machine.created + if pushes {
                1int
            } else {
                0
            }
            &&& pushes ==> next.stack.len() == depth + 1 && next.stack.drop_last() == machine.stack
            &&& !pushes && !(command is AddChild) && !(command is SetRoot) ==> {
                &&& depth > 0
                &&& next.stack.len() == depth
                &&& next.stack.drop_last() == machine.stack.drop_last()
            }
            &&& command is AddChild ==> {
                &&& depth >= 2
                &&& next.stack.len() == depth - 1
                &&& next.stack.drop_last() == machine.stack.take(depth - 2)
            }
            &&& command is SetRoot ==> {
                &&& depth >= 1
                &&& next.stack == machine.stack.take(depth - 1)
                &&& next.root == Some(machine.stack[depth - 1])
            }
            &&& !(command is SetRoot) ==> next.root == machine.root
        },
{
    if let Ok(next) = step(machine, command) {
        let depth = machine.stack.len() as int;
        match command {
            CommandSpec::AddChild => {
                assert(next.stack.drop_last() =~= machine.stack.take(depth - 2));
            },
            CommandSpec::SetRoot => {
                assert(next.stack =~= machine.stack.take(depth - 1));
            },
            CommandSpec::PushDiv | CommandSpec::PushText { .. } | CommandSpec::PushInput { .. } => {
                assert(next.stack.drop_last() =~= machine.stack);
            },
            _ => {
                assert(next.stack.drop_last() =~= machine.stack.drop_last());
            },
        }
    }
}

/// What a command makes of the top: a fresh node has what the command brings and
/// nothing else; a command about a node changes only the part that it names; and
/// a child is attached behind its siblings.
pub proof fn law_commands_change_what_they_name(machine: Machine, command: CommandSpec)
    ensures
        step(machine, command) matches Ok(next) ==> {
            let old_top = machine.stack.last();
            let top = next.stack.last();
            &&& command is PushDiv ==> top == (Tree::Div {
                style: plain_style(),
                font_family: None,
                key: None,
                children: Seq::empty(),
            })
            &&& command matches CommandSpec::PushText { content, color, size } ==> top == (
            Tree::Text { content, color, size, runs: Seq::empty(), row: None })
            &&& command matches CommandSpec::PushInput { input_id, placeholder } ==> top == (
            Tree::Input { input_id, placeholder })
            &&& command matches CommandSpec::Style { change } ==> {
                &&& old_top is Div && top is Div
                &&& top->Div_style == style_after(old_top->Div_style, change)
                &&& top->font_family == old_top->font_family
                &&& top->key == old_top->key
                &&& top->children == old_top->children
            }
            &&& command matches CommandSpec::SetKey { key } ==> {
                &&& old_top is Div && top is Div
                &&& top->key == Some(key)
                &&& top->Div_style == old_top->Div_style
                &&& top->font_family == old_top->font_family
                &&& top->children == old_top->children
            }
            &&& command matches CommandSpec::SetFontFamily { family } ==> {
                &&& old_top is Div && top is Div
                &&& top->font_family == Some(family)
                &&& top->Div_style == old_top->Div_style
                &&& top->key == old_top->key
                &&& top->children == old_top->children
            }
            &&& command matches CommandSpec::SetRow { row } ==> {
                &&& old_top is Text && top is Text
                &&& top->row == Some(row)
                &&& top->content == old_top->content
                &&& top->color == old_top->color
                &&& top->Text_size == old_top->Text_size
                &&& top->runs == old_top->runs
            }
            &&& command matches CommandSpec::AddRun { run } ==> {
                &&& old_top is Text && top is Text
                &&& top->runs.len() == old_top->runs.len() + 1
                &&& top->runs.drop_last() == old_top->runs
                &&& top->runs.last().start == run.start
                &&& top->runs.last().len == run.len
                &&& top->runs.last().flags == run.flags
                &&& top->runs.last().color == run.color
                &&& top->runs.last().weight == run.weight
                &&& top->runs.last().background == run.background
                &&& top->content == old_top->content
                &&& top->color == old_top->color
                &&& top->Text_size == old_top->Text_size
                &&& top->row == old_top->row
            }
            &&& command is AddChild ==> {
                let parent = machine.stack[machine.stack.len() - 2];
                &&& parent is Div && top is Div
                &&& top->children.len() == parent->children.len() + 1
                &&& top->children.drop_last() == parent->children
                &&& top->children.last() == old_top
                &&& top->Div_style == parent->Div_style
                &&& top->key == parent->key
                &&& top->font_family == parent->font_family
            }
        },
{
    if let Ok(next) = step(machine, command) {
        match command {
            CommandSpec::AddRun { run } => {
                assert(next.stack.last()->runs.drop_last() =~= machine.stack.last()->runs);
            },
            CommandSpec::AddChild => {
                let parent = machine.stack[machine.stack.len() - 2];
                assert(next.stack.last()->children.drop_last() =~= parent->children);
            },
            _ => {},
        }
    }
}

/// A command is carried out exactly where the nodes that it is about are there
/// and of its kind; where they are not, the status says which of the two it is.
pub proof fn law_commands_need_their_nodes(machine: Machine, command: CommandSpec)
    requires
        machine.created <= i32::MAX,
    ensures
        ({
            let depth = machine.stack.len();
            let result = step(machine, command);
            let about_div = command is Style || command is SetKey || command is SetFontFamily;
            &&& command is PushDiv || command is PushText || command is PushInput ==> result is Ok
            &&& about_div ==> {
                &&& result is Ok <==> depth > 0 && machine.stack.last() is Div
                &&& result == Err::<Machine, i32>(GPUI_STATUS_INVALID_HANDLE) <==> depth == 0
                &&& result == Err::<Machine, i32>(GPUI_STATUS_WRONG_NODE_KIND) <==> depth > 0 && !(
                machine.stack.last() is Div)
            }
            &&& command is SetRow ==> {
                &&& result is Ok <==> depth > 0 && machine.stack.last() is Text
                &&& result == Err::<Machine, i32>(GPUI_STATUS_INVALID_HANDLE) <==> depth == 0
                &&& result == Err::<Machine, i32>(GPUI_STATUS_WRONG_NODE_KIND) <==> depth > 0 && !(
                machine.stack.last() is Text)
            }
            &&& command is AddChild ==> {
                &&& result is Ok <==> depth >= 2 && machine.stack[depth - 2] is Div
                &&& result == Err::<Machine, i32>(GPUI_STATUS_INVALID_HANDLE) <==> depth < 2
                &&& result == Err::<Machine, i32>(GPUI_STATUS_WRONG_NODE_KIND) <==> depth >= 2 && !(
                machine.stack[depth - 2] is Div)
            }
            &&& command is SetRoot ==> {
                &&& result is Ok <==> depth >= 1
                &&& result is Err ==> result == Err::<Machine, i32>(GPUI_STATUS_INVALID_HANDLE)
            }
        }),
{
}

/// A run is taken exactly where a text is on top, its flags are the six that there
/// are, it lies within the text between characters, and it starts no earlier
/// than any run before it ends.
pub proof fn law_runs_are_taken_in_order(machine: Machine, run: RunOperands)
    requires
        machine.stack.len() > 0,
        machine.stack.last() matches Tree::Text { content, runs, .. } && runs_are_sound(
            runs,
            content,
        ),
    ensures
        ({
            let (content, runs) = (machine.stack.last()->content, machine.stack.last()->runs);
            let bytes = encode_utf8(content);
            let result = step(machine, CommandSpec::AddRun { run });
            &&& result is Ok <==> {
                &&& run.flags < 0x40
                &&& run.start + run.len <= usize::MAX
                &&& run.start + run.len <= bytes.len()
                &&& is_char_boundary(bytes, run.start as int)
                &&& is_char_boundary(bytes, run.start + run.len)
                &&& forall|i: int| 0 <= i < runs.len() ==> (#[trigger] runs[i]).start + runs[i].len
                    <= run.start
            }
            &&& result is Err ==> result == Err::<Machine, i32>(GPUI_STATUS_INVALID_TEXT_RUN)
        }),
{
    let (content, runs) = (machine.stack.last()->content, machine.stack.last()->runs);
    let flags = run.flags;
    assert((flags & 0xc0 == 0) <==> flags < 0x40) by (bit_vector);
    if runs.len() > 0 {
        let last = runs.len() - 1;
        assert forall|i: int| 0 <= i < runs.len() implies (#[trigger] runs[i]).start + runs[i].len
            <= runs[last].start + runs[last].len by {
            if i < last {
                assert(runs[i].start + runs[i].len <= runs[last].start);
            }
        }
    }
}

/// Setters of different fields may come in any order in a buffer.
pub proof fn law_setters_come_in_any_order(machine: Machine, a: StyleChange, b: StyleChange)
    requires
        machine.stack.len() > 0,
        machine.stack.last() is Div,
        !same_setter(a, b),
    ensures
        ({
            let first = step(machine, CommandSpec::Style { change: a })->Ok_0;
            let other = step(machine, CommandSpec::Style { change: b })->Ok_0;
            step(first, CommandSpec::Style { change: b }) == step(
                other,
                CommandSpec::Style { change: a },
            )
        }),
{
    let top = machine.stack.last();
    law_setters_commute(top->Div_style, a, b);
    let first = step(machine, CommandSpec::Style { change: a })->Ok_0;
    let other = step(machine, CommandSpec::Style { change: b })->Ok_0;
    assert(first.stack.drop_last() =~= machine.stack.drop_last());
    assert(other.stack.drop_last() =~= machine.stack.drop_last());
}

/// A run with an unknown flag is refused whatever it is for; one with known flags
/// needs a text on top.
pub proof fn law_runs_need_a_text(machine: Machine, run: RunOperands)
    ensures
        ({
            let result = step(machine, CommandSpec::AddRun { run });
            let depth = machine.stack.len();
            &&& run.flags >= 0x40 ==> result == Err::<Machine, i32>(GPUI_STATUS_INVALID_TEXT_RUN)
            &&& run.flags < 0x40 ==> {
                &&& result == Err::<Machine, i32>(GPUI_STATUS_INVALID_HANDLE) <==> depth == 0
                &&& result == Err::<Machine, i32>(GPUI_STATUS_WRONG_NODE_KIND) <==> depth > 0 && !(
                machine.stack.last() is Text)
            }
        }),
{
    let flags = run.flags;
    assert((flags & 0xc0 == 0) <==> flags < 0x40) by (bit_vector);
}

} // verus!
