//! What a view keeps while its tree is rebuilt: the scroll handles of its keyed
//! divs and the models of its text inputs.
use crate::edit::{Edit, TextInputModel};
use crate::input::{text_len_status, InputMirror, Mirrored};
use crate::node::law_sound_spans_fit;
use crate::render::{planned, render_node, Counters, ElementPlan};
use crate::table::Key;
use crate::text::same_text;
use crate::views::{may_be_committed, Views};
use vstd::prelude::*;
use vstd::utf8::encode_utf8;

verus! {

/// The scroll handles of a view, by the keys of the divs that scroll. The slot
/// of a handle is its place in the order of first use.
pub struct ScrollHandles {
    keys: Vec<String>,
}

/// Where the handle of a div that scrolls comes from.
#[derive(Clone, Copy, PartialEq, Eq, Structural, Debug)]
pub enum ScrollHandle {
    /// The handle in a slot, which outlives rebuilds.
    Retained(usize),
    /// A new handle at the origin, which nothing else shares.
    Fresh,
}

impl View for ScrollHandles {
    type V = Seq<Seq<char>>;

    closed spec fn view(&self) -> Seq<Seq<char>> {
        self.keys@.map_values(|key: String| key@)
    }
}

/// The slot of a key: the one it has, else the next free one.
pub open spec fn slot_of(keys: Seq<Seq<char>>, key: Seq<char>) -> int {
    if keys.contains(key) {
        keys.index_of(key)
    } else {
        keys.len() as int
    }
}

/// The keys once a slot for one of them is there.
pub open spec fn keys_with(keys: Seq<Seq<char>>, key: Seq<char>) -> Seq<Seq<char>> {
    if keys.contains(key) {
        keys
    } else {
        keys.push(key)
    }
}

impl ScrollHandles {
    /// No key has two slots.
    pub open spec fn wf(&self) -> bool {
        self@.no_duplicates()
    }

    /// No handle yet.
    pub fn new() -> (handles: ScrollHandles)
        ensures
            handles.wf(),
            handles@ == Seq::<Seq<char>>::empty(),
    {
        let handles = ScrollHandles { keys: Vec::new() };
        assert(handles@ =~= Seq::<Seq<char>>::empty());
        handles
    }

    /// How many slots there are.
    pub fn len(&self) -> (count: usize)
        ensures
            count == self@.len(),
    {
        self.keys.len()
    }
}

/// Finds the scroll handle of a div. A div with a key gets the same one in every
/// frame; a div without gets a fresh one each time.
pub fn scroll_handle_for(handles: &mut ScrollHandles, key: Option<&str>) -> (handle: ScrollHandle)
    requires
        old(handles).wf(),
    ensures
        final(handles).wf(),
        match key {
            None => handle == ScrollHandle::Fresh && final(handles)@ == old(handles)@,
            Some(key) => {
                &&& handle matches ScrollHandle::Retained(slot) && slot == slot_of(
                    old(handles)@,
                    key@,
                )
                &&& final(handles)@ == keys_with(old(handles)@, key@)
            },
        },
{
    let wanted = match key {
        None => return ScrollHandle::Fresh,
        Some(key) => key,
    };
    let mut slot: usize = 0;
    while slot < handles.keys.len()
        invariant
            slot <= handles.keys@.len(),
            *handles == *old(handles),
            handles.wf(),
            key == Some(wanted),
            forall|i: int| 0 <= i < slot ==> handles@[i] != wanted@,
        decreases handles.keys@.len() - slot,
    {
        if same_text(handles.keys[slot].as_str(), wanted) {
            proof {
                assert(handles@[slot as int] == wanted@);
                let found = handles@.index_of(wanted@);
                assert(handles@[found] == wanted@);
            }
            return ScrollHandle::Retained(slot);
        }
        slot = slot + 1;
    }
    proof {
        if handles@.contains(wanted@) {
            let found = handles@.index_of(wanted@);
            assert(handles@[found] == wanted@);
        }
    }
    handles.keys.push(wanted.to_owned());
    assert(handles@ =~= old(handles)@.push(wanted@));
    ScrollHandle::Retained(slot)
}

/// A key keeps its slot: asking for it again, and asking for other keys in
/// between, changes nothing; and no other key has that slot.
pub proof fn law_slots_are_retained(keys: Seq<Seq<char>>, key: Seq<char>, other: Seq<char>)
    requires
        keys.no_duplicates(),
    ensures
        ({
            let once = keys_with(keys, key);
            let later = keys_with(once, other);
            &&& once.no_duplicates()
            &&& slot_of(once, key) == slot_of(keys, key)
            &&& slot_of(later, key) == slot_of(keys, key)
            &&& key != other ==> slot_of(once, other) != slot_of(once, key)
            &&& keys_with(later, key) == later
        }),
{
    let once = keys_with(keys, key);
    let later = keys_with(once, other);
    if keys.contains(key) {
        assert(once == keys);
    } else {
        assert(once[keys.len() as int] == key);
    }
    assert(once.contains(key));
    let at = once.index_of(key);
    assert(once[at] == key);
    if !once.contains(other) {
        assert(later[at] == key);
        assert(later.no_duplicates());
    } else {
        let there = once.index_of(other);
        assert(once[there] == other);
    }
    assert(later.contains(key));
    assert(later[later.index_of(key)] == key);
}

/// The models of the text inputs of a view.
pub struct InputModels {
    pub models: Vec<TextInputModel>,
}

/// The place of the model of an input; `None` where there is none.
pub open spec fn model_at(models: Seq<TextInputModel>, input_id: i32) -> Option<int> {
    if exists|i: int| 0 <= i < models.len() && (#[trigger] models[i]).input_id == input_id {
        Some(
            choose|i: int| 0 <= i < models.len() && (#[trigger] models[i]).input_id == input_id,
        )
    } else {
        None
    }
}

/// Two models differ in the placeholder at most.
pub open spec fn same_but_placeholder(before: TextInputModel, after: TextInputModel) -> bool {
    &&& after.view == before.view
    &&& after.input_id == before.input_id
    &&& after.content == before.content
    &&& after.selected_range == before.selected_range
    &&& after.marked_range == before.marked_range
}

/// What rendering an input does to the models and to the mirror: an input that
/// has a model keeps it but for the placeholder, and nothing else changes; one
/// that has none gets an empty one, which is mirrored.
pub open spec fn rendered(
    before: InputModels,
    mirror_before: InputMirror,
    after: InputModels,
    mirror_after: InputMirror,
    view: i32,
    input_id: i32,
    placeholder: Seq<char>,
    slot: int,
) -> bool {
    &&& 0 <= slot < after.models@.len()
    &&& after.models@[slot].placeholder@ == placeholder
    &&& match model_at(before.models@, input_id) {
        Some(at) => {
            &&& slot == at
            &&& after.models@ == before.models@.update(at, after.models@[at])
            &&& same_but_placeholder(before.models@[at], after.models@[at])
            &&& mirror_after == mirror_before
        },
        None => {
            &&& slot == before.models@.len()
            &&& after.models@ == before.models@.push(after.models@[slot])
            &&& after.models@[slot].view == view
            &&& after.models@[slot].input_id == input_id
            &&& after.models@[slot]@ == (Edit { text: Seq::empty(), start: 0, end: 0, mark: None })
            &&& mirror_after.mirror() == mirror_before.mirror().insert(
                (view, input_id),
                (Mirrored { text: Seq::empty(), composing: false }),
            )
            &&& mirror_after.queued() == mirror_before.queued()
            &&& mirror_after.dirty() == mirror_before.dirty()
        },
    }
}

/// The first render of an input leaves an empty text that can be read.
pub proof fn law_first_render_seeds_the_mirror(
    before: InputModels,
    mirror_before: InputMirror,
    after: InputModels,
    mirror_after: InputMirror,
    view: i32,
    input_id: i32,
    placeholder: Seq<char>,
    slot: int,
)
    requires
        rendered(
            before,
            mirror_before,
            after,
            mirror_after,
            view,
            input_id,
            placeholder,
            slot,
        ),
        model_at(before.models@, input_id) is None,
    ensures
        text_len_status(mirror_after.mirror(), view, input_id) == 0,
        after.models@[slot]@.text == Seq::<char>::empty(),
{
    assert(encode_utf8(Seq::<char>::empty()).len() == 0);
}

/// An input keeps its model over two renders: whatever was typed, selected or
/// marked in between, and whichever other inputs came along, the second render
/// finds the same model, follows the new placeholder and changes nothing else.
pub proof fn law_rendering_keeps_the_input(
    before: InputModels,
    mirror_before: InputMirror,
    first: InputModels,
    mirror_first: InputMirror,
    edited: InputModels,
    mirror_edited: InputMirror,
    second: InputModels,
    mirror_second: InputMirror,
    view: i32,
    input_id: i32,
    old_placeholder: Seq<char>,
    new_placeholder: Seq<char>,
    slot: int,
    next_slot: int,
)
    requires
        before.wf(),
        rendered(
            before,
            mirror_before,
            first,
            mirror_first,
            view,
            input_id,
            old_placeholder,
            slot,
        ),
        edited.wf(),
        first.models@.len() <= edited.models@.len(),
        forall|i: int|
            0 <= i < first.models@.len() ==> (#[trigger] edited.models@[i]).input_id
                == first.models@[i].input_id,
        rendered(
            edited,
            mirror_edited,
            second,
            mirror_second,
            view,
            input_id,
            new_placeholder,
            next_slot,
        ),
    ensures
        next_slot == slot,
        second.models@ == edited.models@.update(slot, second.models@[slot]),
        second.models@[slot].content == edited.models@[slot].content,
        second.models@[slot].selected_range == edited.models@[slot].selected_range,
        second.models@[slot].marked_range == edited.models@[slot].marked_range,
        second.models@[slot].placeholder@ == new_placeholder,
        mirror_second == mirror_edited,
{
    assert(first.models@[slot].input_id == input_id);
    assert(edited.models@[slot].input_id == input_id);
    let found = model_at(edited.models@, input_id)->0;
    assert(edited.models@[found].input_id == input_id);
}

impl InputModels {
    /// Every model is sound and no input has two.
    pub open spec fn wf(&self) -> bool {
        &&& forall|i: int| 0 <= i < self.models@.len() ==> (#[trigger] self.models@[i]).wf()
        &&& forall|i: int, j: int|
            #![trigger self.models@[i], self.models@[j]]
            0 <= i < j < self.models@.len() ==> self.models@[i].input_id
                != self.models@[j].input_id
    }

    /// No model yet.
    pub fn new() -> (inputs: InputModels)
        ensures
            inputs.wf(),
            inputs.models@.len() == 0,
    {
        InputModels { models: Vec::new() }
    }

    /// Finds the model of an input, or makes an empty one and mirrors it. Only
    /// the placeholder follows the tree.
    pub fn retain(
        &mut self,
        view: i32,
        input_id: i32,
        placeholder: &str,
        mirror: &mut InputMirror,
    ) -> (slot: usize)
        requires
            old(self).wf(),
            old(mirror).wf(),
        ensures
            final(self).wf(),
            final(mirror).wf(),
            rendered(
                *old(self),
                *old(mirror),
                *final(self),
                *final(mirror),
                view,
                input_id,
                placeholder@,
                slot as int,
            ),
    {
        let mut slot: usize = 0;
        while slot < self.models.len()
            invariant
                slot <= self.models@.len(),
                *self == *old(self),
                *mirror == *old(mirror),
                old(self).wf(),
                old(mirror).wf(),
                forall|i: int|
                    0 <= i < slot ==> (#[trigger] self.models@[i]).input_id != input_id,
            decreases self.models@.len() - slot,
        {
            if self.models[slot].input_id == input_id {
                proof {
                    let at = model_at(old(self).models@, input_id)->0;
                    assert(self.models@[slot as int].input_id == input_id);
                    assert(self.models@[at].input_id == input_id);
                }
                if !same_text(self.models[slot].placeholder.as_str(), placeholder) {
                    let ghost before = self.models@;
                    self.models[slot].placeholder = placeholder.to_owned();
                    proof {
                        let changed = self.models@[slot as int];
                        assert(changed@ == before[slot as int]@);
                        assert(self.models@ =~= before.update(slot as int, changed));
                        assert forall|i: int| 0 <= i < self.models@.len() implies (
                        #[trigger] self.models@[i]).wf() by {
                            assert(before[i].wf());
                        }
                        assert forall|i: int, j: int|
                            #![trigger self.models@[i], self.models@[j]]
                            0 <= i < j < self.models@.len() implies self.models@[i].input_id
                            != self.models@[j].input_id by {
                            assert(before[i].input_id != before[j].input_id);
                        }
                    }
                }
                assert(self.models@ =~= old(self).models@.update(
                    slot as int,
                    self.models@[slot as int],
                ));
                return slot;
            }
            slot = slot + 1;
        }
        mirror.mirror_update(view, input_id, "", false);
        proof {
            reveal_strlit("");
            assert(""@ =~= Seq::<char>::empty());
        }
        let ghost before = self.models@;
        self.models.push(TextInputModel::new(view, input_id, placeholder.to_owned()));
        proof {
            let made = self.models@[slot as int];
            assert(self.models@ =~= before.push(made));
            assert forall|i: int| 0 <= i < self.models@.len() implies (
            #[trigger] self.models@[i]).wf() by {
                if i < slot {
                    assert(before[i].wf());
                }
            }
            assert forall|i: int, j: int|
                #![trigger self.models@[i], self.models@[j]]
                0 <= i < j < self.models@.len() implies self.models@[i].input_id
                != self.models@[j].input_id by {
                if j < slot {
                    assert(before[i].input_id != before[j].input_id);
                } else {
                    assert(before[i].input_id != input_id);
                }
            }
        }
        slot
    }
}

/// One view of the application: the tree that it draws and what it keeps.
pub struct FfiView {
    /// Whose committed tree is drawn.
    pub view: i32,
    pub scroll_handles: ScrollHandles,
    pub inputs: InputModels,
}

impl FfiView {
    /// What the view keeps is in order.
    pub open spec fn wf(&self) -> bool {
        self.scroll_handles.wf() && self.inputs.wf()
    }

    /// A view that keeps nothing yet.
    pub fn new(view: i32) -> (made: FfiView)
        ensures
            made.wf(),
            made.view == view,
            made.scroll_handles@.len() == 0,
            made.inputs.models@.len() == 0,
    {
        FfiView { view, scroll_handles: ScrollHandles::new(), inputs: InputModels::new() }
    }

    /// Decides what the view draws: its tree, filling the window, with the
    /// numbers starting over in each frame. Before the first commit there is
    /// nothing to draw.
    pub fn render(&self, views: &Views) -> (drawn: Option<ElementPlan>)
        requires
            views.wf(),
        ensures
            match drawn {
                Some(plan) => views@.dom().contains(self.view as int) && plan@ == planned(
                    views@[self.view as int],
                    true,
                    (Counters { scroll: 0, focus: 0 }),
                ).0,
                None => !views@.dom().contains(self.view as int),
            },
    {
        match views.committed(self.view) {
            None => None,
            Some(root) => {
                proof {
                    assert(may_be_committed(views@[self.view as int]));
                    law_sound_spans_fit(root@);
                }
                let (plan, _) = render_node(root, true, Counters { scroll: 0, focus: 0 });
                Some(plan)
            },
        }
    }
}

/// The first render of an input mirrors it as one that is not composing, changes nothing
/// that is mirrored of other inputs, and keeps the models that are there.
pub proof fn law_first_render_is_local(
    before: InputModels,
    mirror_before: InputMirror,
    after: InputModels,
    mirror_after: InputMirror,
    view: i32,
    input_id: i32,
    placeholder: Seq<char>,
    slot: int,
    other: Key,
    i: int,
)
    requires
        rendered(
            before,
            mirror_before,
            after,
            mirror_after,
            view,
            input_id,
            placeholder,
            slot,
        ),
        other != (view, input_id),
    ensures
        mirror_after.mirror().dom().contains(other) == mirror_before.mirror().dom().contains(other),
        mirror_before.mirror().dom().contains(other) ==> mirror_after.mirror()[other]
            == mirror_before.mirror()[other],
        mirror_after.queued() == mirror_before.queued(),
        mirror_after.dirty() == mirror_before.dirty(),
        0 <= i < before.models@.len() && i != slot ==> after.models@[i] == before.models@[i],
        after.models@[slot].input_id == input_id,
        after.models@[slot].placeholder@ == placeholder,
        model_at(before.models@, input_id) is None ==> {
            &&& after.models@.len() == before.models@.len() + 1
            &&& after.models@[slot].view == view
            &&& after.models@[slot]@.start == 0 && after.models@[slot]@.end == 0
            &&& after.models@[slot]@.mark is None
            &&& !mirror_after.mirror()[(view, input_id)].composing
        },
        model_at(before.models@, input_id) is Some ==> after.models@.len() == before.models@.len()
            && after.models@[slot]@ == before.models@[slot]@,
{
    if let Some(at) = model_at(before.models@, input_id) {
        assert(before.models@[at].input_id == input_id);
    }
}

} // verus!
