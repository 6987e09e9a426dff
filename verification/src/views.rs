//! The committed trees, one for each view, and what is done to them: a whole
//! tree is committed, the text under a key is replaced, the texts are read.
use crate::abi::{
    GPUI_STATUS_INVALID_HANDLE, GPUI_STATUS_KEY_NOT_FOUND, GPUI_STATUS_OK,
    GPUI_STATUS_TRUNCATED_BUFFER,
};
use crate::commit::{
    check, check_tree, cuts_a_command, decode, decode_buffer, key_of, law_cut_buffer_is_truncated,
    law_decode_is_total, law_decoded_tree_is_sound, live_scroll_ids, scroll_id_of, scroll_ids, walk, walk_all, with_key,
};
use crate::copy::{copied, copy_out, overwritten};
use crate::grow::{STACK_GROW_BY, STACK_RED_ZONE};
use crate::node::{
    fitting_runs, keep_fitting, law_fitting_runs_are_sound, lemma_div_tree, lemma_sound_div,
    run_fits, tree_is_sound, tree_of, trees_of, DivNode, InputNode, TextRunSpec, Tree, UiNode,
};
use crate::scroll::ScrollMirror;
use crate::table::pruned;
use crate::text::{
    append_bytes, append_word, decode_strict, law_word_round_trip, le_bytes, same_text, word_at,
};
use vstd::arithmetic::div_mod::lemma_small_mod;
use vstd::prelude::*;
use vstd::utf8::{
    decode_utf8, encode_utf8, encode_utf8_decode_utf8, encode_utf8_valid_utf8, valid_utf8,
};

verus! {

/// The committed trees by view.
pub struct Views {
    slots: Vec<Option<UiNode>>,
}

impl View for Views {
    type V = Map<int, Tree>;

    closed spec fn view(&self) -> Map<int, Tree> {
        Map::new(
            |view: int| 0 <= view < self.slots@.len() && self.slots@[view] is Some,
            |view: int| tree_of(self.slots@[view]->0),
        )
    }
}

/// A tree that may be committed: it passed the checks, its lengths are layout
/// lengths and the runs of its texts lie within them.
pub open spec fn may_be_committed(tree: Tree) -> bool {
    check_tree(tree) == GPUI_STATUS_OK && tree_is_sound(tree)
}

impl Views {
    /// Every tree is one that may be committed.
    pub open spec fn wf(&self) -> bool {
        forall|view: int|
            self@.dom().contains(view) ==> may_be_committed(#[trigger] self@[view])
    }

    /// No view has a tree yet.
    pub fn new() -> (views: Views)
        ensures
            views.wf(),
            views@ == Map::<int, Tree>::empty(),
    {
        let views = Views { slots: Vec::new() };
        assert(views@ =~= Map::<int, Tree>::empty());
        views
    }

    /// The tree of a view.
    pub fn committed(&self, view: i32) -> (root: Option<&UiNode>)
        ensures
            root is Some <==> self@.dom().contains(view as int),
            root is Some ==> root->0@ == self@[view as int],
    {
        if view < 0 || view as usize >= self.slots.len() {
            return None;
        }
        match &self.slots[view as usize] {
            Some(root) => Some(root),
            None => None,
        }
    }

    /// Puts a tree in place of the one a view has.
    pub fn commit(&mut self, view: i32, root: UiNode)
        requires
            view >= 0,
            old(self).wf(),
            may_be_committed(root@),
        ensures
            final(self).wf(),
            final(self)@ == old(self)@.insert(view as int, root@),
    {
        let index: usize = view as usize;
        while self.slots.len() <= index
            invariant
                self@ == old(self)@,
                index == view,
            decreases index + 1 - self.slots@.len(),
        {
            let ghost before = self@;
            self.slots.push(None);
            assert(self@ =~= before);
        }
        let ghost before = self@;
        self.slots[index] = Some(root);
        assert(self@ =~= before.insert(view as int, root@));
    }
}

/// Decodes a command buffer and commits its tree. Where the buffer is rejected
/// nothing changes.
pub fn build_tree_from_buffer(
    views: &mut Views,
    scroll: &mut ScrollMirror,
    view: i32,
    data: &[u8],
) -> (status: i32)
    requires
        view >= 0,
        old(views).wf(),
        old(scroll).wf(),
    ensures
        final(views).wf(),
        final(scroll).wf(),
        match decode(data@) {
            Ok(tree) => {
                &&& status == GPUI_STATUS_OK
                &&& final(views)@ == old(views)@.insert(view as int, tree)
                &&& final(scroll).states() == pruned(
                    old(scroll).states(),
                    view,
                    live_scroll_ids(tree),
                )
                &&& final(scroll).announced() == pruned(
                    old(scroll).announced(),
                    view,
                    live_scroll_ids(tree),
                )
            },
            Err(rejected) => {
                &&& status == rejected
                &&& status != GPUI_STATUS_OK
                &&& *final(views) == *old(views)
                &&& *final(scroll) == *old(scroll)
            },
        },
{
    match decode_buffer(data) {
        Err(status) => status,
        Ok((root, ids)) => {
            views.commit(view, root);
            scroll.scroll_mirror_prune(view, &ids);
            GPUI_STATUS_OK
        },
    }
}

/// What committing answers.
pub open spec fn build_status(view: i32, data: Option<Seq<u8>>, len: i32) -> i32 {
    if view < 0 {
        GPUI_STATUS_INVALID_HANDLE
    } else if data is None || len < 0 {
        GPUI_STATUS_TRUNCATED_BUFFER
    } else {
        match decode(data->0) {
            Ok(_) => GPUI_STATUS_OK,
            Err(status) => status,
        }
    }
}

/// The bytes that a caller lent, where there are any.
pub open spec fn lent(ptr: Option<&[u8]>) -> Option<Seq<u8>> {
    match ptr {
        Some(bytes) => Some(bytes@),
        None => None,
    }
}

/// Builds and commits the tree of a view from one command buffer. Where that
/// fails, the tree that was committed before stays as it is.
pub fn gpui_build_tree(
    views: &mut Views,
    scroll: &mut ScrollMirror,
    view: i32,
    ptr: Option<&[u8]>,
    len: i32,
) -> (status: i32)
    requires
        old(views).wf(),
        old(scroll).wf(),
        ptr matches Some(bytes) ==> len < 0 || bytes@.len() == len,
    ensures
        final(views).wf(),
        final(scroll).wf(),
        status == build_status(view, lent(ptr), len),
        status == GPUI_STATUS_OK ==> {
            let tree = decode(ptr->0@)->Ok_0;
            &&& final(views)@ == old(views)@.insert(view as int, tree)
            &&& final(scroll).states() == pruned(old(scroll).states(), view, live_scroll_ids(tree))
            &&& final(scroll).announced() == pruned(
                old(scroll).announced(),
                view,
                live_scroll_ids(tree),
            )
        },
        status != GPUI_STATUS_OK ==> *final(views) == *old(views) && *final(scroll) == *old(scroll),
{
    if view < 0 {
        return GPUI_STATUS_INVALID_HANDLE;
    }
    match ptr {
        None => GPUI_STATUS_TRUNCATED_BUFFER,
        Some(data) => {
            if len < 0 {
                GPUI_STATUS_TRUNCATED_BUFFER
            } else {
                build_tree_from_buffer(views, scroll, view, data)
            }
        },
    }
}

/// A commit gives its view the decoded tree and touches no other view.
pub proof fn law_commit_is_per_view(views: Map<int, Tree>, view: int, tree: Tree, other: int)
    requires
        other != view,
    ensures
        views.insert(view, tree)[view] == tree,
        views.insert(view, tree).dom().contains(other) <==> views.dom().contains(other),
        views.dom().contains(other) ==> views.insert(view, tree)[other] == views[other],
{
}

/// The record of one text: its length in bytes, then its bytes.
pub open spec fn text_record(content: Seq<char>) -> Seq<u8> {
    let bytes = encode_utf8(content);
    le_bytes((bytes.len() % 0x1_0000_0000) as u32) + bytes
}

/// The records of the texts of a tree, parents before children and children in
/// order. A text input contributes none.
pub open spec fn text_records(tree: Tree) -> Seq<u8>
    decreases tree, 0int,
{
    match tree {
        Tree::Div { children, .. } => all_text_records(children),
        Tree::Text { content, .. } => text_record(content),
        Tree::Input { .. } => Seq::empty(),
    }
}

/// The records of the texts of trees side by side.
pub open spec fn all_text_records(trees: Seq<Tree>) -> Seq<u8>
    decreases trees, 1int,
{
    if trees.len() == 0 {
        Seq::empty()
    } else {
        all_text_records(trees.drop_last()) + text_records(trees.last())
    }
}

/// Appends the records of the texts of a tree.
pub fn collect_text_contents(node: &UiNode, out: Vec<u8>) -> (all: Vec<u8>)
    ensures
        all@ == out@ + text_records(node@),
    decreases node, 1int,
{
    stacker::maybe_grow(
        STACK_RED_ZONE,
        STACK_GROW_BY,
        move || -> (all: Vec<u8>)
            ensures all@ == out@ + text_records(node@)
        {
            collect_here(node, out)
        },
    )
}

fn collect_here(node: &UiNode, out: Vec<u8>) -> (all: Vec<u8>)
    ensures
        all@ == out@ + text_records(node@),
    decreases node, 0int,
{
    let mut all: Vec<u8> = out;
    match node {
        UiNode::Div(div) => {
            let ghost trees = trees_of(div.children@);
            proof {
                lemma_div_tree(*div);
                assert(trees.take(0) =~= Seq::empty());
                assert(all_text_records(trees.take(0)) =~= Seq::empty());
                assert(out@ + all_text_records(trees.take(0)) =~= out@);
            }
            let mut i: usize = 0;
            while i < div.children.len()
                invariant
                    i <= div.children@.len(),
                    *node == UiNode::Div(*div),
                    trees == trees_of(div.children@),
                    all@ == out@ + all_text_records(trees.take(i as int)),
                decreases div.children@.len() - i,
            {
                let child: &UiNode = &div.children[i];
                assert(decreases_to!(*node => node->Div_0.children@[i as int]));
                all = collect_text_contents(child, all);
                i = i + 1;
                proof {
                    let upto = trees.take(i as int);
                    assert(upto.drop_last() =~= trees.take(i - 1));
                    assert(upto.last() == child@);
                    assert(out@ + (all_text_records(upto.drop_last()) + text_records(child@))
                        =~= (out@ + all_text_records(upto.drop_last())) + text_records(child@));
                }
            }
            assert(trees.take(i as int) =~= trees);
        },
        UiNode::Text(text) => {
            let bytes: &[u8] = text.content.as_str().as_bytes();
            append_word(&mut all, (bytes.len() as u64 % 0x1_0000_0000) as u32);
            append_bytes(&mut all, bytes);
            assert(all@ =~= out@ + text_record(text.content@));
        },
        UiNode::TextInput(_) => {
            assert(all@ =~= out@ + text_records(node@));
        },
    }
    all
}

/// A record reads back as its text, whatever stands behind it: the length comes
/// first, and as many bytes of the text follow.
pub proof fn law_text_record_reads_back(content: Seq<char>, rest: Seq<u8>)
    requires
        encode_utf8(content).len() <= u32::MAX,
    ensures
        ({
            let dump = text_record(content) + rest;
            let len = word_at(dump, 0);
            &&& len == encode_utf8(content).len()
            &&& dump.subrange(4, 4 + len) == encode_utf8(content)
            &&& dump.skip(4 + len) == rest
        }),
{
    let bytes = encode_utf8(content);
    let word = le_bytes(bytes.len() as u32);
    let dump = text_record(content) + rest;
    lemma_small_mod(bytes.len(), 0x1_0000_0000);
    lemma_record_parts(word, bytes, rest);
    assert(dump == word + bytes + rest);
    law_word_round_trip(Seq::empty(), bytes.len() as u32, bytes + rest);
}

/// Where the parts of a record stand.
proof fn lemma_record_parts(word: Seq<u8>, bytes: Seq<u8>, rest: Seq<u8>)
    requires
        word.len() == 4,
    ensures
        ({
            let dump = word + bytes + rest;
            &&& dump == Seq::<u8>::empty() + word + (bytes + rest)
            &&& dump.subrange(4, 4 + bytes.len() as int) == bytes
            &&& dump.skip(4 + bytes.len() as int) == rest
        }),
{
    let dump = word + bytes + rest;
    assert(dump =~= Seq::<u8>::empty() + word + (bytes + rest));
    assert(dump.subrange(4, 4 + bytes.len() as int) =~= bytes);
    assert(dump.skip(4 + bytes.len() as int) =~= rest);
}

/// What reading the texts of a view answers.
pub open spec fn dump_status(views: Map<int, Tree>, view: i32, present: bool, len: i32) -> int {
    if view < 0 || !present || len < 0 || !views.dom().contains(view as int) {
        GPUI_STATUS_INVALID_HANDLE as int
    } else {
        copied(text_records(views[view as int]).len(), len as int)
    }
}

/// Copies the records of the texts of a committed tree.
pub fn gpui_debug_dump_text(views: &Views, view: i32, buf: Option<&mut [u8]>, len: i32) -> (status:
    i32)
    requires
        buf matches Some(b) ==> len <= b@.len(),
    ensures
        status == dump_status(views@, view, buf is Some, len),
        buf matches Some(b) ==> final(b)@ == if status >= 0 {
            overwritten(b@, text_records(views@[view as int]), status as int)
        } else {
            b@
        },
{
    match buf {
        None => GPUI_STATUS_INVALID_HANDLE,
        Some(buf) => {
            if view < 0 || len < 0 {
                return GPUI_STATUS_INVALID_HANDLE;
            }
            match views.committed(view) {
                None => GPUI_STATUS_INVALID_HANDLE,
                Some(root) => {
                    let payload: Vec<u8> = collect_text_contents(root, Vec::new());
                    assert(payload@ =~= text_records(root@));
                    copy_out(payload.as_slice(), buf, len)
                },
            }
        },
    }
}

/// A text with other content. Of its runs those are kept that fit it.
pub open spec fn retexted(tree: Tree, text: Seq<char>) -> Tree {
    match tree {
        Tree::Text { color, size, runs, row, .. } => Tree::Text {
            content: text,
            color,
            size,
            runs: fitting_runs(runs, text),
            row,
        },
        _ => tree,
    }
}

/// Where the first text stands among trees; their number where there is none.
pub open spec fn first_text(trees: Seq<Tree>) -> int
    decreases trees.len(),
{
    if trees.len() == 0 {
        0
    } else {
        let earlier = first_text(trees.drop_last());
        if earlier < trees.len() - 1 || trees.last() is Text {
            earlier
        } else {
            trees.len() as int
        }
    }
}

/// The first text is a text, and none stands before it.
pub proof fn law_first_text_is_first(trees: Seq<Tree>)
    ensures
        0 <= first_text(trees) <= trees.len(),
        first_text(trees) < trees.len() ==> trees[first_text(trees)] is Text,
        forall|i: int| 0 <= i < first_text(trees) ==> !((#[trigger] trees[i]) is Text),
    decreases trees.len(),
{
    if trees.len() > 0 {
        let fewer = trees.drop_last();
        law_first_text_is_first(fewer);
        assert forall|i: int| 0 <= i < first_text(trees) implies !((#[trigger] trees[i]) is Text) by {
            if i < fewer.len() {
                assert(fewer[i] == trees[i]);
            }
        }
    }
}

/// The tree once the text under a key is replaced: the first text among the
/// children of the div with that key. `None` where there is none.
pub open spec fn updated(tree: Tree, wanted: Seq<char>, text: Seq<char>) -> Option<Tree>
    decreases tree, 0int,
{
    match tree {
        Tree::Div { style, font_family, key, children } => if key == Some(wanted) {
            let at = first_text(children);
            if at < children.len() {
                Some(
                    Tree::Div {
                        style,
                        font_family,
                        key,
                        children: children.update(at, retexted(children[at], text)),
                    },
                )
            } else {
                None
            }
        } else {
            match first_updated(children, wanted, text) {
                Some(children) => Some(Tree::Div { style, font_family, key, children }),
                None => None,
            }
        },
        _ => None,
    }
}

/// The trees once the first of them that can be updated is.
pub open spec fn first_updated(trees: Seq<Tree>, wanted: Seq<char>, text: Seq<char>) -> Option<
    Seq<Tree>,
>
    decreases trees, 1int,
{
    if trees.len() == 0 {
        None
    } else {
        match first_updated(trees.drop_last(), wanted, text) {
            Some(earlier) => Some(earlier.push(trees.last())),
            None => match updated(trees.last(), wanted, text) {
                Some(last) => Some(trees.drop_last().push(last)),
                None => None,
            },
        }
    }
}

/// What a search did: it updated a tree, or left it as it was.
pub open spec fn searched(before: Tree, after: Tree, hit: bool, wanted: Seq<char>, text: Seq<char>) -> bool {
    match updated(before, wanted, text) {
        Some(tree) => hit && after == tree,
        None => !hit && after == before,
    }
}

/// Replaces the text under a key.
pub fn update_keyed_text(node: &mut UiNode, key: &str, text: &str) -> (hit: bool)
    ensures
        searched(old(node)@, final(node)@, hit, key@, text@),
    decreases *old(node), 1int,
{
    let mut taken = UiNode::TextInput(InputNode { input_id: 0, placeholder: String::new() });
    std::mem::swap(node, &mut taken);
    let (back, hit) = stacker::maybe_grow(
        STACK_RED_ZONE,
        STACK_GROW_BY,
        move || -> (result: (UiNode, bool))
            ensures searched(taken@, result.0@, result.1, key@, text@)
        {
            update_here(taken, key, text)
        },
    );
    *node = back;
    hit
}

/// Replaces the content of the first text among nodes.
fn retext_first(nodes: &mut Vec<UiNode>, text: &str) -> (hit: bool)
    ensures
        ({
            let trees = trees_of(old(nodes)@);
            let at = first_text(trees);
            &&& hit == (at < trees.len())
            &&& trees_of(final(nodes)@) == if hit {
                trees.update(at, retexted(trees[at], text@))
            } else {
                trees
            }
        }),
{
    let ghost trees = trees_of(nodes@);
    let mut i: usize = 0;
    assert(trees.take(0) =~= Seq::empty());
    while i < nodes.len()
        invariant
            i <= nodes@.len(),
            nodes@ == old(nodes)@,
            trees == trees_of(nodes@),
            first_text(trees.take(i as int)) == i,
        decreases nodes@.len() - i,
    {
        proof {
            let upto = trees.take(i + 1);
            assert(upto.drop_last() =~= trees.take(i as int));
            assert(upto.last() == tree_of(nodes@[i as int]));
        }
        if let UiNode::Text(found) = &mut nodes[i] {
            proof {
                lemma_first_text_of_prefix(trees, i + 1);
            }
            let runs: Vec<TextRunSpec> = keep_fitting(&found.runs, text);
            found.content = text.to_owned();
            found.runs = runs;
            proof {
                assert(trees_of(nodes@) =~= trees.update(
                    i as int,
                    retexted(trees[i as int], text@),
                ));
            }
            return true;
        }
        assert(nodes@ =~= old(nodes)@);
        i = i + 1;
    }
    assert(trees.take(i as int) =~= trees);
    false
}

/// A text that is found among the first trees is the first of all.
proof fn lemma_first_text_of_prefix(trees: Seq<Tree>, count: int)
    requires
        0 <= count <= trees.len(),
        first_text(trees.take(count)) < count,
    ensures
        first_text(trees) == first_text(trees.take(count)),
    decreases trees.len() - count,
{
    if count == trees.len() {
        assert(trees.take(count) =~= trees);
    } else {
        let more = trees.take(count + 1);
        assert(more.drop_last() =~= trees.take(count));
        lemma_first_text_of_prefix(trees, count + 1);
    }
}

fn update_here(node: UiNode, key: &str, text: &str) -> (result: (UiNode, bool))
    ensures
        searched(node@, result.0@, result.1, key@, text@),
    decreases node, 0int,
{
    let ghost start = node;
    match node {
        UiNode::Div(div) => {
            let ghost whole = div;
            let ghost trees = trees_of(whole.children@);
            let mut div: DivNode = div;
            proof {
                lemma_div_tree(whole);
            }
            let carries = match &div.key {
                Some(own) => same_text(own.as_str(), key),
                None => false,
            };
            if carries {
                let hit = retext_first(&mut div.children, text);
                proof {
                    lemma_div_tree(div);
                }
                return (UiNode::Div(div), hit);
            }
            let mut i: usize = 0;
            assert(trees.take(0) =~= Seq::empty());
            while i < div.children.len()
                invariant
                    i <= div.children@.len(),
                    node == start,
                    start == UiNode::Div(whole),
                    start@ == whole@,
                    trees == trees_of(whole.children@),
                    div.style == whole.style,
                    div.font_family == whole.font_family,
                    div.key == whole.key,
                    whole@->Div_key != Some(key@),
                    div.children@.len() == whole.children@.len(),
                    forall|j: int|
                        i <= j < div.children@.len() ==> #[trigger] div.children@[j]
                            == whole.children@[j],
                    forall|j: int|
                        0 <= j < div.children@.len() ==> tree_of(#[trigger] div.children@[j])
                            == trees[j],
                    first_updated(trees.take(i as int), key@, text@) is None,
                decreases div.children@.len() - i,
            {
                assert(decreases_to!(start => start->Div_0.children@[i as int]));
                assert(div.children@[i as int] == whole.children@[i as int]);
                let hit = update_keyed_text(&mut div.children[i], key, text);
                proof {
                    let upto = trees.take(i + 1);
                    assert(upto.drop_last() =~= trees.take(i as int));
                    assert(upto.last() == trees[i as int]);
                }
                if hit {
                    proof {
                        lemma_div_tree(div);
                        let changed = updated(trees[i as int], key@, text@)->0;
                        assert(div@->Div_children =~= trees.update(i as int, changed));
                        lemma_first_updated(trees, key@, text@, i as int);
                    }
                    return (UiNode::Div(div), true);
                }
                i = i + 1;
            }
            proof {
                lemma_div_tree(div);
                assert(trees.take(i as int) =~= trees);
                assert(div@->Div_children =~= trees);
            }
            (UiNode::Div(div), false)
        },
        other => (other, false),
    }
}

/// The first tree that can be updated decides.
proof fn lemma_first_updated(trees: Seq<Tree>, wanted: Seq<char>, text: Seq<char>, i: int)
    requires
        0 <= i < trees.len(),
        first_updated(trees.take(i), wanted, text) is None,
        updated(trees[i], wanted, text) is Some,
    ensures
        first_updated(trees, wanted, text) == Some(
            trees.update(i, updated(trees[i], wanted, text)->0),
        ),
    decreases trees.len(),
{
    let changed = updated(trees[i], wanted, text)->0;
    if i == trees.len() - 1 {
        assert(trees.drop_last() =~= trees.take(i));
        assert(trees.drop_last().push(changed) =~= trees.update(i, changed));
    } else {
        let fewer = trees.drop_last();
        assert(fewer.take(i) =~= trees.take(i));
        lemma_first_updated(fewer, wanted, text, i);
        assert(fewer.update(i, changed).push(trees.last()) =~= trees.update(i, changed));
    }
}

/// What replacing the text under a key answers.
pub open spec fn update_status(
    views: Map<int, Tree>,
    view: i32,
    key: Option<Seq<u8>>,
    key_len: i32,
    text: Option<Seq<u8>>,
    text_len: i32,
) -> i32 {
    if view < 0 {
        GPUI_STATUS_INVALID_HANDLE
    } else if key is None || key_len < 0 || text is None || text_len < 0 {
        GPUI_STATUS_TRUNCATED_BUFFER
    } else if !valid_utf8(key->0) || !valid_utf8(text->0) {
        GPUI_STATUS_TRUNCATED_BUFFER
    } else if !views.dom().contains(view as int) {
        GPUI_STATUS_KEY_NOT_FOUND
    } else {
        match updated(views[view as int], decode_utf8(key->0), decode_utf8(text->0)) {
            Some(_) => GPUI_STATUS_OK,
            None => GPUI_STATUS_KEY_NOT_FOUND,
        }
    }
}

/// Replaces the text under a key in the committed tree of a view, without a
/// rebuild. Only the first text among the children of the keyed div is touched.
pub fn gpui_update_text(
    views: &mut Views,
    view: i32,
    key_ptr: Option<&[u8]>,
    key_len: i32,
    text_ptr: Option<&[u8]>,
    text_len: i32,
) -> (status: i32)
    requires
        old(views).wf(),
        key_ptr matches Some(bytes) ==> key_len < 0 || bytes@.len() == key_len,
        text_ptr matches Some(bytes) ==> text_len < 0 || bytes@.len() == text_len,
    ensures
        final(views).wf(),
        status == update_status(
            old(views)@,
            view,
            lent(key_ptr),
            key_len,
            lent(text_ptr),
            text_len,
        ),
        final(views)@ == if status == GPUI_STATUS_OK {
            old(views)@.insert(
                view as int,
                updated(
                    old(views)@[view as int],
                    decode_utf8(key_ptr->0@),
                    decode_utf8(text_ptr->0@),
                )->0,
            )
        } else {
            old(views)@
        },
{
    if view < 0 {
        return GPUI_STATUS_INVALID_HANDLE;
    }
    match (key_ptr, text_ptr) {
        (Some(key_bytes), Some(text_bytes)) => {
            if key_len < 0 || text_len < 0 {
                return GPUI_STATUS_TRUNCATED_BUFFER;
            }
            match (decode_strict(key_bytes), decode_strict(text_bytes)) {
                (Some(key), Some(text)) => views.update_text(view, key, text),
                _ => GPUI_STATUS_TRUNCATED_BUFFER,
            }
        },
        _ => GPUI_STATUS_TRUNCATED_BUFFER,
    }
}

impl Views {
    /// Replaces the text under a key in the tree of a view.
    fn update_text(&mut self, view: i32, key: &str, text: &str) -> (status: i32)
        requires
            view >= 0,
            old(self).wf(),
        ensures
            final(self).wf(),
            status == if old(self)@.dom().contains(view as int) && updated(
                old(self)@[view as int],
                key@,
                text@,
            ) is Some {
                GPUI_STATUS_OK
            } else {
                GPUI_STATUS_KEY_NOT_FOUND
            },
            final(self)@ == if status == GPUI_STATUS_OK {
                old(self)@.insert(
                    view as int,
                    updated(old(self)@[view as int], key@, text@)->0,
                )
            } else {
                old(self)@
            },
    {
        let index: usize = view as usize;
        if index >= self.slots.len() {
            return GPUI_STATUS_KEY_NOT_FOUND;
        }
        let ghost before = self@;
        match &mut self.slots[index] {
            None => {
                assert(self@ =~= before);
                GPUI_STATUS_KEY_NOT_FOUND
            },
            Some(root) => {
                let hit = update_keyed_text(root, key, text);
                if hit {
                    proof {
                        let tree = before[view as int];
                        law_update_is_local(tree, key@, text@);
                        law_update_keeps_sound(tree, key@, text@);
                        assert(self@ =~= before.insert(
                            view as int,
                            updated(tree, key@, text@)->0,
                        ));
                    }
                    GPUI_STATUS_OK
                } else {
                    assert(self@ =~= before);
                    GPUI_STATUS_KEY_NOT_FOUND
                }
            },
        }
    }
}

/// The text that stands under a key and that an update would replace.
pub open spec fn text_under(tree: Tree, wanted: Seq<char>) -> Option<Tree>
    decreases tree, 0int,
{
    match tree {
        Tree::Div { key, children, .. } => if key == Some(wanted) {
            let at = first_text(children);
            if at < children.len() {
                Some(children[at])
            } else {
                None
            }
        } else {
            first_text_under(children, wanted)
        },
        _ => None,
    }
}

/// The same for trees side by side: the first one that has such a text counts.
pub open spec fn first_text_under(trees: Seq<Tree>, wanted: Seq<char>) -> Option<Tree>
    decreases trees, 1int,
{
    if trees.len() == 0 {
        None
    } else {
        match first_text_under(trees.drop_last(), wanted) {
            Some(text) => Some(text),
            None => text_under(trees.last(), wanted),
        }
    }
}

/// Do two walks meet nodes with the same marks at the same depths?
spec fn same_marks(a: Seq<(Tree, nat)>, b: Seq<(Tree, nat)>) -> bool {
    &&& a.len() == b.len()
    &&& forall|i: int|
        0 <= i < a.len() ==> key_of((#[trigger] a[i]).0) == key_of(b[i].0) && scroll_id_of(a[i].0)
            == scroll_id_of(b[i].0) && a[i].1 == b[i].1
}

proof fn lemma_same_marks_concat(
    a: Seq<(Tree, nat)>,
    b: Seq<(Tree, nat)>,
    c: Seq<(Tree, nat)>,
    d: Seq<(Tree, nat)>,
)
    requires
        same_marks(a, b),
        same_marks(c, d),
    ensures
        same_marks(a + c, b + d),
{
}

proof fn lemma_same_marks_checks(
    a: Seq<(Tree, nat)>,
    b: Seq<(Tree, nat)>,
    seen: Set<Seq<char>>,
)
    requires
        same_marks(a, b),
    ensures
        check(a, seen) == check(b, seen),
        scroll_ids(a) == scroll_ids(b),
    decreases a.len(),
{
    if a.len() > 0 {
        assert(key_of(a[0].0) == key_of(b[0].0));
        assert(same_marks(a.drop_first(), b.drop_first()));
        lemma_same_marks_checks(a.drop_first(), b.drop_first(), with_key(seen, a[0].0));
    }
}

/// Everything that an update keeps and brings about.
spec fn update_is_local(before: Tree, after: Tree, wanted: Seq<char>, text: Seq<char>) -> bool {
    &&& text_under(before, wanted) is Some
    &&& text_under(after, wanted) == Some(retexted(text_under(before, wanted)->0, text))
}

proof fn lemma_update(tree: Tree, wanted: Seq<char>, text: Seq<char>, depth: nat)
    ensures
        updated(tree, wanted, text) is Some <==> text_under(tree, wanted) is Some,
        updated(tree, wanted, text) matches Some(after) ==> {
            &&& same_marks(walk(tree, depth), walk(after, depth))
            &&& update_is_local(tree, after, wanted, text)
            &&& tree_is_sound(tree) ==> tree_is_sound(after)
        },
        text_under(tree, wanted) matches Some(found) ==> found is Text,
    decreases tree, 0int,
{
    match tree {
        Tree::Div { style, font_family, key, children } => {
            if key == Some(wanted) {
                let at = first_text(children);
                law_first_text_is_first(children);
                if at < children.len() {
                    let leaf = retexted(children[at], text);
                    let changed = children.update(at, leaf);
                    lemma_leaf_replaced(children, at, leaf, depth + 1);
                    lemma_first_text_stays(children, at, leaf);
                    let after = Tree::Div { style, font_family, key, children: changed };
                    lemma_same_marks_concat(
                        seq![(tree, depth)],
                        seq![(after, depth)],
                        walk_all(children, depth + 1),
                        walk_all(changed, depth + 1),
                    );
                    if tree_is_sound(tree) {
                        lemma_sound_div(style, font_family, key, children);
                        assert(tree_is_sound(children[at]));
                        law_fitting_runs_are_sound(
                            children[at]->runs,
                            children[at]->content,
                            text,
                        );
                        assert forall|i: int| 0 <= i < changed.len() implies tree_is_sound(
                            #[trigger] changed[i],
                        ) by {
                            assert(tree_is_sound(children[i]));
                        }
                        lemma_sound_div(style, font_family, key, changed);
                    }
                }
            } else {
                lemma_first_update(children, wanted, text, depth + 1);
                if let Some(changed) = first_updated(children, wanted, text) {
                    let after = Tree::Div { style, font_family, key, children: changed };
                    lemma_same_marks_concat(
                        seq![(tree, depth)],
                        seq![(after, depth)],
                        walk_all(children, depth + 1),
                        walk_all(changed, depth + 1),
                    );
                    if tree_is_sound(tree) {
                        lemma_sound_div(style, font_family, key, children);
                        lemma_sound_div(style, font_family, key, changed);
                    }
                }
            }
        },
        _ => {},
    }
}

proof fn lemma_first_update(trees: Seq<Tree>, wanted: Seq<char>, text: Seq<char>, depth: nat)
    ensures
        first_updated(trees, wanted, text) is Some <==> first_text_under(trees, wanted) is Some,
        first_updated(trees, wanted, text) matches Some(after) ==> {
            &&& after.len() == trees.len()
            &&& same_marks(walk_all(trees, depth), walk_all(after, depth))
            &&& first_text_under(after, wanted) == Some(
                retexted(first_text_under(trees, wanted)->0, text),
            )
            &&& (forall|i: int| 0 <= i < trees.len() ==> tree_is_sound(#[trigger] trees[i])) ==> (
            forall|i: int| 0 <= i < after.len() ==> tree_is_sound(#[trigger] after[i]))
        },
        first_text_under(trees, wanted) matches Some(found) ==> found is Text,
    decreases trees, 1int,
{
    if trees.len() > 0 {
        let fewer = trees.drop_last();
        lemma_first_update(fewer, wanted, text, depth);
        lemma_update(trees.last(), wanted, text, depth);
        assert((forall|i: int| 0 <= i < trees.len() ==> tree_is_sound(#[trigger] trees[i])) ==> (
        forall|i: int| 0 <= i < fewer.len() ==> tree_is_sound(#[trigger] fewer[i]))) by {
            assert forall|i: int|
                (forall|j: int| 0 <= j < trees.len() ==> tree_is_sound(#[trigger] trees[j])) && 0
                    <= i < fewer.len() implies tree_is_sound(#[trigger] fewer[i]) by {
                assert(tree_is_sound(trees[i]));
            }
        }
        match first_updated(fewer, wanted, text) {
            Some(earlier) => {
                let after = earlier.push(trees.last());
                assert(after.drop_last() =~= earlier);
                lemma_same_marks_concat(
                    walk(trees.last(), depth),
                    walk(trees.last(), depth),
                    walk_all(fewer, depth),
                    walk_all(earlier, depth),
                );
                assert forall|i: int|
                    (forall|j: int| 0 <= j < trees.len() ==> tree_is_sound(#[trigger] trees[j])) && (
                    forall|j: int| 0 <= j < earlier.len() ==> tree_is_sound(#[trigger] earlier[j]))
                        && 0 <= i < after.len() implies tree_is_sound(#[trigger] after[i]) by {
                    if i < earlier.len() {
                        assert(tree_is_sound(earlier[i]));
                    } else {
                        assert(tree_is_sound(trees[trees.len() - 1]));
                    }
                }
            },
            None => {
                if let Some(last) = updated(trees.last(), wanted, text) {
                    let after = fewer.push(last);
                    assert(after.drop_last() =~= fewer);
                    lemma_same_marks_concat(
                        walk(trees.last(), depth),
                        walk(last, depth),
                        walk_all(fewer, depth),
                        walk_all(fewer, depth),
                    );
                    assert forall|i: int|
                        (forall|j: int| 0 <= j < trees.len() ==> tree_is_sound(#[trigger] trees[j]))
                            && tree_is_sound(last) && 0 <= i < after.len() implies
                        tree_is_sound(#[trigger] after[i]) by {
                        if i < fewer.len() {
                            assert(tree_is_sound(trees[i]));
                        }
                    }
                    assert((forall|j: int|
                        0 <= j < trees.len() ==> tree_is_sound(#[trigger] trees[j]))
                        ==> tree_is_sound(trees[trees.len() - 1]));
                }
            },
        }
    }
}

/// Replacing one text by another keeps what a walk meets.
proof fn lemma_leaf_replaced(trees: Seq<Tree>, at: int, leaf: Tree, depth: nat)
    requires
        0 <= at < trees.len(),
        trees[at] is Text,
        leaf is Text,
    ensures
        same_marks(walk_all(trees, depth), walk_all(trees.update(at, leaf), depth)),
    decreases trees.len(),
{
    let after = trees.update(at, leaf);
    let fewer = trees.drop_last();
    if at == trees.len() - 1 {
        assert(after.drop_last() =~= fewer);
        assert(walk(trees.last(), depth) =~= seq![(trees.last(), depth)]);
        assert(walk(after.last(), depth) =~= seq![(after.last(), depth)]);
        lemma_same_marks_concat(
            walk(trees.last(), depth),
            walk(after.last(), depth),
            walk_all(fewer, depth),
            walk_all(fewer, depth),
        );
    } else {
        lemma_leaf_replaced(fewer, at, leaf, depth);
        assert(after.drop_last() =~= fewer.update(at, leaf));
        lemma_same_marks_concat(
            walk(trees.last(), depth),
            walk(after.last(), depth),
            walk_all(fewer, depth),
            walk_all(fewer.update(at, leaf), depth),
        );
    }
}

/// Replacing the first text by another leaves it the first.
proof fn lemma_first_text_stays(trees: Seq<Tree>, at: int, leaf: Tree)
    requires
        0 <= at < trees.len(),
        first_text(trees) == at,
        leaf is Text,
    ensures
        first_text(trees.update(at, leaf)) == at,
    decreases trees.len(),
{
    let after = trees.update(at, leaf);
    let fewer = trees.drop_last();
    law_first_text_is_first(fewer);
    if at == trees.len() - 1 {
        assert(after.drop_last() =~= fewer);
    } else {
        lemma_first_text_stays(fewer, at, leaf);
        assert(after.drop_last() =~= fewer.update(at, leaf));
    }
}

/// A good buffer that is cut within a command is answered as truncated, which
/// commits nothing.
pub proof fn law_cut_buffer_is_answered(view: i32, data: Seq<u8>, cut: int)
    requires
        view >= 0,
        decode(data) is Ok,
        8 < cut < data.len(),
        cut <= i32::MAX,
        cuts_a_command(data, 8, cut),
    ensures
        build_status(view, Some(data.take(cut)), cut as i32) == GPUI_STATUS_TRUNCATED_BUFFER,
{
    law_cut_buffer_is_truncated(data, cut);
}

/// Replacing the text under a key succeeds exactly where there is such a text;
/// afterwards the new text stands there, and the tree still passes the checks
/// it passed before and reports the same scroll positions.
pub proof fn law_update_is_local(tree: Tree, wanted: Seq<char>, text: Seq<char>)
    ensures
        updated(tree, wanted, text) is Some <==> text_under(tree, wanted) is Some,
        updated(tree, wanted, text) matches Some(after) ==> {
            &&& text_under(after, wanted) == Some(retexted(text_under(tree, wanted)->0, text))
            &&& check_tree(after) == check_tree(tree)
            &&& live_scroll_ids(after) == live_scroll_ids(tree)
        },
{
    lemma_update(tree, wanted, text, 1);
    if let Some(after) = updated(tree, wanted, text) {
        lemma_same_marks_checks(walk(tree, 1), walk(after, 1), Set::empty());
    }
}

/// A sound tree stays sound: whatever text is written, the runs that are left
/// lie within it.
pub proof fn law_update_keeps_sound(tree: Tree, wanted: Seq<char>, text: Seq<char>)
    requires
        tree_is_sound(tree),
    ensures
        updated(tree, wanted, text) matches Some(after) ==> tree_is_sound(after),
{
    lemma_update(tree, wanted, text, 1);
}

/// What a command buffer describes may be committed, and it may still be once
/// the text under a key is replaced.
pub proof fn law_committed_trees_stay_committable(
    data: Seq<u8>,
    tree: Tree,
    wanted: Seq<char>,
    text: Seq<char>,
)
    ensures
        decode(data) matches Ok(decoded) ==> may_be_committed(decoded),
        may_be_committed(tree) ==> (updated(tree, wanted, text) matches Some(after)
            ==> may_be_committed(after)),
{
    law_decoded_tree_is_sound(data);
    if may_be_committed(tree) {
        law_update_is_local(tree, wanted, text);
        law_update_keeps_sound(tree, wanted, text);
    }
}

/// A node without what is below it.
pub open spec fn alone(tree: Tree) -> Tree {
    match tree {
        Tree::Div { style, font_family, key, .. } => Tree::Div {
            style,
            font_family,
            key,
            children: Seq::empty(),
        },
        _ => tree,
    }
}

/// The nodes of a tree one by one with their depths: each before its children,
/// and these in order.
pub open spec fn outline(tree: Tree, depth: nat) -> Seq<(nat, Tree)>
    decreases tree, 0int,
{
    match tree {
        Tree::Div { children, .. } => seq![(depth, alone(tree))] + outline_all(children, depth + 1),
        _ => seq![(depth, tree)],
    }
}

/// The nodes of trees side by side.
pub open spec fn outline_all(trees: Seq<Tree>, depth: nat) -> Seq<(nat, Tree)>
    decreases trees, 1int,
{
    if trees.len() == 0 {
        Seq::empty()
    } else {
        outline_all(trees.drop_last(), depth) + outline(trees.last(), depth)
    }
}

/// Is a node a div with a key?
pub open spec fn has_key(node: (nat, Tree), wanted: Seq<char>) -> bool {
    node.1 matches Tree::Div { key, .. } && key == Some(wanted)
}

/// Does the first text among the children of a div with a key stand at a place of
/// an outline? The div stands at an earlier place, all nodes in between are
/// below it, and none of them is a text that is its child.
pub open spec fn text_of_key_at(
    nodes: Seq<(nat, Tree)>,
    wanted: Seq<char>,
    parent: int,
    at: int,
) -> bool {
    &&& 0 <= parent < at < nodes.len()
    &&& has_key(nodes[parent], wanted)
    &&& nodes[at].1 is Text
    &&& nodes[at].0 == nodes[parent].0 + 1
    &&& forall|k: int| #![trigger nodes[k]]
        parent < k < at ==> nodes[k].0 > nodes[parent].0 && !(nodes[k].1 is Text && nodes[k].0
            == nodes[parent].0 + 1)
}

/// Is a text the same as another but for its content, which is given, and for
/// runs that do not fit that? Those that fit are all there, in their order.
pub open spec fn only_content_differs(before: Tree, after: Tree, text: Seq<char>) -> bool {
    match (before, after) {
        (
            Tree::Text { color, size, runs, row, .. },
            Tree::Text { content, color: color2, size: size2, runs: runs2, row: row2 },
        ) => {
            &&& content == text
            &&& color2 == color
            &&& size2 == size
            &&& row2 == row
            &&& runs2 == runs.filter(|run: TextRunSpec| run_fits(run, text))
        },
        _ => false,
    }
}

/// Do two outlines agree but for one text, whose content was replaced?
pub open spec fn one_text_replaced(
    before: Seq<(nat, Tree)>,
    after: Seq<(nat, Tree)>,
    at: int,
    text: Seq<char>,
) -> bool {
    &&& before.len() == after.len()
    &&& forall|k: int| #![trigger after[k]]
        0 <= k < before.len() && k != at ==> after[k] == before[k]
    &&& after[at].0 == before[at].0
    &&& only_content_differs(before[at].1, after[at].1, text)
}

proof fn lemma_fitting_is_filter(runs: Seq<TextRunSpec>, text: Seq<char>)
    ensures
        fitting_runs(runs, text) == runs.filter(|run: TextRunSpec| run_fits(run, text)),
    decreases runs.len(),
{
    reveal(Seq::filter);
    if runs.len() > 0 {
        lemma_fitting_is_filter(runs.drop_last(), text);
    }
}

/// Nodes in front and behind make no difference.
proof fn lemma_hit_in_context(
    front: Seq<(nat, Tree)>,
    before: Seq<(nat, Tree)>,
    after: Seq<(nat, Tree)>,
    back: Seq<(nat, Tree)>,
    wanted: Seq<char>,
    text: Seq<char>,
    parent: int,
    at: int,
)
    requires
        text_of_key_at(before, wanted, parent, at),
        one_text_replaced(before, after, at, text),
    ensures
        text_of_key_at(front + before + back, wanted, front.len() + parent, front.len() + at),
        one_text_replaced(front + before + back, front + after + back, front.len() + at, text),
{
    let n = front.len() as int;
    let old_all = front + before + back;
    let new_all = front + after + back;
    assert forall|k: int| #![trigger old_all[k]] n + parent < k < n + at implies old_all[k].0
        > old_all[n + parent].0 && !(old_all[k].1 is Text && old_all[k].0 == old_all[n + parent].0
        + 1) by {
        assert(old_all[k] == before[k - n]);
    }
    assert forall|k: int| #![trigger new_all[k]]
        0 <= k < old_all.len() && k != n + at implies new_all[k] == old_all[k] by {
        if n <= k < n + before.len() {
            assert(new_all[k] == after[k - n]);
        }
    }
    assert(new_all[n + at] == after[at]);
    assert(old_all[n + at] == before[at]);
}

/// An outline splits where the trees do.
proof fn lemma_outline_splits(trees: Seq<Tree>, at: int, depth: nat)
    requires
        0 <= at < trees.len(),
    ensures
        outline_all(trees, depth) == outline_all(trees.take(at), depth) + outline(trees[at], depth)
            + outline_all(trees.skip(at + 1), depth),
    decreases trees.len(),
{
    let fewer = trees.drop_last();
    let rest = trees.skip(at + 1);
    if at == trees.len() - 1 {
        assert(trees.take(at) =~= fewer);
        assert(rest =~= Seq::empty());
        assert(outline_all(rest, depth) =~= Seq::empty());
        assert(outline_all(trees, depth) =~= outline_all(trees.take(at), depth) + outline(
            trees[at],
            depth,
        ) + outline_all(rest, depth));
    } else {
        lemma_outline_splits(fewer, at, depth);
        assert(fewer.take(at) =~= trees.take(at));
        assert(fewer.skip(at + 1) =~= rest.drop_last());
        assert(rest.last() == trees.last());
        assert(outline_all(trees, depth) =~= outline_all(trees.take(at), depth) + outline(
            trees[at],
            depth,
        ) + outline_all(rest, depth));
    }
}

/// Below a node everything is deeper.
proof fn lemma_outline_depths(tree: Tree, depth: nat)
    ensures
        outline(tree, depth).len() > 0,
        outline(tree, depth)[0] == (depth, alone(tree)),
        forall|k: int| #![trigger outline(tree, depth)[k]]
            0 < k < outline(tree, depth).len() ==> outline(tree, depth)[k].0 > depth,
    decreases tree, 0int,
{
    match tree {
        Tree::Div { children, .. } => {
            let below = outline_all(children, depth + 1);
            lemma_outline_all_depths(children, depth + 1);
            assert forall|k: int| #![trigger outline(tree, depth)[k]]
                0 < k < outline(tree, depth).len() implies outline(tree, depth)[k].0 > depth by {
                assert(outline(tree, depth)[k] == below[k - 1]);
            }
        },
        _ => {},
    }
}

proof fn lemma_outline_all_depths(trees: Seq<Tree>, depth: nat)
    ensures
        forall|k: int| #![trigger outline_all(trees, depth)[k]]
            0 <= k < outline_all(trees, depth).len() ==> {
                &&& outline_all(trees, depth)[k].0 >= depth
                &&& outline_all(trees, depth)[k].0 == depth && outline_all(trees, depth)[k].1 is Text
                    ==> exists|m: int| 0 <= m < trees.len() && (#[trigger] trees[m]) is Text
            },
    decreases trees, 1int,
{
    if trees.len() > 0 {
        let fewer = trees.drop_last();
        let front = outline_all(fewer, depth);
        let back = outline(trees.last(), depth);
        lemma_outline_all_depths(fewer, depth);
        lemma_outline_depths(trees.last(), depth);
        let all = outline_all(trees, depth);
        assert forall|k: int| #![trigger all[k]] 0 <= k < all.len() implies {
            &&& all[k].0 >= depth
            &&& all[k].0 == depth && all[k].1 is Text ==> exists|m: int|
                0 <= m < trees.len() && (#[trigger] trees[m]) is Text
        } by {
            if k < front.len() {
                assert(all[k] == front[k]);
                if all[k].0 == depth && all[k].1 is Text {
                    let m = choose|m: int| 0 <= m < fewer.len() && (#[trigger] fewer[m]) is Text;
                    assert(trees[m] == fewer[m]);
                }
            } else {
                assert(all[k] == back[k - front.len()]);
                if all[k].0 == depth && all[k].1 is Text {
                    assert(k == front.len());
                    assert(trees[trees.len() - 1] is Text);
                }
            }
        }
    }
}

/// What an update does to the text among the children of the div with the key.
proof fn lemma_hit_at_key(tree: Tree, wanted: Seq<char>, text: Seq<char>, depth: nat)
    requires
        tree matches Tree::Div { key, .. } && key == Some(wanted),
    ensures
        updated(tree, wanted, text) matches Some(after) ==> exists|parent: int, at: int|
            text_of_key_at(outline(tree, depth), wanted, parent, at) && #[trigger]
            one_text_replaced_at(tree, after, depth, parent, at, text),
{
    match tree {
        Tree::Div { style, font_family, key, children } => {
            let at = first_text(children);
            law_first_text_is_first(children);
            if at < children.len() {
                let leaf = retexted(children[at], text);
                lemma_fitting_is_filter(children[at]->runs, text);
                let changed = children.update(at, leaf);
                let after = Tree::Div { style, font_family, key, children: changed };
                let front = outline_all(children.take(at), depth + 1);
                let back = outline_all(children.skip(at + 1), depth + 1);
                lemma_outline_splits(children, at, depth + 1);
                lemma_outline_splits(changed, at, depth + 1);
                assert(changed.take(at) =~= children.take(at));
                assert(changed.skip(at + 1) =~= children.skip(at + 1));
                lemma_outline_all_depths(children.take(at), depth + 1);
                let nodes = outline(tree, depth);
                let place = 1 + front.len() as int;
                assert(nodes[0] == (depth, alone(tree)));
                assert(nodes[place] == ((depth + 1) as nat, children[at]));
                assert forall|k: int| #![trigger nodes[k]] 0 < k < place implies nodes[k].0
                    > nodes[0].0 && !(nodes[k].1 is Text && nodes[k].0 == nodes[0].0 + 1) by {
                    assert(nodes[k] == front[k - 1]);
                    if nodes[k].1 is Text && nodes[k].0 == depth + 1 {
                        let few = children.take(at);
                        let m = choose|m: int| 0 <= m < few.len() && (#[trigger] few[m]) is Text;
                        assert(children[m] is Text);
                    }
                }
                assert(text_of_key_at(nodes, wanted, 0, place));
                let later = outline(after, depth);
                assert forall|k: int| #![trigger later[k]]
                    0 <= k < nodes.len() && k != place implies later[k] == nodes[k] by {
                    if k == 0 {
                    } else if k < place {
                        assert(later[k] == front[k - 1]);
                    } else {
                        assert(later[k] == back[k - place - 1]);
                        assert(nodes[k] == back[k - place - 1]);
                    }
                }
                assert(later[place] == ((depth + 1) as nat, leaf));
                assert(one_text_replaced_at(tree, after, depth, 0, place, text));
            }
        },
        _ => {},
    }
}

/// Do the outlines of two trees agree but for the content of one text?
pub open spec fn one_text_replaced_at(
    before: Tree,
    after: Tree,
    depth: nat,
    parent: int,
    at: int,
    text: Seq<char>,
) -> bool {
    one_text_replaced(outline(before, depth), outline(after, depth), at, text)
}

proof fn lemma_hit(tree: Tree, wanted: Seq<char>, text: Seq<char>, depth: nat)
    ensures
        updated(tree, wanted, text) matches Some(after) ==> exists|parent: int, at: int|
            text_of_key_at(outline(tree, depth), wanted, parent, at) && #[trigger]
            one_text_replaced_at(tree, after, depth, parent, at, text),
    decreases tree, 0int,
{
    match tree {
        Tree::Div { style, font_family, key, children } => {
            if key == Some(wanted) {
                lemma_hit_at_key(tree, wanted, text, depth);
            } else {
                lemma_first_hit(children, wanted, text, depth + 1);
                if let Some(changed) = first_updated(children, wanted, text) {
                    let after = Tree::Div { style, font_family, key, children: changed };
                    let (parent, at) = choose|parent: int, at: int|
                        text_of_key_at(outline_all(children, depth + 1), wanted, parent, at)
                            && #[trigger] some_text_replaced(
                            children,
                            changed,
                            depth + 1,
                            parent,
                            at,
                            text,
                        );
                    let front = seq![(depth, alone(tree))];
                    let none = Seq::<(nat, Tree)>::empty();
                    lemma_hit_in_context(
                        front,
                        outline_all(children, depth + 1),
                        outline_all(changed, depth + 1),
                        none,
                        wanted,
                        text,
                        parent,
                        at,
                    );
                    assert(front + outline_all(children, depth + 1) + none =~= outline(
                        tree,
                        depth,
                    ));
                    assert(front + outline_all(changed, depth + 1) + none =~= outline(
                        after,
                        depth,
                    ));
                    assert(one_text_replaced_at(tree, after, depth, 1 + parent, 1 + at, text));
                }
            }
        },
        _ => {},
    }
}

/// The same for trees side by side.
pub open spec fn some_text_replaced(
    before: Seq<Tree>,
    after: Seq<Tree>,
    depth: nat,
    parent: int,
    at: int,
    text: Seq<char>,
) -> bool {
    one_text_replaced(outline_all(before, depth), outline_all(after, depth), at, text)
}

proof fn lemma_first_hit(trees: Seq<Tree>, wanted: Seq<char>, text: Seq<char>, depth: nat)
    ensures
        first_updated(trees, wanted, text) matches Some(after) ==> exists|parent: int, at: int|
            text_of_key_at(outline_all(trees, depth), wanted, parent, at) && #[trigger]
            some_text_replaced(trees, after, depth, parent, at, text),
    decreases trees, 1int,
{
    if trees.len() > 0 {
        let fewer = trees.drop_last();
        let none = Seq::<(nat, Tree)>::empty();
        lemma_first_hit(fewer, wanted, text, depth);
        lemma_hit(trees.last(), wanted, text, depth);
        let front = outline_all(fewer, depth);
        let back = outline(trees.last(), depth);
        match first_updated(fewer, wanted, text) {
            Some(earlier) => {
                let after = earlier.push(trees.last());
                assert(after.drop_last() =~= earlier);
                let (parent, at) = choose|parent: int, at: int|
                    text_of_key_at(front, wanted, parent, at) && #[trigger] some_text_replaced(
                        fewer,
                        earlier,
                        depth,
                        parent,
                        at,
                        text,
                    );
                lemma_hit_in_context(
                    none,
                    front,
                    outline_all(earlier, depth),
                    back,
                    wanted,
                    text,
                    parent,
                    at,
                );
                assert(none + front + back =~= outline_all(trees, depth));
                assert(none + outline_all(earlier, depth) + back =~= outline_all(after, depth));
                assert(none.len() + parent == parent && none.len() + at == at);
                assert(text_of_key_at(outline_all(trees, depth), wanted, parent, at));
                assert(some_text_replaced(trees, after, depth, parent, at, text));
                assert(first_updated(trees, wanted, text)->0 == after);
            },
            None => {
                if let Some(last) = updated(trees.last(), wanted, text) {
                    let after = fewer.push(last);
                    assert(after.drop_last() =~= fewer);
                    let (parent, at) = choose|parent: int, at: int|
                        text_of_key_at(back, wanted, parent, at) && #[trigger] one_text_replaced_at(
                            trees.last(),
                            last,
                            depth,
                            parent,
                            at,
                            text,
                        );
                    lemma_hit_in_context(
                        front,
                        back,
                        outline(last, depth),
                        none,
                        wanted,
                        text,
                        parent,
                        at,
                    );
                    let n = front.len() as int;
                    assert(front + back + none =~= outline_all(trees, depth));
                    assert(front + outline(last, depth) + none =~= outline_all(after, depth));
                    assert(text_of_key_at(outline_all(trees, depth), wanted, n + parent, n + at));
                    assert(some_text_replaced(trees, after, depth, n + parent, n + at, text));
                    assert(first_updated(trees, wanted, text) == Some(after));
                    assert(first_updated(trees, wanted, text)->0 == after);
                } else {
                    assert(first_updated(trees, wanted, text) is None);
                }
            },
        }
    } else {
        assert(first_updated(trees, wanted, text) is None);
    }
}

/// An update replaces the content of one text, the first among the children of a
/// div with the key. Its color, its size, its row and the runs that still fit
/// stay as they are, and so does every other node of the tree.
pub proof fn law_update_replaces_one_content(tree: Tree, wanted: Seq<char>, text: Seq<char>)
    ensures
        updated(tree, wanted, text) matches Some(after) ==> exists|parent: int, at: int|
            text_of_key_at(outline(tree, 1), wanted, parent, at) && #[trigger]
            one_text_replaced_at(tree, after, 1, parent, at, text),
{
    lemma_hit(tree, wanted, text, 1);
}

proof fn lemma_found(tree: Tree, wanted: Seq<char>, text: Seq<char>, depth: nat, p: int, at: int)
    requires
        text_of_key_at(outline(tree, depth), wanted, p, at),
        key_stands_once(outline(tree, depth), wanted),
    ensures
        updated(tree, wanted, text) is Some,
    decreases tree, 0int,
{
    match tree {
        Tree::Div { key, children, .. } => {
            let nodes = outline(tree, depth);
            let below = outline_all(children, depth + 1);
            assert(nodes[0] == (depth, alone(tree)));
            if key == Some(wanted) {
                assert(has_key(nodes[0], wanted));
                assert(p == 0);
                assert(nodes[at] == below[at - 1]);
                lemma_outline_all_depths(children, depth + 1);
                let m = choose|m: int| 0 <= m < children.len() && (#[trigger] children[m]) is Text;
                law_first_text_is_first(children);
            } else {
                assert(p > 0);
                assert(nodes[p] == below[p - 1]);
                assert(nodes[at] == below[at - 1]);
                assert forall|k: int| #![trigger below[k]] p - 1 < k < at - 1 implies below[k].0
                    > below[p - 1].0 && !(below[k].1 is Text && below[k].0 == below[p - 1].0
                    + 1) by {
                    assert(below[k] == nodes[k + 1]);
                }
                assert(key_stands_once(below, wanted)) by {
                    assert forall|a: int, b: int| #![trigger below[a], below[b]]
                        0 <= a < below.len() && 0 <= b < below.len() && has_key(below[a], wanted)
                            && has_key(below[b], wanted) implies a == b by {
                        assert(nodes[a + 1] == below[a]);
                        assert(nodes[b + 1] == below[b]);
                    }
                }
                lemma_first_found(children, wanted, text, depth + 1, p - 1, at - 1);
            }
        },
        _ => {},
    }
}

proof fn lemma_first_found(
    trees: Seq<Tree>,
    wanted: Seq<char>,
    text: Seq<char>,
    depth: nat,
    p: int,
    at: int,
)
    requires
        text_of_key_at(outline_all(trees, depth), wanted, p, at),
        key_stands_once(outline_all(trees, depth), wanted),
    ensures
        first_updated(trees, wanted, text) is Some,
    decreases trees, 1int,
{
    if trees.len() > 0 {
        let fewer = trees.drop_last();
        let all = outline_all(trees, depth);
        let front = outline_all(fewer, depth);
        let back = outline(trees.last(), depth);
        let n = front.len() as int;
        assert forall|a: int, b: int| #![trigger front[a], front[b]]
            0 <= a < front.len() && 0 <= b < front.len() && has_key(front[a], wanted) && has_key(
                front[b],
                wanted,
            ) implies a == b by {
            assert(all[a] == front[a]);
            assert(all[b] == front[b]);
        }
        assert forall|a: int, b: int| #![trigger back[a], back[b]]
            0 <= a < back.len() && 0 <= b < back.len() && has_key(back[a], wanted) && has_key(
                back[b],
                wanted,
            ) implies a == b by {
            assert(all[n + a] == back[a]);
            assert(all[n + b] == back[b]);
        }
        lemma_outline_depths(trees.last(), depth);
        lemma_outline_all_depths(fewer, depth);
        if p < n {
            assert(all[p] == front[p]);
            assert(all[n] == back[0]);
            assert(at < n);
            assert(all[at] == front[at]);
            assert forall|k: int| #![trigger front[k]] p < k < at implies front[k].0 > front[p].0
                && !(front[k].1 is Text && front[k].0 == front[p].0 + 1) by {
                assert(all[k] == front[k]);
            }
            lemma_first_found(fewer, wanted, text, depth, p, at);
        } else {
            assert(all[p] == back[p - n]);
            assert(all[at] == back[at - n]);
            assert forall|k: int| #![trigger back[k]] p - n < k < at - n implies back[k].0 > back[p
                - n].0 && !(back[k].1 is Text && back[k].0 == back[p - n].0 + 1) by {
                assert(all[n + k] == back[k]);
            }
            lemma_found(trees.last(), wanted, text, depth, p - n, at - n);
        }
    }
}

/// Does a key stand on one node at most?
pub open spec fn key_stands_once(nodes: Seq<(nat, Tree)>, wanted: Seq<char>) -> bool {
    forall|a: int, b: int| #![trigger nodes[a], nodes[b]]
        0 <= a < nodes.len() && 0 <= b < nodes.len() && has_key(nodes[a], wanted) && has_key(
            nodes[b],
            wanted,
        ) ==> a == b
}

/// Where the div with a key has a text among its children, an update finds it.
pub proof fn law_update_finds_the_text(
    tree: Tree,
    wanted: Seq<char>,
    text: Seq<char>,
    parent: int,
    at: int,
)
    requires
        key_stands_once(outline(tree, 1), wanted),
        text_of_key_at(outline(tree, 1), wanted, parent, at),
    ensures
        updated(tree, wanted, text) is Some,
{
    lemma_found(tree, wanted, text, 1, parent, at);
}

/// The records of trees side by side are those of the first ones and then those of
/// the others; a div adds none of its own, and neither does a text input.
pub proof fn law_texts_are_dumped_in_order(first: Seq<Tree>, second: Seq<Tree>, tree: Tree)
    ensures
        all_text_records(first + second) == all_text_records(first) + all_text_records(second),
        all_text_records(seq![tree]) == text_records(tree),
        tree is Div ==> text_records(tree) == all_text_records(tree->children),
        tree is Text ==> text_records(tree) == text_record(tree->content),
        tree is Input ==> text_records(tree).len() == 0,
    decreases second.len(),
{
    assert(seq![tree].drop_last() =~= Seq::empty());
    assert(all_text_records(seq![tree].drop_last()) =~= Seq::empty());
    assert(all_text_records(seq![tree]) =~= text_records(tree));
    if second.len() == 0 {
        assert(first + second =~= first);
        assert(all_text_records(first) + all_text_records(second) =~= all_text_records(first));
    } else {
        law_texts_are_dumped_in_order(first, second.drop_last(), tree);
        assert((first + second).drop_last() =~= first + second.drop_last());
        assert((first + second).last() == second.last());
        assert(all_text_records(first + second) =~= all_text_records(first) + all_text_records(
            second,
        ));
    }
}

/// The texts of a view are read where it has a tree: all of their records where
/// there is room, and else as much as there is room for.
pub proof fn law_committed_texts_are_read(
    views: Map<int, Tree>,
    view: i32,
    present: bool,
    len: i32,
)
    ensures
        ({
            let status = dump_status(views, view, present, len);
            let size = text_records(views[view as int]).len();
            let asked = view >= 0 && present && len >= 0 && views.dom().contains(view as int);
            &&& !asked ==> status == GPUI_STATUS_INVALID_HANDLE
            &&& asked && size <= len ==> status == size
            &&& asked && size > len ==> status == len
        }),
{
}

/// A buffer is committed exactly where it is lent for some view and decodes; the
/// status tells which of these it was.
pub proof fn law_commits_are_refused_for_a_reason(view: i32, data: Option<Seq<u8>>, len: i32)
    ensures
        ({
            let status = build_status(view, data, len);
            let lent = data is Some && len >= 0;
            &&& view < 0 ==> status == GPUI_STATUS_INVALID_HANDLE
            &&& view >= 0 && !lent ==> status == GPUI_STATUS_TRUNCATED_BUFFER
            &&& view >= 0 && lent && decode(data->0) is Err ==> status == decode(data->0)->Err_0
            &&& status == GPUI_STATUS_OK <==> view >= 0 && lent && decode(data->0) is Ok
        }),
{
    if data is Some {
        law_decode_is_total(data->0);
    }
}

/// A text is replaced exactly where both texts are lent and the view has a tree in
/// which a div with the key has a text; the status tells which of these it was.
pub proof fn law_updates_are_refused_for_a_reason(
    views: Map<int, Tree>,
    view: i32,
    key: Seq<char>,
    text: Seq<char>,
    len: i32,
    below: i32,
)
    requires
        below < 0 <= len,
    ensures
        ({
            let (name, new) = (Some(encode_utf8(key)), Some(encode_utf8(text)));
            let there = views.dom().contains(view as int) && updated(
                views[view as int],
                key,
                text,
            ) is Some;
            let status = update_status(views, view, name, len, new, len);
            &&& view < 0 <==> status == GPUI_STATUS_INVALID_HANDLE
            &&& view >= 0 && there <==> status == GPUI_STATUS_OK
            &&& view >= 0 && !there <==> status == GPUI_STATUS_KEY_NOT_FOUND
            &&& view >= 0 ==> {
                &&& update_status(views, view, None, len, new, len) == GPUI_STATUS_TRUNCATED_BUFFER
                &&& update_status(views, view, name, len, None, len) == GPUI_STATUS_TRUNCATED_BUFFER
                &&& update_status(views, view, name, below, new, len) == GPUI_STATUS_TRUNCATED_BUFFER
                &&& update_status(views, view, name, len, new, below) == GPUI_STATUS_TRUNCATED_BUFFER
            }
        }),
{
    encode_utf8_valid_utf8(key);
    encode_utf8_decode_utf8(key);
    encode_utf8_valid_utf8(text);
    encode_utf8_decode_utf8(text);
}

} // verus!
