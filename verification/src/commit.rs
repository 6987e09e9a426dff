//! From a command buffer to a committed tree: running the commands, and the
//! checks that span the whole tree.
use crate::abi::{
    BUFFER_VERSION, GPUI_STATUS_BAD_BUFFER_VERSION, GPUI_STATUS_DEPTH_EXCEEDED,
    GPUI_STATUS_DUPLICATE_KEY, GPUI_STATUS_INVALID_FLOAT, GPUI_STATUS_INVALID_HANDLE,
    GPUI_STATUS_INVALID_TEXT_RUN, GPUI_STATUS_NO_ROOT, GPUI_STATUS_OK, GPUI_STATUS_TRUNCATED_BUFFER,
    GPUI_STATUS_UNKNOWN_OPCODE, GPUI_STATUS_WRONG_NODE_KIND,
};
use crate::decode::{
    empty_machine, lemma_step_keeps_sound, machine_is_sound, step, Builder, Machine, Stepped,
};
use crate::node::{lemma_div_tree, tree_is_sound, tree_of, trees_of, Tree, UiNode};
use crate::text::{same_text, word_at};
use crate::wire::{
    lemma_cut_command, lemma_parse_advances, lemma_parsed_is_sound, parse_command, BufferReader,
};
use vstd::prelude::*;

verus! {

/// How deep a committed tree may be nested, the root being the first level.
pub const MAX_TREE_DEPTH: u32 = 64;

/// The nodes of a tree with their depths, in the order in which the checks
/// meet them: a node before its children, and later children before earlier.
pub open spec fn walk(tree: Tree, depth: nat) -> Seq<(Tree, nat)>
    decreases tree, 0int,
{
    match tree {
        Tree::Div { children, .. } => seq![(tree, depth)] + walk_all(children, depth + 1),
        _ => seq![(tree, depth)],
    }
}

/// The same for trees side by side.
pub open spec fn walk_all(trees: Seq<Tree>, depth: nat) -> Seq<(Tree, nat)>
    decreases trees, 1int,
{
    if trees.len() == 0 {
        Seq::empty()
    } else {
        walk(trees.last(), depth) + walk_all(trees.drop_last(), depth)
    }
}

/// The key of a node.
pub open spec fn key_of(tree: Tree) -> Option<Seq<char>> {
    match tree {
        Tree::Div { key, .. } => key,
        _ => None,
    }
}

/// The id under which a node reports its scroll position.
pub open spec fn scroll_id_of(tree: Tree) -> Option<i32> {
    match tree {
        Tree::Div { style, .. } => style.scroll_id,
        _ => None,
    }
}

/// The keys after a node was met.
pub open spec fn with_key(seen: Set<Seq<char>>, tree: Tree) -> Set<Seq<char>> {
    match key_of(tree) {
        Some(key) => seen.insert(key),
        None => seen,
    }
}

/// What the checks answer to a tree, given the keys that were met before:
/// the first node that is too deep or repeats a key decides.
pub open spec fn check(visits: Seq<(Tree, nat)>, seen: Set<Seq<char>>) -> i32
    decreases visits.len(),
{
    if visits.len() == 0 {
        GPUI_STATUS_OK
    } else {
        let (tree, depth) = visits[0];
        if depth > MAX_TREE_DEPTH {
            GPUI_STATUS_DEPTH_EXCEEDED
        } else if key_of(tree) is Some && seen.contains(key_of(tree)->0) {
            GPUI_STATUS_DUPLICATE_KEY
        } else {
            check(visits.drop_first(), with_key(seen, tree))
        }
    }
}

/// What the checks answer to a tree.
pub open spec fn check_tree(tree: Tree) -> i32 {
    check(walk(tree, 1), Set::empty())
}

/// The ids under which the nodes of a tree report scroll positions.
pub open spec fn scroll_ids(visits: Seq<(Tree, nat)>) -> Set<i32>
    decreases visits.len(),
{
    if visits.len() == 0 {
        Set::empty()
    } else {
        let rest = scroll_ids(visits.drop_first());
        match scroll_id_of(visits[0].0) {
            Some(id) => rest.insert(id),
            None => rest,
        }
    }
}

/// The ids under which a tree reports scroll positions.
pub open spec fn live_scroll_ids(tree: Tree) -> Set<i32> {
    scroll_ids(walk(tree, 1))
}

/// The nodes that are still to be met, the last pending one first.
pub open spec fn pending_visits(pending: Seq<(&UiNode, u32)>) -> Seq<(Tree, nat)>
    decreases pending.len(),
{
    if pending.len() == 0 {
        Seq::empty()
    } else {
        walk(tree_of(*pending.last().0), pending.last().1 as nat) + pending_visits(
            pending.drop_last(),
        )
    }
}

/// Pending nodes followed by children are met children first.
proof fn lemma_pending_children(
    pending: Seq<(&UiNode, u32)>,
    children: Seq<UiNode>,
    depth: u32,
    extended: Seq<(&UiNode, u32)>,
)
    requires
        extended.len() == pending.len() + children.len(),
        extended.take(pending.len() as int) =~= pending,
        forall|i: int|
            0 <= i < children.len() ==> *(#[trigger] extended[pending.len() + i]).0 == children[i]
                && extended[pending.len() + i].1 == depth,
    ensures
        pending_visits(extended) == walk_all(trees_of(children), depth as nat) + pending_visits(
            pending,
        ),
    decreases children.len(),
{
    if children.len() == 0 {
        assert(extended =~= pending);
        assert(walk_all(trees_of(children), depth as nat) + pending_visits(pending)
            =~= pending_visits(pending));
    } else {
        let fewer = children.drop_last();
        let shorter = extended.drop_last();
        assert(shorter.take(pending.len() as int) =~= pending);
        assert forall|i: int| 0 <= i < fewer.len() implies *(#[trigger] shorter[pending.len() + i]).0
            == fewer[i] && shorter[pending.len() + i].1 == depth by {
            assert(extended[pending.len() + i].1 == depth);
        }
        lemma_pending_children(pending, fewer, depth, shorter);
        let last = children.len() - 1;
        assert(*extended[pending.len() + last].0 == children[last]);
        assert(trees_of(children).drop_last() =~= trees_of(fewer));
        let head = walk(tree_of(children.last()), depth as nat);
        assert(head + (walk_all(trees_of(fewer), depth as nat) + pending_visits(pending)) =~= (head
            + walk_all(trees_of(fewer), depth as nat)) + pending_visits(pending));
    }
}

/// Looks a key up among those that were met.
fn was_seen(seen: &Vec<&str>, key: &str) -> (found: bool)
    ensures
        found == exists|i: int| 0 <= i < seen@.len() && (#[trigger] seen@[i])@ == key@,
{
    let mut i: usize = 0;
    while i < seen.len()
        invariant
            i <= seen@.len(),
            forall|j: int| 0 <= j < i ==> (#[trigger] seen@[j])@ != key@,
        decreases seen@.len() - i,
    {
        if same_text(seen[i], key) {
            assert(seen@[i as int]@ == key@);
            return true;
        }
        i = i + 1;
    }
    false
}

/// The keys that a list of texts holds.
pub open spec fn key_set(seen: Seq<&str>) -> Set<Seq<char>> {
    Set::new(|key: Seq<char>| exists|i: int| 0 <= i < seen.len() && (#[trigger] seen[i])@ == key)
}

/// Checks a tree before it is committed: no key may occur twice and nothing may
/// be nested too deep. Answers the ids under which it reports scroll positions.
pub fn check_before_commit(root: &UiNode) -> (checked: Result<Vec<i32>, i32>)
    ensures
        match checked {
            Ok(ids) => {
                &&& check_tree(root@) == GPUI_STATUS_OK
                &&& ids@.to_set() == live_scroll_ids(root@)
            },
            Err(status) => status == check_tree(root@) && status != GPUI_STATUS_OK,
        },
{
    broadcast use lemma_div_tree;

    let mut seen: Vec<&str> = Vec::new();
    let mut ids: Vec<i32> = Vec::new();
    let mut pending: Vec<(&UiNode, u32)> = Vec::new();
    pending.push((root, 1));
    proof {
        assert(pending@.drop_last() =~= Seq::empty());
        assert(pending_visits(pending@.drop_last()) =~= Seq::empty());
        assert(pending_visits(pending@) =~= walk(root@, 1));
        assert(key_set(seen@) =~= Set::empty());
        assert(ids@.to_set().union(live_scroll_ids(root@)) =~= live_scroll_ids(root@));
    }
    let mut left: Ghost<nat> = Ghost(walk(root@, 1).len());
    while pending.len() > 0
        invariant
            check_tree(root@) == check(pending_visits(pending@), key_set(seen@)),
            live_scroll_ids(root@) == ids@.to_set().union(scroll_ids(pending_visits(pending@))),
            left@ == pending_visits(pending@).len(),
        decreases left@,
    {
        let ghost visits = pending_visits(pending@);
        let ghost rest = pending@.drop_last();
        let (node, depth) = match pending.pop() {
            Some(top) => top,
            None => return Ok(ids),
        };
        let ghost tree = node@;
        proof {
            assert(visits[0] == (tree, depth as nat));
        }
        if depth > MAX_TREE_DEPTH {
            return Err(GPUI_STATUS_DEPTH_EXCEEDED);
        }
        match node {
            UiNode::Div(div) => {
                let ghost seen_before = seen@;
                proof {
                    lemma_div_tree(*div);
                }
                assert(tree == div@);
                if let Some(key) = &div.key {
                    if was_seen(&seen, key.as_str()) {
                        return Err(GPUI_STATUS_DUPLICATE_KEY);
                    }
                    seen.push(key.as_str());
                    proof {
                        assert forall|k: Seq<char>|
                            key_set(seen@).contains(k) == key_set(seen_before).insert(
                                key@,
                            ).contains(k) by {
                            if k == key@ {
                                assert(seen@[seen_before.len() as int]@ == k);
                            }
                            if key_set(seen_before).contains(k) {
                                let i = choose|i: int|
                                    0 <= i < seen_before.len() && (#[trigger] seen_before[i])@ == k;
                                assert(seen@[i]@ == k);
                            }
                            if key_set(seen@).contains(k) && k != key@ {
                                let i = choose|i: int|
                                    0 <= i < seen@.len() && (#[trigger] seen@[i])@ == k;
                                assert(seen_before[i]@ == k);
                            }
                        }
                        assert(key_set(seen@) =~= key_set(seen_before).insert(key@));
                    }
                }
                assert(key_set(seen@) == with_key(key_set(seen_before), tree));
                let ghost ids_before = ids@;
                if let Some(id) = div.style.scroll_id {
                    ids.push(id);
                    proof {
                        assert(ids@.to_set() =~= ids_before.to_set().insert(id)) by {
                            broadcast use vstd::seq_lib::group_seq_properties;

                        }
                    }
                }
                let mut i: usize = 0;
                while i < div.children.len()
                    invariant
                        i <= div.children@.len(),
                        depth <= MAX_TREE_DEPTH,
                        pending@.len() == rest.len() + i,
                        pending@.take(rest.len() as int) =~= rest,
                        forall|j: int|
                            0 <= j < i ==> *(#[trigger] pending@[rest.len() + j]).0
                                == div.children@[j] && pending@[rest.len() + j].1 == depth + 1,
                    decreases div.children@.len() - i,
                {
                    let ghost shorter = pending@;
                    pending.push((&div.children[i], depth + 1));
                    assert(pending@.take(rest.len() as int) =~= shorter.take(rest.len() as int));
                    i = i + 1;
                }
                proof {
                    lemma_pending_children(rest, div.children@, (depth + 1) as u32, pending@);
                    let below = walk_all(trees_of(div.children@), depth as nat + 1);
                    assert(tree == div@);
                    assert(walk(tree, depth as nat) =~= seq![(tree, depth as nat)] + below);
                    assert(visits =~= walk(tree, depth as nat) + pending_visits(rest));
                    assert(visits.drop_first() =~= pending_visits(pending@));
                    left@ = pending_visits(pending@).len();
                    assert(live_scroll_ids(root@) =~= ids@.to_set().union(
                        scroll_ids(pending_visits(pending@)),
                    ));
                }
            },
            _ => {
                proof {
                    assert(pending@ =~= rest);
                    assert(walk(tree, depth as nat) =~= seq![(tree, depth as nat)]);
                    assert(visits.drop_first() =~= pending_visits(pending@));
                    left@ = pending_visits(pending@).len();
                }
            },
        }
    }
    proof {
        assert(ids@.to_set().union(Set::empty()) =~= ids@.to_set());
    }
    Ok(ids)
}

/// The header every command buffer starts with: "GPUI", then the version.
pub open spec fn header_is_good(data: Seq<u8>) -> bool {
    &&& data.len() >= 8
    &&& data.take(4) == seq![0x47u8, 0x50, 0x55, 0x49]
    &&& word_at(data, 4) == BUFFER_VERSION
}

/// The machine once the commands from a position on are carried out.
pub open spec fn run(data: Seq<u8>, at: int, machine: Machine) -> Stepped
    decreases data.len() - at,
{
    if at < 0 || at >= data.len() {
        Ok(machine)
    } else {
        match parse_command(data, at) {
            Err(status) => Err(status),
            Ok((command, next)) => match step(machine, command) {
                Err(status) => Err(status),
                Ok(stepped) => {
                    proof {
                        lemma_parse_advances(data, at);
                    }
                    run(data, next, stepped)
                },
            },
        }
    }
}

/// The tree that a command buffer describes, or the status that rejects it.
pub open spec fn decode(data: Seq<u8>) -> Result<Tree, i32> {
    if !header_is_good(data) {
        Err(GPUI_STATUS_BAD_BUFFER_VERSION)
    } else {
        match run(data, 8, empty_machine()) {
            Err(status) => Err(status),
            Ok(machine) => match machine.root {
                None => Err(GPUI_STATUS_NO_ROOT),
                Some(root) => if check_tree(root) == GPUI_STATUS_OK {
                    Ok(root)
                } else {
                    Err(check_tree(root))
                },
            },
        }
    }
}

/// Reads the header.
fn read_header(reader: &mut BufferReader) -> (good: bool)
    requires
        old(reader).wf(),
        old(reader).pos == 0,
    ensures
        final(reader).wf(),
        final(reader).data == old(reader).data,
        good == header_is_good(old(reader).data@),
        good ==> final(reader).pos == 8,
{
    match reader.read_bytes(4) {
        None => false,
        Some(magic) => {
            assert(magic@ =~= old(reader).data@.take(4));
            let good = magic[0] == 0x47 && magic[1] == 0x50 && magic[2] == 0x55 && magic[3] == 0x49;
            assert(good == (magic@ =~= seq![0x47u8, 0x50, 0x55, 0x49]));
            match reader.read_u32() {
                None => false,
                Some(version) => good && version == BUFFER_VERSION as u32,
            }
        },
    }
}

/// Decodes a command buffer: the tree it describes, with the ids under which
/// that tree reports scroll positions.
pub fn decode_buffer(data: &[u8]) -> (decoded: Result<(UiNode, Vec<i32>), i32>)
    ensures
        match decoded {
            Ok((root, ids)) => {
                &&& decode(data@) == Ok::<Tree, i32>(root@)
                &&& ids@.to_set() == live_scroll_ids(root@)
                &&& tree_is_sound(root@)
            },
            Err(status) => {
                &&& decode(data@) == Err::<Tree, i32>(status)
                &&& status != GPUI_STATUS_OK
            },
        },
{
    let mut reader = BufferReader::new(data);
    if !read_header(&mut reader) {
        return Err(GPUI_STATUS_BAD_BUFFER_VERSION);
    }
    let mut builder = Builder::new();
    while !reader.at_end()
        invariant
            reader.wf(),
            reader.data == data,
            builder.wf(),
            run(data@, reader.pos as int, builder@) == run(data@, 8, empty_machine()),
            header_is_good(data@),
        decreases data@.len() - reader.pos,
    {
        proof {
            lemma_parse_advances(data@, reader.pos as int);
            lemma_parsed_is_sound(data@, reader.pos as int);
        }
        let command = match reader.read_command() {
            Ok(command) => command,
            Err(status) => return Err(status),
        };
        let status: i32 = builder.apply(command);
        if status != GPUI_STATUS_OK {
            return Err(status);
        }
    }
    match builder.finish() {
        None => Err(GPUI_STATUS_NO_ROOT),
        Some(root) => match check_before_commit(&root) {
            Err(status) => Err(status),
            Ok(ids) => Ok((root, ids)),
        },
    }
}

/// How many levels a tree has.
pub open spec fn height(tree: Tree) -> nat
    decreases tree, 0int,
{
    match tree {
        Tree::Div { children, .. } => 1 + height_of_all(children),
        _ => 1,
    }
}

/// The most levels that any of the trees has.
pub open spec fn height_of_all(trees: Seq<Tree>) -> nat
    decreases trees, 1int,
{
    if trees.len() == 0 {
        0
    } else {
        let last = height(trees.last());
        let others = height_of_all(trees.drop_last());
        if last > others {
            last
        } else {
            others
        }
    }
}

/// Is everything met within a depth?
pub open spec fn within(visits: Seq<(Tree, nat)>, limit: nat) -> bool {
    forall|i: int| 0 <= i < visits.len() ==> (#[trigger] visits[i]).1 <= limit
}

/// The depths that are met are bounded by the height of the tree.
proof fn lemma_walk_depths(tree: Tree, depth: nat, limit: nat)
    ensures
        within(walk(tree, depth), limit) <==> depth + height(tree) <= limit + 1,
    decreases tree, 0int,
{
    let visits = walk(tree, depth);
    assert(visits[0] == (tree, depth));
    match tree {
        Tree::Div { children, .. } => {
            let below = walk_all(children, depth + 1);
            lemma_walk_all_depths(children, depth + 1, limit);
            if within(visits, limit) {
                assert forall|i: int| 0 <= i < below.len() implies (#[trigger] below[i]).1 <= limit by {
                    assert(visits[i + 1] == below[i]);
                }
            }
            if within(below, limit) && depth <= limit {
                assert forall|i: int| 0 <= i < visits.len() implies (#[trigger] visits[i]).1
                    <= limit by {
                    if i > 0 {
                        assert(visits[i] == below[i - 1]);
                    }
                }
            }
        },
        _ => {},
    }
}

proof fn lemma_walk_all_depths(trees: Seq<Tree>, depth: nat, limit: nat)
    ensures
        within(walk_all(trees, depth), limit) <==> (trees.len() == 0 || depth + height_of_all(trees)
            <= limit + 1),
        trees.len() > 0 ==> height_of_all(trees) > 0,
    decreases trees, 1int,
{
    if trees.len() > 0 {
        lemma_walk_depths(trees.last(), depth, limit);
        lemma_walk_all_depths(trees.drop_last(), depth, limit);
        let first = walk(trees.last(), depth);
        let second = walk_all(trees.drop_last(), depth);
        let both = walk_all(trees, depth);
        assert(both =~= first + second);
        if within(both, limit) {
            assert forall|i: int| 0 <= i < first.len() implies (#[trigger] first[i]).1 <= limit by {
                assert(both[i] == first[i]);
            }
            assert forall|i: int| 0 <= i < second.len() implies (#[trigger] second[i]).1 <= limit by {
                assert(both[first.len() + i] == second[i]);
            }
        }
        if within(first, limit) && within(second, limit) {
            assert forall|i: int| 0 <= i < both.len() implies (#[trigger] both[i]).1 <= limit by {
                if i >= first.len() {
                    assert(both[i] == second[i - first.len()]);
                } else {
                    assert(both[i] == first[i]);
                }
            }
        }
        assert(within(both, limit) <==> within(first, limit) && within(second, limit));
        let tall = height(trees.last());
        let others = height_of_all(trees.drop_last());
        assert(tall >= 1);
        assert(within(first, limit) <==> depth + tall <= limit + 1);
        assert(trees.drop_last().len() == 0 ==> others == 0);
        assert(height_of_all(trees) == if tall > others {
            tall
        } else {
            others
        });
    } else {
        assert(walk_all(trees, depth).len() == 0);
    }
}

/// Does no key occur twice, nor among those that were met before?
pub open spec fn keys_are_fresh(visits: Seq<(Tree, nat)>, seen: Set<Seq<char>>) -> bool {
    &&& forall|i: int|
        0 <= i < visits.len() && key_of((#[trigger] visits[i]).0) is Some ==> !seen.contains(
            key_of(visits[i].0)->0,
        )
    &&& forall|i: int, j: int|
        #![trigger visits[i], visits[j]]
        0 <= i < j < visits.len() && key_of(visits[i].0) is Some ==> key_of(visits[i].0) != key_of(
            visits[j].0,
        )
}

proof fn lemma_check(visits: Seq<(Tree, nat)>, seen: Set<Seq<char>>)
    ensures
        check(visits, seen) == GPUI_STATUS_OK <==> within(visits, MAX_TREE_DEPTH as nat)
            && keys_are_fresh(visits, seen),
        check(visits, seen) == GPUI_STATUS_OK || check(visits, seen) == GPUI_STATUS_DEPTH_EXCEEDED
            || check(visits, seen) == GPUI_STATUS_DUPLICATE_KEY,
    decreases visits.len(),
{
    if visits.len() > 0 {
        let (tree, depth) = visits[0];
        let rest = visits.drop_first();
        let more = with_key(seen, tree);
        lemma_check(rest, more);
        assert(forall|i: int| 0 <= i < rest.len() ==> rest[i] == visits[i + 1]);
        if within(visits, MAX_TREE_DEPTH as nat) {
            assert(depth <= MAX_TREE_DEPTH);
            assert forall|i: int| 0 <= i < rest.len() implies (#[trigger] rest[i]).1
                <= MAX_TREE_DEPTH by {
                assert(visits[i + 1].1 <= MAX_TREE_DEPTH);
            }
        }
        if within(rest, MAX_TREE_DEPTH as nat) && depth <= MAX_TREE_DEPTH {
            assert forall|i: int| 0 <= i < visits.len() implies (#[trigger] visits[i]).1
                <= MAX_TREE_DEPTH by {
                if i > 0 {
                    assert(rest[i - 1] == visits[i]);
                }
            }
        }
        if keys_are_fresh(visits, seen) {
            assert forall|i: int|
                0 <= i < rest.len() && key_of((#[trigger] rest[i]).0) is Some implies !more.contains(
                key_of(rest[i].0)->0,
            ) by {
                assert(visits[i + 1] == rest[i]);
                assert(visits[0].0 == tree);
            }
            assert forall|i: int, j: int|
                #![trigger rest[i], rest[j]]
                0 <= i < j < rest.len() && key_of(rest[i].0) is Some implies key_of(rest[i].0)
                != key_of(rest[j].0) by {
                assert(visits[i + 1] == rest[i]);
                assert(visits[j + 1] == rest[j]);
            }
        }
        let repeats = key_of(tree) is Some && seen.contains(key_of(tree)->0);
        if keys_are_fresh(rest, more) && !repeats {
            assert forall|i: int|
                0 <= i < visits.len() && key_of((#[trigger] visits[i]).0) is Some implies !seen.contains(
                key_of(visits[i].0)->0,
            ) by {
                if i > 0 {
                    assert(rest[i - 1] == visits[i]);
                }
            }
            assert forall|i: int, j: int|
                #![trigger visits[i], visits[j]]
                0 <= i < j < visits.len() && key_of(visits[i].0) is Some implies key_of(visits[i].0)
                != key_of(visits[j].0) by {
                assert(rest[j - 1] == visits[j]);
                if i > 0 {
                    assert(rest[i - 1] == visits[i]);
                } else {
                    assert(more.contains(key_of(tree)->0));
                }
            }
        }
    }
}

/// A tree passes the checks exactly where it has at most the allowed number of
/// levels and no two of its nodes carry the same key.
pub proof fn law_check_accepts(tree: Tree)
    ensures
        check_tree(tree) == GPUI_STATUS_OK <==> height(tree) <= MAX_TREE_DEPTH && keys_are_fresh(
            walk(tree, 1),
            Set::empty(),
        ),
        check_tree(tree) == GPUI_STATUS_OK || check_tree(tree) == GPUI_STATUS_DEPTH_EXCEEDED
            || check_tree(tree) == GPUI_STATUS_DUPLICATE_KEY,
{
    lemma_walk_depths(tree, 1, MAX_TREE_DEPTH as nat);
    lemma_check(walk(tree, 1), Set::empty());
}

/// The statuses that can reject a command buffer.
pub open spec fn rejects_buffer(status: i32) -> bool {
    ||| status == GPUI_STATUS_INVALID_HANDLE
    ||| status == GPUI_STATUS_WRONG_NODE_KIND
    ||| status == GPUI_STATUS_BAD_BUFFER_VERSION
    ||| status == GPUI_STATUS_TRUNCATED_BUFFER
    ||| status == GPUI_STATUS_UNKNOWN_OPCODE
    ||| status == GPUI_STATUS_NO_ROOT
    ||| status == GPUI_STATUS_DUPLICATE_KEY
    ||| status == GPUI_STATUS_INVALID_FLOAT
    ||| status == GPUI_STATUS_DEPTH_EXCEEDED
    ||| status == GPUI_STATUS_INVALID_TEXT_RUN
}

proof fn lemma_run(data: Seq<u8>, at: int, machine: Machine)
    requires
        machine_is_sound(machine),
    ensures
        match run(data, at, machine) {
            Ok(finished) => machine_is_sound(finished),
            Err(status) => rejects_buffer(status),
        },
    decreases data.len() - at,
{
    if 0 <= at < data.len() {
        lemma_parse_advances(data, at);
        lemma_parsed_is_sound(data, at);
        match parse_command(data, at) {
            Err(status) => {
                assert(rejects_buffer(status));
            },
            Ok((command, next)) => match step(machine, command) {
                Err(status) => {
                    assert(rejects_buffer(status));
                },
                Ok(stepped) => {
                    lemma_step_keeps_sound(machine, command);
                    lemma_run(data, next, stepped);
                },
            },
        }
    }
}

/// Whatever the bytes are, decoding answers a tree or one of the rejecting
/// statuses. A handle never names a node that was moved away.
pub proof fn law_decode_is_total(data: Seq<u8>)
    ensures
        decode(data) matches Err(status) ==> rejects_buffer(status),
{
    lemma_run(data, 8, empty_machine());
    if let Ok(machine) = run(data, 8, empty_machine()) {
        if let Some(root) = machine.root {
            law_check_accepts(root);
        }
    }
}

/// Does a cut fall within one of the commands that are read from a position on,
/// behind its opcode?
pub open spec fn cuts_a_command(data: Seq<u8>, at: int, cut: int) -> bool
    decreases data.len() - at,
{
    if at < 0 || at >= data.len() || at >= cut {
        false
    } else {
        match parse_command(data, at) {
            Err(_) => false,
            Ok((_, next)) => {
                proof {
                    lemma_parse_advances(data, at);
                }
                cut < next || cuts_a_command(data, next, cut)
            },
        }
    }
}

proof fn lemma_cut_run(data: Seq<u8>, at: int, cut: int, machine: Machine)
    requires
        run(data, at, machine) is Ok,
        cuts_a_command(data, at, cut),
        cut <= data.len(),
    ensures
        run(data.take(cut), at, machine) == Err::<Machine, i32>(GPUI_STATUS_TRUNCATED_BUFFER),
    decreases data.len() - at,
{
    lemma_parse_advances(data, at);
    lemma_cut_command(data, cut, at);
    let (command, next) = parse_command(data, at)->Ok_0;
    if next <= cut {
        lemma_cut_run(data, next, cut, step(machine, command)->Ok_0);
    }
}

/// A good buffer that is cut within a command is rejected as truncated,
/// whichever command it is.
pub proof fn law_cut_buffer_is_truncated(data: Seq<u8>, cut: int)
    requires
        decode(data) is Ok,
        8 < cut < data.len(),
        cuts_a_command(data, 8, cut),
    ensures
        decode(data.take(cut)) == Err::<Tree, i32>(GPUI_STATUS_TRUNCATED_BUFFER),
{
    let short = data.take(cut);
    assert(short.take(4) =~= data.take(4));
    lemma_cut_run(data, 8, cut, empty_machine());
}

/// A decoded tree is sound: its lengths are finite and within the limit, its
/// font weights are in range, its runs lie within their texts in order and
/// without overlap, its keys are unique and its nesting is bounded.
pub proof fn law_decoded_tree_is_sound(data: Seq<u8>)
    ensures
        decode(data) matches Ok(tree) ==> {
            &&& tree_is_sound(tree)
            &&& height(tree) <= MAX_TREE_DEPTH
            &&& keys_are_fresh(walk(tree, 1), Set::empty())
        },
{
    lemma_run(data, 8, empty_machine());
    if let Ok(tree) = decode(data) {
        law_check_accepts(tree);
    }
}

/// A buffer is read only where its header is whole and good: every other one is
/// rejected for it, whatever comes behind.
pub proof fn law_header_comes_first(data: Seq<u8>)
    ensures
        data.len() < 8 ==> decode(data) == Err::<Tree, i32>(GPUI_STATUS_BAD_BUFFER_VERSION),
        data.len() >= 8 && (data[0] != 0x47 || data[1] != 0x50 || data[2] != 0x55 || data[3] != 0x49)
            ==> decode(data) == Err::<Tree, i32>(GPUI_STATUS_BAD_BUFFER_VERSION),
        data.len() >= 8 && word_at(data, 4) != BUFFER_VERSION ==> decode(data) == Err::<Tree, i32>(
            GPUI_STATUS_BAD_BUFFER_VERSION,
        ),
{
    if data.len() >= 8 {
        assert(data.take(4)[0] == data[0] && data.take(4)[1] == data[1]);
        assert(data.take(4)[2] == data[2] && data.take(4)[3] == data[3]);
        let magic = seq![0x47u8, 0x50, 0x55, 0x49];
        assert(magic[0] == 0x47 && magic[1] == 0x50 && magic[2] == 0x55 && magic[3] == 0x49);
    }
}

/// A buffer in which no root is named has none.
pub proof fn law_root_must_be_named(data: Seq<u8>)
    requires
        header_is_good(data),
        run(data, 8, empty_machine()) matches Ok(machine) && machine.root is None,
    ensures
        decode(data) == Err::<Tree, i32>(GPUI_STATUS_NO_ROOT),
{
}

/// The tree of a good buffer is the root that was named, unchanged.
pub proof fn law_named_root_is_the_tree(data: Seq<u8>)
    ensures
        decode(data) matches Ok(tree) ==> {
            &&& header_is_good(data)
            &&& run(data, 8, empty_machine()) is Ok
            &&& run(data, 8, empty_machine())->Ok_0.root == Some(tree)
        },
        header_is_good(data) && run(data, 8, empty_machine()) is Err ==> decode(data) == Err::<
            Tree,
            i32,
        >(run(data, 8, empty_machine())->Err_0),
{
}

/// Does any of the nodes report its scroll position under an id?
pub open spec fn some_node_reports(visits: Seq<(Tree, nat)>, id: i32) -> bool {
    exists|i: int|
        0 <= i < visits.len() && (#[trigger] visits[i]).0 is Div && visits[i].0->Div_style.scroll_id
            == Some(id)
}

proof fn lemma_reported_ids(visits: Seq<(Tree, nat)>, id: i32)
    ensures
        scroll_ids(visits).contains(id) <==> some_node_reports(visits, id),
    decreases visits.len(),
{
    if visits.len() > 0 {
        let rest = visits.drop_first();
        lemma_reported_ids(rest, id);
        if some_node_reports(rest, id) {
            let i = choose|i: int|
                0 <= i < rest.len() && (#[trigger] rest[i]).0 is Div
                    && rest[i].0->Div_style.scroll_id == Some(id);
            assert(visits[i + 1] == rest[i]);
        }
        if some_node_reports(visits, id) {
            let i = choose|i: int|
                0 <= i < visits.len() && (#[trigger] visits[i]).0 is Div
                    && visits[i].0->Div_style.scroll_id == Some(id);
            if i > 0 {
                assert(rest[i - 1] == visits[i]);
            }
        }
    }
}

/// The ids of a tree are those of its root and those of its children, and of
/// nothing else.
pub proof fn law_scroll_ids_are_those_of_the_nodes(tree: Tree, id: i32)
    ensures
        live_scroll_ids(tree).contains(id) <==> {
            &&& tree is Div
            &&& {
                ||| tree->Div_style.scroll_id == Some(id)
                ||| exists|i: int|
                    0 <= i < tree->children.len() && live_scroll_ids(
                        #[trigger] tree->children[i],
                    ).contains(id)
            }
        },
{
    lemma_reported_ids(walk(tree, 1), id);
    match tree {
        Tree::Div { style, children, .. } => {
            let below = walk_all(children, 2);
            let visits = walk(tree, 1);
            assert(visits =~= seq![(tree, 1nat)] + below);
            lemma_reported_by_all(children, 2, id);
            if some_node_reports(visits, id) && style.scroll_id != Some(id) {
                let i = choose|i: int|
                    0 <= i < visits.len() && (#[trigger] visits[i]).0 is Div
                        && visits[i].0->Div_style.scroll_id == Some(id);
                assert(visits[i] == below[i - 1]);
                assert(some_node_reports(below, id));
            }
            if some_node_reports(below, id) {
                let i = choose|i: int|
                    0 <= i < below.len() && (#[trigger] below[i]).0 is Div
                        && below[i].0->Div_style.scroll_id == Some(id);
                assert(visits[i + 1] == below[i]);
            }
            if style.scroll_id == Some(id) {
                assert(visits[0].0 == tree);
            }
        },
        _ => {},
    }
}

proof fn lemma_reported_by_all(trees: Seq<Tree>, depth: nat, id: i32)
    ensures
        some_node_reports(walk_all(trees, depth), id) <==> exists|i: int|
            0 <= i < trees.len() && live_scroll_ids(#[trigger] trees[i]).contains(id),
    decreases trees.len(),
{
    if trees.len() > 0 {
        let fewer = trees.drop_last();
        let first = walk(trees.last(), depth);
        let second = walk_all(fewer, depth);
        let all = walk_all(trees, depth);
        lemma_reported_by_all(fewer, depth, id);
        lemma_reported_ids(walk(trees.last(), 1), id);
        lemma_depth_does_not_matter(trees.last(), depth, 1, id);
        assert(all =~= first + second);
        if some_node_reports(all, id) {
            let i = choose|i: int|
                0 <= i < all.len() && (#[trigger] all[i]).0 is Div && all[i].0->Div_style.scroll_id
                    == Some(id);
            if i < first.len() {
                assert(first[i] == all[i]);
                assert(some_node_reports(first, id));
                assert(live_scroll_ids(trees[trees.len() - 1]).contains(id));
            } else {
                assert(second[i - first.len()] == all[i]);
                assert(some_node_reports(second, id));
                let j = choose|j: int|
                    0 <= j < fewer.len() && live_scroll_ids(#[trigger] fewer[j]).contains(id);
                assert(trees[j] == fewer[j]);
            }
        }
        if some_node_reports(first, id) {
            let i = choose|i: int|
                0 <= i < first.len() && (#[trigger] first[i]).0 is Div
                    && first[i].0->Div_style.scroll_id == Some(id);
            assert(all[i] == first[i]);
        }
        if some_node_reports(second, id) {
            let i = choose|i: int|
                0 <= i < second.len() && (#[trigger] second[i]).0 is Div
                    && second[i].0->Div_style.scroll_id == Some(id);
            assert(all[first.len() + i] == second[i]);
        }
        if exists|i: int| 0 <= i < trees.len() && live_scroll_ids(#[trigger] trees[i]).contains(
            id,
        ) {
            let i = choose|i: int|
                0 <= i < trees.len() && live_scroll_ids(#[trigger] trees[i]).contains(id);
            if i < fewer.len() {
                assert(fewer[i] == trees[i]);
            }
        }
    }
}

proof fn lemma_depth_does_not_matter(tree: Tree, a: nat, b: nat, id: i32)
    ensures
        some_node_reports(walk(tree, a), id) <==> some_node_reports(walk(tree, b), id),
{
    lemma_same_nodes(tree, a, b);
    let (one, other) = (walk(tree, a), walk(tree, b));
    if some_node_reports(one, id) {
        let i = choose|i: int|
            0 <= i < one.len() && (#[trigger] one[i]).0 is Div && one[i].0->Div_style.scroll_id
                == Some(id);
        assert(other[i].0 == one[i].0);
    }
    if some_node_reports(other, id) {
        let i = choose|i: int|
            0 <= i < other.len() && (#[trigger] other[i]).0 is Div
                && other[i].0->Div_style.scroll_id == Some(id);
        assert(one[i].0 == other[i].0);
    }
}

proof fn lemma_same_nodes(tree: Tree, a: nat, b: nat)
    ensures
        walk(tree, a).len() == walk(tree, b).len(),
        forall|i: int| #![trigger walk(tree, a)[i]] #![trigger walk(tree, b)[i]]
            0 <= i < walk(tree, a).len() ==> walk(tree, a)[i].0 == walk(tree, b)[i].0,
    decreases tree, 0int,
{
    match tree {
        Tree::Div { children, .. } => lemma_same_nodes_of_all(children, a + 1, b + 1),
        _ => {},
    }
}

proof fn lemma_same_nodes_of_all(trees: Seq<Tree>, a: nat, b: nat)
    ensures
        walk_all(trees, a).len() == walk_all(trees, b).len(),
        forall|i: int| #![trigger walk_all(trees, a)[i]] #![trigger walk_all(trees, b)[i]]
            0 <= i < walk_all(trees, a).len() ==> walk_all(trees, a)[i].0 == walk_all(trees, b)[i].0,
    decreases trees, 1int,
{
    if trees.len() > 0 {
        lemma_same_nodes(trees.last(), a, b);
        lemma_same_nodes_of_all(trees.drop_last(), a, b);
    }
}

/// The checks tell why they refuse: too many levels only where there are, and a key
/// that occurs twice only where one does.
pub proof fn law_check_tells_why(tree: Tree)
    ensures
        height(tree) > 64 && keys_are_fresh(walk(tree, 1), Set::empty()) ==> check_tree(tree)
            == GPUI_STATUS_DEPTH_EXCEEDED,
        height(tree) <= 64 && !keys_are_fresh(walk(tree, 1), Set::empty()) ==> check_tree(tree)
            == GPUI_STATUS_DUPLICATE_KEY,
        height(tree) <= 64 && keys_are_fresh(walk(tree, 1), Set::empty()) ==> check_tree(tree)
            == GPUI_STATUS_OK,
{
    law_check_accepts(tree);
    lemma_walk_depths(tree, 1, MAX_TREE_DEPTH as nat);
    lemma_check_tells_why(walk(tree, 1), Set::empty());
}

proof fn lemma_check_tells_why(visits: Seq<(Tree, nat)>, seen: Set<Seq<char>>)
    ensures
        check(visits, seen) == GPUI_STATUS_DEPTH_EXCEEDED ==> !within(
            visits,
            MAX_TREE_DEPTH as nat,
        ),
        check(visits, seen) == GPUI_STATUS_DUPLICATE_KEY ==> !keys_are_fresh(visits, seen),
    decreases visits.len(),
{
    if visits.len() > 0 {
        let (tree, depth) = visits[0];
        let rest = visits.drop_first();
        let more = with_key(seen, tree);
        lemma_check_tells_why(rest, more);
        if within(visits, MAX_TREE_DEPTH as nat) {
            assert forall|i: int| 0 <= i < rest.len() implies (#[trigger] rest[i]).1
                <= MAX_TREE_DEPTH by {
                assert(visits[i + 1].1 <= MAX_TREE_DEPTH);
            }
            assert(visits[0].1 <= MAX_TREE_DEPTH);
        }
        if keys_are_fresh(visits, seen) {
            assert(visits[0].0 == tree);
            assert forall|i: int|
                0 <= i < rest.len() && key_of((#[trigger] rest[i]).0) is Some implies !more.contains(
                key_of(rest[i].0)->0,
            ) by {
                assert(visits[i + 1] == rest[i]);
            }
            assert forall|i: int, j: int|
                #![trigger rest[i], rest[j]]
                0 <= i < j < rest.len() && key_of(rest[i].0) is Some implies key_of(rest[i].0)
                != key_of(rest[j].0) by {
                assert(visits[i + 1] == rest[i]);
                assert(visits[j + 1] == rest[j]);
            }
        }
    }
}

/// Later trees are met before earlier ones, and each node before what is below it.
pub proof fn law_later_trees_are_met_first(first: Seq<Tree>, second: Seq<Tree>, tree: Tree, depth: nat)
    ensures
        walk_all(first + second, depth) == walk_all(second, depth) + walk_all(first, depth),
        walk_all(seq![tree], depth) == walk(tree, depth),
        walk(tree, depth)[0] == (tree, depth),
        tree is Div ==> walk(tree, depth).drop_first() == walk_all(tree->children, depth + 1),
        !(tree is Div) ==> walk(tree, depth).len() == 1,
    decreases second.len(),
{
    assert(seq![tree].drop_last() =~= Seq::empty());
    assert(walk_all(seq![tree].drop_last(), depth) =~= Seq::empty());
    assert(walk_all(seq![tree], depth) =~= walk(tree, depth));
    if tree is Div {
        assert(walk(tree, depth).drop_first() =~= walk_all(tree->children, depth + 1));
    }
    if second.len() == 0 {
        assert(first + second =~= first);
        assert(walk_all(second, depth) + walk_all(first, depth) =~= walk_all(first, depth));
    } else {
        law_later_trees_are_met_first(first, second.drop_last(), tree, depth);
        assert((first + second).drop_last() =~= first + second.drop_last());
        assert((first + second).last() == second.last());
        assert(walk_all(first + second, depth) =~= walk_all(second, depth) + walk_all(first, depth));
    }
}

/// The fault of the first node that has one decides: nodes that are met later make no
/// difference.
pub proof fn law_first_faulty_node_decides(
    visits: Seq<(Tree, nat)>,
    more: Seq<(Tree, nat)>,
    seen: Set<Seq<char>>,
)
    requires
        check(visits, seen) != GPUI_STATUS_OK,
    ensures
        check(visits + more, seen) == check(visits, seen),
    decreases visits.len(),
{
    if visits.len() > 0 {
        let (tree, depth) = visits[0];
        assert((visits + more)[0] == visits[0]);
        assert((visits + more).drop_first() =~= visits.drop_first() + more);
        if depth <= MAX_TREE_DEPTH && !(key_of(tree) is Some && seen.contains(key_of(tree)->0)) {
            law_first_faulty_node_decides(visits.drop_first(), more, with_key(seen, tree));
        }
    }
}

} // verus!
