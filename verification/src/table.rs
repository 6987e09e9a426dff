//! Tables keyed by pairs of ids and by texts.
use crate::text::same_text;
use vstd::prelude::*;

verus! {

/// A view and the id of something in it.
pub type Key = (i32, i32);

/// Values by view and id. No key occurs twice.
pub struct PairTable<V> {
    entries: Vec<(Key, V)>,
}

/// Where a key stands in a list of entries.
pub open spec fn stands_at<V>(entries: Seq<(Key, V)>, key: Key, i: int) -> bool {
    0 <= i < entries.len() && entries[i].0 == key
}

/// The map that a list of entries stands for.
pub open spec fn map_of<V>(entries: Seq<(Key, V)>) -> Map<Key, V> {
    Map::new(
        |key: Key| exists|i: int| stands_at(entries, key, i),
        |key: Key| entries[choose|i: int| stands_at(entries, key, i)].1,
    )
}

/// No key occurs twice.
pub open spec fn keys_are_unique<V>(entries: Seq<(Key, V)>) -> bool {
    forall|i: int, j: int|
        #![trigger entries[i], entries[j]]
        0 <= i < j < entries.len() ==> entries[i].0 != entries[j].0
}

impl<V> View for PairTable<V> {
    type V = Map<Key, V>;

    closed spec fn view(&self) -> Map<Key, V> {
        map_of(self.entries@)
    }
}

/// An entry is what the map holds under its key.
proof fn lemma_entry<V>(entries: Seq<(Key, V)>, i: int)
    requires
        keys_are_unique(entries),
        0 <= i < entries.len(),
    ensures
        map_of(entries).dom().contains(entries[i].0),
        map_of(entries)[entries[i].0] == entries[i].1,
{
    let key = entries[i].0;
    assert(stands_at(entries, key, i));
    let j = choose|j: int| stands_at(entries, key, j);
    assert(stands_at(entries, key, j));
    if i < j {
        assert(entries[i].0 != entries[j].0);
    }
    if j < i {
        assert(entries[j].0 != entries[i].0);
    }
}

impl<V> PairTable<V> {
    /// No key occurs twice.
    pub closed spec fn wf(&self) -> bool {
        keys_are_unique(self.entries@)
    }

    /// An empty table.
    pub fn new() -> (table: Self)
        ensures
            table.wf(),
            table@ == Map::<Key, V>::empty(),
    {
        let table = PairTable { entries: Vec::new() };
        assert(table@ =~= Map::<Key, V>::empty()) by {
            assert forall|key: Key| !table@.dom().contains(key) by {
                assert forall|i: int| !stands_at(table.entries@, key, i) by {}
            }
        }
        table
    }

    /// The place of a key.
    fn find(&self, key: Key) -> (place: Option<usize>)
        ensures
            match place {
                Some(i) => stands_at(self.entries@, key, i as int),
                None => forall|i: int| !stands_at(self.entries@, key, i),
            },
    {
        let mut i: usize = 0;
        while i < self.entries.len()
            invariant
                i <= self.entries@.len(),
                forall|j: int| 0 <= j < i ==> self.entries@[j].0 != key,
            decreases self.entries@.len() - i,
        {
            let here: Key = self.entries[i].0;
            if here.0 == key.0 && here.1 == key.1 {
                return Some(i);
            }
            i = i + 1;
        }
        None
    }

    /// Looks a key up.
    pub fn get(&self, key: Key) -> (value: Option<&V>)
        requires
            self.wf(),
        ensures
            value is Some <==> self@.dom().contains(key),
            value is Some ==> *value->0 == self@[key],
    {
        match self.find(key) {
            Some(i) => {
                proof {
                    lemma_entry(self.entries@, i as int);
                }
                Some(&self.entries[i].1)
            },
            None => None,
        }
    }

    /// Puts a value under a key and answers the one that was there.
    pub fn insert(&mut self, key: Key, value: V) -> (previous: Option<V>)
        requires
            old(self).wf(),
        ensures
            final(self).wf(),
            final(self)@ == old(self)@.insert(key, value),
            previous is Some <==> old(self)@.dom().contains(key),
            previous is Some ==> previous->0 == old(self)@[key],
    {
        let ghost before = self.entries@;
        match self.find(key) {
            Some(i) => {
                proof {
                    lemma_entry(before, i as int);
                }
                self.entries.push((key, value));
                let (_, previous) = self.entries.swap_remove(i);
                proof {
                    let after = self.entries@;
                    assert(after =~= before.update(i as int, (key, value)));
                    lemma_inserted(before, after, key, value, i as int);
                }
                Some(previous)
            },
            None => {
                self.entries.push((key, value));
                proof {
                    assert forall|i: int, j: int|
                        #![trigger self.entries@[i], self.entries@[j]]
                        0 <= i < j < self.entries@.len() implies self.entries@[i].0
                        != self.entries@[j].0 by {
                        assert(!stands_at(before, key, i));
                    }
                    lemma_inserted(before, self.entries@, key, value, before.len() as int);
                }
                None
            },
        }
    }

    /// Drops the entries of one view whose id is not among the given ones.
    pub fn prune(&mut self, view: i32, live: &Vec<i32>)
        requires
            old(self).wf(),
        ensures
            final(self).wf(),
            final(self)@ == pruned(old(self)@, view, live@.to_set()),
    {
        let ghost before = self.entries@;
        let mut i: usize = 0;
        while i < self.entries.len()
            invariant
                i <= self.entries@.len(),
                keys_are_unique(self.entries@),
                pruned(map_of(self.entries@), view, live@.to_set()) == pruned(
                    map_of(before),
                    view,
                    live@.to_set(),
                ),
                forall|j: int|
                    0 <= j < i ==> stays((#[trigger] self.entries@[j]).0, view, live@.to_set()),
            decreases self.entries@.len() - i,
        {
            let key: Key = self.entries[i].0;
            if key.0 != view || is_member(live, key.1) {
                i = i + 1;
            } else {
                let ghost here = self.entries@;
                let _ = self.entries.remove(i);
                proof {
                    lemma_removed(here, self.entries@, i as int);
                    assert(pruned(map_of(self.entries@), view, live@.to_set()) =~= pruned(
                        map_of(here),
                        view,
                        live@.to_set(),
                    ));
                }
            }
        }
        proof {
            assert forall|key: Key| map_of(self.entries@).dom().contains(key) implies stays(
                key,
                view,
                live@.to_set(),
            ) by {
                let j = choose|j: int| stands_at(self.entries@, key, j);
                assert(stays(self.entries@[j].0, view, live@.to_set()));
            }
            assert(self@ =~= pruned(self@, view, live@.to_set()));
        }
    }
}

/// Does a key survive when a view keeps only some ids?
pub open spec fn stays(key: Key, view: i32, live: Set<i32>) -> bool {
    key.0 != view || live.contains(key.1)
}

/// A map without the entries of one view whose id is not among the given ones.
pub open spec fn pruned<V>(map: Map<Key, V>, view: i32, live: Set<i32>) -> Map<Key, V> {
    map.restrict(Set::new(|key: Key| stays(key, view, live)))
}

/// Is an id among others?
fn is_member(ids: &Vec<i32>, id: i32) -> (found: bool)
    ensures
        found == ids@.to_set().contains(id),
{
    let mut i: usize = 0;
    while i < ids.len()
        invariant
            i <= ids@.len(),
            forall|j: int| 0 <= j < i ==> ids@[j] != id,
        decreases ids@.len() - i,
    {
        if ids[i] == id {
            return true;
        }
        i = i + 1;
    }
    false
}

/// A list whose entry at one place is new, and is the only one with its key.
proof fn lemma_inserted<V>(
    before: Seq<(Key, V)>,
    after: Seq<(Key, V)>,
    key: Key,
    value: V,
    place: int,
)
    requires
        keys_are_unique(before),
        keys_are_unique(after),
        0 <= place < after.len(),
        before.len() <= after.len() <= before.len() + 1,
        place < before.len() ==> before[place].0 == key && after.len() == before.len(),
        place >= before.len() ==> place == before.len() && after.len() == before.len() + 1,
        after[place] == (key, value),
        forall|i: int| 0 <= i < before.len() && i != place ==> after[i] == before[i],
    ensures
        map_of(after) == map_of(before).insert(key, value),
{
    let expected = map_of(before).insert(key, value);
    assert forall|k: Key| map_of(after).dom().contains(k) <==> expected.dom().contains(k) by {
        if map_of(after).dom().contains(k) {
            let i = choose|i: int| stands_at(after, k, i);
            if i != place {
                assert(stands_at(before, k, i));
            }
        }
        if expected.dom().contains(k) {
            if k == key {
                assert(stands_at(after, k, place));
            } else {
                let i = choose|i: int| stands_at(before, k, i);
                assert(stands_at(after, k, i));
            }
        }
    }
    assert forall|k: Key| map_of(after).dom().contains(k) implies map_of(after)[k]
        == expected[k] by {
        let i = choose|i: int| stands_at(after, k, i);
        lemma_entry(after, i);
        if i == place {
        } else {
            if k == key {
                lemma_entry(after, place);
                if i < place {
                    assert(after[i].0 != after[place].0);
                } else {
                    assert(after[place].0 != after[i].0);
                }
            }
            lemma_entry(before, i);
        }
    }
    assert(map_of(after) =~= expected);
}

/// A list without one of its entries.
proof fn lemma_removed<V>(before: Seq<(Key, V)>, after: Seq<(Key, V)>, place: int)
    requires
        keys_are_unique(before),
        0 <= place < before.len(),
        after == before.remove(place),
    ensures
        keys_are_unique(after),
        map_of(after) == map_of(before).remove(before[place].0),
{
    assert forall|i: int, j: int|
        #![trigger after[i], after[j]]
        0 <= i < j < after.len() implies after[i].0 != after[j].0 by {
        let bi = if i < place {
            i
        } else {
            i + 1
        };
        let bj = if j < place {
            j
        } else {
            j + 1
        };
        assert(before[bi].0 != before[bj].0);
    }
    let gone = before[place].0;
    let expected = map_of(before).remove(gone);
    assert forall|k: Key| map_of(after).dom().contains(k) <==> expected.dom().contains(k) by {
        if map_of(after).dom().contains(k) {
            let i = choose|i: int| stands_at(after, k, i);
            let b = if i < place {
                i
            } else {
                i + 1
            };
            assert(stands_at(before, k, b));
            if b < place {
                assert(before[b].0 != before[place].0);
            } else {
                assert(before[place].0 != before[b].0);
            }
        }
        if expected.dom().contains(k) {
            let b = choose|b: int| stands_at(before, k, b);
            let i = if b < place {
                b
            } else {
                b - 1
            };
            assert(stands_at(after, k, i));
        }
    }
    assert forall|k: Key| map_of(after).dom().contains(k) implies map_of(after)[k]
        == expected[k] by {
        let i = choose|i: int| stands_at(after, k, i);
        lemma_entry(after, i);
        let b = if i < place {
            i
        } else {
            i + 1
        };
        lemma_entry(before, b);
    }
    assert(map_of(after) =~= expected);
}

/// Values by text.
pub struct TextTable<V> {
    entries: Vec<(String, V)>,
}

/// The map that a list of entries stands for: later ones count.
pub open spec fn texts_to<V>(entries: Seq<(String, V)>) -> Map<Seq<char>, V>
    decreases entries.len(),
{
    if entries.len() == 0 {
        Map::empty()
    } else {
        texts_to(entries.drop_last()).insert(entries.last().0@, entries.last().1)
    }
}

impl<V> View for TextTable<V> {
    type V = Map<Seq<char>, V>;

    closed spec fn view(&self) -> Map<Seq<char>, V> {
        texts_to(self.entries@)
    }
}

/// Taking an entry out makes no difference once its key is set again.
proof fn lemma_text_replaced<V>(entries: Seq<(String, V)>, i: int, key: Seq<char>, value: V)
    requires
        0 <= i < entries.len(),
        entries[i].0@ == key,
    ensures
        texts_to(entries.remove(i)).insert(key, value) == texts_to(entries).insert(key, value),
    decreases entries.len(),
{
    let fewer = entries.drop_last();
    let last = entries.last();
    if i == entries.len() - 1 {
        assert(entries.remove(i) =~= fewer);
        assert(texts_to(fewer).insert(key, last.1).insert(key, value) =~= texts_to(fewer).insert(
            key,
            value,
        ));
    } else {
        lemma_text_replaced(fewer, i, key, value);
        assert(entries.remove(i).drop_last() =~= fewer.remove(i));
        let without = texts_to(fewer.remove(i));
        let with = texts_to(fewer);
        if last.0@ == key {
            assert(without.insert(key, last.1).insert(key, value) =~= without.insert(key, value));
            assert(with.insert(key, last.1).insert(key, value) =~= with.insert(key, value));
        } else {
            assert(without.insert(last.0@, last.1).insert(key, value) =~= without.insert(
                key,
                value,
            ).insert(last.0@, last.1));
            assert(with.insert(last.0@, last.1).insert(key, value) =~= with.insert(
                key,
                value,
            ).insert(last.0@, last.1));
        }
    }
}

impl<V> TextTable<V> {
    /// An empty table.
    pub fn new() -> (table: TextTable<V>)
        ensures
            table@ == Map::<Seq<char>, V>::empty(),
    {
        TextTable { entries: Vec::new() }
    }

    /// Takes everything out.
    pub fn clear(&mut self)
        ensures
            final(self)@ == Map::<Seq<char>, V>::empty(),
    {
        self.entries.clear();
        assert(texts_to(self.entries@) =~= Map::empty());
    }

    /// Puts a value under a key, in place of what was there.
    pub fn set(&mut self, key: &str, value: V)
        ensures
            final(self)@ == old(self)@.insert(key@, value),
    {
        let ghost before = self.entries@;
        let mut i: usize = 0;
        while i < self.entries.len()
            invariant
                i <= self.entries@.len(),
                self.entries@ == before,
                before == old(self).entries@,
            decreases self.entries@.len() - i,
        {
            if same_text(self.entries[i].0.as_str(), key) {
                let _ = self.entries.remove(i);
                let owned: String = key.to_owned();
                self.entries.push((owned, value));
                proof {
                    lemma_text_replaced(before, i as int, key@, value);
                    assert(self.entries@.drop_last() =~= before.remove(i as int));
                }
                return ;
            }
            i = i + 1;
        }
        let owned: String = key.to_owned();
        self.entries.push((owned, value));
        assert(self.entries@.drop_last() =~= before);
    }

    /// The value under a key.
    pub fn get(&self, key: &str) -> (value: Option<&V>)
        ensures
            match value {
                Some(value) => self@.dom().contains(key@) && *value == self@[key@],
                None => !self@.dom().contains(key@),
            },
    {
        let mut i: usize = self.entries.len();
        assert(self.entries@.take(i as int) =~= self.entries@);
        while i > 0
            invariant
                i <= self.entries@.len(),
                self@.dom().contains(key@) == texts_to(
                    self.entries@.take(i as int),
                ).dom().contains(key@),
                self@.dom().contains(key@) ==> self@[key@] == texts_to(
                    self.entries@.take(i as int),
                )[key@],
            decreases i,
        {
            i = i - 1;
            proof {
                let upto = self.entries@.take(i as int + 1);
                assert(upto.drop_last() =~= self.entries@.take(i as int));
                assert(upto.last() == self.entries@[i as int]);
            }
            if same_text(self.entries[i].0.as_str(), key) {
                return Some(&self.entries[i].1);
            }
        }
        assert(self.entries@.take(0) =~= Seq::empty());
        None
    }
}

} // verus!
