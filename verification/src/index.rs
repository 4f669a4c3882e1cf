//! The entry index: a catalog's entries, found by key in constant time and
//! walked in a fixed order.

use crate::entry::{views, Entry, EntryView};
use std::collections::HashMap;
use vstd::prelude::*;

verus! {

broadcast use vstd::std_specs::hash::group_hash_axioms;

/// Whether some entry of `entries` has the key `key`.
pub open spec fn has_key(entries: Seq<EntryView>, key: u32) -> bool {
    exists|i: int| 0 <= i < entries.len() && (#[trigger] entries[i]).key == key
}

/// Whether no two entries of `entries` share a key.
pub open spec fn distinct_keys(entries: Seq<EntryView>) -> bool {
    forall|i: int, j: int|
        0 <= i < entries.len() && 0 <= j < entries.len() && i != j ==> (#[trigger] entries[i]).key
            != (#[trigger] entries[j]).key
}

/// The index after `entry` is recorded in it. An entry with a new key goes to
/// the end. One whose key the index holds takes the older entry's place: the
/// last write wins, and the order of the keys stays.
pub open spec fn recorded(index: Seq<EntryView>, entry: EntryView) -> Seq<EntryView> {
    if has_key(index, entry.key) {
        index.map_values(
            |held: EntryView|
                if held.key == entry.key {
                    entry
                } else {
                    held
                },
        )
    } else {
        index.push(entry)
    }
}

/// The index after the entries of `more` are recorded in it, first to last.
pub open spec fn recorded_all(index: Seq<EntryView>, more: Seq<EntryView>) -> Seq<EntryView>
    decreases more.len(),
{
    if more.len() == 0 {
        index
    } else {
        recorded(recorded_all(index, more.drop_last()), more.last())
    }
}

/// The index of a catalog: its entries recorded one after the other into an
/// empty index.
pub open spec fn indexed(entries: Seq<EntryView>) -> Seq<EntryView> {
    recorded_all(Seq::empty(), entries)
}

/// The entries of `base`, in its order, whose keys `target` lacks. Only keys
/// are compared: an entry that both hold under one key is not missing,
/// whatever its texts are.
pub open spec fn missing_entries(base: Seq<EntryView>, target: Seq<EntryView>) -> Seq<EntryView>
    decreases base.len(),
{
    if base.len() == 0 {
        Seq::empty()
    } else if has_key(target, base.last().key) {
        missing_entries(base.drop_last(), target)
    } else {
        missing_entries(base.drop_last(), target).push(base.last())
    }
}

/// A catalog's entries under their keys.
///
/// The index holds one entry for each key. It keeps them in the order in
/// which their keys first came, and that is the order in which `values`
/// hands them out, so that two runs over the same files do the same work.
pub struct EntryIndex {
    entries: Vec<Entry>,
    slots: HashMap<u32, usize>,
}

impl View for EntryIndex {
    type V = Seq<EntryView>;

    closed spec fn view(&self) -> Seq<EntryView> {
        views(self.entries@)
    }
}

impl EntryIndex {
    /// The index's invariant: `slots` sends each key to the place of its
    /// entry, and holds nothing else.
    pub closed spec fn wf(&self) -> bool {
        &&& forall|k: u32| #[trigger]
            self.slots@.contains_key(k) ==> self.slots@[k] < self.entries@.len()
                && self.entries@[self.slots@[k] as int].key == k
        &&& forall|i: int|
            0 <= i < self.entries@.len() ==> self.slots@.contains_key(
                (#[trigger] self.entries@[i]).key,
            ) && self.slots@[self.entries@[i].key] == i
    }

    /// In a well-formed index no key occurs twice.
    pub proof fn lemma_distinct_keys(&self)
        requires
            self.wf(),
        ensures
            distinct_keys(self@),
    {
        assert forall|i: int, j: int|
            0 <= i < self@.len() && 0 <= j < self@.len() && i != j implies (#[trigger] self@[i]).key
            != (#[trigger] self@[j]).key by {
            let a = self.entries@[i];
            let b = self.entries@[j];
            assert(self.slots@[a.key] == i);
            assert(self.slots@[b.key] == j);
        }
    }

    proof fn lemma_slots(&self, key: u32)
        requires
            self.wf(),
        ensures
            self.slots@.contains_key(key) <==> has_key(self@, key),
            self.slots@.contains_key(key) ==> self@[self.slots@[key] as int].key == key,
    {
        if self.slots@.contains_key(key) {
            let i = self.slots@[key] as int;
            assert(self@[i].key == key);
        }
        if has_key(self@, key) {
            let i = choose|i: int| 0 <= i < self@.len() && (#[trigger] self@[i]).key == key;
            assert(self.entries@[i].key == key);
        }
    }

    /// An index without entries.
    pub fn new() -> (index: EntryIndex)
        ensures
            index.wf(),
            index@ == Seq::<EntryView>::empty(),
    {
        let index = EntryIndex { entries: Vec::new(), slots: HashMap::new() };
        assert(index@ =~= Seq::<EntryView>::empty());
        index
    }

    /// The number of entries, which is the number of keys.
    pub fn len(&self) -> (n: usize)
        ensures
            n == self@.len(),
    {
        self.entries.len()
    }

    /// Tells whether the index holds an entry under `key`.
    pub fn contains_key(&self, key: u32) -> (held: bool)
        requires
            self.wf(),
        ensures
            held == has_key(self@, key),
    {
        proof {
            self.lemma_slots(key);
        }
        self.slots.contains_key(&key)
    }

    /// The entry under `key`, if the index holds one.
    pub fn get(&self, key: u32) -> (found: Option<&Entry>)
        requires
            self.wf(),
        ensures
            match found {
                Some(entry) => entry@.key == key && self@.contains(entry@),
                None => !has_key(self@, key),
            },
    {
        proof {
            self.lemma_slots(key);
        }
        match self.slots.get(&key) {
            Some(place) => {
                let entry = &self.entries[*place];
                assert(self@[*place as int] == entry@);
                Some(entry)
            },
            None => None,
        }
    }

    /// The entries in the index's order.
    pub fn values(&self) -> (entries: &Vec<Entry>)
        ensures
            views(entries@) == self@,
    {
        &self.entries
    }

    /// Records `entry`. Where the index holds its key already, the entry
    /// takes the older one's place; otherwise it goes to the end.
    pub fn insert(&mut self, entry: Entry)
        requires
            old(self).wf(),
        ensures
            final(self).wf(),
            final(self)@ == recorded(old(self)@, entry@),
    {
        proof {
            self.lemma_slots(entry.key);
            self.lemma_distinct_keys();
        }
        let key: u32 = entry.key;
        let ghost before = self@;
        let ghost added = entry@;
        let held: Option<usize> = match self.slots.get(&key) {
            Some(place) => Some(*place),
            None => None,
        };
        match held {
            Some(place) => {
                self.entries.set(place, entry);
                assert(self@ =~= recorded(before, added)) by {
                    assert forall|i: int| 0 <= i < before.len() implies #[trigger] self@[i]
                        == recorded(before, added)[i] by {
                        if i != place {
                            assert(before[i].key != before[place as int].key);
                        }
                    }
                }
            },
            None => {
                let place: usize = self.entries.len();
                self.slots.insert(key, place);
                self.entries.push(entry);
                assert(self@ =~= recorded(before, added));
            },
        }
    }

    /// Records the entries of `entries`, first to last.
    pub fn extend(&mut self, entries: Vec<Entry>)
        requires
            old(self).wf(),
        ensures
            final(self).wf(),
            final(self)@ == recorded_all(old(self)@, views(entries@)),
    {
        let ghost start = self@;
        let ghost all = views(entries@);
        assert(all.take(0) =~= Seq::<EntryView>::empty());
        for entry in it: entries
            invariant
                self.wf(),
                it.seq() == entries@,
                all == views(entries@),
                self@ == recorded_all(start, all.take(it.index() as int)),
        {
            proof {
                let done = it.index() as int;
                assert(all.take(done + 1).drop_last() =~= all.take(done));
                assert(all.take(done + 1).last() == entry@);
            }
            self.insert(entry);
        }
        assert(all.take(all.len() as int) =~= all);
    }

    /// The index of a catalog: its entries, one for each key, the last one
    /// read where a key occurs more than once.
    pub fn build(entries: Vec<Entry>) -> (index: EntryIndex)
        ensures
            index.wf(),
            index@ == indexed(views(entries@)),
    {
        let mut index = EntryIndex::new();
        index.extend(entries);
        index
    }

    /// The entries of this index that `other` has no key for, in this
    /// index's order, each as it stands here.
    pub fn missing_from(&self, other: &EntryIndex) -> (missing: Vec<Entry>)
        requires
            self.wf(),
            other.wf(),
        ensures
            views(missing@) == missing_entries(self@, other@),
    {
        let mut missing: Vec<Entry> = Vec::new();
        let n: usize = self.entries.len();
        let mut i: usize = 0;
        assert(self@.take(0) =~= Seq::<EntryView>::empty());
        while i < n
            invariant
                self.wf(),
                other.wf(),
                n == self.entries@.len(),
                i <= n,
                views(missing@) =~= missing_entries(self@.take(i as int), other@),
            decreases n - i,
        {
            let entry = &self.entries[i];
            proof {
                assert(self@.take(i + 1).drop_last() =~= self@.take(i as int));
                assert(self@.take(i + 1).last() == entry@);
            }
            if !other.contains_key(entry.key) {
                missing.push(entry.clone());
            }
            i += 1;
        }
        assert(self@.take(n as int) =~= self@);
        missing
    }
}

/// Recording an entry adds its key to the keys of the index and no other,
/// keeps the keys distinct, and leaves the entry itself in the index.
pub proof fn lemma_recorded(index: Seq<EntryView>, entry: EntryView)
    ensures
        forall|k: u32|
            has_key(recorded(index, entry), k) <==> (has_key(index, k) || k == entry.key),
        distinct_keys(index) ==> distinct_keys(recorded(index, entry)),
        recorded(index, entry).contains(entry),
        forall|i: int|
            0 <= i < index.len() && (#[trigger] index[i]).key != entry.key ==> recorded(
                index,
                entry,
            ).contains(index[i]),
{
    let after = recorded(index, entry);
    if has_key(index, entry.key) {
        let at = choose|i: int| 0 <= i < index.len() && (#[trigger] index[i]).key == entry.key;
        assert(after[at] == entry);
        assert forall|i: int| 0 <= i < index.len() implies (#[trigger] after[i]).key
            == index[i].key by {}
        assert forall|k: u32| has_key(after, k) <==> (has_key(index, k) || k == entry.key) by {
            if has_key(after, k) {
                let i = choose|i: int| 0 <= i < after.len() && (#[trigger] after[i]).key == k;
                assert(index[i].key == k);
            }
            if has_key(index, k) {
                let i = choose|i: int| 0 <= i < index.len() && (#[trigger] index[i]).key == k;
                assert(after[i].key == k);
            }
            if k == entry.key {
                assert(after[at].key == k);
            }
        }
        if distinct_keys(index) {
            assert forall|i: int, j: int|
                0 <= i < after.len() && 0 <= j < after.len() && i != j implies (
            #[trigger] after[i]).key != (#[trigger] after[j]).key by {
                assert(index[i].key != index[j].key);
            }
        }
        assert forall|i: int|
            0 <= i < index.len() && (#[trigger] index[i]).key != entry.key implies after.contains(
            index[i],
        ) by {
            assert(after[i] == index[i]);
        }
    } else {
        assert(after[index.len() as int] == entry);
        assert forall|k: u32| has_key(after, k) <==> (has_key(index, k) || k == entry.key) by {
            if has_key(after, k) {
                let i = choose|i: int| 0 <= i < after.len() && (#[trigger] after[i]).key == k;
                if i < index.len() {
                    assert(index[i].key == k);
                }
            }
            if has_key(index, k) {
                let i = choose|i: int| 0 <= i < index.len() && (#[trigger] index[i]).key == k;
                assert(after[i].key == k);
            }
            if k == entry.key {
                assert(after[index.len() as int].key == k);
            }
        }
        if distinct_keys(index) {
            assert forall|i: int, j: int|
                0 <= i < after.len() && 0 <= j < after.len() && i != j implies (
            #[trigger] after[i]).key != (#[trigger] after[j]).key by {
                if i < index.len() && j < index.len() {
                    assert(index[i].key != index[j].key);
                } else if i < index.len() {
                    assert(index[i].key != entry.key);
                } else {
                    assert(index[j].key != entry.key);
                }
            }
        }
        assert forall|i: int|
            0 <= i < index.len() && (#[trigger] index[i]).key != entry.key implies after.contains(
            index[i],
        ) by {
            assert(after[i] == index[i]);
        }
    }
}

/// An index holds the keys of the entries that were recorded in it, and
/// those it held before; no key twice, if it held none twice before.
pub proof fn lemma_recorded_all_keys(index: Seq<EntryView>, more: Seq<EntryView>)
    ensures
        forall|k: u32|
            has_key(recorded_all(index, more), k) <==> (has_key(index, k) || has_key(more, k)),
        distinct_keys(index) ==> distinct_keys(recorded_all(index, more)),
    decreases more.len(),
{
    if more.len() > 0 {
        let front = more.drop_last();
        let before = recorded_all(index, front);
        lemma_recorded_all_keys(index, front);
        lemma_recorded(before, more.last());
        assert forall|k: u32|
            has_key(recorded_all(index, more), k) <==> (has_key(index, k) || has_key(
                more,
                k,
            )) by {
            if has_key(front, k) {
                let i = choose|i: int| 0 <= i < front.len() && (#[trigger] front[i]).key == k;
                assert(more[i].key == k);
            }
            if has_key(more, k) {
                let i = choose|i: int| 0 <= i < more.len() && (#[trigger] more[i]).key == k;
                if i < front.len() {
                    assert(front[i].key == k);
                }
            }
            if k == more.last().key {
                assert(more[more.len() - 1].key == k);
            }
        }
    } else {
        assert forall|k: u32| !has_key(more, k) by {}
    }
}

/// The last write wins: of the recorded entries that share a key, the index
/// holds the one that was recorded last.
pub proof fn lemma_last_write_wins(index: Seq<EntryView>, more: Seq<EntryView>, i: int)
    requires
        0 <= i < more.len(),
        forall|j: int| i < j < more.len() ==> (#[trigger] more[j]).key != more[i].key,
    ensures
        recorded_all(index, more).contains(more[i]),
    decreases more.len(),
{
    let front = more.drop_last();
    let before = recorded_all(index, front);
    lemma_recorded(before, more.last());
    if i < more.len() - 1 {
        assert forall|j: int| i < j < front.len() implies (#[trigger] front[j]).key
            != front[i].key by {
            assert(more[j].key != more[i].key);
        }
        lemma_last_write_wins(index, front, i);
        let at = choose|at: int| 0 <= at < before.len() && before[at] == front[i];
        assert(more[more.len() - 1].key != more[i].key);
        assert(before[at].key != more.last().key);
    }
}

/// What is missing: each missing entry is an entry of the base whose key the
/// target lacks, and each such entry of the base is missing.
pub proof fn lemma_missing_entries(base: Seq<EntryView>, target: Seq<EntryView>)
    ensures
        missing_entries(base, target).len() <= base.len(),
        forall|m: int|
            0 <= m < missing_entries(base, target).len() ==> base.contains(
                #[trigger] missing_entries(base, target)[m],
            ) && !has_key(target, missing_entries(base, target)[m].key),
        forall|i: int|
            0 <= i < base.len() && !has_key(target, (#[trigger] base[i]).key) ==> missing_entries(
                base,
                target,
            ).contains(base[i]),
    decreases base.len(),
{
    if base.len() > 0 {
        let front = base.drop_last();
        let before = missing_entries(front, target);
        let missing = missing_entries(base, target);
        lemma_missing_entries(front, target);
        assert forall|m: int| 0 <= m < missing.len() implies base.contains(#[trigger] missing[m])
            && !has_key(target, missing[m].key) by {
            if m < before.len() {
                assert(missing[m] == before[m]);
                let i = choose|i: int| 0 <= i < front.len() && front[i] == before[m];
                assert(base[i] == missing[m]);
            } else {
                assert(base[base.len() - 1] == missing[m]);
            }
        }
        assert forall|i: int|
            0 <= i < base.len() && !has_key(
                target,
                (#[trigger] base[i]).key,
            ) implies missing.contains(base[i]) by {
            if i < front.len() {
                assert(front[i] == base[i]);
                let m = choose|m: int| 0 <= m < before.len() && before[m] == front[i];
                assert(missing[m] == base[i]);
            } else {
                assert(missing[missing.len() - 1] == base[i]);
            }
        }
    }
}

/// Nothing is missing from a target that holds every key of the base.
pub proof fn lemma_nothing_missing(base: Seq<EntryView>, target: Seq<EntryView>)
    requires
        forall|k: u32| has_key(base, k) ==> has_key(target, k),
    ensures
        missing_entries(base, target) == Seq::<EntryView>::empty(),
    decreases base.len(),
{
    if base.len() > 0 {
        let front = base.drop_last();
        assert(has_key(base, base[base.len() - 1].key));
        assert forall|k: u32| has_key(front, k) implies has_key(target, k) by {
            let i = choose|i: int| 0 <= i < front.len() && (#[trigger] front[i]).key == k;
            assert(base[i].key == k);
        }
        lemma_nothing_missing(front, target);
    }
}

/// Recording two lists one after the other is recording them joined.
pub proof fn lemma_recorded_all_joined(
    index: Seq<EntryView>,
    first: Seq<EntryView>,
    second: Seq<EntryView>,
)
    ensures
        recorded_all(index, first + second) == recorded_all(recorded_all(index, first), second),
    decreases second.len(),
{
    if second.len() == 0 {
        assert(first + second =~= first);
    } else {
        assert((first + second).drop_last() =~= first + second.drop_last());
        assert((first + second).last() == second.last());
        lemma_recorded_all_joined(index, first, second.drop_last());
    }
}

} // verus!
