//! The snapshot: everything a store holds, as plain entries that can be
//! written out and read back.

use crate::record::{Task, TaskView, User, UserView};
use crate::store::DatabaseView;
use std::collections::HashMap;
use vstd::prelude::*;
use vstd::std_specs::iter::IteratorSpec;

verus! {

/// The map that comes of putting `entries` into an empty map one after the
/// other: where a key occurs more than once, its last entry stays.
pub open spec fn keyed<V>(entries: Seq<(u64, V)>) -> Map<u64, V>
    decreases entries.len(),
{
    if entries.len() == 0 {
        Map::empty()
    } else {
        keyed(entries.drop_last()).insert(entries.last().0, entries.last().1)
    }
}

/// Whether no key occurs in two entries.
pub open spec fn distinct_keys<V>(entries: Seq<(u64, V)>) -> bool {
    forall|i: int, j: int|
        0 <= i < entries.len() && 0 <= j < entries.len() && i != j ==> entries[i].0
            != entries[j].0
}

/// A snapshot as a mathematical value.
pub struct SnapshotView {
    pub tasks: Seq<(u64, TaskView)>,
    pub users: Seq<(u64, UserView)>,
}

impl SnapshotView {
    /// The store that the snapshot describes.
    pub open spec fn store(self) -> DatabaseView {
        DatabaseView { tasks: keyed(self.tasks), users: keyed(self.users) }
    }

    /// Whether each key stands once among the tasks and once among the
    /// users.
    pub open spec fn distinct(self) -> bool {
        distinct_keys(self.tasks) && distinct_keys(self.users)
    }
}

/// The whole content of a store: each record with the key it is kept under.
#[derive(Debug, PartialEq, Eq)]
pub struct Snapshot {
    pub tasks: Vec<(u64, Task)>,
    pub users: Vec<(u64, User)>,
}

impl View for Snapshot {
    type V = SnapshotView;

    open spec fn view(&self) -> SnapshotView {
        SnapshotView {
            tasks: self.tasks@.map_values(|entry: (u64, Task)| (entry.0, entry.1@)),
            users: self.users@.map_values(|entry: (u64, User)| (entry.0, entry.1@)),
        }
    }
}

/// A key is in the map of some entries exactly if an entry has it, and it
/// then maps to the value of the last such entry.
pub proof fn lemma_keyed_contents<V>(entries: Seq<(u64, V)>)
    ensures
        forall|key: u64| #[trigger]
            keyed(entries).contains_key(key) <==> exists|i: int|
                0 <= i < entries.len() && #[trigger] entries[i].0 == key,
        forall|i: int|
            0 <= i < entries.len() && (forall|j: int|
                i < j < entries.len() ==> #[trigger] entries[j].0 != entries[i].0) ==> keyed(
                entries,
            )[#[trigger] entries[i].0] == entries[i].1,
    decreases entries.len(),
{
    if entries.len() > 0 {
        let front = entries.drop_last();
        lemma_keyed_contents(front);
        assert forall|key: u64| #[trigger] keyed(entries).contains_key(key) implies exists|i: int|
            0 <= i < entries.len() && #[trigger] entries[i].0 == key by {
            if key == entries.last().0 {
                assert(entries[entries.len() - 1].0 == key);
            } else {
                assert(keyed(front).contains_key(key));
                let i = choose|i: int| 0 <= i < front.len() && #[trigger] front[i].0 == key;
                assert(entries[i].0 == key);
            }
        }
        assert forall|key: u64|
            (exists|i: int|
                0 <= i < entries.len() && #[trigger] entries[i].0 == key) implies #[trigger] keyed(
            entries,
        ).contains_key(key) by {
            let i = choose|i: int| 0 <= i < entries.len() && #[trigger] entries[i].0 == key;
            if i < front.len() {
                assert(front[i].0 == key);
                assert(keyed(front).contains_key(key));
            }
        }
        assert forall|i: int|
            0 <= i < entries.len() && (forall|j: int|
                i < j < entries.len() ==> #[trigger] entries[j].0 != entries[i].0) implies keyed(
            entries,
        )[#[trigger] entries[i].0] == entries[i].1 by {
            if i < front.len() {
                assert(entries[entries.len() - 1].0 != entries[i].0);
                assert(front[i] == entries[i]);
                assert forall|j: int| i < j < front.len() implies #[trigger] front[j].0
                    != front[i].0 by {
                    assert(entries[j].0 != entries[i].0);
                }
            }
        }
    }
}

/// Entries that name each key of a map once, each with the value the map
/// has for it, describe that map.
pub proof fn lemma_keyed_exact<V>(entries: Seq<(u64, V)>, map: Map<u64, V>)
    requires
        distinct_keys(entries),
        forall|key: u64| #[trigger]
            map.contains_key(key) <==> exists|i: int|
                0 <= i < entries.len() && #[trigger] entries[i].0 == key,
        forall|i: int| 0 <= i < entries.len() ==> map[#[trigger] entries[i].0] == entries[i].1,
    ensures
        keyed(entries) == map,
{
    lemma_keyed_contents(entries);
    assert forall|key: u64| #[trigger] map.contains_key(key) implies keyed(entries)[key]
        == map[key] by {
        let i = choose|i: int| 0 <= i < entries.len() && #[trigger] entries[i].0 == key;
        assert(keyed(entries)[entries[i].0] == entries[i].1);
    }
    assert(keyed(entries) =~= map);
}

/// Changing each value by `change` and then keying the entries gives what
/// keying them first and changing each value of the map gives.
pub proof fn lemma_keyed_map_values<V, W>(entries: Seq<(u64, V)>, change: spec_fn(V) -> W)
    ensures
        keyed(entries.map_values(|entry: (u64, V)| (entry.0, change(entry.1)))) == keyed(
            entries,
        ).map_values(change),
    decreases entries.len(),
{
    let lift = |entry: (u64, V)| (entry.0, change(entry.1));
    if entries.len() == 0 {
        assert(keyed(entries.map_values(lift)) =~= keyed(entries).map_values(change));
    } else {
        lemma_keyed_map_values(entries.drop_last(), change);
        assert(entries.map_values(lift).drop_last() =~= entries.drop_last().map_values(lift));
        assert(keyed(entries.map_values(lift)) =~= keyed(entries).map_values(change));
    }
}

/// Lists what `map` holds: each key once, with a copy of its value. The
/// order is that in which the table happens to be walked.
pub(crate) fn entries_of<V: Clone>(map: &HashMap<u64, V>) -> (entries: Vec<(u64, V)>)
    ensures
        distinct_keys(entries@),
        forall|key: u64| #[trigger]
            map@.contains_key(key) <==> exists|i: int|
                0 <= i < entries@.len() && #[trigger] entries@[i].0 == key,
        forall|i: int|
            0 <= i < entries@.len() ==> cloned(map@[#[trigger] entries@[i].0], entries@[i].1),
{
    let mut entries: Vec<(u64, V)> = Vec::new();
    let pairs_walk = map.iter();
    let ghost pairs = pairs_walk.remaining();
    for pair in walk: pairs_walk
        invariant
            walk.seq() == pairs,
            entries@.len() == walk.index(),
            forall|i: int|
                0 <= i < walk.index() ==> entries@[i].0 == *pairs[i].0 && cloned(
                    *pairs[i].1,
                    entries@[i].1,
                ),
    {
        let (key, value) = pair;
        entries.push((*key, value.clone()));
    }
    proof {
        assert forall|i: int, j: int|
            0 <= i < entries@.len() && 0 <= j < entries@.len() && i != j implies entries@[i].0
            != entries@[j].0 by {
            assert(map@[*pairs[i].0] == *pairs[i].1);
            assert(map@[*pairs[j].0] == *pairs[j].1);
            if entries@[i].0 == entries@[j].0 {
                assert(pairs[i] == pairs[j]);
            }
        }
        assert forall|key: u64| #[trigger] map@.contains_key(key) implies exists|i: int|
            0 <= i < entries@.len() && #[trigger] entries@[i].0 == key by {
            assert(pairs.contains((&key, &map@[key])));
            let i = choose|i: int| 0 <= i < pairs.len() && pairs[i] == (&key, &map@[key]);
            assert(entries@[i].0 == key);
        }
        assert forall|key: u64|
            (exists|i: int| 0 <= i < entries@.len() && #[trigger] entries@[i].0 == key)
            implies #[trigger] map@.contains_key(key) by {
            let i = choose|i: int| 0 <= i < entries@.len() && #[trigger] entries@[i].0 == key;
            assert(map@.contains_key(*pairs[i].0));
        }
        assert forall|i: int| 0 <= i < entries@.len() implies cloned(
            map@[#[trigger] entries@[i].0],
            entries@[i].1,
        ) by {
            assert(map@[*pairs[i].0] == *pairs[i].1);
        }
    }
    entries
}

/// Builds the table that `entries` describe, putting them in one after the
/// other.
pub(crate) fn table_of<V>(entries: Vec<(u64, V)>) -> (map: HashMap<u64, V>)
    ensures
        map@ == keyed(entries@),
{
    let mut map: HashMap<u64, V> = HashMap::new();
    let ghost given = entries@;
    for entry in walk: entries
        invariant
            walk.seq() == given,
            map@ == keyed(given.take(walk.index())),
    {
        let ghost before = given.take(walk.index());
        let ghost after = given.take(walk.index() + 1);
        let (key, value) = entry;
        map.insert(key, value);
        proof {
            assert(after.drop_last() =~= before);
            assert(after.last() == (key, value));
        }
    }
    proof {
        assert(given.take(given.len() as int) =~= given);
    }
    map
}

} // verus!
