//! The record store: tasks and user accounts, each kept under an integer key.

use crate::record::{Task, TaskView, User, UserView};
use crate::snapshot::{entries_of, lemma_keyed_exact, lemma_keyed_map_values, table_of, Snapshot};
use crate::text::text_equal;
use std::collections::HashMap;
use vstd::prelude::*;
use vstd::std_specs::iter::IteratorSpec;

verus! {

/// The store as a mathematical value: two finite maps from key to record.
#[verifier::ext_equal]
pub struct DatabaseView {
    pub tasks: Map<u64, TaskView>,
    pub users: Map<u64, UserView>,
}

impl DatabaseView {
    /// The store that holds nothing.
    pub open spec fn empty() -> DatabaseView {
        DatabaseView { tasks: Map::empty(), users: Map::empty() }
    }

    /// The task kept under `id`, if there is one.
    pub open spec fn task(self, id: u64) -> Option<TaskView> {
        if self.tasks.contains_key(id) {
            Some(self.tasks[id])
        } else {
            None
        }
    }

    /// The store after `task` was put under its own id, replacing whatever
    /// was there.
    pub open spec fn with_task(self, task: TaskView) -> DatabaseView {
        DatabaseView { tasks: self.tasks.insert(task.id, task), users: self.users }
    }

    /// The store after the task under `id`, if any, was taken out.
    pub open spec fn without_task(self, id: u64) -> DatabaseView {
        DatabaseView { tasks: self.tasks.remove(id), users: self.users }
    }

    /// The store after `user` was put under its own id, replacing whatever
    /// was there.
    pub open spec fn with_user(self, user: UserView) -> DatabaseView {
        DatabaseView { tasks: self.tasks, users: self.users.insert(user.id, user) }
    }

    /// Whether every record is kept under the id that it carries.
    pub open spec fn keyed_by_id(self) -> bool {
        &&& forall|key: u64| #[trigger] self.tasks.contains_key(key) ==> self.tasks[key].id == key
        &&& forall|key: u64| #[trigger] self.users.contains_key(key) ==> self.users[key].id == key
    }

    /// Whether `task` is one of the stored tasks.
    pub open spec fn holds_task(self, task: TaskView) -> bool {
        exists|key: u64| #[trigger] self.tasks.contains_key(key) && self.tasks[key] == task
    }

    /// Whether `listed` gives the tasks kept under `keys`, position by
    /// position, and `keys` names every key of the store exactly once.
    pub open spec fn lists_tasks_by(self, keys: Seq<u64>, listed: Seq<TaskView>) -> bool {
        &&& keys.len() == listed.len()
        &&& keys.no_duplicates()
        &&& forall|key: u64| keys.contains(key) <==> self.tasks.contains_key(key)
        &&& forall|i: int| 0 <= i < keys.len() ==> listed[i] == self.tasks[#[trigger] keys[i]]
    }

    /// Whether `listed` holds every stored task exactly once, in some order.
    pub open spec fn lists_tasks(self, listed: Seq<TaskView>) -> bool {
        exists|keys: Seq<u64>| #[trigger] self.lists_tasks_by(keys, listed)
    }

    /// Whether `user` is one of the stored accounts.
    pub open spec fn holds_user(self, user: UserView) -> bool {
        exists|key: u64| #[trigger] self.users.contains_key(key) && self.users[key] == user
    }

    /// Whether some stored account goes by `username`.
    pub open spec fn has_user_named(self, username: Seq<char>) -> bool {
        exists|key: u64| #[trigger]
            self.users.contains_key(key) && self.users[key].username == username
    }
}

/// A listing of the tasks misses none and makes none up: each stored task
/// stands in it, each task in it is stored, and it is as long as the store
/// has tasks.
pub proof fn lemma_listing_is_exact(db: DatabaseView, listed: Seq<TaskView>)
    requires
        db.lists_tasks(listed),
    ensures
        forall|key: u64| #[trigger] db.tasks.contains_key(key) ==> listed.contains(db.tasks[key]),
        forall|i: int| 0 <= i < listed.len() ==> db.holds_task(#[trigger] listed[i]),
        db.tasks.dom().finite(),
        listed.len() == db.tasks.len(),
{
    let keys = choose|keys: Seq<u64>| #[trigger] db.lists_tasks_by(keys, listed);
    assert forall|key: u64| #[trigger] db.tasks.contains_key(key) implies listed.contains(
        db.tasks[key],
    ) by {
        assert(keys.contains(key));
        let i = choose|i: int| 0 <= i < keys.len() && keys[i] == key;
        assert(listed[i] == db.tasks[keys[i]]);
    }
    assert forall|i: int| 0 <= i < listed.len() implies db.holds_task(#[trigger] listed[i]) by {
        assert(keys.contains(keys[i]));
        assert(db.tasks.contains_key(keys[i]) && db.tasks[keys[i]] == listed[i]);
    }
    assert(keys.to_set() =~= db.tasks.dom());
    keys.unique_seq_to_set();
}

/// Taking out what is not there changes nothing.
pub proof fn lemma_delete_absent_changes_nothing(db: DatabaseView, id: u64)
    requires
        db.task(id) is None,
    ensures
        db.without_task(id) == db,
{
    assert(db.without_task(id).tasks =~= db.tasks);
}

/// Once a task is taken out, it is not found; every other task stays.
pub proof fn lemma_delete_takes_one_out(db: DatabaseView, id: u64)
    ensures
        db.without_task(id).task(id) is None,
        forall|other: u64| other != id ==> db.without_task(id).task(other) == db.task(other),
{
}

/// No operation of the store puts a record under an id other than its own:
/// a store that started out holding nothing keeps every record under the id
/// that the record carries.
pub proof fn lemma_keyed_by_id_is_kept(db: DatabaseView, task: TaskView, user: UserView, id: u64)
    requires
        db.keyed_by_id(),
    ensures
        DatabaseView::empty().keyed_by_id(),
        db.with_task(task).keyed_by_id(),
        db.without_task(id).keyed_by_id(),
        db.with_user(user).keyed_by_id(),
{
}

/// The in-memory record store.
pub struct Database {
    tasks: HashMap<u64, Task>,
    users: HashMap<u64, User>,
}

impl View for Database {
    type V = DatabaseView;

    closed spec fn view(&self) -> DatabaseView {
        DatabaseView {
            tasks: self.tasks@.map_values(|task: Task| task@),
            users: self.users@.map_values(|user: User| user@),
        }
    }
}

impl Database {
    /// A store holds finitely many records.
    pub proof fn lemma_holds_finitely_many(self)
        ensures
            self@.tasks.dom().finite(),
            self@.users.dom().finite(),
    {
        assert(self@.tasks.dom() =~= self.tasks@.dom());
        assert(self@.users.dom() =~= self.users@.dom());
    }

    /// A store that holds nothing.
    pub fn new() -> (db: Self)
        ensures
            db@ == DatabaseView::empty(),
    {
        let db = Self { tasks: HashMap::new(), users: HashMap::new() };
        assert(db@ =~= DatabaseView::empty());
        db
    }

    /// Puts `task` under its id. A task already kept under that id is
    /// replaced as a whole; no field of `task` is inspected.
    pub fn insert(&mut self, task: Task)
        ensures
            final(self)@ == old(self)@.with_task(task@),
    {
        self.tasks.insert(task.id, task);
        assert(self@ =~= old(self)@.with_task(task@));
    }

    /// Looks up the task kept under `id`. The store is left as it is.
    pub fn get(&self, id: &u64) -> (found: Option<&Task>)
        ensures
            match found {
                Some(task) => self@.task(*id) == Some(task@),
                None => self@.task(*id) is None,
            },
    {
        self.tasks.get(id)
    }

    /// Every stored task, each exactly once. The order is that in which the
    /// underlying table happens to be walked, and nothing is promised of it.
    pub fn get_all(&self) -> (all: Vec<&Task>)
        ensures
            self@.lists_tasks(all@.map_values(|task: &Task| task@)),
            all@.len() == self@.tasks.len(),
    {
        let mut all: Vec<&Task> = Vec::new();
        let ghost mut keys: Seq<u64> = Seq::empty();
        let entries = self.tasks.iter();
        let ghost pairs = entries.remaining();
        for entry in walk: entries
            invariant
                walk.seq() == pairs,
                all@.len() == walk.index(),
                keys.len() == walk.index(),
                forall|i: int|
                    0 <= i < walk.index() ==> keys[i] == *pairs[i].0 && *all@[i] == *pairs[i].1,
        {
            let (key, task) = entry;
            all.push(task);
            proof {
                keys = keys.push(*key);
            }
        }
        proof {
            let listed = all@.map_values(|task: &Task| task@);
            assert(self@.tasks.dom() =~= self.tasks@.dom());
            assert forall|i: int, j: int|
                0 <= i < keys.len() && 0 <= j < keys.len() && keys[i] == keys[j] implies i
                == j by {
                assert(self.tasks@[*pairs[i].0] == *pairs[i].1);
                assert(self.tasks@[*pairs[j].0] == *pairs[j].1);
                assert(pairs[i] == pairs[j]);
            }
            assert forall|key: u64| self@.tasks.contains_key(key) implies keys.contains(key) by {
                assert(pairs.contains((&key, &self.tasks@[key])));
                let i = choose|i: int|
                    0 <= i < pairs.len() && pairs[i] == (&key, &self.tasks@[key]);
                assert(keys[i] == key);
            }
            assert forall|key: u64| keys.contains(key) implies self@.tasks.contains_key(key) by {
                let i = choose|i: int| 0 <= i < keys.len() && keys[i] == key;
                assert(self.tasks@.contains_key(*pairs[i].0));
            }
            assert forall|i: int| 0 <= i < keys.len() implies listed[i]
                == self@.tasks[#[trigger] keys[i]] by {
                assert(self.tasks@[*pairs[i].0] == *pairs[i].1);
            }
            assert(self@.lists_tasks_by(keys, listed));
        }
        all
    }

    /// Takes out the task kept under `id`. Where there is none the store is
    /// left as it is, and that is no error.
    pub fn delete(&mut self, id: &u64)
        ensures
            final(self)@ == old(self)@.without_task(*id),
    {
        self.tasks.remove(id);
        assert(self@ =~= old(self)@.without_task(*id));
    }

    /// Same as [`Database::insert`]: the task need not be there already.
    pub fn update(&mut self, task: Task)
        ensures
            final(self)@ == old(self)@.with_task(task@),
    {
        self.tasks.insert(task.id, task);
        assert(self@ =~= old(self)@.with_task(task@));
    }

    /// Puts `user` under its id, replacing an account already kept there.
    pub fn insert_user(&mut self, user: User)
        ensures
            final(self)@ == old(self)@.with_user(user@),
    {
        self.users.insert(user.id, user);
        assert(self@ =~= old(self)@.with_user(user@));
    }

    /// Looks for an account that goes by `username`, comparing the whole
    /// name character by character. Every account is looked at in turn; where
    /// several go by that name, any one of them may be the one returned.
    pub fn get_user_by_name(&self, username: &str) -> (found: Option<&User>)
        ensures
            match found {
                Some(user) => self@.holds_user(user@) && user@.username == username@,
                None => !self@.has_user_named(username@),
            },
    {
        let accounts = self.users.values();
        let ghost listed = accounts.remaining();
        for user in walk: accounts
            invariant
                walk.seq() == listed,
                listed.unref().to_set() == self.users@.values(),
                forall|i: int| 0 <= i < walk.index() ==> listed[i].username@ != username@,
        {
            if text_equal(user.username.as_str(), username) {
                proof {
                    let at = walk.index();
                    assert(listed.unref()[at] == *user);
                    assert(listed.unref().to_set().contains(*user));
                    assert(self.users@.values().contains(*user));
                    let key = choose|key: u64| #[trigger]
                        self.users@.contains_key(key) && self.users@[key] == *user;
                    assert(self@.users.contains_key(key) && self@.users[key] == user@);
                }
                return Some(user);
            }
        }
        proof {
            assert forall|key: u64| #[trigger]
                self@.users.contains_key(key) implies self@.users[key].username
                != username@ by {
                let stored = self.users@[key];
                assert(self.users@.values().contains(stored));
                assert(listed.unref().to_set().contains(stored));
                let at = choose|at: int|
                    0 <= at < listed.unref().len() && listed.unref()[at] == stored;
                assert(*listed[at] == stored);
            }
        }
        None
    }
}

impl Database {
    /// Everything the store holds, as plain entries: each key once, with a
    /// copy of the record kept under it. The store is left as it is.
    pub fn snapshot(&self) -> (snapshot: Snapshot)
        ensures
            snapshot@.store() == self@,
            snapshot@.distinct(),
    {
        let tasks = entries_of(&self.tasks);
        let users = entries_of(&self.users);
        let snapshot = Snapshot { tasks, users };
        proof {
            lemma_keyed_exact(snapshot.tasks@, self.tasks@);
            lemma_keyed_exact(snapshot.users@, self.users@);
            lemma_keyed_map_values(snapshot.tasks@, |task: Task| task@);
            lemma_keyed_map_values(snapshot.users@, |user: User| user@);
            assert(snapshot@.tasks =~= snapshot.tasks@.map_values(
                |entry: (u64, Task)| (entry.0, (|task: Task| task@)(entry.1)),
            ));
            assert(snapshot@.users =~= snapshot.users@.map_values(
                |entry: (u64, User)| (entry.0, (|user: User| user@)(entry.1)),
            ));
            assert(snapshot@.store() =~= self@);
        }
        snapshot
    }

    /// The store that `snapshot` describes: its entries are put in one after
    /// the other, each under the key it names, so that of two entries with
    /// one key the later stays.
    pub fn restore(snapshot: Snapshot) -> (db: Self)
        ensures
            db@ == snapshot@.store(),
    {
        let ghost given = snapshot;
        let Snapshot { tasks, users } = snapshot;
        let db = Self { tasks: table_of(tasks), users: table_of(users) };
        proof {
            lemma_keyed_map_values(given.tasks@, |task: Task| task@);
            lemma_keyed_map_values(given.users@, |user: User| user@);
            assert(given@.tasks =~= given.tasks@.map_values(
                |entry: (u64, Task)| (entry.0, (|task: Task| task@)(entry.1)),
            ));
            assert(given@.users =~= given.users@.map_values(
                |entry: (u64, User)| (entry.0, (|user: User| user@)(entry.1)),
            ));
            assert(db@ =~= given@.store());
        }
        db
    }

    /// The store to start from, given what could be loaded of an earlier
    /// snapshot: the store it describes, or, where nothing could be loaded,
    /// a store that holds nothing.
    pub fn recover(loaded: Option<Snapshot>) -> (db: Self)
        ensures
            db@ == match loaded {
                Some(snapshot) => snapshot@.store(),
                None => DatabaseView::empty(),
            },
    {
        match loaded {
            Some(snapshot) => Self::restore(snapshot),
            None => Self::new(),
        }
    }
}

} // verus!
