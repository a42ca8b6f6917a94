//! What the two endpoints decide: how a request changes the store, what is
//! to be written out, and what is answered.
//!
//! Nothing here reads a request or sends an answer. The caller holds the
//! store, hands over what the request carried, writes out the snapshot it is
//! given, and sends the response it is given.

use crate::record::{Task, TaskView};
use crate::snapshot::{Snapshot, SnapshotView};
use crate::store::{Database, DatabaseView};
use vstd::prelude::*;

verus! {

/// The status of a response.
#[derive(Debug, Clone, Copy, PartialEq, Eq, Structural)]
pub enum Status {
    Success,
    NotFound,
}

impl Status {
    /// The number that stands for the status on the wire.
    pub open spec fn code_of(self) -> u16 {
        match self {
            Status::Success => 200,
            Status::NotFound => 404,
        }
    }

    /// The number that stands for the status on the wire.
    #[verifier::when_used_as_spec(code_of)]
    pub fn code(self) -> (code: u16)
        ensures
            code == self.code_of(),
    {
        match self {
            Status::Success => 200,
            Status::NotFound => 404,
        }
    }
}

/// A response as a mathematical value.
pub struct ResponseView {
    pub status: Status,
    pub body: Option<TaskView>,
}

impl ResponseView {
    /// Success, with nothing in the body.
    pub open spec fn done() -> ResponseView {
        ResponseView { status: Status::Success, body: None }
    }

    /// Success, with `task` in the body.
    pub open spec fn found(task: TaskView) -> ResponseView {
        ResponseView { status: Status::Success, body: Some(task) }
    }

    /// Nothing is kept under the id that was asked for; the body is empty.
    pub open spec fn not_found() -> ResponseView {
        ResponseView { status: Status::NotFound, body: None }
    }

    /// What reading `id` in `db` is answered with.
    pub open spec fn read(db: DatabaseView, id: u64) -> ResponseView {
        match db.task(id) {
            Some(task) => ResponseView::found(task),
            None => ResponseView::not_found(),
        }
    }
}

/// What is answered to a request: a status, and the task to send as the
/// body where there is one.
#[derive(Debug, PartialEq, Eq)]
pub struct Response {
    pub status: Status,
    pub body: Option<Task>,
}

impl View for Response {
    type V = ResponseView;

    open spec fn view(&self) -> ResponseView {
        ResponseView {
            status: self.status,
            body: match self.body {
                Some(task) => Some(task@),
                None => None,
            },
        }
    }
}

/// How the attempt to write a snapshot out ended.
#[derive(Debug, Clone, Copy, PartialEq, Eq, Structural)]
pub enum SaveOutcome {
    Saved,
    Failed,
}

/// Applies a create request: `task` is put into the store under its id,
/// replacing a task already kept there. The snapshot that is handed back
/// describes the store as it now is, and is what the caller is to write out
/// before it answers with [`create_task_response`].
pub fn create_task(db: &mut Database, task: Task) -> (to_save: Snapshot)
    ensures
        final(db)@ == old(db)@.with_task(task@),
        to_save@.store() == final(db)@,
        to_save@.distinct(),
{
    db.insert(task);
    db.snapshot()
}

/// The answer to a create request, once the attempt to write the snapshot
/// out has ended. The task is in the store by then, and the answer is
/// success with an empty body whether or not the snapshot was written.
pub fn create_task_response(outcome: SaveOutcome) -> (response: Response)
    ensures
        response@ == ResponseView::done(),
{
    match outcome {
        SaveOutcome::Saved | SaveOutcome::Failed => Response {
            status: Status::Success,
            body: None,
        },
    }
}

/// Answers a read request: the task kept under `id` with success, or
/// "not found" with an empty body. The store is left as it is.
pub fn read_task(db: &Database, id: u64) -> (response: Response)
    ensures
        response@ == ResponseView::read(db@, id),
{
    match db.get(&id) {
        Some(task) => Response { status: Status::Success, body: Some(task.clone()) },
        None => Response { status: Status::NotFound, body: None },
    }
}

/// The store after each of `tasks` was created in turn, starting from `db`.
pub open spec fn after_creates(db: DatabaseView, tasks: Seq<TaskView>) -> DatabaseView
    decreases tasks.len(),
{
    if tasks.len() == 0 {
        db
    } else {
        after_creates(db, tasks.drop_last()).with_task(tasks.last())
    }
}

/// Whether no two of `tasks` have one id.
pub open spec fn distinct_ids(tasks: Seq<TaskView>) -> bool {
    forall|i: int, j: int|
        0 <= i < tasks.len() && 0 <= j < tasks.len() && i != j ==> tasks[i].id != tasks[j].id
}

/// Reading the id of a task that was just created gives that task, every
/// field as it was handed in, whatever was kept under the id before. Reading
/// any other id gives what it gave before.
pub proof fn lemma_read_after_create(db: DatabaseView, task: TaskView)
    ensures
        ResponseView::read(db.with_task(task), task.id) == ResponseView::found(task),
        forall|id: u64|
            id != task.id ==> ResponseView::read(db.with_task(task), id) == ResponseView::read(
                db,
                id,
            ),
{
}

/// Creates leave the accounts as they are.
pub proof fn lemma_creates_keep_users(db: DatabaseView, tasks: Seq<TaskView>)
    ensures
        after_creates(db, tasks).users == db.users,
    decreases tasks.len(),
{
    if tasks.len() > 0 {
        lemma_creates_keep_users(db, tasks.drop_last());
    }
}

/// Creates change no more than the tasks under the ids they name: what is
/// kept under any other id stays.
pub proof fn lemma_creates_leave_the_rest(db: DatabaseView, tasks: Seq<TaskView>, id: u64)
    requires
        forall|i: int| 0 <= i < tasks.len() ==> #[trigger] tasks[i].id != id,
    ensures
        after_creates(db, tasks).task(id) == db.task(id),
    decreases tasks.len(),
{
    if tasks.len() > 0 {
        let front = tasks.drop_last();
        assert(tasks[tasks.len() - 1].id != id);
        assert forall|i: int| 0 <= i < front.len() implies #[trigger] front[i].id != id by {
            assert(tasks[i].id != id);
        }
        lemma_creates_leave_the_rest(db, front, id);
    }
}

/// After any number of creates, reading an id gives the task of the last
/// create that named it: the whole task, as that create handed it in.
pub proof fn lemma_read_latest_create(db: DatabaseView, tasks: Seq<TaskView>, i: int)
    requires
        0 <= i < tasks.len(),
        forall|j: int| i < j < tasks.len() ==> #[trigger] tasks[j].id != tasks[i].id,
    ensures
        ResponseView::read(after_creates(db, tasks), tasks[i].id) == ResponseView::found(tasks[i]),
    decreases tasks.len(),
{
    if i < tasks.len() - 1 {
        let front = tasks.drop_last();
        assert(tasks[tasks.len() - 1].id != tasks[i].id);
        assert forall|j: int| i < j < front.len() implies #[trigger] front[j].id
            != front[i].id by {
            assert(tasks[j].id != tasks[i].id);
        }
        lemma_read_latest_create(db, front, i);
    }
}

/// Reading an id that no create has named gives what it gave before the
/// creates; in a store that started out holding nothing, that is "not found".
pub proof fn lemma_read_never_created(db: DatabaseView, tasks: Seq<TaskView>, id: u64)
    requires
        forall|i: int| 0 <= i < tasks.len() ==> #[trigger] tasks[i].id != id,
    ensures
        ResponseView::read(after_creates(db, tasks), id) == ResponseView::read(db, id),
        ResponseView::read(after_creates(DatabaseView::empty(), tasks), id)
            == ResponseView::not_found(),
{
    lemma_creates_leave_the_rest(db, tasks, id);
    lemma_creates_leave_the_rest(DatabaseView::empty(), tasks, id);
}

/// Creates with distinct ids lose nothing: after all of them, in whatever
/// order they were let in, reading the id of each gives that task.
pub proof fn lemma_distinct_creates_all_kept(db: DatabaseView, tasks: Seq<TaskView>)
    requires
        distinct_ids(tasks),
    ensures
        forall|i: int|
            0 <= i < tasks.len() ==> ResponseView::read(
                after_creates(db, tasks),
                #[trigger] tasks[i].id,
            ) == ResponseView::found(tasks[i]),
{
    assert forall|i: int| 0 <= i < tasks.len() implies ResponseView::read(
        after_creates(db, tasks),
        #[trigger] tasks[i].id,
    ) == ResponseView::found(tasks[i]) by {
        lemma_read_latest_create(db, tasks, i);
    }
}

/// The order in which creates with distinct ids are let in does not show in
/// the store: two runs of the same creates end in the same store.
pub proof fn lemma_distinct_creates_in_any_order(
    db: DatabaseView,
    first: Seq<TaskView>,
    second: Seq<TaskView>,
)
    requires
        distinct_ids(first),
        distinct_ids(second),
        forall|task: TaskView| first.contains(task) <==> second.contains(task),
    ensures
        after_creates(db, first) == after_creates(db, second),
{
    let one = after_creates(db, first);
    let other = after_creates(db, second);
    lemma_distinct_creates_all_kept(db, first);
    lemma_distinct_creates_all_kept(db, second);
    assert forall|id: u64| one.task(id) == other.task(id) by {
        if exists|i: int| 0 <= i < first.len() && #[trigger] first[i].id == id {
            let i = choose|i: int| 0 <= i < first.len() && #[trigger] first[i].id == id;
            assert(first.contains(first[i]));
            assert(second.contains(first[i]));
            let j = choose|j: int| 0 <= j < second.len() && second[j] == first[i];
            assert(ResponseView::read(one, first[i].id) == ResponseView::found(first[i]));
            assert(ResponseView::read(other, second[j].id) == ResponseView::found(second[j]));
        } else {
            assert forall|j: int| 0 <= j < second.len() implies #[trigger] second[j].id
                != id by {
                assert(second.contains(second[j]));
                assert(first.contains(second[j]));
                let i = choose|i: int| 0 <= i < first.len() && first[i] == second[j];
                assert(first[i].id != id);
            }
            lemma_creates_leave_the_rest(db, first, id);
            lemma_creates_leave_the_rest(db, second, id);
        }
    }
    assert forall|id: u64| one.tasks.contains_key(id) == other.tasks.contains_key(id) by {
        assert(one.task(id) == other.task(id));
    }
    assert forall|id: u64| one.tasks.contains_key(id) implies one.tasks[id]
        == other.tasks[id] by {
        assert(one.task(id) == other.task(id));
    }
    assert(one.tasks =~= other.tasks);
    lemma_creates_keep_users(db, first);
    lemma_creates_keep_users(db, second);
}

/// What was created is still there after a restart. Take a store that
/// started out holding nothing and saw creates with distinct ids; take the
/// snapshot handed out by the last of them, and the store restored from it.
/// Reading the id of each task in the restored store gives that task, and
/// reading any id gives what it gave before the restart.
pub proof fn lemma_creates_survive_restart(
    tasks: Seq<TaskView>,
    saved: SnapshotView,
    restored: DatabaseView,
)
    requires
        distinct_ids(tasks),
        saved.store() == after_creates(DatabaseView::empty(), tasks),
        restored == saved.store(),
    ensures
        forall|i: int|
            0 <= i < tasks.len() ==> ResponseView::read(restored, #[trigger] tasks[i].id)
                == ResponseView::found(tasks[i]),
        forall|id: u64|
            ResponseView::read(restored, id) == ResponseView::read(
                after_creates(DatabaseView::empty(), tasks),
                id,
            ),
{
    lemma_distinct_creates_all_kept(DatabaseView::empty(), tasks);
}

} // verus!
