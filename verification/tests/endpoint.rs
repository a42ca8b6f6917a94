use std::sync::{Arc, Mutex};
use task_store::endpoint::{
    create_task, create_task_response, read_task, Response, SaveOutcome, Status,
};
use task_store::record::Task;
use task_store::store::Database;

fn task(id: u64, name: &str, completed: bool) -> Task {
    Task { id, name: name.to_string(), completed }
}

#[test]
fn create_then_read_scenario() {
    let mut db = Database::new();
    let to_save = create_task(&mut db, task(1, "buy milk", false));
    assert_eq!(to_save.tasks, vec![(1, task(1, "buy milk", false))]);
    assert!(to_save.users.is_empty());
    let created = create_task_response(SaveOutcome::Saved);
    assert_eq!(created.status.code(), 200);
    assert_eq!(created.body, None);

    let found = read_task(&db, 1);
    assert_eq!(found.status.code(), 200);
    assert_eq!(found.body, Some(task(1, "buy milk", false)));

    let missing = read_task(&db, 2);
    assert_eq!(missing.status.code(), 404);
    assert_eq!(missing.body, None);
}

#[test]
fn status_codes() {
    assert_eq!(Status::Success.code(), 200);
    assert_eq!(Status::NotFound.code(), 404);
}

#[test]
fn read_gives_the_latest_create() {
    let mut db = Database::new();
    create_task(&mut db, task(5, "draft", false));
    create_task(&mut db, task(6, "other", false));
    create_task(&mut db, task(5, "final", true));
    assert_eq!(
        read_task(&db, 5),
        Response { status: Status::Success, body: Some(task(5, "final", true)) }
    );
    assert_eq!(
        read_task(&db, 6),
        Response { status: Status::Success, body: Some(task(6, "other", false)) }
    );
}

#[test]
fn read_of_an_id_never_created_is_not_found() {
    let mut db = Database::new();
    assert_eq!(read_task(&db, 0), Response { status: Status::NotFound, body: None });
    create_task(&mut db, task(1, "a", false));
    create_task(&mut db, task(2, "b", false));
    assert_eq!(read_task(&db, 0), Response { status: Status::NotFound, body: None });
    assert_eq!(read_task(&db, 3), Response { status: Status::NotFound, body: None });
    assert_eq!(read_task(&db, u64::MAX), Response { status: Status::NotFound, body: None });
}

#[test]
fn read_leaves_the_store_as_it_is() {
    let mut db = Database::new();
    create_task(&mut db, task(1, "a", false));
    let first = read_task(&db, 1);
    let second = read_task(&db, 1);
    assert_eq!(first, second);
    assert_eq!(db.get_all().len(), 1);
}

#[test]
fn create_succeeds_when_saving_failed() {
    let mut db = Database::new();
    create_task(&mut db, task(1, "kept in memory", false));
    let response = create_task_response(SaveOutcome::Failed);
    assert_eq!(response, Response { status: Status::Success, body: None });
    assert_eq!(response, create_task_response(SaveOutcome::Saved));
    assert_eq!(read_task(&db, 1).body, Some(task(1, "kept in memory", false)));
}

#[test]
fn create_hands_back_the_whole_store() {
    let mut db = Database::new();
    create_task(&mut db, task(1, "a", false));
    create_task(&mut db, task(2, "b", true));
    let to_save = create_task(&mut db, task(1, "a again", true));
    let mut listed = to_save.tasks;
    listed.sort_by_key(|entry| entry.0);
    assert_eq!(listed, vec![(1, task(1, "a again", true)), (2, task(2, "b", true))]);
}

#[test]
fn creates_in_another_order_give_the_same_store() {
    let mut forward = Database::new();
    let mut backward = Database::new();
    for id in 1..=20u64 {
        create_task(&mut forward, task(id, &format!("t{}", id), id % 3 == 0));
    }
    for id in (1..=20u64).rev() {
        create_task(&mut backward, task(id, &format!("t{}", id), id % 3 == 0));
    }
    for id in 0..=21u64 {
        assert_eq!(read_task(&forward, id), read_task(&backward, id));
    }
}

#[test]
fn creates_behind_a_lock_are_all_kept() {
    let shared = Arc::new(Mutex::new(Database::new()));
    // 37 k mod 101, for k from 1 to 100, runs through 1..=100 in a scrambled order.
    for k in 1..=100u64 {
        let id = (k * 37) % 101;
        let holder = Arc::clone(&shared);
        let mut db = holder.lock().unwrap();
        create_task(&mut db, task(id, &format!("task {}", id), id % 2 == 1));
        let response = create_task_response(SaveOutcome::Saved);
        assert_eq!(response.status, Status::Success);
    }
    let db = shared.lock().unwrap();
    for id in 1..=100u64 {
        let response = read_task(&db, id);
        assert_eq!(response.status, Status::Success);
        assert_eq!(response.body, Some(task(id, &format!("task {}", id), id % 2 == 1)));
    }
    assert_eq!(read_task(&db, 0).status, Status::NotFound);
    assert_eq!(read_task(&db, 101).status, Status::NotFound);
    assert_eq!(db.get_all().len(), 100);
}
