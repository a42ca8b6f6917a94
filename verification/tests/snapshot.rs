use task_store::endpoint::{create_task, read_task, Status};
use task_store::record::{Task, User};
use task_store::snapshot::Snapshot;
use task_store::store::Database;

fn task(id: u64, name: &str, completed: bool) -> Task {
    Task { id, name: name.to_string(), completed }
}

fn user(id: u64, username: &str, password: &str) -> User {
    User { id, username: username.to_string(), password: password.to_string() }
}

#[test]
fn snapshot_of_an_empty_store_is_empty() {
    let snapshot = Database::new().snapshot();
    assert!(snapshot.tasks.is_empty());
    assert!(snapshot.users.is_empty());
}

#[test]
fn snapshot_lists_each_record_under_its_key() {
    let mut db = Database::new();
    db.insert(task(2, "two", true));
    db.insert(task(1, "one", false));
    db.insert_user(user(8, "ann", "pw"));
    let mut snapshot = db.snapshot();
    snapshot.tasks.sort_by_key(|entry| entry.0);
    assert_eq!(snapshot.tasks, vec![(1, task(1, "one", false)), (2, task(2, "two", true))]);
    assert_eq!(snapshot.users, vec![(8, user(8, "ann", "pw"))]);
    assert_eq!(db.get(&1), Some(&task(1, "one", false)));
}

#[test]
fn restored_store_reads_like_the_one_saved() {
    let mut db = Database::new();
    let mut last = db.snapshot();
    for id in 1..=30u64 {
        last = create_task(&mut db, task(id, &format!("task {}", id), id % 2 == 0));
    }
    let restored = Database::restore(last);
    for id in 1..=30u64 {
        let response = read_task(&restored, id);
        assert_eq!(response.status, Status::Success);
        assert_eq!(response.body, Some(task(id, &format!("task {}", id), id % 2 == 0)));
        assert_eq!(response, read_task(&db, id));
    }
    assert_eq!(read_task(&restored, 0).status, Status::NotFound);
    assert_eq!(read_task(&restored, 31).status, Status::NotFound);
    assert_eq!(restored.get_all().len(), 30);
}

#[test]
fn restore_keeps_users() {
    let mut db = Database::new();
    db.insert_user(user(1, "ann", "secret"));
    db.insert(task(1, "t", false));
    let restored = Database::restore(db.snapshot());
    assert_eq!(restored.get_user_by_name("ann"), Some(&user(1, "ann", "secret")));
    assert_eq!(restored.get(&1), Some(&task(1, "t", false)));
}

#[test]
fn restore_keeps_the_later_of_two_entries_with_one_key() {
    let snapshot = Snapshot {
        tasks: vec![
            (1, task(1, "early", false)),
            (2, task(2, "b", false)),
            (1, task(1, "late", true)),
        ],
        users: vec![(4, user(4, "old", "x")), (4, user(4, "new", "y"))],
    };
    let db = Database::restore(snapshot);
    assert_eq!(db.get(&1), Some(&task(1, "late", true)));
    assert_eq!(db.get(&2), Some(&task(2, "b", false)));
    assert_eq!(db.get_all().len(), 2);
    assert_eq!(db.get_user_by_name("old"), None);
    assert_eq!(db.get_user_by_name("new"), Some(&user(4, "new", "y")));
}

#[test]
fn restore_keeps_a_record_under_the_key_it_was_saved_under() {
    let snapshot = Snapshot { tasks: vec![(5, task(7, "odd", false))], users: vec![] };
    let db = Database::restore(snapshot);
    assert_eq!(db.get(&5), Some(&task(7, "odd", false)));
    assert_eq!(db.get(&7), None);
}

#[test]
fn recover_without_a_snapshot_starts_empty() {
    let db = Database::recover(None);
    assert!(db.get_all().is_empty());
    assert_eq!(read_task(&db, 1).status, Status::NotFound);
    assert!(db.get_user_by_name("ann").is_none());
}

#[test]
fn recover_with_a_snapshot_restores_it() {
    let snapshot = Snapshot {
        tasks: vec![(1, task(1, "buy milk", false))],
        users: vec![(2, user(2, "ann", "pw"))],
    };
    let db = Database::recover(Some(snapshot));
    assert_eq!(db.get(&1), Some(&task(1, "buy milk", false)));
    assert_eq!(db.get_user_by_name("ann"), Some(&user(2, "ann", "pw")));
    assert_eq!(db.get_all().len(), 1);
}
