use task_store::Database;
use task_store::Task;
use task_store::User;

fn task(id: u32, name: &str, completed: bool) -> Task {
    Task { id, name: name.to_string(), completed }
}

fn user(id: u32, username: &str, password: &str) -> User {
    User { id, username: username.to_string(), password: password.to_string() }
}

#[test]
fn new_store_is_empty() {
    let db = Database::new();
    assert_eq!(db.get_tasks().len(), 0);
    assert_eq!(db.get_users().len(), 0);
    assert!(db.get_task(1).is_none());
    assert!(db.get_user(1).is_none());
}

#[test]
fn get_after_add_returns_the_record() {
    let mut db = Database::new();
    db.add_task(task(3, "water the plants", false));
    let got = db.get_task(3).expect("task 3 should be present");
    assert_eq!(got.id, 3);
    assert_eq!(got.name, "water the plants");
    assert!(!got.completed);
}

#[test]
fn get_after_add_stays_until_that_id_changes() {
    let mut db = Database::new();
    db.add_task(task(1, "first", false));
    db.add_task(task(2, "second", true));
    db.delete_task(2);
    db.update_task(task(9, "ninth", false));
    let got = db.get_task(1).expect("task 1 should be present");
    assert_eq!(got.name, "first");
    assert!(!got.completed);
}

#[test]
fn add_overwrites_on_same_id() {
    let mut db = Database::new();
    db.add_task(task(5, "old", false));
    db.add_task(task(5, "new", true));
    let got = db.get_task(5).expect("task 5 should be present");
    assert_eq!(got.name, "new");
    assert!(got.completed);
    assert_eq!(db.get_tasks().len(), 1);
}

#[test]
fn delete_then_get_is_absent() {
    let mut db = Database::new();
    db.add_task(task(4, "gone soon", false));
    db.delete_task(4);
    assert!(db.get_task(4).is_none());
}

#[test]
fn delete_of_never_inserted_id_is_a_noop() {
    let mut db = Database::new();
    db.add_task(task(1, "stays", false));
    db.delete_task(42);
    assert!(db.get_task(42).is_none());
    assert_eq!(db.get_tasks().len(), 1);
}

#[test]
fn update_of_absent_id_creates_like_add() {
    let mut db = Database::new();
    db.update_task(task(7, "made by update", true));
    let got = db.get_task(7).expect("task 7 should be present");
    assert_eq!(got.name, "made by update");
    assert!(got.completed);

    let mut db2 = Database::new();
    db2.add_task(task(7, "made by update", true));
    let got2 = db2.get_task(7).expect("task 7 should be present");
    assert_eq!(got.id, got2.id);
    assert_eq!(got.name, got2.name);
    assert_eq!(got.completed, got2.completed);
}

#[test]
fn list_after_distinct_upserts_has_each_last_value() {
    let mut db = Database::new();
    db.add_task(task(1, "a", false));
    db.update_task(task(2, "b", true));
    db.add_task(task(3, "c", false));
    let listed = db.get_tasks();
    assert_eq!(listed.len(), 3);
    let mut seen = [false; 4];
    for t in &listed {
        seen[t.id as usize] = true;
        match t.id {
            1 => assert_eq!(t.name, "a"),
            2 => {
                assert_eq!(t.name, "b");
                assert!(t.completed);
            },
            3 => assert_eq!(t.name, "c"),
            _ => panic!("unexpected id {}", t.id),
        }
    }
    assert!(seen[1] && seen[2] && seen[3]);
}

#[test]
fn last_write_wins_for_users() {
    let mut db = Database::new();
    db.add_user(user(7, "a", "p"));
    db.add_user(user(7, "b", "q"));
    let got = db.get_user(7).expect("user 7 should be present");
    assert_eq!(got.username, "b");
    assert_eq!(got.password, "q");
    assert_eq!(db.get_users().len(), 1);
}

#[test]
fn task_and_user_collections_are_independent() {
    let mut db = Database::new();
    db.add_task(task(1, "a task", false));
    db.add_user(user(1, "a user", "pw"));
    db.delete_task(1);
    assert!(db.get_task(1).is_none());
    let still = db.get_user(1).expect("user 1 should survive task delete");
    assert_eq!(still.username, "a user");
}
