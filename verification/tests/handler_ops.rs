use task_store::Database;
use task_store::Task;
use task_store::User;
use task_store::codec::load;
use task_store::handlers;

fn task(id: u32, name: &str, completed: bool) -> Task {
    Task { id, name: name.to_string(), completed }
}

fn user(id: u32, username: &str, password: &str) -> User {
    User { id, username: username.to_string(), password: password.to_string() }
}

#[test]
fn create_task_mutates_and_returns_the_persisted_text() {
    let mut db = Database::new();
    let persisted = handlers::create_task(&mut db, task(1, "buy milk", false));
    assert_eq!(
        persisted,
        "{\"tasks\":{\"1\":{\"id\":1,\"name\":\"buy milk\",\"completed\":false}},\"users\":{}}"
    );
    assert_eq!(db.get_task(1).unwrap().name, "buy milk");
}

#[test]
fn get_task_returns_the_record_as_json() {
    let mut db = Database::new();
    db.add_task(task(2, "walk", true));
    let body = handlers::get_task(&db, 2).expect("task 2 should be present");
    assert_eq!(body, "{\"id\":2,\"name\":\"walk\",\"completed\":true}");
}

#[test]
fn get_task_of_absent_id_is_absence() {
    let db = Database::new();
    assert!(handlers::get_task(&db, 2).is_none());
}

#[test]
fn get_tasks_returns_a_json_array() {
    let mut db = Database::new();
    assert_eq!(handlers::get_tasks(&db), "[]");
    db.add_task(task(1, "a", false));
    db.add_task(task(2, "b", true));
    let body = handlers::get_tasks(&db);
    assert!(body.starts_with('[') && body.ends_with(']'));
    assert!(body.contains("{\"id\":1,\"name\":\"a\",\"completed\":false}"));
    assert!(body.contains("{\"id\":2,\"name\":\"b\",\"completed\":true}"));
}

#[test]
fn update_task_upserts_and_persists() {
    let mut db = Database::new();
    handlers::create_task(&mut db, task(1, "old", false));
    let persisted = handlers::update_task(&mut db, task(1, "new", true));
    assert_eq!(
        persisted,
        "{\"tasks\":{\"1\":{\"id\":1,\"name\":\"new\",\"completed\":true}},\"users\":{}}"
    );
}

#[test]
fn delete_task_persists_the_removal() {
    let mut db = Database::new();
    handlers::create_task(&mut db, task(1, "gone", false));
    let persisted = handlers::delete_task(&mut db, 1);
    assert_eq!(persisted, "{\"tasks\":{},\"users\":{}}");
    assert!(db.get_task(1).is_none());
}

#[test]
fn user_handlers_mirror_task_handlers() {
    let mut db = Database::new();
    let persisted = handlers::create_user(&mut db, user(7, "a", "p"));
    assert_eq!(
        persisted,
        "{\"tasks\":{},\"users\":{\"7\":{\"id\":7,\"username\":\"a\",\"password\":\"p\"}}}"
    );
    let body = handlers::get_user(&db, 7).expect("user 7 should be present");
    assert_eq!(body, "{\"id\":7,\"username\":\"a\",\"password\":\"p\"}");
    assert!(handlers::get_user(&db, 8).is_none());
    assert_eq!(handlers::get_users(&db), "[{\"id\":7,\"username\":\"a\",\"password\":\"p\"}]");
    handlers::update_user(&mut db, user(7, "b", "q"));
    assert_eq!(db.get_user(7).unwrap().username, "b");
    let persisted = handlers::delete_user(&mut db, 7);
    assert_eq!(persisted, "{\"tasks\":{},\"users\":{}}");
}

#[test]
fn two_serialized_mutations_for_different_ids_both_persist() {
    // Two requests arrive together; the lock serializes them in some order.
    // Whatever the order, the persisted text after the second holds both
    // records, and neither write is lost.
    for order in 0..2 {
        let mut db = Database::new();
        let first = task(1, "from request one", false);
        let second = task(2, "from request two", true);
        let last_persisted = if order == 0 {
            handlers::create_task(&mut db, first.clone());
            handlers::create_task(&mut db, second.clone())
        } else {
            handlers::create_task(&mut db, second.clone());
            handlers::create_task(&mut db, first.clone())
        };
        let listed = db.get_tasks();
        assert_eq!(listed.len(), 2);
        let reloaded = load(&last_persisted).expect("persisted text should load");
        assert_eq!(reloaded.get_task(1).unwrap().name, "from request one");
        assert_eq!(reloaded.get_task(2).unwrap().name, "from request two");
    }
}
