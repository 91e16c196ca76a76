use task_store::Database;
use task_store::Task;
use task_store::User;
use task_store::codec::load;
use task_store::codec::save;

fn task(id: u32, name: &str, completed: bool) -> Task {
    Task { id, name: name.to_string(), completed }
}

fn user(id: u32, username: &str, password: &str) -> User {
    User { id, username: username.to_string(), password: password.to_string() }
}

#[test]
fn empty_store_saves_to_the_expected_text() {
    let db = Database::new();
    assert_eq!(save(&db), "{\"tasks\":{},\"users\":{}}");
}

#[test]
fn one_task_saves_to_the_expected_text() {
    let mut db = Database::new();
    db.add_task(task(1, "buy milk", false));
    assert_eq!(
        save(&db),
        "{\"tasks\":{\"1\":{\"id\":1,\"name\":\"buy milk\",\"completed\":false}},\"users\":{}}"
    );
}

#[test]
fn one_user_saves_to_the_expected_text() {
    let mut db = Database::new();
    db.add_user(user(7, "a", "p"));
    assert_eq!(
        save(&db),
        "{\"tasks\":{},\"users\":{\"7\":{\"id\":7,\"username\":\"a\",\"password\":\"p\"}}}"
    );
}

#[test]
fn save_then_load_restores_one_task() {
    let mut db = Database::new();
    db.add_task(task(1, "buy milk", false));
    let text = save(&db);
    let loaded = load(&text).expect("saved text should load");
    let got = loaded.get_task(1).expect("task 1 should be present after load");
    assert_eq!(got.id, 1);
    assert_eq!(got.name, "buy milk");
    assert!(!got.completed);
}

#[test]
fn save_then_load_restores_the_empty_store() {
    let db = Database::new();
    let loaded = load(&save(&db)).expect("empty store should round-trip");
    assert_eq!(loaded.get_tasks().len(), 0);
    assert_eq!(loaded.get_users().len(), 0);
}

#[test]
fn save_then_load_restores_both_collections() {
    let mut db = Database::new();
    db.add_task(task(1, "one", true));
    db.add_task(task(2, "two", false));
    db.add_user(user(10, "alice", "secret"));
    db.add_user(user(11, "bob", "hunter2"));
    let loaded = load(&save(&db)).expect("store should round-trip");
    assert_eq!(loaded.get_tasks().len(), 2);
    assert_eq!(loaded.get_users().len(), 2);
    assert_eq!(loaded.get_task(2).unwrap().name, "two");
    assert_eq!(loaded.get_user(11).unwrap().password, "hunter2");
}

#[test]
fn round_trip_keeps_escaped_characters() {
    let mut db = Database::new();
    db.add_task(task(1, "say \"hi\" \\ twice", false));
    db.add_task(task(2, "line\nbreak and tab\t end", true));
    db.add_user(user(3, "nul\u{1}ctl", "p\u{1f}q"));
    let text = save(&db);
    let loaded = load(&text).expect("escaped text should load");
    assert_eq!(loaded.get_task(1).unwrap().name, "say \"hi\" \\ twice");
    assert_eq!(loaded.get_task(2).unwrap().name, "line\nbreak and tab\t end");
    assert_eq!(loaded.get_user(3).unwrap().username, "nul\u{1}ctl");
    assert_eq!(loaded.get_user(3).unwrap().password, "p\u{1f}q");
}

#[test]
fn escapes_appear_in_the_text_itself() {
    let mut db = Database::new();
    db.add_task(task(1, "a\"b", false));
    let text = save(&db);
    assert!(text.contains("a\\\"b"));
    let mut db2 = Database::new();
    db2.add_task(task(1, "c\nd", false));
    assert!(save(&db2).contains("c\\u000ad"));
}

#[test]
fn round_trip_keeps_extreme_ids() {
    let mut db = Database::new();
    db.add_task(task(0, "zero", false));
    db.add_task(task(u32::MAX, "max", true));
    let loaded = load(&save(&db)).expect("extreme ids should round-trip");
    assert_eq!(loaded.get_task(0).unwrap().name, "zero");
    assert_eq!(loaded.get_task(u32::MAX).unwrap().name, "max");
}

#[test]
fn round_trip_keeps_unicode_text() {
    let mut db = Database::new();
    db.add_task(task(1, "naïve café — 🦀", false));
    let loaded = load(&save(&db)).expect("unicode text should round-trip");
    assert_eq!(loaded.get_task(1).unwrap().name, "naïve café — 🦀");
}

#[test]
fn load_rejects_garbage() {
    assert!(load("not json at all").is_none());
    assert!(load("").is_none());
    assert!(load("{\"tasks\":{}").is_none());
}

#[test]
fn load_rejects_trailing_text() {
    assert!(load("{\"tasks\":{},\"users\":{}} ").is_none());
    assert!(load("{\"tasks\":{},\"users\":{}}x").is_none());
}

#[test]
fn load_rejects_key_that_differs_from_id() {
    let text = "{\"tasks\":{\"2\":{\"id\":1,\"name\":\"x\",\"completed\":false}},\"users\":{}}";
    assert!(load(text).is_none());
}

#[test]
fn load_rejects_duplicate_keys() {
    let text = "{\"tasks\":{\"1\":{\"id\":1,\"name\":\"a\",\"completed\":false},\"1\":{\"id\":1,\"name\":\"b\",\"completed\":true}},\"users\":{}}";
    assert!(load(text).is_none());
}

#[test]
fn load_rejects_trailing_comma() {
    let text = "{\"tasks\":{\"1\":{\"id\":1,\"name\":\"a\",\"completed\":false},},\"users\":{}}";
    assert!(load(text).is_none());
}

#[test]
fn load_rejects_overflowing_id() {
    let text = "{\"tasks\":{\"4294967296\":{\"id\":4294967296,\"name\":\"x\",\"completed\":false}},\"users\":{}}";
    assert!(load(text).is_none());
}

#[test]
fn load_accepts_the_empty_shape() {
    let loaded = load("{\"tasks\":{},\"users\":{}}").expect("empty shape should load");
    assert_eq!(loaded.get_tasks().len(), 0);
    assert_eq!(loaded.get_users().len(), 0);
}

#[test]
fn saved_empty_store_then_one_add_then_reload_scenario() {
    // The store starts empty, one task arrives, the state is persisted; a
    // fresh process loads the text and finds the same task.
    let mut db = Database::new();
    db.add_task(task(1, "buy milk", false));
    let persisted = save(&db);
    let restarted = load(&persisted).expect("persisted store should load at startup");
    let got = restarted.get_task(1).expect("task 1 should survive the restart");
    assert_eq!(got.id, 1);
    assert_eq!(got.name, "buy milk");
    assert!(!got.completed);
}
