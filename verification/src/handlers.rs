//! The compute side of each request handler: one store operation under the
//! caller's exclusive access, plus, for mutations, the full persisted text
//! to write back. Reading the request and writing the file or the response
//! are the HTTP layer's part; it holds the lock around each call here and
//! the file write that follows, so each mutation and its persistence form
//! one serialized step.

use vstd::prelude::*;

use crate::codec;
use crate::store::Database;
use crate::store::Task;
use crate::store::User;

verus! {

/// Creates or replaces the task keyed by `task.id`; returns the persisted
/// text of the whole store after the change.
pub fn create_task(db: &mut Database, task: Task) -> (persist: String)
    requires
        old(db).wf(),
    ensures
        final(db).wf(),
        final(db).task_map() == old(db).task_map().insert(task.id, task@),
        final(db)@.users == old(db)@.users,
        persist@ == codec::ser_store(final(db)@),
{
    db.add_task(task);
    codec::save(db)
}

/// All tasks as a JSON array, in the store's own order.
pub fn get_tasks(db: &Database) -> (body: String)
    ensures
        body@ == codec::ser_task_array(db@.tasks),
{
    let ts = db.get_tasks();
    codec::tasks_json(&ts)
}

/// One task as a JSON object, or absence if the id is not present; the
/// HTTP layer decides what absence becomes.
pub fn get_task(db: &Database, id: u32) -> (r: Option<String>)
    requires
        db.wf(),
    ensures
        match r {
            Some(body) => db.task_map().contains_key(id) && body@ == codec::ser_task(
                db.task_map()[id],
            ),
            None => !db.task_map().contains_key(id),
        },
{
    match db.get_task(id) {
        Some(t) => Some(codec::task_json(&t)),
        None => None,
    }
}

/// Upserts the task keyed by `task.id` — the same effect as
/// [`create_task`]; returns the persisted text after the change.
pub fn update_task(db: &mut Database, task: Task) -> (persist: String)
    requires
        old(db).wf(),
    ensures
        final(db).wf(),
        final(db).task_map() == old(db).task_map().insert(task.id, task@),
        final(db)@.users == old(db)@.users,
        persist@ == codec::ser_store(final(db)@),
{
    db.update_task(task);
    codec::save(db)
}

/// Deletes the task keyed by `id` if present (a no-op otherwise); returns
/// the persisted text after the change.
pub fn delete_task(db: &mut Database, id: u32) -> (persist: String)
    requires
        old(db).wf(),
    ensures
        final(db).wf(),
        final(db).task_map() == old(db).task_map().remove(id),
        final(db)@.users == old(db)@.users,
        persist@ == codec::ser_store(final(db)@),
{
    db.delete_task(id);
    codec::save(db)
}

/// Creates or replaces the user keyed by `user.id`; returns the persisted
/// text of the whole store after the change.
pub fn create_user(db: &mut Database, user: User) -> (persist: String)
    requires
        old(db).wf(),
    ensures
        final(db).wf(),
        final(db).user_map() == old(db).user_map().insert(user.id, user@),
        final(db)@.tasks == old(db)@.tasks,
        persist@ == codec::ser_store(final(db)@),
{
    db.add_user(user);
    codec::save(db)
}

/// All users as a JSON array, in the store's own order.
pub fn get_users(db: &Database) -> (body: String)
    ensures
        body@ == codec::ser_user_array(db@.users),
{
    let us = db.get_users();
    codec::users_json(&us)
}

/// One user as a JSON object, or absence if the id is not present.
pub fn get_user(db: &Database, id: u32) -> (r: Option<String>)
    requires
        db.wf(),
    ensures
        match r {
            Some(body) => db.user_map().contains_key(id) && body@ == codec::ser_user(
                db.user_map()[id],
            ),
            None => !db.user_map().contains_key(id),
        },
{
    match db.get_user(id) {
        Some(u) => Some(codec::user_json(&u)),
        None => None,
    }
}

/// Upserts the user keyed by `user.id` — the same effect as
/// [`create_user`]; returns the persisted text after the change.
pub fn update_user(db: &mut Database, user: User) -> (persist: String)
    requires
        old(db).wf(),
    ensures
        final(db).wf(),
        final(db).user_map() == old(db).user_map().insert(user.id, user@),
        final(db)@.tasks == old(db)@.tasks,
        persist@ == codec::ser_store(final(db)@),
{
    db.update_user(user);
    codec::save(db)
}

/// Deletes the user keyed by `id` if present (a no-op otherwise); returns
/// the persisted text after the change.
pub fn delete_user(db: &mut Database, id: u32) -> (persist: String)
    requires
        old(db).wf(),
    ensures
        final(db).wf(),
        final(db).user_map() == old(db).user_map().remove(id),
        final(db)@.tasks == old(db)@.tasks,
        persist@ == codec::ser_store(final(db)@),
{
    db.delete_user(id);
    codec::save(db)
}

} // verus!
