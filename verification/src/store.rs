//! The in-memory store: two keyed collections (tasks and users) with
//! insert/get/list/update/delete, each collection independent of the other.
//!
//! A collection is held as a vector whose records carry their own key; the
//! well-formedness invariant [`Database::wf`] keeps the keys distinct, so the
//! vector denotes a map from id to record. Contracts speak of that map,
//! through [`Database::task_map`] and [`Database::user_map`].

use vstd::prelude::*;

verus! {

/// A task record. `id` is the unique key within the task collection.
#[derive(Debug, Clone)]
pub struct Task {
    pub id: u32,
    pub name: String,
    pub completed: bool,
}

/// A user record. `id` is the unique key within the user collection.
/// The password is held and persisted in cleartext, a known gap of this
/// service, kept as it is rather than silently repaired.
#[derive(Debug, Clone)]
pub struct User {
    pub id: u32,
    pub username: String,
    pub password: String,
}

/// The mathematical value of a [`Task`].
#[verifier::ext_equal]
pub struct TaskView {
    pub id: u32,
    pub name: Seq<char>,
    pub completed: bool,
}

/// The mathematical value of a [`User`].
#[verifier::ext_equal]
pub struct UserView {
    pub id: u32,
    pub username: Seq<char>,
    pub password: Seq<char>,
}

impl View for Task {
    type V = TaskView;

    open spec fn view(&self) -> TaskView {
        TaskView { id: self.id, name: self.name@, completed: self.completed }
    }
}

impl View for User {
    type V = UserView;

    open spec fn view(&self) -> UserView {
        UserView { id: self.id, username: self.username@, password: self.password@ }
    }
}

/// A record that carries its own key.
pub trait Keyed {
    spec fn key(self) -> u32;
}

impl Keyed for TaskView {
    open spec fn key(self) -> u32 {
        self.id
    }
}

impl Keyed for UserView {
    open spec fn key(self) -> u32 {
        self.id
    }
}

/// No two records of the sequence share a key.
pub open spec fn distinct_keys<R: Keyed>(s: Seq<R>) -> bool {
    forall|i: int, j: int| 0 <= i < j < s.len() ==> s[i].key() != s[j].key()
}

/// The map a sequence of keyed records denotes: later records win on a
/// repeated key, though under [`distinct_keys`] none repeats.
pub open spec fn map_of<R: Keyed>(s: Seq<R>) -> Map<u32, R>
    decreases s.len(),
{
    if s.len() == 0 {
        Map::empty()
    } else {
        map_of(s.drop_last()).insert(s.last().key(), s.last())
    }
}

pub proof fn lemma_map_of_contains<R: Keyed>(s: Seq<R>)
    ensures
        forall|k: u32|
            map_of(s).contains_key(k) <==> exists|i: int| 0 <= i < s.len() && s[i].key() == k,
    decreases s.len(),
{
    if s.len() > 0 {
        lemma_map_of_contains(s.drop_last());
        assert forall|k: u32| map_of(s).contains_key(k) implies exists|i: int|
            0 <= i < s.len() && s[i].key() == k by {
            if k == s.last().key() {
                assert(s[s.len() - 1].key() == k);
            } else {
                assert(map_of(s.drop_last()).contains_key(k));
                assert(exists|i: int|
                    0 <= i < s.drop_last().len() && s.drop_last()[i].key() == k);
                let i = choose|i: int| 0 <= i < s.drop_last().len() && s.drop_last()[i].key() == k;
                assert(s.drop_last()[i] == s[i]);
                assert(s[i].key() == k);
            }
        }
        assert forall|k: u32|
            (exists|i: int| 0 <= i < s.len() && s[i].key() == k) implies map_of(
            s,
        ).contains_key(k) by {
            let i = choose|i: int| 0 <= i < s.len() && s[i].key() == k;
            if i < s.len() - 1 {
                assert(s.drop_last()[i] == s[i]);
                assert(exists|j: int|
                    0 <= j < s.drop_last().len() && s.drop_last()[j].key() == k);
                assert(map_of(s.drop_last()).contains_key(k));
            } else {
                assert(s.last().key() == k);
            }
        }
    }
}

pub proof fn lemma_map_of_index<R: Keyed>(s: Seq<R>, i: int)
    requires
        distinct_keys(s),
        0 <= i < s.len(),
    ensures
        map_of(s).contains_key(s[i].key()),
        map_of(s)[s[i].key()] == s[i],
    decreases s.len(),
{
    if i == s.len() - 1 {
    } else {
        assert(s.drop_last()[i] == s[i]);
        lemma_map_of_index(s.drop_last(), i);
        assert(s[i].key() != s.last().key());
    }
}

pub proof fn lemma_map_of_len<R: Keyed>(s: Seq<R>)
    requires
        distinct_keys(s),
    ensures
        map_of(s).len() == s.len(),
        map_of(s).dom().finite(),
    decreases s.len(),
{
    if s.len() > 0 {
        lemma_map_of_len(s.drop_last());
        lemma_map_of_contains(s.drop_last());
        assert(!map_of(s.drop_last()).contains_key(s.last().key()));
    }
}

pub proof fn lemma_map_of_update<R: Keyed>(s: Seq<R>, i: int, r: R)
    requires
        distinct_keys(s),
        0 <= i < s.len(),
        s[i].key() == r.key(),
    ensures
        map_of(s.update(i, r)) == map_of(s).insert(r.key(), r),
    decreases s.len(),
{
    let t = s.update(i, r);
    if i == s.len() - 1 {
        assert(t.drop_last() =~= s.drop_last());
        assert(t.last() == r);
        assert(map_of(t) == map_of(s.drop_last()).insert(r.key(), r));
        assert(map_of(s).insert(r.key(), r) == map_of(s.drop_last()).insert(
            s.last().key(),
            s.last(),
        ).insert(r.key(), r));
        assert(map_of(s.drop_last()).insert(s.last().key(), s.last()).insert(r.key(), r)
            =~= map_of(s.drop_last()).insert(r.key(), r));
    } else {
        assert(t.drop_last() =~= s.drop_last().update(i, r));
        lemma_map_of_update(s.drop_last(), i, r);
        assert(t.last() == s.last());
        assert(map_of(t) == map_of(s.drop_last()).insert(r.key(), r).insert(
            s.last().key(),
            s.last(),
        ));
        assert(s[i].key() != s.last().key());
        assert(map_of(s.drop_last()).insert(r.key(), r).insert(s.last().key(), s.last())
            =~= map_of(s.drop_last()).insert(s.last().key(), s.last()).insert(r.key(), r));
    }
}

pub proof fn lemma_map_of_remove<R: Keyed>(s: Seq<R>, i: int)
    requires
        distinct_keys(s),
        0 <= i < s.len(),
    ensures
        map_of(s.remove(i)) == map_of(s).remove(s[i].key()),
    decreases s.len(),
{
    let t = s.remove(i);
    if i == s.len() - 1 {
        assert(t =~= s.drop_last());
        lemma_map_of_contains(s.drop_last());
        assert(!map_of(s.drop_last()).contains_key(s.last().key()));
        assert(map_of(s.drop_last()) =~= map_of(s.drop_last()).insert(
            s.last().key(),
            s.last(),
        ).remove(s.last().key()));
    } else {
        assert(t.drop_last() =~= s.drop_last().remove(i));
        lemma_map_of_remove(s.drop_last(), i);
        assert(t.last() == s.last());
        assert(s.drop_last()[i] == s[i]);
        assert(map_of(t) == map_of(s.drop_last()).remove(s[i].key()).insert(
            s.last().key(),
            s.last(),
        ));
        assert(s[i].key() != s.last().key());
        assert(map_of(s.drop_last()).remove(s[i].key()).insert(s.last().key(), s.last())
            =~= map_of(s.drop_last()).insert(s.last().key(), s.last()).remove(s[i].key()));
    }
}

/// The mathematical value of a [`Database`]: the two collections, in the
/// order the store holds them.
#[verifier::ext_equal]
pub struct DbView {
    pub tasks: Seq<TaskView>,
    pub users: Seq<UserView>,
}

/// The store: two independent keyed collections, tasks and users. Every
/// store built by [`Database::new`] or the codec is well-formed, and each
/// operation keeps it so.
pub struct Database {
    pub tasks: Vec<Task>,
    pub users: Vec<User>,
}

impl View for Database {
    type V = DbView;

    open spec fn view(&self) -> DbView {
        DbView {
            tasks: self.tasks@.map_values(|t: Task| t@),
            users: self.users@.map_values(|u: User| u@),
        }
    }
}

fn clone_task(t: &Task) -> (r: Task)
    ensures
        r@ == t@,
{
    Task { id: t.id, name: t.name.clone(), completed: t.completed }
}

fn clone_user(u: &User) -> (r: User)
    ensures
        r@ == u@,
{
    User { id: u.id, username: u.username.clone(), password: u.password.clone() }
}

impl Database {
    /// Both collections hold pairwise distinct ids.
    pub open spec fn wf(self) -> bool {
        distinct_keys(self@.tasks) && distinct_keys(self@.users)
    }

    /// The task collection as a map from id to record.
    pub open spec fn task_map(self) -> Map<u32, TaskView> {
        map_of(self@.tasks)
    }

    /// The user collection as a map from id to record.
    pub open spec fn user_map(self) -> Map<u32, UserView> {
        map_of(self@.users)
    }

    /// The empty store.
    pub fn new() -> (db: Database)
        ensures
            db.wf(),
            db@.tasks == Seq::<TaskView>::empty(),
            db@.users == Seq::<UserView>::empty(),
            db.task_map() == Map::<u32, TaskView>::empty(),
            db.user_map() == Map::<u32, UserView>::empty(),
    {
        let db = Database { tasks: Vec::new(), users: Vec::new() };
        proof {
            assert(db@.tasks =~= Seq::<TaskView>::empty());
            assert(db@.users =~= Seq::<UserView>::empty());
        }
        db
    }

    /// Inserts or overwrites by `task.id`; always succeeds, never validates.
    pub fn add_task(&mut self, task: Task)
        requires
            old(self).wf(),
        ensures
            final(self).wf(),
            final(self).task_map() == old(self).task_map().insert(task.id, task@),
            final(self)@.users == old(self)@.users,
    {
        let ghost task_v = task@;
        let mut i: usize = 0;
        while i < self.tasks.len()
            invariant
                old(self).wf(),
                self == old(self),
                i <= self.tasks.len(),
                forall|j: int| 0 <= j < i ==> self@.tasks[j].id != task_v.id,
                task_v == task@,
            decreases self.tasks.len() - i,
        {
            if self.tasks[i].id == task.id {
                let ghost s = self@.tasks;
                self.tasks[i] = task;
                proof {
                    assert(self@.tasks =~= s.update(i as int, task_v));
                    lemma_map_of_update(s, i as int, task_v);
                    let t = s.update(i as int, task_v);
                    assert(forall|j: int| 0 <= j < t.len() ==> #[trigger] t[j].key() == s[j].key());
                    assert(distinct_keys(t));
                    assert(self@.users =~= old(self)@.users);
                }
                return;
            }
            i += 1;
        }
        let ghost s = self@.tasks;
        self.tasks.push(task);
        proof {
            assert(self@.tasks =~= s.push(task_v));
            assert(self@.tasks.drop_last() =~= s);
            lemma_map_of_contains(s);
            assert(self@.users =~= old(self)@.users);
        }
    }

    /// Returns the record keyed by `id` if one is present, else absence;
    /// never an error.
    pub fn get_task(&self, id: u32) -> (r: Option<Task>)
        requires
            self.wf(),
        ensures
            match r {
                Some(t) => self.task_map().contains_key(id) && t@ == self.task_map()[id],
                None => !self.task_map().contains_key(id),
            },
    {
        let mut i: usize = 0;
        while i < self.tasks.len()
            invariant
                self.wf(),
                i <= self.tasks.len(),
                forall|j: int| 0 <= j < i ==> self@.tasks[j].id != id,
            decreases self.tasks.len() - i,
        {
            if self.tasks[i].id == id {
                let r = clone_task(&self.tasks[i]);
                proof {
                    lemma_map_of_index(self@.tasks, i as int);
                }
                return Some(r);
            }
            i += 1;
        }
        proof {
            lemma_map_of_contains(self@.tasks);
        }
        None
    }

    /// All task records, in the store's own (unspecified) order.
    pub fn get_tasks(&self) -> (r: Vec<Task>)
        ensures
            r@.map_values(|t: Task| t@) == self@.tasks,
    {
        let mut r: Vec<Task> = Vec::new();
        let mut i: usize = 0;
        while i < self.tasks.len()
            invariant
                i <= self.tasks.len(),
                r@.len() == i,
                forall|j: int| 0 <= j < i ==> r@[j]@ == self@.tasks[j],
            decreases self.tasks.len() - i,
        {
            r.push(clone_task(&self.tasks[i]));
            i += 1;
        }
        proof {
            assert(r@.map_values(|t: Task| t@) =~= self@.tasks);
        }
        r
    }

    /// Identical in effect to [`Database::add_task`]: an upsert. Updating an
    /// id that was never present creates the record.
    pub fn update_task(&mut self, task: Task)
        requires
            old(self).wf(),
        ensures
            final(self).wf(),
            final(self).task_map() == old(self).task_map().insert(task.id, task@),
            final(self)@.users == old(self)@.users,
    {
        self.add_task(task);
    }

    /// Removes the record keyed by `id` if present; removing an absent key
    /// is a silent no-op.
    pub fn delete_task(&mut self, id: u32)
        requires
            old(self).wf(),
        ensures
            final(self).wf(),
            final(self).task_map() == old(self).task_map().remove(id),
            final(self)@.users == old(self)@.users,
    {
        let mut i: usize = 0;
        while i < self.tasks.len()
            invariant
                old(self).wf(),
                self == old(self),
                i <= self.tasks.len(),
                forall|j: int| 0 <= j < i ==> self@.tasks[j].id != id,
            decreases self.tasks.len() - i,
        {
            if self.tasks[i].id == id {
                let ghost s = self@.tasks;
                self.tasks.remove(i);
                proof {
                    assert(self@.tasks =~= s.remove(i as int));
                    lemma_map_of_remove(s, i as int);
                    assert(distinct_keys(self@.tasks));
                    assert(self@.users =~= old(self)@.users);
                }
                return;
            }
            i += 1;
        }
        proof {
            lemma_map_of_contains(self@.tasks);
            assert(self.task_map() =~= self.task_map().remove(id));
            assert(self@.users =~= old(self)@.users);
        }
    }

    /// Inserts or overwrites by `user.id`; always succeeds, never validates.
    pub fn add_user(&mut self, user: User)
        requires
            old(self).wf(),
        ensures
            final(self).wf(),
            final(self).user_map() == old(self).user_map().insert(user.id, user@),
            final(self)@.tasks == old(self)@.tasks,
    {
        let ghost user_v = user@;
        let mut i: usize = 0;
        while i < self.users.len()
            invariant
                old(self).wf(),
                self == old(self),
                i <= self.users.len(),
                forall|j: int| 0 <= j < i ==> self@.users[j].id != user_v.id,
                user_v == user@,
            decreases self.users.len() - i,
        {
            if self.users[i].id == user.id {
                let ghost s = self@.users;
                self.users[i] = user;
                proof {
                    assert(self@.users =~= s.update(i as int, user_v));
                    lemma_map_of_update(s, i as int, user_v);
                    let t = s.update(i as int, user_v);
                    assert(forall|j: int| 0 <= j < t.len() ==> #[trigger] t[j].key() == s[j].key());
                    assert(distinct_keys(t));
                    assert(self@.tasks =~= old(self)@.tasks);
                }
                return;
            }
            i += 1;
        }
        let ghost s = self@.users;
        self.users.push(user);
        proof {
            assert(self@.users =~= s.push(user_v));
            assert(self@.users.drop_last() =~= s);
            lemma_map_of_contains(s);
            assert(self@.tasks =~= old(self)@.tasks);
        }
    }

    /// Returns the record keyed by `id` if one is present, else absence;
    /// never an error.
    pub fn get_user(&self, id: u32) -> (r: Option<User>)
        requires
            self.wf(),
        ensures
            match r {
                Some(u) => self.user_map().contains_key(id) && u@ == self.user_map()[id],
                None => !self.user_map().contains_key(id),
            },
    {
        let mut i: usize = 0;
        while i < self.users.len()
            invariant
                self.wf(),
                i <= self.users.len(),
                forall|j: int| 0 <= j < i ==> self@.users[j].id != id,
            decreases self.users.len() - i,
        {
            if self.users[i].id == id {
                let r = clone_user(&self.users[i]);
                proof {
                    lemma_map_of_index(self@.users, i as int);
                }
                return Some(r);
            }
            i += 1;
        }
        proof {
            lemma_map_of_contains(self@.users);
        }
        None
    }

    /// All user records, in the store's own (unspecified) order.
    pub fn get_users(&self) -> (r: Vec<User>)
        ensures
            r@.map_values(|u: User| u@) == self@.users,
    {
        let mut r: Vec<User> = Vec::new();
        let mut i: usize = 0;
        while i < self.users.len()
            invariant
                i <= self.users.len(),
                r@.len() == i,
                forall|j: int| 0 <= j < i ==> r@[j]@ == self@.users[j],
            decreases self.users.len() - i,
        {
            r.push(clone_user(&self.users[i]));
            i += 1;
        }
        proof {
            assert(r@.map_values(|u: User| u@) =~= self@.users);
        }
        r
    }

    /// Identical in effect to [`Database::add_user`]: an upsert.
    pub fn update_user(&mut self, user: User)
        requires
            old(self).wf(),
        ensures
            final(self).wf(),
            final(self).user_map() == old(self).user_map().insert(user.id, user@),
            final(self)@.tasks == old(self)@.tasks,
    {
        self.add_user(user);
    }

    /// Removes the record keyed by `id` if present; removing an absent key
    /// is a silent no-op.
    pub fn delete_user(&mut self, id: u32)
        requires
            old(self).wf(),
        ensures
            final(self).wf(),
            final(self).user_map() == old(self).user_map().remove(id),
            final(self)@.tasks == old(self)@.tasks,
    {
        let mut i: usize = 0;
        while i < self.users.len()
            invariant
                old(self).wf(),
                self == old(self),
                i <= self.users.len(),
                forall|j: int| 0 <= j < i ==> self@.users[j].id != id,
            decreases self.users.len() - i,
        {
            if self.users[i].id == id {
                let ghost s = self@.users;
                self.users.remove(i);
                proof {
                    assert(self@.users =~= s.remove(i as int));
                    lemma_map_of_remove(s, i as int);
                    assert(distinct_keys(self@.users));
                    assert(self@.tasks =~= old(self)@.tasks);
                }
                return;
            }
            i += 1;
        }
        proof {
            lemma_map_of_contains(self@.users);
            assert(self.user_map() =~= self.user_map().remove(id));
            assert(self@.tasks =~= old(self)@.tasks);
        }
    }
}

} // verus!
