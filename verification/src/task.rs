//! Collaborative tasks: the home's shared to-do list. A task is a title plus a
//! done flag; any member can add, check off, rename or remove one.

use vstd::prelude::*;

use crate::error::{concat3, owned, CoreError};
use crate::order::{insert_sorted, lemma_insert_contains, sorted, Ordered};
use crate::seq_sets::{lemma_push_set, lemma_update_set};
use crate::text::{
    blank, chars_of, code_points, is_blank, lex_le, lex_le_chars, lemma_lex_total, lemma_lex_trans, lemma_precedes_orders,
    precedes, trim, trimmed,
};

verus! {

/// One task on the shared list. `created_at` is a wall-clock timestamp used
/// only to order the list; it never changes after creation.
#[derive(Debug, Clone, PartialEq, Eq)]
pub struct Task {
    pub id: String,
    pub title: String,
    pub done: bool,
    pub created_at: String,
}

/// Open tasks come before done ones; within each group the most recently
/// added comes first (timestamps compared as text, code point by code point).
impl Ordered for Task {
    open spec fn key_le(a: Task, b: Task) -> bool {
        if a.done != b.done {
            !a.done
        } else {
            lex_le(code_points(b.created_at@), code_points(a.created_at@))
        }
    }

    proof fn lemma_key_total(a: Task, b: Task) {
        lemma_lex_total(code_points(b.created_at@), code_points(a.created_at@));
    }

    proof fn lemma_key_trans(a: Task, b: Task, c: Task) {
        if a.done == b.done && b.done == c.done {
            lemma_lex_trans(code_points(c.created_at@), code_points(b.created_at@), code_points(a.created_at@));
        }
    }

    fn le(&self, other: &Task) -> (r: bool) {
        if self.done != other.done {
            !self.done
        } else {
            let a = chars_of(self.created_at.as_str());
            let b = chars_of(other.created_at.as_str());
            lex_le_chars(&b, &a, false)
        }
    }
}

/// A listed order never shows a done task above an open one.
pub proof fn lemma_open_tasks_first(s: Seq<Task>, i: int, j: int)
    requires
        sorted(s),
        0 <= i < j < s.len(),
        !s[j].done,
    ensures
        !s[i].done,
{
    assert(Task::key_le(s[i], s[j]));
}

/// Within open tasks, and within done ones, the most recently added comes
/// first: of two tasks with the same done flag, the one whose `created_at`
/// strictly follows the other's in code-point order over the whole timestamp
/// is listed earlier.
pub proof fn lemma_newest_first(s: Seq<Task>, i: int, j: int)
    requires
        sorted(s),
        0 <= i < s.len(),
        0 <= j < s.len(),
        s[i].done == s[j].done,
        precedes(code_points(s[i].created_at@), code_points(s[j].created_at@)),
    ensures
        j < i,
{
    lemma_precedes_orders(code_points(s[i].created_at@), code_points(s[j].created_at@));
    if i < j {
        assert(Task::key_le(s[i], s[j]));
    }
}

/// Checking a task off or back on sets its flag: in the list that results,
/// the task with that id has exactly the flag given, whatever it had before,
/// and keeps its title and creation time.
pub proof fn lemma_set_done_sets(ts: Set<Task>, id: Seq<char>, done: bool)
    requires
        task_ids_unique(ts),
        has_task(ts, id),
    ensures
        ({
            let t = task_of(ts, id);
            let after = ts.remove(t).insert(with_done(t, done));
            &&& has_task(after, id)
            &&& task_of(after, id).done == done
            &&& task_of(after, id).title == t.title
            &&& task_of(after, id).created_at == t.created_at
        }),
{
    let t = task_of(ts, id);
    let after = ts.remove(t).insert(with_done(t, done));
    let u = with_done(t, done);
    assert(after.contains(u) && u.id@ == id);
    let v = task_of(after, id);
    assert(after.contains(v) && v.id@ == id);
    if v != u {
        assert(ts.contains(v));
        assert(v == t);
    }
}

/// `t` with its done flag set to `done`.
pub open spec fn with_done(t: Task, done: bool) -> Task {
    Task { id: t.id, title: t.title, done: done, created_at: t.created_at }
}

/// `t` is `x` with its title set to `title`.
pub open spec fn retitled(x: Task, t: Task, title: Seq<char>) -> bool {
    &&& t.id == x.id
    &&& t.done == x.done
    &&& t.created_at == x.created_at
    &&& t.title@ == title
}

/// Some task has id `id`.
pub open spec fn has_task(ts: Set<Task>, id: Seq<char>) -> bool {
    exists|t: Task| #[trigger] ts.contains(t) && t.id@ == id
}

/// The task with id `id` (meaningful when `has_task`).
pub open spec fn task_of(ts: Set<Task>, id: Seq<char>) -> Task {
    choose|t: Task| #[trigger] ts.contains(t) && t.id@ == id
}

/// No two tasks share an id.
pub open spec fn task_ids_unique(ts: Set<Task>) -> bool {
    forall|a: Task, b: Task| #[trigger] ts.contains(a) && #[trigger] ts.contains(b) && a.id@ == b.id@ ==> a == b
}

/// The shared task list of one library.
pub struct Tasks {
    tasks: Vec<Task>,
}

impl View for Tasks {
    type V = Set<Task>;

    closed spec fn view(&self) -> Set<Task> {
        self.tasks@.to_set()
    }
}

impl Tasks {
    /// No task appears twice and task ids are unique.
    pub closed spec fn wf(&self) -> bool {
        &&& self.tasks@.no_duplicates()
        &&& task_ids_unique(self@)
    }

    /// An empty list.
    pub fn new() -> (r: Tasks)
        ensures
            r.wf(),
            r@.is_empty(),
    {
        let r = Tasks { tasks: Vec::new() };
        assert(r@ =~= Set::empty());
        r
    }

    /// The list for task rows as a library stores them, accepted only when no
    /// two rows share an id; otherwise an internal error.
    pub fn from_rows(tasks: Vec<Task>) -> (r: Result<Tasks, CoreError>)
        ensures
            r matches Ok(t) ==> t.wf() && t@ == tasks@.to_set(),
            r is Ok <==> forall|i: int, j: int| 0 <= i < tasks@.len() && 0 <= j < tasks@.len() && i != j
                ==> #[trigger] tasks@[i].id@ != #[trigger] tasks@[j].id@,
            r matches Err(e) ==> (e matches CoreError::Internal(m) && m@ == "two tasks share an id"@),
    {
        let n = tasks.len();
        let mut i: usize = 0;
        while i < n
            invariant
                n == tasks@.len(),
                i <= n,
                forall|a: int, b: int| 0 <= a < i && 0 <= b < n && a != b ==> #[trigger] tasks@[a].id@ != #[trigger] tasks@[b].id@,
            decreases n - i,
        {
            let mut j: usize = 0;
            while j < n
                invariant
                    n == tasks@.len(),
                    i < n,
                    j <= n,
                    forall|b: int| 0 <= b < j && b != i ==> tasks@[i as int].id@ != #[trigger] tasks@[b].id@,
                decreases n - j,
            {
                if j != i && tasks[i].id == tasks[j].id {
                    return Err(CoreError::Internal(owned("two tasks share an id")));
                }
                j = j + 1;
            }
            i = i + 1;
        }
        let t = Tasks { tasks };
        proof {
            assert(t.tasks@.no_duplicates()) by {
                assert forall|a: int, b: int| 0 <= a < n && 0 <= b < n && a != b implies t.tasks@[a] != t.tasks@[b] by {
                    assert(t.tasks@[a].id@ != t.tasks@[b].id@);
                }
            }
            assert forall|a: Task, b: Task| #[trigger] t@.contains(a) && #[trigger] t@.contains(b) && a.id@ == b.id@ implies a == b by {
                let x = t.tasks@.index_of(a);
                let y = t.tasks@.index_of(b);
                assert(t.tasks@[x] == a && t.tasks@[y] == b);
            }
        }
        Ok(t)
    }

    fn find(&self, key: &String) -> (r: Option<usize>)
        requires
            self.wf(),
        ensures
            r matches Some(i) ==> i < self.tasks@.len() && self.tasks@[i as int].id@ == key@
                && task_of(self@, key@) == self.tasks@[i as int] && has_task(self@, key@),
            r is None ==> !has_task(self@, key@),
    {
        let mut i: usize = 0;
        while i < self.tasks.len()
            invariant
                self.wf(),
                i <= self.tasks@.len(),
                forall|k: int| 0 <= k < i ==> self.tasks@[k].id@ != key@,
            decreases self.tasks@.len() - i,
        {
            if self.tasks[i].id == *key {
                proof {
                    let t = self.tasks@[i as int];
                    assert(self@.contains(t) && t.id@ == key@);
                    let u = task_of(self@, key@);
                    assert(self@.contains(u) && u.id@ == key@);
                }
                return Some(i);
            }
            i = i + 1;
        }
        proof {
            if has_task(self@, key@) {
                let t = choose|t: Task| #[trigger] self@.contains(t) && t.id@ == key@;
                let k = self.tasks@.index_of(t);
                assert(self.tasks@[k] == t);
            }
        }
        None
    }

    /// Every task, open ones first, and within each group the most recently
    /// added first.
    pub fn list(&self) -> (r: Vec<Task>)
        requires
            self.wf(),
        ensures
            forall|t: Task| #[trigger] r@.contains(t) <==> self@.contains(t),
            r@.no_duplicates(),
            sorted(r@),
    {
        let mut out: Vec<Task> = Vec::new();
        let mut i: usize = 0;
        while i < self.tasks.len()
            invariant
                self.wf(),
                i <= self.tasks@.len(),
                out@.no_duplicates(),
                sorted(out@),
                forall|t: Task| #[trigger] out@.contains(t) <==> (exists|k: int| 0 <= k < i && self.tasks@[k] == t),
            decreases self.tasks@.len() - i,
        {
            let t = &self.tasks[i];
            let c = Task { id: t.id.clone(), title: t.title.clone(), done: t.done, created_at: t.created_at.clone() };
            let ghost before = out@;
            proof {
                if before.contains(c) {
                    let k = choose|k: int| 0 <= k < i && self.tasks@[k] == c;
                    assert(self.tasks@[k] == self.tasks@[i as int]);
                }
            }
            insert_sorted(&mut out, c);
            proof {
                let p = choose|p: int| 0 <= p <= before.len() && out@ == before.insert(p, c);
                lemma_insert_contains(before, p, c);
                assert forall|u: Task| #[trigger] out@.contains(u) <==> (exists|k: int| 0 <= k < i + 1 && self.tasks@[k] == u) by {
                    if u == c {
                        assert(self.tasks@[i as int] == u);
                    }
                    if exists|k: int| 0 <= k < i + 1 && self.tasks@[k] == u {
                        let k = choose|k: int| 0 <= k < i + 1 && self.tasks@[k] == u;
                        if k < i {
                            assert(before.contains(u));
                        }
                    }
                }
            }
            i = i + 1;
        }
        proof {
            assert forall|t: Task| #[trigger] out@.contains(t) <==> self@.contains(t) by {
                if self@.contains(t) {
                    let k = self.tasks@.index_of(t);
                    assert(self.tasks@[k] == t);
                }
            }
        }
        out
    }

    /// Add a new, not-done task titled `title` (trimmed) as task `id`, created
    /// at `created_at`. A blank title is rejected (Internal); a taken id is a
    /// database error. Either way nothing is stored.
    pub fn create(&mut self, title: String, id: String, created_at: String) -> (r: Result<Task, CoreError>)
        requires
            old(self).wf(),
        ensures
            final(self).wf(),
            r is Ok <==> !is_blank(title@) && !has_task(old(self)@, id@),
            r matches Ok(t) ==> {
                &&& t.id == id
                &&& t.title@ == trim(title@)
                &&& !t.done
                &&& t.created_at == created_at
                &&& final(self)@ == old(self)@.insert(t)
            },
            r is Err ==> final(self)@ == old(self)@,
            r matches Err(e) ==> is_blank(title@) ==> (e matches CoreError::Internal(m)
                && m@ == "cannot create a task with a blank title"@),
            r matches Err(e) ==> !is_blank(title@) ==> (e matches CoreError::Database(m)
                && m@ == "UNIQUE constraint failed: tasks.id"@),
    {
        if blank(title.as_str()) {
            return Err(CoreError::Internal(owned("cannot create a task with a blank title")));
        }
        let t = trimmed(title.as_str());
        if self.find(&id).is_some() {
            return Err(CoreError::Database(owned("UNIQUE constraint failed: tasks.id")));
        }
        let task = Task { id: id.clone(), title: t.clone(), done: false, created_at: created_at.clone() };
        let result = Task { id, title: t, done: false, created_at };
        proof {
            if self.tasks@.contains(task) {
                let k = self.tasks@.index_of(task);
                assert(self@.contains(self.tasks@[k]));
            }
            lemma_push_set(self.tasks@, task);
        }
        let ghost before = self@;
        self.tasks.push(task);
        proof {
            assert forall|a: Task, b: Task| #[trigger] self@.contains(a) && #[trigger] self@.contains(b) && a.id@ == b.id@ implies a == b by {
                if a == task && b != task {
                    assert(before.contains(b) && b.id@ == id@);
                } else if b == task && a != task {
                    assert(before.contains(a) && a.id@ == id@);
                }
            }
        }
        Ok(result)
    }

    /// Check a task off, or back on. NotFound if no task has id `id`.
    pub fn set_done(&mut self, id: &str, done: bool) -> (r: Result<(), CoreError>)
        requires
            old(self).wf(),
        ensures
            final(self).wf(),
            r is Ok <==> has_task(old(self)@, id@),
            r is Ok ==> final(self)@ == old(self)@.remove(task_of(old(self)@, id@)).insert(
                with_done(task_of(old(self)@, id@), done),
            ),
            r is Ok ==> has_task(final(self)@, id@) && task_of(final(self)@, id@).done == done,
            r is Err ==> final(self)@ == old(self)@,
            r matches Err(e) ==> (e matches CoreError::NotFound(m) && m@ == "no task "@ + id@ + " to set done"@),
    {
        proof {
            if has_task(self@, id@) {
                lemma_set_done_sets(self@, id@, done);
            }
        }
        let key = owned(id);
        match self.find(&key) {
            None => Err(CoreError::NotFound(concat3("no task ", id, " to set done"))),
            Some(i) => {
                let old_t = &self.tasks[i];
                let t = Task { id: old_t.id.clone(), title: old_t.title.clone(), done, created_at: old_t.created_at.clone() };
                proof {
                    self.replace_proof(i as int, t);
                }
                self.tasks.set(i, t);
                Ok(())
            },
        }
    }

    proof fn replace_proof(&self, i: int, t: Task)
        requires
            self.wf(),
            0 <= i < self.tasks@.len(),
            t.id@ == self.tasks@[i].id@,
        ensures
            self.tasks@.update(i, t).to_set() == self@.remove(self.tasks@[i]).insert(t),
            self.tasks@.update(i, t).no_duplicates(),
            task_ids_unique(self@.remove(self.tasks@[i]).insert(t)),
    {
        assert forall|j: int| 0 <= j < self.tasks@.len() && j != i implies self.tasks@[j] != t by {
            assert(self@.contains(self.tasks@[j]) && self@.contains(self.tasks@[i]));
        }
        lemma_update_set(self.tasks@, i, t);
        let s2 = self@.remove(self.tasks@[i]).insert(t);
        assert forall|a: Task, b: Task| #[trigger] s2.contains(a) && #[trigger] s2.contains(b) && a.id@ == b.id@ implies a == b by {
            if a != t && b != t {
                assert(self@.contains(a) && self@.contains(b));
            } else if a == t && b != t {
                assert(self@.contains(b) && self@.contains(self.tasks@[i]));
            } else if b == t && a != t {
                assert(self@.contains(a) && self@.contains(self.tasks@[i]));
            }
        }
    }

    /// Rename a task to `title` (trimmed). A blank title is rejected
    /// (Internal) before the task is looked up; NotFound if no task has id
    /// `id`.
    pub fn rename(&mut self, id: &str, title: String) -> (r: Result<(), CoreError>)
        requires
            old(self).wf(),
        ensures
            final(self).wf(),
            r is Ok <==> !is_blank(title@) && has_task(old(self)@, id@),
            r is Ok ==> exists|t: Task| #[trigger] retitled(task_of(old(self)@, id@), t, trim(title@))
                && final(self)@ == old(self)@.remove(task_of(old(self)@, id@)).insert(t),
            r is Err ==> final(self)@ == old(self)@,
            r matches Err(e) ==> is_blank(title@) ==> (e matches CoreError::Internal(m)
                && m@ == "cannot rename a task to a blank title"@),
            r matches Err(e) ==> !is_blank(title@) ==> (e matches CoreError::NotFound(m)
                && m@ == "no task "@ + id@ + " to rename"@),
    {
        if blank(title.as_str()) {
            return Err(CoreError::Internal(owned("cannot rename a task to a blank title")));
        }
        let new_title = trimmed(title.as_str());
        let key = owned(id);
        match self.find(&key) {
            None => Err(CoreError::NotFound(concat3("no task ", id, " to rename"))),
            Some(i) => {
                let old_t = &self.tasks[i];
                let t = Task { id: old_t.id.clone(), title: new_title, done: old_t.done, created_at: old_t.created_at.clone() };
                proof {
                    self.replace_proof(i as int, t);
                    assert(retitled(task_of(self@, id@), t, trim(title@)));
                }
                self.tasks.set(i, t);
                Ok(())
            },
        }
    }

    /// Remove a task from the list. A task that doesn't exist is nothing to
    /// remove (a co-householder may have removed it first): the list is left
    /// as it is. Returns whether a task was removed.
    pub fn delete(&mut self, id: &str) -> (removed: bool)
        requires
            old(self).wf(),
        ensures
            final(self).wf(),
            removed == has_task(old(self)@, id@),
            final(self)@ == old(self)@.filter(|t: Task| t.id@ != id@),
    {
        let key = owned(id);
        let ghost before = self@;
        let mut out: Vec<Task> = Vec::new();
        let mut found = false;
        let mut i: usize = 0;
        while i < self.tasks.len()
            invariant
                self.wf(),
                self@ == before,
                key@ == id@,
                i <= self.tasks@.len(),
                out@.no_duplicates(),
                found == (exists|k: int| 0 <= k < i && self.tasks@[k].id@ == id@),
                forall|t: Task| #[trigger] out@.contains(t) <==> (exists|k: int| 0 <= k < i && self.tasks@[k] == t && t.id@ != id@),
            decreases self.tasks@.len() - i,
        {
            let t = &self.tasks[i];
            if t.id == key {
                found = true;
                proof {
                    assert forall|u: Task| #[trigger] out@.contains(u) <==> (exists|k: int| 0 <= k < i + 1 && self.tasks@[k] == u && u.id@ != id@) by {
                        if exists|k: int| 0 <= k < i + 1 && self.tasks@[k] == u && u.id@ != id@ {
                            let k = choose|k: int| 0 <= k < i + 1 && self.tasks@[k] == u && u.id@ != id@;
                            if k == i {
                                assert(u.id@ == id@);
                            }
                        }
                    }
                }
            } else {
                let c = Task { id: t.id.clone(), title: t.title.clone(), done: t.done, created_at: t.created_at.clone() };
                let ghost prev = out@;
                proof {
                    if prev.contains(c) {
                        let k = choose|k: int| 0 <= k < i && self.tasks@[k] == c && c.id@ != id@;
                        assert(self.tasks@[k] == self.tasks@[i as int]);
                    }
                    lemma_push_set(prev, c);
                }
                out.push(c);
                proof {
                    assert forall|u: Task| #[trigger] out@.contains(u) <==> (exists|k: int| 0 <= k < i + 1 && self.tasks@[k] == u && u.id@ != id@) by {
                        if out@.contains(u) {
                            if u != c {
                                assert(prev.to_set().contains(u));
                            } else {
                                assert(self.tasks@[i as int] == u);
                            }
                        }
                        if exists|k: int| 0 <= k < i + 1 && self.tasks@[k] == u && u.id@ != id@ {
                            let k = choose|k: int| 0 <= k < i + 1 && self.tasks@[k] == u && u.id@ != id@;
                            if k < i {
                                assert(prev.contains(u));
                            }
                            assert(out@.to_set().contains(u));
                        }
                    }
                }
            }
            i = i + 1;
        }
        proof {
            assert(out@.to_set() =~= before.filter(|t: Task| t.id@ != id@)) by {
                assert forall|t: Task| out@.to_set().contains(t) <==> before.filter(|t: Task| t.id@ != id@).contains(t) by {
                    if before.contains(t) {
                        let k = self.tasks@.index_of(t);
                        assert(self.tasks@[k] == t);
                    }
                }
            }
            if has_task(before, id@) {
                let t = choose|t: Task| #[trigger] before.contains(t) && t.id@ == id@;
                let k = self.tasks@.index_of(t);
                assert(self.tasks@[k].id@ == id@);
            }
            if found {
                let k = choose|k: int| 0 <= k < self.tasks@.len() && self.tasks@[k].id@ == id@;
                assert(before.contains(self.tasks@[k]));
            }
        }
        self.tasks = out;
        found
    }
}

} // verus!
