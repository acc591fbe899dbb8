use vstd::prelude::*;
use vstd::string::*;

use crate::task::{Task, TaskView, task_views};
use crate::text::str_eq;

verus! {

/// The IDs of a list of task views are pairwise distinct.
pub open spec fn ids_distinct(s: Seq<TaskView>) -> bool {
    forall|i: int, j: int| 0 <= i < j < s.len() ==> s[i].id != s[j].id
}

/// Whether some task in `s` has this ID.
pub open spec fn has_id(s: Seq<TaskView>, id: Seq<char>) -> bool {
    exists|i: int| 0 <= i < s.len() && #[trigger] s[i].id == id
}

/// The position of the task with this ID (meaningful when `has_id`).
pub open spec fn pos_of(s: Seq<TaskView>, id: Seq<char>) -> int {
    choose|i: int| 0 <= i < s.len() && #[trigger] s[i].id == id
}

/// The task with this ID, if there is one.
pub open spec fn lookup(s: Seq<TaskView>, id: Seq<char>) -> Option<TaskView> {
    if has_id(s, id) {
        Some(s[pos_of(s, id)])
    } else {
        None
    }
}

/// Tasks keyed by their ID, each ID at most once. The entries keep the
/// order in which they were first inserted.
pub struct TaskMap {
    entries: Vec<Task>,
}

impl TaskMap {
    #[verifier::type_invariant]
    spec fn inv(self) -> bool {
        ids_distinct(task_views(self.entries@))
    }

    /// The tasks, in entry order.
    pub closed spec fn view(&self) -> Seq<TaskView> {
        task_views(self.entries@)
    }

    /// An empty map.
    pub fn new() -> (m: TaskMap)
        ensures
            m.view() == Seq::<TaskView>::empty(),
    {
        let m = TaskMap { entries: Vec::new() };
        assert(m.view() =~= Seq::<TaskView>::empty());
        m
    }

    /// Number of tasks.
    pub fn len(&self) -> (n: usize)
        ensures
            n == self.view().len(),
    {
        self.entries.len()
    }

    /// The tasks, in entry order.
    pub fn tasks(&self) -> (v: &Vec<Task>)
        ensures
            task_views(v@) == self.view(),
            ids_distinct(self.view()),
    {
        proof {
            use_type_invariant(self);
        }
        &self.entries
    }

    /// The position of the task with this ID.
    pub fn position(&self, id: &str) -> (r: Option<usize>)
        ensures
            match r {
                Some(i) => i < self.view().len() && self.view()[i as int].id == id@,
                None => !has_id(self.view(), id@),
            },
    {
        for i in 0..self.entries.len()
            invariant
                forall|j: int| 0 <= j < i ==> #[trigger] self.entries@[j].id@ != id@,
        {
            if str_eq(self.entries[i].id.as_str(), id) {
                assert(self.view()[i as int].id == self.entries@[i as int].id@);
                return Some(i);
            }
        }
        assert forall|j: int| 0 <= j < self.view().len() implies #[trigger] self.view()[j].id
            != id@ by {
            assert(self.view()[j].id == self.entries@[j].id@);
        }
        None
    }

    /// Whether a task has this ID.
    pub fn contains_key(&self, id: &str) -> (r: bool)
        ensures
            r == has_id(self.view(), id@),
    {
        self.position(id).is_some()
    }

    /// The task with this ID.
    pub fn get(&self, id: &str) -> (r: Option<&Task>)
        ensures
            match r {
                Some(t) => lookup(self.view(), id@) == Some(t@),
                None => lookup(self.view(), id@).is_none(),
            },
    {
        proof {
            use_type_invariant(self);
        }
        match self.position(id) {
            Some(i) => {
                proof {
                    let k = pos_of(self.view(), id@);
                    assert(self.view()[i as int].id == id@);
                    assert(k == i as int);
                }
                Some(&self.entries[i])
            },
            None => None,
        }
    }

    /// Inserts a task under its ID. A task already there with that ID is
    /// replaced in place and returned; otherwise the task is appended.
    pub fn insert(&mut self, t: Task) -> (r: Option<Task>)
        ensures
            match r {
                Some(old_t) => {
                    let i = pos_of(old(self).view(), t@.id);
                    &&& has_id(old(self).view(), t@.id)
                    &&& old_t@ == old(self).view()[i]
                    &&& final(self).view() == old(self).view().update(i, t@)
                },
                None => {
                    &&& !has_id(old(self).view(), t@.id)
                    &&& final(self).view() == old(self).view().push(t@)
                },
            },
    {
        proof {
            use_type_invariant(&*self);
        }
        let ghost tv = t@;
        match self.position(t.id.as_str()) {
            Some(i) => {
                proof {
                    let k = pos_of(self.view(), tv.id);
                    assert(k == i as int);
                }
                let mut entries: Vec<Task> = Vec::new();
                std::mem::swap(&mut entries, &mut self.entries);
                let ghost before = entries@;
                let old_t = entries.remove(i);
                entries.insert(i, t);
                assert(task_views(entries@) =~= task_views(before).update(i as int, tv));
                self.entries = entries;
                Some(old_t)
            },
            None => {
                let mut entries: Vec<Task> = Vec::new();
                std::mem::swap(&mut entries, &mut self.entries);
                let ghost before = entries@;
                entries.push(t);
                assert(task_views(entries@) =~= task_views(before).push(tv));
                self.entries = entries;
                None
            },
        }
    }

    /// Builds a map from a list of tasks; of two tasks with the same ID the
    /// later one wins, in the position of the earlier one.
    pub fn from_tasks(v: Vec<Task>) -> (m: TaskMap)
        ensures
            forall|id: Seq<char>| #[trigger] has_id(m.view(), id) == has_id(task_views(v@), id),
            m.view().len() <= v@.len(),
    {
        let mut m = TaskMap::new();
        let mut v = v;
        let ghost all = task_views(v@);
        let n = v.len();
        let mut rest: Vec<Task> = Vec::new();
        // take the tasks from the back, then insert them front to back
        while v.len() > 0
            invariant
                task_views(v@) + task_views(rest@).reverse() == all,
            decreases v@.len(),
        {
            let t = v.pop().unwrap();
            rest.push(t);
        }
        proof {
            assert(task_views(rest@).reverse() =~= all);
        }
        let ghost mut inserted = Seq::<TaskView>::empty();
        while rest.len() > 0
            invariant
                inserted + task_views(rest@).reverse() == all,
                forall|id: Seq<char>| #[trigger] has_id(m.view(), id) == has_id(inserted, id),
                m.view().len() <= inserted.len(),
            decreases rest@.len(),
        {
            let ghost before = task_views(rest@);
            let t = rest.pop().unwrap();
            proof {
                assert(before.reverse() =~= seq![t@] + task_views(rest@).reverse());
                assert(inserted.push(t@) + task_views(rest@).reverse() =~= all);
            }
            let ghost old_m = m.view();
            let _ = m.insert(t);
            proof {
                assert forall|id: Seq<char>| #[trigger] has_id(m.view(), id) == has_id(
                    inserted.push(t@),
                    id,
                ) by {
                    if has_id(inserted.push(t@), id) {
                        let k = choose|k: int| 0 <= k < inserted.push(t@).len() && #[trigger] inserted.push(t@)[k].id == id;
                        if k < inserted.len() {
                            assert(has_id(inserted, id));
                            assert(has_id(old_m, id));
                            let p = choose|p: int| 0 <= p < old_m.len() && #[trigger] old_m[p].id == id;
                            if p != pos_of(old_m, t@.id) || !has_id(old_m, t@.id) {
                                assert(m.view()[p].id == id);
                            } else {
                                assert(m.view()[p].id == t@.id);
                            }
                        } else {
                            if has_id(old_m, t@.id) {
                                assert(m.view()[pos_of(old_m, t@.id)].id == id);
                            } else {
                                assert(m.view()[old_m.len() as int].id == id);
                            }
                        }
                    }
                    if has_id(m.view(), id) {
                        let p = choose|p: int| 0 <= p < m.view().len() && #[trigger] m.view()[p].id == id;
                        if has_id(old_m, t@.id) {
                            if p == pos_of(old_m, t@.id) {
                                assert(inserted.push(t@)[inserted.len() as int].id == id);
                            } else {
                                assert(old_m[p].id == id);
                                assert(has_id(old_m, id));
                                assert(has_id(inserted, id));
                                let k = choose|k: int| 0 <= k < inserted.len() && #[trigger] inserted[k].id == id;
                                assert(inserted.push(t@)[k].id == id);
                            }
                        } else {
                            if p < old_m.len() {
                                assert(old_m[p].id == id);
                                assert(has_id(old_m, id));
                                assert(has_id(inserted, id));
                                let k = choose|k: int| 0 <= k < inserted.len() && #[trigger] inserted[k].id == id;
                                assert(inserted.push(t@)[k].id == id);
                            } else {
                                assert(inserted.push(t@)[inserted.len() as int].id == id);
                            }
                        }
                    }
                }
                inserted = inserted.push(t@);
            }
        }
        proof {
            assert(task_views(rest@).reverse() =~= Seq::<TaskView>::empty());
            assert(inserted =~= all);
        }
        m
    }
}

/// Appending a task with a new ID to a list of distinct IDs: the new ID
/// finds the new task, every other ID what it found before.
pub proof fn lemma_lookup_push(s: Seq<TaskView>, t: TaskView)
    requires
        ids_distinct(s),
        !has_id(s, t.id),
    ensures
        ids_distinct(s.push(t)),
        lookup(s.push(t), t.id) == Some(t),
        forall|id: Seq<char>| id != t.id ==> #[trigger] lookup(s.push(t), id) == lookup(s, id),
        forall|id: Seq<char>| #[trigger] has_id(s.push(t), id) <==> (has_id(s, id) || id == t.id),
{
    let u = s.push(t);
    assert forall|i: int, j: int| 0 <= i < j < u.len() implies u[i].id != u[j].id by {
        if j == s.len() {
            if u[i].id == t.id {
                assert(s[i].id == t.id);
            }
        } else {
            assert(s[i].id != s[j].id);
        }
    }
    assert(u[s.len() as int].id == t.id);
    assert(has_id(u, t.id));
    let p = pos_of(u, t.id);
    assert(p == s.len()) by {
        if p < s.len() {
            assert(s[p].id == t.id);
        }
    }
    assert forall|id: Seq<char>| #[trigger] has_id(u, id) <==> (has_id(s, id) || id == t.id) by {
        if has_id(s, id) {
            let i = choose|i: int| 0 <= i < s.len() && #[trigger] s[i].id == id;
            assert(u[i].id == id);
        }
        if has_id(u, id) && id != t.id {
            let i = choose|i: int| 0 <= i < u.len() && #[trigger] u[i].id == id;
            assert(s[i].id == id);
        }
    }
    assert forall|id: Seq<char>| id != t.id implies #[trigger] lookup(u, id) == lookup(s, id) by {
        if has_id(s, id) {
            let q = pos_of(s, id);
            let q2 = pos_of(u, id);
            assert(u[q].id == id);
            if q2 != q {
                if q2 < q {
                    assert(u[q2].id != u[q].id);
                } else {
                    assert(u[q].id != u[q2].id);
                }
            }
        }
    }
}

/// `ts` with the task that has `t`'s ID replaced by `t`.
pub open spec fn replaced(ts: Seq<TaskView>, t: TaskView) -> Seq<TaskView> {
    ts.update(pos_of(ts, t.id), t)
}

/// Replacing the task with `t`'s ID by `t` in a list of distinct IDs: `t`'s
/// ID finds `t`, every other ID what it found before.
pub proof fn lemma_lookup_replaced(ts: Seq<TaskView>, t: TaskView)
    requires
        ids_distinct(ts),
        has_id(ts, t.id),
    ensures
        ids_distinct(replaced(ts, t)),
        lookup(replaced(ts, t), t.id) == Some(t),
        forall|id: Seq<char>| id != t.id ==> #[trigger] lookup(replaced(ts, t), id) == lookup(ts, id),
{
    let k = pos_of(ts, t.id);
    let u = replaced(ts, t);
    assert forall|i: int, j: int| 0 <= i < j < u.len() implies u[i].id != u[j].id by {
        assert(ts[i].id != ts[j].id);
    }
    assert(u[k].id == t.id);
    assert(has_id(u, t.id));
    let p = pos_of(u, t.id);
    assert(p == k) by {
        if p != k {
            if p < k {
                assert(u[p].id != u[k].id);
            } else {
                assert(u[k].id != u[p].id);
            }
        }
    }
    assert forall|id: Seq<char>| id != t.id implies #[trigger] lookup(u, id) == lookup(ts, id) by {
        if has_id(ts, id) {
            let q = pos_of(ts, id);
            assert(q != k);
            assert(u[q].id == id);
            let q2 = pos_of(u, id);
            if q2 != q {
                if q2 < q {
                    assert(u[q2].id != u[q].id);
                } else {
                    assert(u[q].id != u[q2].id);
                }
            }
        } else {
            if has_id(u, id) {
                let i = choose|i: int| 0 <= i < u.len() && #[trigger] u[i].id == id;
                assert(ts[i].id == id);
            }
        }
    }
}

} // verus!
