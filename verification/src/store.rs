use vstd::prelude::*;

use crate::error::Error;
use crate::task::{Task, TaskView, str_views, task_views};
use crate::taskmap::{TaskMap, has_id, lookup};
use crate::text::{push_all, push_char, starts_with, str_eq, str_lt, str_lt_spec};

verus! {

/// The directory, under the project directory, that holds the task files.
pub const BEARS_DIR: &'static str = ".bears";

/// The directory, under the task directory, that holds archived task files.
pub const ARCHIVE_SUBDIR: &'static str = "archive";

/// `Path::join` with a relative component: the component alone after an
/// empty base, appended directly after a trailing `/`, and after a `/`
/// otherwise.
pub open spec fn join_path_spec(base: Seq<char>, name: Seq<char>) -> Seq<char> {
    if base.len() == 0 {
        name
    } else if base.last() == '/' {
        base + name
    } else {
        base + seq!['/'] + name
    }
}

/// Joins the relative path `name` onto `base` (see `join_path_spec`).
pub fn join_path(base: &str, name: &str) -> (p: String)
    ensures
        p@ == join_path_spec(base@, name@),
{
    let n = base.unicode_len();
    let mut p = String::new();
    push_all(&mut p, base);
    if n > 0 && base.get_char(n - 1) != '/' {
        push_char(&mut p, '/');
    }
    push_all(&mut p, name);
    p
}

/// The `.bears/` directory under the project directory `base`.
pub fn tasks_dir(base: &str) -> (p: String)
    ensures
        p@ == join_path_spec(base@, ".bears"@),
{
    join_path(base, BEARS_DIR)
}

/// The `.bears/archive/` directory under the project directory `base`.
pub fn archive_dir(base: &str) -> (p: String)
    ensures
        p@ == join_path_spec(join_path_spec(base@, ".bears"@), "archive"@),
{
    let d = tasks_dir(base);
    join_path(d.as_str(), ARCHIVE_SUBDIR)
}

/// Whether `s` ends with `t`.
pub fn ends_with(s: &str, t: &str) -> (r: bool)
    ensures
        r == t@.is_suffix_of(s@),
{
    let n = s.unicode_len();
    let m = t.unicode_len();
    if m > n {
        return false;
    }
    for i in 0..m
        invariant
            n == s@.len(),
            m == t@.len(),
            m <= n,
            forall|j: int| 0 <= j < i ==> t@[j] == s@[n - m + j],
    {
        if t.get_char(i) != s.get_char(n - m + i) {
            return false;
        }
    }
    assert(t@ =~= s@.subrange(n - m, n as int));
    true
}

/// A task file name of task `id`: `{id}-` at the start and `.md` at the end.
pub open spec fn names_task_file(name: Seq<char>, id: Seq<char>) -> bool {
    (id + seq!['-']).is_prefix_of(name) && ".md"@.is_suffix_of(name)
}

/// Whether `name` is a task file name of task `id`.
pub fn is_task_file_of(name: &str, id: &str) -> (r: bool)
    ensures
        r == names_task_file(name@, id@),
{
    let mut prefix = String::new();
    push_all(&mut prefix, id);
    push_char(&mut prefix, '-');
    starts_with(name, prefix.as_str()) && ends_with(name, ".md")
}

/// The position, among `names`, of the task file of `id` that sorts
/// first, when there is one: of several files of one task, that one counts.
pub fn first_task_file(names: &Vec<String>, id: &str) -> (r: Option<usize>)
    ensures
        match r {
            Some(k) => k < names@.len() && names_task_file(names@[k as int]@, id@) && forall|j: int|
                0 <= j < names@.len() && names_task_file(#[trigger] names@[j]@, id@) ==> !str_lt_spec(names@[j]@, names@[k as int]@),
            None => forall|j: int| 0 <= j < names@.len() ==> !names_task_file(#[trigger] names@[j]@, id@),
        },
{
    let mut best: Option<usize> = None;
    for i in 0..names.len()
        invariant
            match best {
                Some(k) => k < i && names_task_file(names@[k as int]@, id@) && forall|j: int|
                    0 <= j < i && names_task_file(#[trigger] names@[j]@, id@) ==> !str_lt_spec(names@[j]@, names@[k as int]@),
                None => forall|j: int| 0 <= j < i ==> !names_task_file(#[trigger] names@[j]@, id@),
            },
    {
        if is_task_file_of(names[i].as_str(), id) {
            match best {
                Some(k) => {
                    if str_lt(names[i].as_str(), names[k].as_str()) {
                        proof {
                            assert forall|j: int|
                                0 <= j < i + 1 && names_task_file(#[trigger] names@[j]@, id@) implies !str_lt_spec(names@[j]@, names@[i as int]@) by {
                                crate::text::lemma_str_lt_order(names@[j]@, names@[i as int]@, names@[k as int]@);
                                crate::text::lemma_str_lt_order(names@[i as int]@, names@[k as int]@, names@[j]@);
                                crate::text::lemma_str_lt_order(names@[j]@, names@[k as int]@, names@[i as int]@);
                            }
                        }
                        best = Some(i);
                    } else {
                        proof {
                            assert forall|j: int|
                                0 <= j < i + 1 && names_task_file(#[trigger] names@[j]@, id@) implies !str_lt_spec(names@[j]@, names@[k as int]@) by {
                                if j == i {
                                }
                            }
                        }
                    }
                },
                None => {
                    proof {
                        crate::text::lemma_str_lt_order(names@[i as int]@, names@[i as int]@, names@[i as int]@);
                    }
                    best = Some(i);
                },
            }
        }
    }
    best
}

/// The position of the first `-` in `s`, or its length when it has none.
pub open spec fn first_dash(s: Seq<char>) -> int
    decreases s.len(),
{
    if s.len() == 0 {
        0
    } else if s[0] == '-' {
        0
    } else {
        1 + first_dash(s.drop_first())
    }
}

proof fn lemma_first_dash(s: Seq<char>)
    ensures
        0 <= first_dash(s) <= s.len(),
        forall|k: int| 0 <= k < first_dash(s) ==> s[k] != '-',
        first_dash(s) < s.len() ==> s[first_dash(s)] == '-',
    decreases s.len(),
{
    if s.len() > 0 && s[0] != '-' {
        lemma_first_dash(s.drop_first());
        assert forall|k: int| 0 <= k < first_dash(s) implies s[k] != '-' by {
            if k > 0 {
                assert(s[k] == s.drop_first()[k - 1]);
            }
        }
    }
}

/// The task ID that an archived file name carries: the part before its
/// first `-`, for names that end in `.md`.
pub open spec fn archived_id_of(name: Seq<char>) -> Option<Seq<char>> {
    if ".md"@.is_suffix_of(name) {
        Some(name.take(first_dash(name)))
    } else {
        None
    }
}

/// The task ID of an archived file name (see `archived_id_of`).
pub fn archived_id(name: &str) -> (r: Option<String>)
    ensures
        match r {
            Some(s) => archived_id_of(name@) == Some(s@),
            None => archived_id_of(name@).is_none(),
        },
{
    if !ends_with(name, ".md") {
        return None;
    }
    proof {
        lemma_first_dash(name@);
    }
    let n = name.unicode_len();
    let mut id = String::new();
    let mut i: usize = 0;
    while i < n && name.get_char(i) != '-'
        invariant
            n == name@.len(),
            i <= n,
            id@ == name@.take(i as int),
            forall|k: int| 0 <= k < i ==> name@[k] != '-',
        decreases n - i,
    {
        push_char(&mut id, name.get_char(i));
        assert(id@ =~= name@.take(i + 1));
        i = i + 1;
    }
    proof {
        if (i as int) < first_dash(name@) {
            assert(name@[i as int] != '-');
        }
        if (i as int) > first_dash(name@) {
            assert(name@[first_dash(name@)] == '-');
        }
    }
    Some(id)
}

/// How a task ID or prefix resolves against `ts`: the ID itself when a task
/// has it; else the one ID that starts with it; else no task, or several.
pub open spec fn prefix_matches(ts: Seq<TaskView>, prefix: Seq<char>) -> Seq<Seq<char>>
    decreases ts.len(),
{
    if ts.len() == 0 {
        Seq::<Seq<char>>::empty()
    } else {
        let r = prefix_matches(ts.drop_last(), prefix);
        if prefix.is_prefix_of(ts.last().id) {
            r.push(ts.last().id)
        } else {
            r
        }
    }
}

/// The matches of a prefix are exactly the task IDs that start with it:
/// each listed ID is a task's ID whose first characters are `prefix`, and
/// every task ID that starts with `prefix` is listed.
pub proof fn lemma_prefix_matches_start_with(ts: Seq<TaskView>, prefix: Seq<char>)
    ensures
        forall|i: int|
            0 <= i < prefix_matches(ts, prefix).len() ==> {
                &&& prefix.len() <= (#[trigger] prefix_matches(ts, prefix)[i]).len()
                &&& prefix_matches(ts, prefix)[i].subrange(0, prefix.len() as int) == prefix
                &&& has_id(ts, prefix_matches(ts, prefix)[i])
            },
        forall|j: int|
            0 <= j < ts.len() && prefix.len() <= (#[trigger] ts[j]).id.len() && ts[j].id.subrange(0, prefix.len() as int)
                == prefix ==> prefix_matches(ts, prefix).contains(ts[j].id),
    decreases ts.len(),
{
    if ts.len() > 0 {
        let p = ts.drop_last();
        let l = ts.last();
        lemma_prefix_matches_start_with(p, prefix);
        let r = prefix_matches(p, prefix);
        let q = prefix_matches(ts, prefix);
        assert(ts[ts.len() - 1] == l);
        if prefix.is_prefix_of(l.id) {
            assert(q == r.push(l.id));
        } else {
            assert(q == r);
        }
        assert forall|i: int| 0 <= i < q.len() implies {
            &&& prefix.len() <= (#[trigger] q[i]).len()
            &&& q[i].subrange(0, prefix.len() as int) == prefix
            &&& has_id(ts, q[i])
        } by {
            if i < r.len() {
                assert(q[i] == r[i]);
                let k = choose|k: int| 0 <= k < p.len() && #[trigger] p[k].id == r[i];
                assert(ts[k].id == r[i]);
            } else {
                assert(q[i] == l.id);
                assert(ts[ts.len() - 1].id == l.id);
            }
        }
        assert forall|j: int|
            0 <= j < ts.len() && prefix.len() <= (#[trigger] ts[j]).id.len() && ts[j].id.subrange(0, prefix.len() as int)
                == prefix implies q.contains(ts[j].id) by {
            if j < ts.len() - 1 {
                assert(p[j] == ts[j]);
                assert(r.contains(ts[j].id));
                let k = choose|k: int| 0 <= k < r.len() && r[k] == ts[j].id;
                assert(q[k] == ts[j].id);
            } else {
                assert(prefix =~= l.id.subrange(0, prefix.len() as int));
                assert(q[r.len() as int] == l.id);
            }
        }
    }
}

/// `matches` lists the IDs of `ms` in `str` order, each once.
pub open spec fn sorted_listing(ms: Seq<Seq<char>>, listed: Seq<Seq<char>>) -> bool {
    &&& listed.len() == ms.len()
    &&& forall|x: Seq<char>| #[trigger] listed.contains(x) <==> ms.contains(x)
    &&& forall|i: int, j: int| 0 <= i < j < listed.len() ==> !str_lt_spec(listed[j], listed[i])
}

/// Resolves a task ID or a unique prefix of one to the full ID. An exact ID
/// wins; otherwise exactly one ID must start with `prefix`. No match is
/// `TaskNotFound(prefix)`; several are `AmbiguousPrefix`, listing them
/// sorted and separated by `, `.
pub fn resolve_prefix(tasks: &TaskMap, prefix: &str) -> (r: Result<String, Error>)
    ensures
        match r {
            Ok(id) => if has_id(tasks.view(), prefix@) {
                id@ == prefix@
            } else {
                prefix_matches(tasks.view(), prefix@).len() == 1 && id@ == prefix_matches(tasks.view(), prefix@)[0]
            },
            Err(Error::TaskNotFound(p)) => !has_id(tasks.view(), prefix@) && prefix_matches(tasks.view(), prefix@).len() == 0 && p@ == prefix@,
            Err(Error::AmbiguousPrefix { prefix: p, matches }) => {
                &&& !has_id(tasks.view(), prefix@)
                &&& prefix_matches(tasks.view(), prefix@).len() >= 2
                &&& p@ == prefix@
                &&& exists|listed: Seq<Seq<char>>|
                    #[trigger] sorted_listing(prefix_matches(tasks.view(), prefix@), listed) && matches@ == crate::text::joined(listed, ", "@)
            },
            Err(_) => false,
        },
{
    if tasks.contains_key(prefix) {
        return Ok(prefix.to_string());
    }
    let ghost ts = tasks.view();
    let all = tasks.tasks();
    let mut ms: Vec<String> = Vec::new();
    for i in 0..all.len()
        invariant
            ts == tasks.view(),
            ts == task_views(all@),
            str_views(ms@) == prefix_matches(ts.take(i as int), prefix@),
    {
        assert(ts.take(i + 1).drop_last() =~= ts.take(i as int));
        if starts_with(all[i].id.as_str(), prefix) {
            ms.push(all[i].id.clone());
            assert(str_views(ms@) =~= prefix_matches(ts.take(i as int), prefix@).push(ts[i as int].id));
        }
    }
    assert(ts.take(all@.len() as int) =~= ts);
    if ms.len() == 0 {
        return Err(Error::TaskNotFound(prefix.to_string()));
    }
    if ms.len() == 1 {
        return Ok(ms[0].clone());
    }
    let sorted = crate::text::sort_strings(&ms);
    let joined = crate::text::join_strings(&sorted, ", ");
    proof {
        let listed = str_views(sorted@);
        let msv = str_views(ms@);
        assert forall|x: Seq<char>| #[trigger] listed.contains(x) <==> msv.contains(x) by {
            assert(listed.contains(x) == crate::text::string_views(sorted@).contains(x));
        }
        assert(sorted_listing(prefix_matches(ts, prefix@), listed));

    }
    Err(Error::AmbiguousPrefix { prefix: prefix.to_string(), matches: joined })
}

/// Position `q` of `order` is the first at which a file of task `id` comes.
pub open spec fn first_in(files: Seq<(String, Task)>, order: Seq<usize>, q: int, id: Seq<char>) -> bool {
    &&& files[order[q] as int].1@.id == id
    &&& forall|r: int| 0 <= r < q ==> #[trigger] files[order[r] as int].1@.id != id
}

/// `m` holds, for each task of the files at the first `p` positions of
/// `order`, the task of the first of them.
pub open spec fn winners(m: Seq<TaskView>, files: Seq<(String, Task)>, order: Seq<usize>, p: int) -> bool {
    &&& forall|id: Seq<char>|
        #[trigger] has_id(m, id) <==> exists|q: int| 0 <= q < p && #[trigger] files[order[q] as int].1@.id == id
    &&& forall|id: Seq<char>|
        #[trigger] has_id(m, id) ==> exists|q: int|
            0 <= q < p && lookup(m, id) == Some(#[trigger] files[order[q] as int].1@) && first_in(files, order, q, id)
}

proof fn lemma_winners_insert(m: Seq<TaskView>, files: Seq<(String, Task)>, order: Seq<usize>, p: int)
    requires
        0 <= p < order.len(),
        winners(m, files, order, p),
        crate::taskmap::ids_distinct(m),
        !has_id(m, files[order[p] as int].1@.id),
    ensures
        winners(m.push(files[order[p] as int].1@), files, order, p + 1),
{
    let tv = files[order[p] as int].1@;
    let m2 = m.push(tv);
    crate::taskmap::lemma_lookup_push(m, tv);
    assert forall|id: Seq<char>|
        #[trigger] has_id(m2, id) <==> exists|q: int| 0 <= q < p + 1 && #[trigger] files[order[q] as int].1@.id == id by {
        if id == tv.id {
            assert(files[order[p] as int].1@.id == id);
        }
        if exists|q: int| 0 <= q < p + 1 && #[trigger] files[order[q] as int].1@.id == id {
            let q = choose|q: int| 0 <= q < p + 1 && #[trigger] files[order[q] as int].1@.id == id;
            if q < p {
                assert(has_id(m, id));
            }
        }
    }
    assert forall|id: Seq<char>|
        #[trigger] has_id(m2, id) implies exists|q: int|
            0 <= q < p + 1 && lookup(m2, id) == Some(#[trigger] files[order[q] as int].1@) && first_in(files, order, q, id) by {
        if id == tv.id {
            assert forall|r: int| 0 <= r < p implies #[trigger] files[order[r] as int].1@.id != id by {
                if files[order[r] as int].1@.id == id {
                    assert(has_id(m, id));
                }
            }
            assert(first_in(files, order, p, id));
        } else {
            assert(has_id(m, id));
            let q = choose|q: int|
                0 <= q < p && lookup(m, id) == Some(#[trigger] files[order[q] as int].1@) && first_in(files, order, q, id);
            assert(lookup(m2, id) == lookup(m, id));
        }
    }
}

proof fn lemma_winners_skip(m: Seq<TaskView>, files: Seq<(String, Task)>, order: Seq<usize>, p: int)
    requires
        0 <= p < order.len(),
        winners(m, files, order, p),
        has_id(m, files[order[p] as int].1@.id),
    ensures
        winners(m, files, order, p + 1),
{
    assert forall|id: Seq<char>|
        #[trigger] has_id(m, id) <==> exists|q: int| 0 <= q < p + 1 && #[trigger] files[order[q] as int].1@.id == id by {
        if has_id(m, id) {
            let q = choose|q: int| 0 <= q < p && #[trigger] files[order[q] as int].1@.id == id;
        }
    }
    assert forall|id: Seq<char>|
        #[trigger] has_id(m, id) implies exists|q: int|
            0 <= q < p + 1 && lookup(m, id) == Some(#[trigger] files[order[q] as int].1@) && first_in(files, order, q, id) by {
        let q = choose|q: int|
            0 <= q < p && lookup(m, id) == Some(#[trigger] files[order[q] as int].1@) && first_in(files, order, q, id);
    }
}

/// Of several loaded task files, keeps for each task ID the task from the
/// file whose path sorts first, so the choice does not depend on the order
/// in which the files were read.
pub fn keep_first_by_path(files: Vec<(String, Task)>) -> (m: TaskMap)
    ensures
        forall|id: Seq<char>|
            #[trigger] has_id(m.view(), id) <==> exists|i: int| 0 <= i < files@.len() && #[trigger] files@[i].1@.id == id,
        forall|id: Seq<char>|
            #[trigger] has_id(m.view(), id) ==> exists|i: int|
                0 <= i < files@.len() && lookup(m.view(), id) == Some(#[trigger] files@[i].1@) && files@[i].1@.id == id
                    && forall|j: int|
                    0 <= j < files@.len() && #[trigger] files@[j].1@.id == id ==> !str_lt_spec(files@[j].0@, files@[i].0@),
{
    let mut paths: Vec<String> = Vec::new();
    for i in 0..files.len()
        invariant
            paths@.len() == i,
            forall|k: int| 0 <= k < i ==> #[trigger] paths@[k]@ == files@[k].0@,
    {
        paths.push(files[i].0.clone());
    }
    let order = crate::text::string_order(&paths);
    let mut m = TaskMap::new();
    for p in 0..order.len()
        invariant
            order@.len() == files@.len(),
            forall|i: int| 0 <= i < order@.len() ==> #[trigger] order@[i] < files@.len(),
            winners(m.view(), files@, order@, p as int),
    {
        let t = &files[order[p]].1;
        if !m.contains_key(t.id.as_str()) {
            let ghost old_m = m.view();
            let _ = m.tasks();
            let _ = m.insert(t.clone());
            proof {
                lemma_winners_insert(old_m, files@, order@, p as int);
            }
        } else {
            proof {
                lemma_winners_skip(m.view(), files@, order@, p as int);
            }
        }
    }
    let nfiles = files.len();
    proof {
        assert(nfiles == files@.len());
        lemma_keep_first_final(m.view(), files@, order@, paths@);
    }
    m
}

proof fn lemma_keep_first_final(m: Seq<TaskView>, files: Seq<(String, Task)>, order: Seq<usize>, paths: Seq<String>)
    requires
        files.len() <= usize::MAX,
        order.len() == files.len(),
        paths.len() == files.len(),
        forall|k: int| 0 <= k < files.len() ==> #[trigger] paths[k]@ == files[k].0@,
        forall|i: int| 0 <= i < order.len() ==> #[trigger] order[i] < files.len(),
        forall|i: int, j: int| 0 <= i < j < order.len() ==> order[i] != order[j],
        forall|i: int, j: int| 0 <= i < j < order.len() ==> !str_lt_spec(paths[order[j] as int]@, paths[order[i] as int]@),
        winners(m, files, order, order.len() as int),
    ensures
        forall|id: Seq<char>|
            #[trigger] has_id(m, id) <==> exists|i: int| 0 <= i < files.len() && #[trigger] files[i].1@.id == id,
        forall|id: Seq<char>|
            #[trigger] has_id(m, id) ==> exists|i: int|
                0 <= i < files.len() && lookup(m, id) == Some(#[trigger] files[i].1@) && files[i].1@.id == id
                    && forall|j: int|
                    0 <= j < files.len() && #[trigger] files[j].1@.id == id ==> !str_lt_spec(files[j].0@, files[i].0@),
{
    crate::order::lemma_perm_covers(order, files.len() as int);
    assert forall|id: Seq<char>|
        #[trigger] has_id(m, id) <==> exists|i: int| 0 <= i < files.len() && #[trigger] files[i].1@.id == id by {
        if exists|i: int| 0 <= i < files.len() && #[trigger] files[i].1@.id == id {
            let i = choose|i: int| 0 <= i < files.len() && #[trigger] files[i].1@.id == id;
            assert(order.contains(i as usize));
            let k = choose|k: int| 0 <= k < order.len() && order[k] == i as usize;
            assert(files[order[k] as int].1@.id == id);
        }
        if has_id(m, id) {
            let q = choose|q: int| 0 <= q < order.len() && #[trigger] files[order[q] as int].1@.id == id;
            assert(files[order[q] as int].1@.id == id);
        }
    }
    assert forall|id: Seq<char>|
        #[trigger] has_id(m, id) implies exists|i: int|
            0 <= i < files.len() && lookup(m, id) == Some(#[trigger] files[i].1@) && files[i].1@.id == id
                && forall|j: int|
                0 <= j < files.len() && #[trigger] files[j].1@.id == id ==> !str_lt_spec(files[j].0@, files[i].0@) by {
        let q = choose|q: int|
            0 <= q < order.len() && lookup(m, id) == Some(#[trigger] files[order[q] as int].1@) && first_in(files, order, q, id);
        let i = order[q] as int;
        assert forall|j: int|
            0 <= j < files.len() && #[trigger] files[j].1@.id == id implies !str_lt_spec(files[j].0@, files[i].0@) by {
            assert(order.contains(j as usize));
            let r = choose|r: int| 0 <= r < order.len() && order[r] == j as usize;
            if r < q {
                assert(files[order[r] as int].1@.id != id);
            } else if r == q {
                crate::text::lemma_str_lt_order(files[i].0@, files[i].0@, files[i].0@);
            } else {
                assert(!str_lt_spec(paths[order[r] as int]@, paths[order[q] as int]@));
            }
        }
    }
}

} // verus!
