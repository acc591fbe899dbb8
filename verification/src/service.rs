use vstd::prelude::*;

use crate::error::Error;
use crate::graph::{Graph, GraphView, filter_tasks, graph_of};
use crate::store::{prefix_matches, resolve_prefix, sorted_listing};
use crate::task::{
    Priority, Status, Task, TaskType, TaskView, Timestamp, clone_strings, str_views, task_views,
};
use crate::taskmap::{TaskMap, has_id, lookup};
use crate::text::joined;

verus! {

// ── Resolving IDs ───────────────────────────────────────────────────

/// The full ID that `p` resolves to among `ts`: itself when a task has
/// it, else the one ID that starts with it, else none.
pub open spec fn resolved(ts: Seq<TaskView>, p: Seq<char>) -> Option<Seq<char>> {
    if has_id(ts, p) {
        Some(p)
    } else if prefix_matches(ts, p).len() == 1 {
        Some(prefix_matches(ts, p)[0])
    } else {
        None
    }
}

/// `p` names no task and more than one ID starts with it.
pub open spec fn ambiguous(ts: Seq<TaskView>, p: Seq<char>) -> bool {
    !has_id(ts, p) && prefix_matches(ts, p).len() >= 2
}

/// `e` is the error for the ambiguous prefix `p`: it lists the matching
/// IDs sorted and separated by `, `.
pub open spec fn ambiguous_error(ts: Seq<TaskView>, p: Seq<char>, e: Error) -> bool {
    match e {
        Error::AmbiguousPrefix { prefix, matches } => {
            &&& prefix@ == p
            &&& exists|listed: Seq<Seq<char>>|
                #[trigger] sorted_listing(prefix_matches(ts, p), listed) && matches@ == joined(listed, ", "@)
        },
        _ => false,
    }
}

/// `e` is the error for a `p` that resolves to no task: ambiguity when
/// several IDs start with it, `TaskNotFound(p)` when none does.
pub open spec fn resolve_failure(ts: Seq<TaskView>, p: Seq<char>, e: Error) -> bool {
    if ambiguous(ts, p) {
        ambiguous_error(ts, p, e)
    } else {
        e matches Error::TaskNotFound(q) && q@ == p
    }
}

/// An ID or prefix resolves only to the ID of a task that starts with it.
pub proof fn lemma_resolved_starts_with(ts: Seq<TaskView>, p: Seq<char>)
    ensures
        resolved(ts, p) matches Some(id) ==> has_id(ts, id) && p.len() <= id.len() && id.subrange(0, p.len() as int)
            == p,
{
    crate::store::lemma_prefix_matches_start_with(ts, p);
    if !has_id(ts, p) && prefix_matches(ts, p).len() == 1 {
        let id = prefix_matches(ts, p)[0];
        assert(has_id(ts, id));
    }
    if has_id(ts, p) {
        assert(p.subrange(0, p.len() as int) =~= p);
    }
}

/// Resolves an ID or a unique prefix of one (see `resolved`).
fn resolve(tasks: &TaskMap, p: &str) -> (r: Result<String, Error>)
    ensures
        match r {
            Ok(id) => resolved(tasks.view(), p@) == Some(id@) && has_id(tasks.view(), id@),
            Err(e) => resolved(tasks.view(), p@).is_none() && resolve_failure(tasks.view(), p@, e),
        },
{
    let r = resolve_prefix(tasks, p);
    proof {
        let ts = tasks.view();
        if prefix_matches(ts, p@).len() >= 1 {
            lemma_prefix_matches_ids(ts, p@, 0);
        }
    }
    r
}

proof fn lemma_prefix_matches_ids(ts: Seq<TaskView>, p: Seq<char>, k: int)
    requires
        0 <= k < prefix_matches(ts, p).len(),
    ensures
        has_id(ts, prefix_matches(ts, p)[k]),
    decreases ts.len(),
{
    let r = prefix_matches(ts.drop_last(), p);
    if k < r.len() {
        lemma_prefix_matches_ids(ts.drop_last(), p, k);
        let i = choose|i: int| 0 <= i < ts.drop_last().len() && #[trigger] ts.drop_last()[i].id == r[k];
        assert(ts[i].id == r[k]);
    } else {
        assert(ts[ts.len() - 1].id == ts.last().id);
    }
}

// ── Creating tasks ──────────────────────────────────────────────────

/// Fields for creating a task. Build with `NewTask::new` and set the
/// fields that differ from the defaults.
pub struct NewTask {
    pub title: String,
    pub priority: Priority,
    pub tags: Vec<String>,
    pub depends_on: Vec<String>,
    pub parent: Option<String>,
    pub body: String,
    pub task_type: TaskType,
}

impl NewTask {
    /// A task with this title, priority P2, type task, and nothing else.
    pub fn new(title: String) -> (n: NewTask)
        ensures
            n.title@ == title@,
            n.priority == Priority::P2,
            n.tags@.len() == 0,
            n.depends_on@.len() == 0,
            n.parent.is_none(),
            n.body@.len() == 0,
            n.task_type == TaskType::Task,
    {
        NewTask {
            title,
            priority: Priority::P2,
            tags: Vec::new(),
            depends_on: Vec::new(),
            parent: None,
            body: String::new(),
            task_type: TaskType::Task,
        }
    }
}

/// The position of the first dependency in `deps` that is an ambiguous
/// prefix, if any.
pub open spec fn first_ambiguous(ts: Seq<TaskView>, deps: Seq<Seq<char>>) -> Option<int>
    decreases deps.len(),
{
    if deps.len() == 0 {
        None
    } else {
        match first_ambiguous(ts, deps.drop_last()) {
            Some(k) => Some(k),
            None => if ambiguous(ts, deps.last()) {
                Some(deps.len() - 1)
            } else {
                None
            },
        }
    }
}

/// The dependencies in `deps` that resolve to no task, in order.
pub open spec fn unknown_deps(ts: Seq<TaskView>, deps: Seq<Seq<char>>) -> Seq<Seq<char>>
    decreases deps.len(),
{
    if deps.len() == 0 {
        Seq::<Seq<char>>::empty()
    } else {
        let r = unknown_deps(ts, deps.drop_last());
        if resolved(ts, deps.last()).is_none() && !ambiguous(ts, deps.last()) {
            r.push(deps.last())
        } else {
            r
        }
    }
}

/// The full IDs that the dependencies in `deps` resolve to, in order.
pub open spec fn resolved_deps(ts: Seq<TaskView>, deps: Seq<Seq<char>>) -> Seq<Seq<char>>
    decreases deps.len(),
{
    if deps.len() == 0 {
        Seq::<Seq<char>>::empty()
    } else {
        let r = resolved_deps(ts, deps.drop_last());
        match resolved(ts, deps.last()) {
            Some(id) => r.push(id),
            None => r,
        }
    }
}

/// How the parent given for a new task resolves.
pub enum ParentOutcome {
    /// No parent, or an empty one.
    NoParent,
    /// The parent is the epic with this ID.
    Epic(Seq<char>),
    /// The parent resolves to no task.
    Unresolved(Seq<char>),
    /// The parent resolves to a task that is not an epic.
    NotEpic(Seq<char>),
}

/// How the parent `p` of a new task resolves among `ts`.
pub open spec fn parent_outcome(ts: Seq<TaskView>, p: Option<Seq<char>>) -> ParentOutcome {
    match p {
        None => ParentOutcome::NoParent,
        Some(q) => if q.len() == 0 {
            ParentOutcome::NoParent
        } else {
            match resolved(ts, q) {
                None => ParentOutcome::Unresolved(q),
                Some(id) => match lookup(ts, id) {
                    Some(t) => if t.task_type == TaskType::Epic {
                        ParentOutcome::Epic(id)
                    } else {
                        ParentOutcome::NotEpic(id)
                    },
                    None => ParentOutcome::Unresolved(q),
                },
            }
        },
    }
}

/// The task created from `new` with this ID at this time, with its
/// dependencies and parent resolved.
pub open spec fn created_view(
    ts: Seq<TaskView>,
    new: NewTask,
    id: Seq<char>,
    at: Timestamp,
    parent: Option<Seq<char>>,
) -> TaskView {
    TaskView {
        id,
        title: new.title@,
        task_type: new.task_type,
        status: Status::Open,
        priority: new.priority,
        created: at,
        updated: at,
        tags: str_views(new.tags@),
        depends_on: resolved_deps(ts, str_views(new.depends_on@)),
        parent,
        assignee: Seq::<char>::empty(),
        body: new.body@,
    }
}

/// Whether `new` passes the checks of creation: no dependency is an
/// ambiguous prefix, every dependency names a task, and the parent, when
/// one is given, resolves to an epic.
pub open spec fn new_task_valid(ts: Seq<TaskView>, new: NewTask) -> bool {
    let deps = str_views(new.depends_on@);
    &&& first_ambiguous(ts, deps).is_none()
    &&& unknown_deps(ts, deps).len() == 0
    &&& (parent_outcome(ts, crate::task::opt_str_view(new.parent)) is NoParent
        || parent_outcome(ts, crate::task::opt_str_view(new.parent)) is Epic)
}

/// The error creation gives for `new`: the first ambiguous dependency is
/// an error; then dependencies that name no task are an error listing
/// them; then a parent that resolves to no task, or to a task that is not
/// an epic.
pub open spec fn rejection(ts: Seq<TaskView>, new: NewTask, e: Error) -> bool {
    let deps = str_views(new.depends_on@);
    match first_ambiguous(ts, deps) {
        Some(k) => ambiguous_error(ts, deps[k], e),
        None => if unknown_deps(ts, deps).len() > 0 {
            e matches Error::UnknownDependency { ids } && str_views(ids@) == unknown_deps(ts, deps)
        } else {
            match parent_outcome(ts, crate::task::opt_str_view(new.parent)) {
                ParentOutcome::Unresolved(q) => resolve_failure(ts, q, e),
                ParentOutcome::NotEpic(pid) => e matches Error::ParentNotEpic(x) && x@ == pid,
                _ => false,
            }
        },
    }
}

/// The parent a valid new task gets: the epic its parent resolves to.
pub open spec fn new_parent(ts: Seq<TaskView>, new: NewTask) -> Option<Seq<char>> {
    match parent_outcome(ts, crate::task::opt_str_view(new.parent)) {
        ParentOutcome::Epic(pid) => Some(pid),
        _ => None,
    }
}

/// What creating `new` with this ID at this time gives: the task, when
/// `new` passes the checks, else the error of `rejection`.
pub open spec fn creation(ts: Seq<TaskView>, new: NewTask, id: Seq<char>, at: Timestamp, r: Result<Task, Error>) -> bool {
    if new_task_valid(ts, new) {
        r matches Ok(t) && t@ == created_view(ts, new, id, at, new_parent(ts, new))
    } else {
        r matches Err(e) && rejection(ts, new, e)
    }
}

/// Checks `new` against `tasks` (see `new_task_valid`): its dependencies
/// resolved to full IDs, in order, and its parent resolved to an epic's ID,
/// or the error of `rejection`.
pub fn validate_new_task(tasks: &TaskMap, new: &NewTask) -> (r: Result<(Vec<String>, Option<String>), Error>)
    ensures
        match r {
            Ok((d, p)) => new_task_valid(tasks.view(), *new) && str_views(d@) == resolved_deps(
                tasks.view(),
                str_views(new.depends_on@),
            ) && crate::task::opt_str_view(p) == new_parent(tasks.view(), *new),
            Err(e) => !new_task_valid(tasks.view(), *new) && rejection(tasks.view(), *new, e),
        },
{
    let ghost ts = tasks.view();
    let ghost deps = str_views(new.depends_on@);
    let mut resolved_list: Vec<String> = Vec::new();
    let mut unknown: Vec<String> = Vec::new();
    for k in 0..new.depends_on.len()
        invariant
            ts == tasks.view(),
            deps == str_views(new.depends_on@),
            first_ambiguous(ts, deps.take(k as int)).is_none(),
            str_views(unknown@) == unknown_deps(ts, deps.take(k as int)),
            str_views(resolved_list@) == resolved_deps(ts, deps.take(k as int)),
    {
        assert(deps.take(k + 1).drop_last() =~= deps.take(k as int));
        assert(deps.take(k + 1).last() == new.depends_on@[k as int]@);
        match resolve(tasks, new.depends_on[k].as_str()) {
            Ok(dep_id) => {
                assert(!ambiguous(ts, deps[k as int]));
                resolved_list.push(dep_id);
                assert(str_views(resolved_list@) =~= resolve_deps_push(ts, deps, k as int, resolved_list@.last()@));
            },
            Err(e) => {
                if let Error::TaskNotFound(_) = e {
                    assert(!ambiguous(ts, deps[k as int]));
                    unknown.push(new.depends_on[k].clone());
                    assert(str_views(unknown@) =~= unknown_deps(ts, deps.take(k + 1)));
                } else {
                    proof {
                        lemma_first_ambiguous_prefix(ts, deps, k as int);
                    }
                    return Err(e);
                }
            },
        }
    }
    assert(deps.take(new.depends_on@.len() as int) =~= deps);
    if unknown.len() > 0 {
        return Err(Error::UnknownDependency { ids: unknown });
    }
    let parent: Option<String> = match &new.parent {
        None => None,
        Some(p) => {
            if p.unicode_len() == 0 {
                None
            } else {
                let pid = match resolve(tasks, p.as_str()) {
                    Ok(pid) => pid,
                    Err(e) => {
                        return Err(e);
                    },
                };
                match tasks.get(pid.as_str()) {
                    Some(pt) => {
                        if !pt.task_type.is_epic() {
                            return Err(Error::ParentNotEpic(pid));
                        }
                    },
                    None => {},
                }
                Some(pid)
            }
        },
    };
    Ok((resolved_list, parent))
}

/// Builds a new task from `new` with the given ID and creation time,
/// resolving its dependencies and parent against `tasks` (see `creation`).
pub fn build_new_task(tasks: &TaskMap, new: NewTask, id: String, at: Timestamp) -> (r: Result<Task, Error>)
    ensures
        creation(tasks.view(), new, id@, at, r),
{
    match validate_new_task(tasks, &new) {
        Ok((deps, parent)) => Ok(assemble_task(tasks, new, deps, parent, id, at)),
        Err(e) => Err(e),
    }
}

/// The new task made of `new`, its resolved dependencies and parent, its ID
/// and its creation time.
fn assemble_task(tasks: &TaskMap, new: NewTask, deps: Vec<String>, parent: Option<String>, id: String, at: Timestamp) -> (t: Task)
    requires
        str_views(deps@) == resolved_deps(tasks.view(), str_views(new.depends_on@)),
    ensures
        t@ == created_view(tasks.view(), new, id@, at, crate::task::opt_str_view(parent)),
{
    Task {
        id,
        title: new.title,
        task_type: new.task_type,
        status: Status::Open,
        priority: new.priority,
        created: at,
        updated: at,
        tags: new.tags,
        depends_on: deps,
        parent,
        assignee: String::new(),
        body: new.body,
    }
}

/// The resolved dependencies of the first `k + 1` entries when entry `k`
/// resolves to `id`.
pub open spec fn resolve_deps_push(ts: Seq<TaskView>, deps: Seq<Seq<char>>, k: int, id: Seq<char>) -> Seq<Seq<char>> {
    resolved_deps(ts, deps.take(k + 1))
}

proof fn lemma_first_ambiguous_prefix(ts: Seq<TaskView>, deps: Seq<Seq<char>>, k: int)
    requires
        0 <= k < deps.len(),
        first_ambiguous(ts, deps.take(k)).is_none(),
        ambiguous(ts, deps[k]),
    ensures
        first_ambiguous(ts, deps) == Some(k),
    decreases deps.len(),
{
    if k < deps.len() - 1 {
        assert(deps.drop_last().take(k) =~= deps.take(k));
        lemma_first_ambiguous_prefix(ts, deps.drop_last(), k);
    } else {
        assert(deps.drop_last() =~= deps.take(k));
    }
}

/// The IDs of the tasks of `ts`, in order.
pub open spec fn ids_of(ts: Seq<TaskView>) -> Seq<Seq<char>> {
    ts.map_values(|t: TaskView| t.id)
}

/// The IDs of the tasks, in entry order.
pub fn task_ids(tasks: &TaskMap) -> (r: Vec<String>)
    ensures
        str_views(r@) == ids_of(tasks.view()),
{
    let all = tasks.tasks();
    let mut r: Vec<String> = Vec::new();
    for i in 0..all.len()
        invariant
            task_views(all@) == tasks.view(),
            all@.len() == tasks.view().len(),
            r@.len() == i,
            str_views(r@) == ids_of(tasks.view()).take(i as int),
    {
        let ghost old_r = r@;
        r.push(all[i].id.clone());
        proof {
            assert(task_views(all@)[i as int] == all@[i as int]@);
            assert(r@ == old_r.push(r@[i as int]));
            assert(r@[i as int]@ == all@[i as int].id@);
            assert(str_views(r@).len() == i + 1);
            assert forall|k: int| 0 <= k < i + 1 implies str_views(r@)[k] == ids_of(tasks.view()).take(i + 1)[k] by {
                if k < i {
                    assert(str_views(old_r)[k] == ids_of(tasks.view()).take(i as int)[k]);
                    assert(r@[k] == old_r[k]);
                }
            }
            assert(str_views(r@) =~= ids_of(tasks.view()).take(i + 1));
        }
    }
    assert(ids_of(tasks.view()).take(all@.len() as int) =~= ids_of(tasks.view()));
    r
}

/// Creates a task from `new`. It is first checked against `tasks` (see
/// `validate_new_task`); a task that fails the checks is refused with the
/// error of `rejection`, before any ID is drawn. Then a fresh ID of
/// `id_length` characters is drawn (see `generate_id`) that is neither an
/// active ID nor one of the `archived` IDs, the current time is stamped,
/// and the task is built as `build_new_task` does. The ID and the time are
/// whatever the draw and the clock gave; everything else follows from them.
/// The draw can fail only when the system's random source fails
/// (`RandomUnavailable`) or after every draw was refused
/// (`IdSpaceExhausted`, possible only when some candidate ID of the length
/// is taken or unsafe in YAML).
pub fn create_task(tasks: &TaskMap, archived: &Vec<String>, new: NewTask, id_length: u8) -> (r: Result<Task, Error>)
    ensures
        !new_task_valid(tasks.view(), new) ==> (r matches Err(e) && rejection(tasks.view(), new, e)),
        new_task_valid(tasks.view(), new) ==> (r matches Err(Error::IdSpaceExhausted) || r matches Err(Error::RandomUnavailable)
            || exists|id: Seq<char>, at: Timestamp|
            #[trigger] crate::task::acceptable_id(ids_of(tasks.view()) + str_views(archived@), id_length as nat, id)
                && #[trigger] creation(tasks.view(), new, id, at, r)),
        new_task_valid(tasks.view(), new) && crate::task::every_id_acceptable(ids_of(tasks.view()) + str_views(archived@), id_length as nat)
            ==> !(r matches Err(Error::IdSpaceExhausted)),
        r matches Ok(t) ==> !ids_of(tasks.view()).contains(t@.id) && !str_views(archived@).contains(t@.id),
{
    let ghost ts = tasks.view();
    let (deps, parent) = match validate_new_task(tasks, &new) {
        Ok(checked) => checked,
        Err(e) => {
            return Err(e);
        },
    };
    let mut existing = task_ids(tasks);
    let ghost base = str_views(existing@);
    for i in 0..archived.len()
        invariant
            str_views(existing@) == base + str_views(archived@).take(i as int),
    {
        let ghost before = str_views(existing@);
        existing.push(archived[i].clone());
        assert(str_views(existing@) =~= before.push(archived@[i as int]@));
        assert(str_views(archived@).take(i + 1) =~= str_views(archived@).take(i as int).push(archived@[i as int]@));
    }
    assert(str_views(archived@).take(archived@.len() as int) =~= str_views(archived@));
    let id = match crate::task::generate_id(&existing, id_length as usize) {
        Ok(id) => id,
        Err(e) => {
            return Err(e);
        },
    };
    let ghost idv = id@;
    let at = crate::task::now();
    let t = assemble_task(tasks, new, deps, parent, id, at);
    let r = Ok(t);
    proof {
        let all = ids_of(ts) + str_views(archived@);
        assert(crate::task::acceptable_id(all, id_length as nat, idv));
        assert(creation(ts, new, idv, at, r));
        if ids_of(ts).contains(idv) {
            let k = choose|k: int| 0 <= k < ids_of(ts).len() && ids_of(ts)[k] == idv;
            assert(all[k] == idv);
        }
        if str_views(archived@).contains(idv) {
            let k = choose|k: int| 0 <= k < str_views(archived@).len() && str_views(archived@)[k] == idv;
            assert(all[ids_of(ts).len() + k] == idv);
        }
    }
    r
}

// ── Listing and reading ─────────────────────────────────────────────

/// The listing filter: active tasks only unless a status is asked for or
/// `include_all` is set; then the status, priority, tag and epic filters.
pub open spec fn list_filter(
    status: Option<Status>,
    priority: Option<Priority>,
    tag: Option<Seq<char>>,
    include_all: bool,
    epic: Option<Seq<char>>,
) -> spec_fn(TaskView) -> bool {
    |t: TaskView|
        {
            &&& (status.is_some() || include_all || crate::task::active(t))
            &&& (status matches Some(s) ==> t.status == s)
            &&& (priority matches Some(p) ==> t.priority == p)
            &&& crate::task::tag_matches(t, tag)
            &&& crate::graph::epic_matches(t, epic)
        }
}

/// The tasks of `ts` that satisfy `f`, stably sorted by priority (P0 first)
/// and creation time.
pub open spec fn sorted_selection(ts: Seq<TaskView>, f: spec_fn(TaskView) -> bool, r: Seq<TaskView>) -> bool {
    crate::order::stably_sorted(
        filter_tasks(ts, f),
        crate::task::priority_keys(filter_tasks(ts, f)),
        r,
    )
}

/// What `list_tasks` gives holds exactly the tasks that pass the filters:
/// each is one of the tasks; with a status asked for it has that status,
/// and without one (and without `include_all`) it is neither done nor
/// cancelled; with a priority asked for it has exactly that priority; it
/// carries the tag and sits under the epic asked for. Every task that
/// passes is given.
pub proof fn lemma_list_filters(
    ts: Seq<TaskView>,
    status: Option<Status>,
    priority: Option<Priority>,
    tag: Option<Seq<char>>,
    include_all: bool,
    epic: Option<Seq<char>>,
    r: Seq<TaskView>,
)
    requires
        sorted_selection(ts, list_filter(status, priority, tag, include_all, epic), r),
        ts.len() <= usize::MAX,
    ensures
        forall|i: int|
            0 <= i < r.len() ==> {
                &&& ts.contains(#[trigger] r[i])
                &&& (status matches Some(s) ==> r[i].status == s)
                &&& (status is None && !include_all ==> r[i].status != Status::Done && r[i].status != Status::Cancelled)
                &&& (priority matches Some(p) ==> r[i].priority == p)
                &&& crate::task::tag_matches(r[i], tag)
                &&& (epic matches Some(e) ==> r[i].parent == Some(e))
            },
        forall|x: TaskView|
            ts.contains(x) && (status matches Some(s) ==> x.status == s) && (status is None && !include_all ==> x.status
                != Status::Done && x.status != Status::Cancelled) && (priority matches Some(p) ==> x.priority == p)
                && crate::task::tag_matches(x, tag) && (epic matches Some(e) ==> x.parent == Some(e)) ==> #[trigger] r.contains(x),
{
    let f = list_filter(status, priority, tag, include_all, epic);
    let sel = filter_tasks(ts, f);
    crate::graph::lemma_filter_len(ts, f);
    crate::order::lemma_stably_sorted_perm(sel, crate::task::priority_keys(sel), r);
    crate::graph::lemma_filter_tasks_keeps(ts, f);
    assert forall|i: int| 0 <= i < r.len() implies {
        &&& ts.contains(#[trigger] r[i])
        &&& (status matches Some(s) ==> r[i].status == s)
        &&& (status is None && !include_all ==> r[i].status != Status::Done && r[i].status != Status::Cancelled)
        &&& (priority matches Some(p) ==> r[i].priority == p)
        &&& crate::task::tag_matches(r[i], tag)
        &&& (epic matches Some(e) ==> r[i].parent == Some(e))
    } by {
        assert(r.contains(r[i]));
        assert(sel.contains(r[i]));
        assert(f(r[i]));
    }
    assert forall|x: TaskView|
        ts.contains(x) && (status matches Some(s) ==> x.status == s) && (status is None && !include_all ==> x.status
            != Status::Done && x.status != Status::Cancelled) && (priority matches Some(p) ==> x.priority == p)
            && crate::task::tag_matches(x, tag) && (epic matches Some(e) ==> x.parent == Some(e)) implies #[trigger] r.contains(x) by {
        assert(f(x));
        assert(sel.contains(x));
    }
}

/// Copies of the tasks that satisfy `f`, in entry order.
pub(crate) fn select_tasks(tasks: &TaskMap, f: Ghost<spec_fn(TaskView) -> bool>, keep: &Vec<bool>) -> (r: Vec<Task>)
    requires
        keep@.len() == tasks.view().len(),
        forall|i: int| 0 <= i < keep@.len() ==> keep@[i] == (f@)(tasks.view()[i]),
    ensures
        task_views(r@) == filter_tasks(tasks.view(), f@),
{
    let all = tasks.tasks();
    let ghost ts = tasks.view();
    let mut r: Vec<Task> = Vec::new();
    for i in 0..all.len()
        invariant
            ts == tasks.view(),
            task_views(all@) == ts,
            keep@.len() == ts.len(),
            forall|i: int| 0 <= i < keep@.len() ==> keep@[i] == (f@)(ts[i]),
            task_views(r@) == filter_tasks(ts.take(i as int), f@),
    {
        assert(ts.take(i + 1).drop_last() =~= ts.take(i as int));
        assert(ts.take(i + 1).last() == all@[i as int]@);
        if keep[i] {
            r.push(all[i].clone());
            assert(task_views(r@) =~= filter_tasks(ts.take(i + 1), f@));
        }
    }
    assert(ts.take(all@.len() as int) =~= ts);
    r
}

/// Whether the task's status, when one is asked for, is it.
fn status_is(t: &Task, s: Option<Status>) -> (r: bool)
    ensures
        r == (s matches Some(x) ==> t.status == x),
{
    match s {
        Some(x) => t.status == x,
        None => true,
    }
}

/// Whether the task's parent, when an epic is asked for, is it.
fn parent_is(t: &Task, epic: Option<&str>) -> (r: bool)
    ensures
        r == crate::graph::epic_matches(t@, crate::task::opt_view(epic)),
{
    match epic {
        None => true,
        Some(e) => match &t.parent {
            Some(p) => crate::text::str_eq(p.as_str(), e),
            None => false,
        },
    }
}

/// Tasks matching the filters (see `list_filter`), sorted by priority (P0
/// first) and then creation time (oldest first).
pub fn list_tasks(
    tasks: &TaskMap,
    status: Option<Status>,
    priority: Option<Priority>,
    tag: Option<&str>,
    include_all: bool,
    epic: Option<&str>,
) -> (r: Vec<Task>)
    ensures
        sorted_selection(
            tasks.view(),
            list_filter(status, priority, crate::task::opt_view(tag), include_all, crate::task::opt_view(epic)),
            task_views(r@),
        ),
{
    let ghost f = list_filter(status, priority, crate::task::opt_view(tag), include_all, crate::task::opt_view(epic));
    let all = tasks.tasks();
    let mut keep: Vec<bool> = Vec::new();
    for i in 0..all.len()
        invariant
            task_views(all@) == tasks.view(),
            f == list_filter(status, priority, crate::task::opt_view(tag), include_all, crate::task::opt_view(epic)),
            keep@.len() == i,
            forall|j: int| 0 <= j < i ==> keep@[j] == f(tasks.view()[j]),
    {
        let t = &all[i];
        assert(tasks.view()[i as int] == t@);
        let k = (status.is_some() || include_all || crate::task::is_active(t)) && status_is(t, status)
            && match priority {
            Some(p) => t.priority == p,
            None => true,
        } && crate::task::matches_tag(t, tag) && parent_is(t, epic);
        keep.push(k);
    }
    let mut r = select_tasks(tasks, Ghost(f), &keep);
    crate::task::sort_by_priority_owned(&mut r);
    r
}

/// Tasks that are ready to work on (see `Graph::ready`), for the graph of
/// `tasks`.
pub fn list_ready(tasks: &TaskMap, tag: Option<&str>, limit: Option<usize>, epic: Option<&str>) -> (r: Vec<Task>)
    ensures
        exists|g: GraphView|
            #[trigger] graph_of(g, tasks.view()) && crate::graph::ready_result(
                g,
                tasks.view(),
                crate::task::opt_view(tag),
                crate::task::opt_view(epic),
                limit,
                task_views(r@),
            ),
{
    let graph = Graph::build(tasks);
    graph.ready(tasks, tag, limit, epic)
}

/// One task, by ID or unique prefix.
pub fn get_task(tasks: &TaskMap, id_or_prefix: &str) -> (r: Result<Task, Error>)
    ensures
        match r {
            Ok(t) => exists|id: Seq<char>|
                #[trigger] resolved(tasks.view(), id_or_prefix@) == Some(id) && lookup(tasks.view(), id) == Some(t@),
            Err(e) => resolved(tasks.view(), id_or_prefix@).is_none() && resolve_failure(tasks.view(), id_or_prefix@, e),
        },
{
    let id = resolve(tasks, id_or_prefix)?;
    match tasks.get(id.as_str()) {
        Some(t) => Ok(t.clone()),
        None => Err(Error::TaskNotFound(id)),
    }
}

// ── Updating ────────────────────────────────────────────────────────

/// A partial update: only the fields that are `Some` are applied.
pub struct UpdateFields {
    pub status: Option<Status>,
    pub priority: Option<Priority>,
    pub tags: Option<Vec<String>>,
    pub assignee: Option<String>,
    pub body: Option<String>,
    pub title: Option<String>,
}

impl Default for UpdateFields {
    fn default() -> (u: UpdateFields)
        ensures
            u.status.is_none(),
            u.priority.is_none(),
            u.tags.is_none(),
            u.assignee.is_none(),
            u.body.is_none(),
            u.title.is_none(),
    {
        UpdateFields { status: None, priority: None, tags: None, assignee: None, body: None, title: None }
    }
}

/// `new` is `old` with the fields of `f` that are `Some` applied; its update
/// time is left open.
pub open spec fn applied(old: TaskView, f: UpdateFields, new: TaskView) -> bool {
    &&& new.id == old.id
    &&& new.title == (match f.title {
        Some(x) => x@,
        None => old.title,
    })
    &&& new.task_type == old.task_type
    &&& new.status == (match f.status {
        Some(x) => x,
        None => old.status,
    })
    &&& new.priority == (match f.priority {
        Some(x) => x,
        None => old.priority,
    })
    &&& new.created == old.created
    &&& new.tags == (match f.tags {
        Some(x) => str_views(x@),
        None => old.tags,
    })
    &&& new.depends_on == old.depends_on
    &&& new.parent == old.parent
    &&& new.assignee == (match f.assignee {
        Some(x) => x@,
        None => old.assignee,
    })
    &&& new.body == (match f.body {
        Some(x) => x@,
        None => old.body,
    })
}

/// The task that an ID or prefix resolves to, with the error when it
/// resolves to none.
pub open spec fn resolves_to(ts: Seq<TaskView>, p: Seq<char>, old: TaskView) -> bool {
    exists|id: Seq<char>| #[trigger] resolved(ts, p) == Some(id) && lookup(ts, id) == Some(old)
}

/// Applies the `Some` fields of `fields` to the task that `id_or_prefix`
/// resolves to and stamps it as updated now. The caller saves the result
/// and, when the status changed, asks `maybe_close_parent_epic`.
pub fn update_task(tasks: &TaskMap, id_or_prefix: &str, fields: UpdateFields) -> (r: Result<Task, Error>)
    ensures
        match r {
            Ok(t) => exists|old: TaskView| #[trigger] resolves_to(tasks.view(), id_or_prefix@, old) && applied(old, fields, t@),
            Err(e) => resolved(tasks.view(), id_or_prefix@).is_none() && resolve_failure(tasks.view(), id_or_prefix@, e),
        },
{
    let mut t = get_task(tasks, id_or_prefix)?;
    let ghost old = t@;
    let UpdateFields { status, priority, tags, assignee, body, title } = fields;
    if let Some(s) = status {
        t.status = s;
    }
    if let Some(p) = priority {
        t.priority = p;
    }
    if let Some(x) = tags {
        t.tags = x;
    }
    if let Some(a) = assignee {
        t.assignee = a;
    }
    if let Some(b) = body {
        t.body = b;
    }
    if let Some(x) = title {
        t.title = x;
    }
    t.updated = crate::task::now();
    assert(resolves_to(tasks.view(), id_or_prefix@, old));
    Ok(t)
}

/// Sets the status of the task that `id_or_prefix` resolves to and stamps
/// it as updated now. The caller saves the result and asks
/// `maybe_close_parent_epic`.
pub fn set_status(tasks: &TaskMap, id_or_prefix: &str, status: Status) -> (r: Result<Task, Error>)
    ensures
        match r {
            Ok(t) => exists|old: TaskView|
                #[trigger] resolves_to(tasks.view(), id_or_prefix@, old) && t@ == (TaskView { status, updated: t@.updated, ..old }),
            Err(e) => resolved(tasks.view(), id_or_prefix@).is_none() && resolve_failure(tasks.view(), id_or_prefix@, e),
        },
{
    let mut t = get_task(tasks, id_or_prefix)?;
    let ghost old = t@;
    t.status = status;
    t.updated = crate::task::now();
    assert(resolves_to(tasks.view(), id_or_prefix@, old));
    Ok(t)
}

/// The number of tasks whose parent is `pid`.
pub open spec fn child_count(ts: Seq<TaskView>, pid: Seq<char>) -> nat
    decreases ts.len(),
{
    if ts.len() == 0 {
        0
    } else {
        child_count(ts.drop_last(), pid) + if ts.last().parent == Some(pid) {
            1nat
        } else {
            0nat
        }
    }
}

/// The number of tasks whose parent is `pid` that are done, counting the
/// task `child` as done whatever status the list holds for it.
pub open spec fn done_child_count(ts: Seq<TaskView>, pid: Seq<char>, child: Seq<char>) -> nat
    decreases ts.len(),
{
    if ts.len() == 0 {
        0
    } else {
        done_child_count(ts.drop_last(), pid, child) + if ts.last().parent == Some(pid) && (
        ts.last().id == child || ts.last().status == Status::Done) {
            1nat
        } else {
            0nat
        }
    }
}

/// The epic that `child` closes: when `child` is done, its parent is an
/// epic of `ts` that is not done yet, and every child of that epic is done
/// (counting `child` as done), the epic.
pub open spec fn epic_to_close(ts: Seq<TaskView>, child: TaskView) -> Option<TaskView> {
    if child.status != Status::Done {
        None
    } else {
        match child.parent {
            None => None,
            Some(pid) => match lookup(ts, pid) {
                None => None,
                Some(p) => if p.task_type == TaskType::Epic && p.status != Status::Done && child_count(ts, pid) > 0
                    && done_child_count(ts, pid, child.id) >= child_count(ts, pid) {
                    Some(p)
                } else {
                    None
                },
            },
        }
    }
}

/// Counting `child` as done never gives more done children than children,
/// and gives as many exactly when every other child is done.
proof fn lemma_done_children(ts: Seq<TaskView>, pid: Seq<char>, child: Seq<char>)
    ensures
        done_child_count(ts, pid, child) <= child_count(ts, pid),
        done_child_count(ts, pid, child) == child_count(ts, pid) <==> forall|j: int|
            0 <= j < ts.len() && (#[trigger] ts[j]).parent == Some(pid) && ts[j].id != child ==> ts[j].status
                == Status::Done,
    decreases ts.len(),
{
    if ts.len() > 0 {
        let p = ts.drop_last();
        lemma_done_children(p, pid, child);
        assert(ts[ts.len() - 1] == ts.last());
        assert forall|j: int| 0 <= j < p.len() implies #[trigger] p[j] == ts[j] by {}
        if done_child_count(ts, pid, child) == child_count(ts, pid) {
            assert forall|j: int|
                0 <= j < ts.len() && (#[trigger] ts[j]).parent == Some(pid) && ts[j].id != child implies ts[j].status
                    == Status::Done by {
                if j < p.len() {
                    assert(p[j] == ts[j]);
                }
            }
        }
    }
}

/// An epic is closed only when the child just done is its child and every
/// other child of it is done too, and it is an epic not done yet; and when
/// that holds, it is closed.
pub proof fn lemma_epic_closes_when_children_done(ts: Seq<TaskView>, child: TaskView)
    ensures
        epic_to_close(ts, child) matches Some(e) ==> {
            &&& child.status == Status::Done
            &&& child.parent matches Some(pid) && lookup(ts, pid) == Some(e)
            &&& e.task_type == TaskType::Epic
            &&& e.status != Status::Done
            &&& forall|j: int|
                0 <= j < ts.len() && (#[trigger] ts[j]).parent == child.parent && ts[j].id != child.id ==> ts[j].status
                    == Status::Done
        },
        child.status == Status::Done ==> (child.parent matches Some(pid) ==> (lookup(ts, pid) matches Some(e) ==> (
        e.task_type == TaskType::Epic && e.status != Status::Done && (exists|j: int|
            0 <= j < ts.len() && (#[trigger] ts[j]).parent == Some(pid)) && (forall|j: int|
            0 <= j < ts.len() && (#[trigger] ts[j]).parent == child.parent && ts[j].id != child.id ==> ts[j].status
                == Status::Done) ==> epic_to_close(ts, child) is Some))),
{
    match child.parent {
        Some(pid) => {
            lemma_done_children(ts, pid, child.id);
            lemma_child_count_positive(ts, pid);
        },
        None => {},
    }
}

/// There is a child exactly when the count of children is positive.
proof fn lemma_child_count_positive(ts: Seq<TaskView>, pid: Seq<char>)
    ensures
        child_count(ts, pid) > 0 <==> exists|j: int| 0 <= j < ts.len() && (#[trigger] ts[j]).parent == Some(pid),
    decreases ts.len(),
{
    if ts.len() > 0 {
        let p = ts.drop_last();
        lemma_child_count_positive(p, pid);
        assert(ts[ts.len() - 1] == ts.last());
        if exists|j: int| 0 <= j < p.len() && (#[trigger] p[j]).parent == Some(pid) {
            let j = choose|j: int| 0 <= j < p.len() && (#[trigger] p[j]).parent == Some(pid);
            assert(ts[j] == p[j]);
        }
        if exists|j: int| 0 <= j < ts.len() && (#[trigger] ts[j]).parent == Some(pid) {
            let j = choose|j: int| 0 <= j < ts.len() && (#[trigger] ts[j]).parent == Some(pid);
            if j < p.len() {
                assert(p[j] == ts[j]);
            }
        }
    }
}

/// When all children of an epic are done, the epic is done too: given the
/// task list before `child` was saved, the parent epic that `child` closes
/// (see `epic_to_close`), set to done and stamped as updated now, for the
/// caller to save.
pub fn maybe_close_parent_epic(tasks: &TaskMap, child: &Task) -> (r: Option<Task>)
    ensures
        match epic_to_close(tasks.view(), child@) {
            None => r.is_none(),
            Some(p) => r matches Some(t) && t@ == (TaskView { status: Status::Done, updated: t@.updated, ..p }),
        },
{
    if child.status != Status::Done {
        return None;
    }
    let pid = match &child.parent {
        Some(p) => p,
        None => {
            return None;
        },
    };
    let parent = match tasks.get(pid.as_str()) {
        Some(p) => p,
        None => {
            return None;
        },
    };
    if !parent.task_type.is_epic() || parent.status == Status::Done {
        return None;
    }
    let all = tasks.tasks();
    let ghost ts = tasks.view();
    let mut done: usize = 0;
    let mut total: usize = 0;
    for i in 0..all.len()
        invariant
            ts == tasks.view(),
            task_views(all@) == ts,
            all@.len() == ts.len(),
            total == child_count(ts.take(i as int), pid@),
            done == done_child_count(ts.take(i as int), pid@, child@.id),
            total <= i,
            done <= i,
    {
        assert(ts.take(i + 1).drop_last() =~= ts.take(i as int));
        assert(ts.take(i + 1).last() == all@[i as int]@);
        let t = &all[i];
        let is_child = match &t.parent {
            Some(p) => crate::text::str_eq(p.as_str(), pid.as_str()),
            None => false,
        };
        if is_child {
            total = total + 1;
            if crate::text::str_eq(t.id.as_str(), child.id.as_str()) || t.status == Status::Done {
                done = done + 1;
            }
        }
    }
    assert(ts.take(all@.len() as int) =~= ts);
    if total > 0 && done >= total {
        let mut p = parent.clone();
        p.status = Status::Done;
        p.updated = crate::task::now();
        Some(p)
    } else {
        None
    }
}

/// Sets the status of the task that `id_or_prefix` resolves to (see
/// `set_status`) and gives back, with it, the parent epic that this change
/// closes (see `epic_to_close`), set to done: both for the caller to save.
/// When all children of an epic are done, the epic is done too.
pub fn set_status_and_close_epic(tasks: &TaskMap, id_or_prefix: &str, status: Status) -> (r: Result<(Task, Option<Task>), Error>)
    ensures
        match r {
            Ok((t, e)) => (exists|old: TaskView|
                #[trigger] resolves_to(tasks.view(), id_or_prefix@, old) && t@ == (TaskView { status, updated: t@.updated, ..old }))
                && match epic_to_close(tasks.view(), t@) {
                None => e.is_none(),
                Some(p) => e matches Some(x) && x@ == (TaskView { status: Status::Done, updated: x@.updated, ..p }),
            },
            Err(err) => resolved(tasks.view(), id_or_prefix@).is_none() && resolve_failure(tasks.view(), id_or_prefix@, err),
        },
{
    let t = set_status(tasks, id_or_prefix, status)?;
    let e = maybe_close_parent_epic(tasks, &t);
    Ok((t, e))
}

// ── Dependencies ────────────────────────────────────────────────────

/// `new` is `old` with `dep` added to its dependencies, or `old` itself when
/// it already lists `dep`; `changed` says which (only a change stamps the
/// update time).
pub open spec fn dep_added(old: TaskView, dep: Seq<char>, new: TaskView, changed: bool) -> bool {
    if old.depends_on.contains(dep) {
        !changed && new == old
    } else {
        changed && new == (TaskView { depends_on: old.depends_on.push(dep), updated: new.updated, ..old })
    }
}

/// Adds the dependency `id -> dep`, both given as IDs or unique prefixes.
/// Either failing to resolve is its error; a dependency that would close a
/// cycle is `CycleDetected`; otherwise the task with `dep` added (see
/// `dep_added`), for the caller to save when it changed.
pub fn add_dependency(tasks: &TaskMap, id_or_prefix: &str, dep_or_prefix: &str) -> (r: Result<(Task, bool), Error>)
    ensures
        match resolved(tasks.view(), id_or_prefix@) {
            None => r matches Err(e) && resolve_failure(tasks.view(), id_or_prefix@, e),
            Some(id) => match resolved(tasks.view(), dep_or_prefix@) {
                None => r matches Err(e) && resolve_failure(tasks.view(), dep_or_prefix@, e),
                Some(dep) => if crate::graph::closes_cycle(tasks.view(), id, dep) {
                    r matches Err(Error::CycleDetected { from, to }) && from@ == id && to@ == dep
                } else {
                    r matches Ok((t, changed)) && lookup(tasks.view(), id) matches Some(old) && dep_added(old, dep, t@, changed)
                },
            },
        },
{
    let id = resolve(tasks, id_or_prefix)?;
    let dep = resolve(tasks, dep_or_prefix)?;
    let graph = Graph::build(tasks);
    if graph.closes_cycle_in(tasks, id.as_str(), dep.as_str()) {
        return Err(Error::CycleDetected { from: id, to: dep });
    }
    let mut t = match tasks.get(id.as_str()) {
        Some(t) => t.clone(),
        None => {
            return Err(Error::TaskNotFound(id));
        },
    };
    if crate::task::contains_string(&t.depends_on, dep.as_str()) {
        Ok((t, false))
    } else {
        let ghost old = t@;
        let ghost dv = dep@;
        t.depends_on.push(dep);
        t.updated = crate::task::now();
        assert(t@.depends_on =~= old.depends_on.push(dv));
        Ok((t, true))
    }
}

/// Adding a dependency keeps a cycle-free task list free of cycles: when
/// `add_dependency` accepts `id -> dep` and the task it returns is saved in
/// place of the old one, no chain of dependencies leads back to its start.
pub proof fn lemma_add_dependency_keeps_acyclic(
    ts: Seq<TaskView>,
    id: Seq<char>,
    dep: Seq<char>,
    old: TaskView,
    new: TaskView,
    changed: bool,
)
    requires
        crate::taskmap::ids_distinct(ts),
        crate::graph::acyclic_names(ts),
        !crate::graph::closes_cycle(ts, id, dep),
        lookup(ts, id) == Some(old),
        dep_added(old, dep, new, changed),
    ensures
        crate::graph::acyclic_names(crate::taskmap::replaced(ts, new)),
{
    assert(has_id(ts, id));
    assert(old.id == id);
    assert(new.id == id);
    crate::taskmap::lemma_lookup_replaced(ts, new);
    let ts2 = crate::taskmap::replaced(ts, new);
    assert forall|a: Seq<char>, b: Seq<char>|
        #[trigger] crate::graph::dep_step(ts2, a, b) implies crate::graph::dep_step(ts, a, b) || (a == id && b == dep) by {
        if a == id {
            assert(new.depends_on.contains(b));
            if b != dep && !old.depends_on.contains(dep) {
                let k = choose|k: int| 0 <= k < new.depends_on.len() && new.depends_on[k] == b;
                assert(old.depends_on[k] == b);
            }
        } else {
            assert(lookup(ts2, a) == lookup(ts, a));
        }
    }
    crate::graph::lemma_added_step_keeps_acyclic(ts, ts2, id, dep);
}

/// `s` without the entries that are in `del`, in order.
pub open spec fn without_any(s: Seq<Seq<char>>, del: Seq<Seq<char>>) -> Seq<Seq<char>>
    decreases s.len(),
{
    if s.len() == 0 {
        Seq::<Seq<char>>::empty()
    } else {
        let r = without_any(s.drop_last(), del);
        if del.contains(s.last()) {
            r
        } else {
            r.push(s.last())
        }
    }
}

/// A copy of `v` without the strings that are in `del`.
fn strings_without(v: &Vec<String>, del: &Vec<String>) -> (r: Vec<String>)
    ensures
        str_views(r@) == without_any(str_views(v@), str_views(del@)),
{
    let ghost sv = str_views(v@);
    let mut r: Vec<String> = Vec::new();
    for i in 0..v.len()
        invariant
            sv == str_views(v@),
            str_views(r@) == without_any(sv.take(i as int), str_views(del@)),
    {
        assert(sv.take(i + 1).drop_last() =~= sv.take(i as int));
        assert(sv.take(i + 1).last() == v@[i as int]@);
        if !crate::task::contains_string(del, v[i].as_str()) {
            r.push(v[i].clone());
            assert(str_views(r@) =~= without_any(sv.take(i + 1), str_views(del@)));
        }
    }
    assert(sv.take(v@.len() as int) =~= sv);
    r
}

/// Removes the dependency `id -> dep`, both given as IDs or unique
/// prefixes: every entry equal to `dep` leaves the task's list, and the
/// task is stamped as updated now, for the caller to save.
pub fn remove_dependency(tasks: &TaskMap, id_or_prefix: &str, dep_or_prefix: &str) -> (r: Result<Task, Error>)
    ensures
        match resolved(tasks.view(), id_or_prefix@) {
            None => r matches Err(e) && resolve_failure(tasks.view(), id_or_prefix@, e),
            Some(id) => match resolved(tasks.view(), dep_or_prefix@) {
                None => r matches Err(e) && resolve_failure(tasks.view(), dep_or_prefix@, e),
                Some(dep) => r matches Ok(t) && lookup(tasks.view(), id) matches Some(old) && t@ == (TaskView {
                    depends_on: without_any(old.depends_on, seq![dep]),
                    updated: t@.updated,
                    ..old
                }),
            },
        },
{
    let id = resolve(tasks, id_or_prefix)?;
    let dep = resolve(tasks, dep_or_prefix)?;
    let mut t = match tasks.get(id.as_str()) {
        Some(t) => t.clone(),
        None => {
            return Err(Error::TaskNotFound(id));
        },
    };
    let ghost dv = dep@;
    let del = vec![dep];
    assert(str_views(del@) =~= seq![dv]);
    t.depends_on = strings_without(&t.depends_on, &del);
    t.updated = crate::task::now();
    Ok(t)
}

/// Whether `needle` occurs in `hay`.
fn str_contains(hay: &str, needle: &str) -> (r: bool)
    ensures
        r == crate::text::occurs_in(needle@, hay@),
{
    let h = crate::text::chars_of(hay);
    let n = crate::text::chars_of(needle);
    crate::text::contains_chars(&h, &n)
}

/// A search hit for the lowercased query `q`: it occurs in the lowercased
/// title, body or one of the lowercased tags, or in the ID as it stands.
pub open spec fn search_hit(t: TaskView, q: Seq<char>) -> bool {
    ||| crate::text::occurs_in(q, crate::text::lowercase(t.title))
    ||| crate::text::occurs_in(q, crate::text::lowercase(t.body))
    ||| exists|k: int| 0 <= k < t.tags.len() && crate::text::occurs_in(q, crate::text::lowercase(#[trigger] t.tags[k]))
    ||| crate::text::occurs_in(q, t.id)
}

/// The search filter: active tasks only unless `include_all`, and a hit.
pub open spec fn search_filter(q: Seq<char>, include_all: bool) -> spec_fn(TaskView) -> bool {
    |t: TaskView| (include_all || crate::task::active(t)) && search_hit(t, q)
}

fn is_search_hit(t: &Task, q: &str) -> (r: bool)
    ensures
        r == search_hit(t@, q@),
{
    let title = crate::text::to_lowercase(t.title.as_str());
    if str_contains(title.as_str(), q) {
        return true;
    }
    let body = crate::text::to_lowercase(t.body.as_str());
    if str_contains(body.as_str(), q) {
        return true;
    }
    for k in 0..t.tags.len()
        invariant
            forall|j: int| 0 <= j < k ==> !crate::text::occurs_in(q@, crate::text::lowercase(#[trigger] t@.tags[j])),
    {
        let tag = crate::text::to_lowercase(t.tags[k].as_str());
        assert(t@.tags[k as int] == t.tags@[k as int]@);
        if str_contains(tag.as_str(), q) {
            return true;
        }
    }
    str_contains(t.id.as_str(), q)
}

/// Tasks whose title, body, tags (case-insensitively) or ID contain the
/// query, active ones only unless `include_all`, sorted by priority and
/// creation time.
pub fn search_tasks(tasks: &TaskMap, query: &str, include_all: bool) -> (r: Vec<Task>)
    ensures
        sorted_selection(tasks.view(), search_filter(crate::text::lowercase(query@), include_all), task_views(r@)),
{
    let q = crate::text::to_lowercase(query);
    let ghost f = search_filter(crate::text::lowercase(query@), include_all);
    let all = tasks.tasks();
    let mut keep: Vec<bool> = Vec::new();
    for i in 0..all.len()
        invariant
            task_views(all@) == tasks.view(),
            q@ == crate::text::lowercase(query@),
            f == search_filter(crate::text::lowercase(query@), include_all),
            keep@.len() == i,
            forall|j: int| 0 <= j < i ==> keep@[j] == f(tasks.view()[j]),
    {
        let t = &all[i];
        assert(tasks.view()[i as int] == t@);
        let k = (include_all || crate::task::is_active(t)) && is_search_hit(t, q.as_str());
        keep.push(k);
    }
    let mut r = select_tasks(tasks, Ghost(f), &keep);
    crate::task::sort_by_priority_owned(&mut r);
    r
}

// ── Deleting ────────────────────────────────────────────────────────

/// A task that keeps a reference to a deleted task: it is not deleted
/// itself, and a dependency or its parent is.
pub open spec fn dangling(del: Seq<Seq<char>>) -> spec_fn(TaskView) -> bool {
    |t: TaskView|
        !del.contains(t.id) && ((exists|k: int| 0 <= k < t.depends_on.len() && del.contains(#[trigger] t.depends_on[k]))
            || (t.parent matches Some(p) && del.contains(p)))
}

/// `u` is `t` without its references to the deleted tasks `del`: those
/// dependencies dropped, the parent cleared when it is deleted; its update
/// time is left open.
pub open spec fn scrubbed(t: TaskView, del: Seq<Seq<char>>, u: TaskView) -> bool {
    u == (TaskView {
        depends_on: without_any(t.depends_on, del),
        parent: match t.parent {
            Some(p) => if del.contains(p) {
                None
            } else {
                Some(p)
            },
            None => None,
        },
        updated: u.updated,
        ..t
    })
}

/// Whether some string of `v` is in `del`.
fn any_in(v: &Vec<String>, del: &Vec<String>) -> (r: bool)
    ensures
        r == exists|j: int| 0 <= j < v@.len() && str_views(del@).contains(#[trigger] str_views(v@)[j]),
{
    for k in 0..v.len()
        invariant
            forall|j: int| 0 <= j < k ==> !str_views(del@).contains(#[trigger] str_views(v@)[j]),
    {
        if crate::task::contains_string(del, v[k].as_str()) {
            assert(str_views(del@).contains(str_views(v@)[k as int]));
            return true;
        }
    }
    false
}


/// `u` refers to none of the tasks `del`: none is among its dependencies
/// and none is its parent.
pub open spec fn no_reference(u: TaskView, del: Seq<Seq<char>>) -> bool {
    &&& forall|k: int| 0 <= k < u.depends_on.len() ==> !del.contains(#[trigger] u.depends_on[k])
    &&& !(u.parent matches Some(p) && del.contains(p))
}

proof fn lemma_without_any(s: Seq<Seq<char>>, del: Seq<Seq<char>>)
    ensures
        forall|k: int| 0 <= k < without_any(s, del).len() ==> !del.contains(#[trigger] without_any(s, del)[k]),
    decreases s.len(),
{
    if s.len() > 0 {
        lemma_without_any(s.drop_last(), del);
        let r = without_any(s.drop_last(), del);
        assert forall|k: int| 0 <= k < without_any(s, del).len() implies !del.contains(#[trigger] without_any(s, del)[k]) by {
            if k < r.len() {
                assert(without_any(s, del)[k] == r[k]);
            }
        }
    }
}

/// After tasks are deleted and the tasks that referred to them are saved
/// scrubbed, no remaining task refers to a deleted one: a scrubbed task
/// lost its references, and a task that was not scrubbed had none.
pub proof fn lemma_deletion_leaves_no_reference(t: TaskView, del: Seq<Seq<char>>, u: TaskView)
    requires
        !del.contains(t.id),
        dangling(del)(t) ==> scrubbed(t, del, u),
        !dangling(del)(t) ==> u == t,
    ensures
        no_reference(u, del),
{
    lemma_without_any(t.depends_on, del);
    if !dangling(del)(t) {
        assert forall|k: int| 0 <= k < u.depends_on.len() implies !del.contains(#[trigger] u.depends_on[k]) by {
            if del.contains(u.depends_on[k]) {
                assert(dangling(del)(t));
            }
        }
    }
}

/// The tasks that referred to deleted tasks, with those references
/// removed and stamped as updated now, in entry order, for the caller to
/// save. Without this, dependents would silently never become ready.
pub fn scrub_references(tasks: &TaskMap, deleted: &Vec<String>) -> (r: Vec<Task>)
    ensures
        r@.len() == filter_tasks(tasks.view(), dangling(str_views(deleted@))).len(),
        forall|k: int|
            0 <= k < r@.len() ==> scrubbed(
                #[trigger] filter_tasks(tasks.view(), dangling(str_views(deleted@)))[k],
                str_views(deleted@),
                r@[k]@,
            ),
{
    let ghost ts = tasks.view();
    let ghost del = str_views(deleted@);
    let ghost f = dangling(del);
    let all = tasks.tasks();
    let mut r: Vec<Task> = Vec::new();
    let ghost mut sel: Seq<TaskView> = Seq::empty();
    for i in 0..all.len()
        invariant
            ts == tasks.view(),
            task_views(all@) == ts,
            del == str_views(deleted@),
            f == dangling(del),
            sel == filter_tasks(ts.take(i as int), f),
            r@.len() == sel.len(),
            forall|k: int| 0 <= k < r@.len() ==> scrubbed(#[trigger] sel[k], del, r@[k]@),
    {
        assert(ts.take(i + 1).drop_last() =~= ts.take(i as int));
        let t = &all[i];
        assert(ts.take(i + 1).last() == t@);
        let self_deleted = crate::task::contains_string(deleted, t.id.as_str());
        let dangling_dep = any_in(&t.depends_on, deleted);
        let dangling_parent = match &t.parent {
            Some(p) => crate::task::contains_string(deleted, p.as_str()),
            None => false,
        };
        let ghost before = r@;
        if !self_deleted && (dangling_dep || dangling_parent) {
            let mut u = t.clone();
            u.depends_on = strings_without(&t.depends_on, deleted);
            if dangling_parent {
                u.parent = None;
            }
            u.updated = crate::task::now();
            r.push(u);
            proof {
                assert(t@.depends_on == str_views(t.depends_on@));
                if dangling_dep {
                    let j = choose|j: int| 0 <= j < t.depends_on@.len() && str_views(deleted@).contains(#[trigger] str_views(t.depends_on@)[j]);
                    assert(del.contains(t@.depends_on[j]));
                }
                assert(f(t@));
                let old_sel = sel;
                sel = sel.push(t@);
                assert forall|k: int| 0 <= k < r@.len() implies scrubbed(#[trigger] sel[k], del, r@[k]@) by {
                    if k < before.len() {
                        assert(r@[k] == before[k]);
                        assert(sel[k] == old_sel[k]);
                    }
                }
            }
        } else {
            proof {
                if !self_deleted {
                    assert forall|j: int| 0 <= j < t@.depends_on.len() implies !del.contains(#[trigger] t@.depends_on[j]) by {
                        assert(t@.depends_on[j] == str_views(t.depends_on@)[j]);
                    }
                }
                assert(!f(t@));
            }
        }
    }
    assert(ts.take(all@.len() as int) =~= ts);
    r
}

/// Deletes the task that `id_or_prefix` resolves to: gives it back with
/// the other tasks that referred to it, scrubbed (see `scrub_references`).
/// The caller removes its file and saves the scrubbed tasks.
pub fn delete_task(tasks: &TaskMap, id_or_prefix: &str) -> (r: Result<(Task, Vec<Task>), Error>)
    ensures
        match resolved(tasks.view(), id_or_prefix@) {
            None => r matches Err(e) && resolve_failure(tasks.view(), id_or_prefix@, e),
            Some(id) => r matches Ok((t, s)) && lookup(tasks.view(), id) == Some(t@) && s@.len() == filter_tasks(
                tasks.view(),
                dangling(seq![id]),
            ).len() && forall|k: int|
                0 <= k < s@.len() ==> scrubbed(#[trigger] filter_tasks(tasks.view(), dangling(seq![id]))[k], seq![id], s@[k]@),
        },
{
    let id = resolve(tasks, id_or_prefix)?;
    let t = match tasks.get(id.as_str()) {
        Some(t) => t.clone(),
        None => {
            return Err(Error::TaskNotFound(id));
        },
    };
    let ghost idv = id@;
    let del = vec![id];
    assert(str_views(del@) =~= seq![idv]);
    let s = scrub_references(tasks, &del);
    Ok((t, s))
}

/// A task that pruning removes: cancelled, or done when `include_done`.
pub open spec fn prunable(include_done: bool) -> spec_fn(TaskView) -> bool {
    |t: TaskView| t.status == Status::Cancelled || (include_done && t.status == Status::Done)
}

/// Pruning deletes exactly the cancelled tasks, and the done ones when
/// `include_done`: every task it deletes is one of the tasks with such a
/// status (never an open, in-progress or blocked one), and every such task
/// is deleted.
pub proof fn lemma_prune_deletes_exactly(ts: Seq<TaskView>, include_done: bool)
    ensures
        forall|i: int|
            0 <= i < filter_tasks(ts, prunable(include_done)).len() ==> {
                &&& ts.contains(#[trigger] filter_tasks(ts, prunable(include_done))[i])
                &&& (filter_tasks(ts, prunable(include_done))[i].status == Status::Cancelled || (include_done
                    && filter_tasks(ts, prunable(include_done))[i].status == Status::Done))
            },
        forall|x: TaskView|
            ts.contains(x) && (x.status == Status::Cancelled || (include_done && x.status == Status::Done))
                ==> #[trigger] filter_tasks(ts, prunable(include_done)).contains(x),
{
    let d = filter_tasks(ts, prunable(include_done));
    crate::graph::lemma_filter_tasks_keeps(ts, prunable(include_done));
    assert forall|i: int| 0 <= i < d.len() implies {
        &&& ts.contains(#[trigger] d[i])
        &&& (d[i].status == Status::Cancelled || (include_done && d[i].status == Status::Done))
    } by {
        assert(d.contains(d[i]));
    }
}

/// Prunes cancelled tasks, and done ones when `include_done`: gives back
/// the tasks to delete, in entry order, and the other tasks that referred
/// to them, scrubbed. The caller removes and saves the files.
pub fn prune_tasks(tasks: &TaskMap, include_done: bool) -> (r: (Vec<Task>, Vec<Task>))
    ensures
        task_views(r.0@) == filter_tasks(tasks.view(), prunable(include_done)),
        r.1@.len() == filter_tasks(tasks.view(), dangling(ids_of(filter_tasks(tasks.view(), prunable(include_done))))).len(),
        forall|k: int|
            0 <= k < r.1@.len() ==> scrubbed(
                #[trigger] filter_tasks(tasks.view(), dangling(ids_of(filter_tasks(tasks.view(), prunable(include_done)))))[k],
                ids_of(filter_tasks(tasks.view(), prunable(include_done))),
                r.1@[k]@,
            ),
{
    let ghost f = prunable(include_done);
    let all = tasks.tasks();
    let mut keep: Vec<bool> = Vec::new();
    for i in 0..all.len()
        invariant
            task_views(all@) == tasks.view(),
            f == prunable(include_done),
            keep@.len() == i,
            forall|j: int| 0 <= j < i ==> keep@[j] == f(tasks.view()[j]),
    {
        let t = &all[i];
        assert(tasks.view()[i as int] == t@);
        keep.push(t.status == Status::Cancelled || (include_done && t.status == Status::Done));
    }
    let to_delete = select_tasks(tasks, Ghost(f), &keep);
    let mut ids: Vec<String> = Vec::new();
    for i in 0..to_delete.len()
        invariant
            ids@.len() == i,
            str_views(ids@) == ids_of(task_views(to_delete@)).take(i as int),
    {
        ids.push(to_delete[i].id.clone());
        assert(task_views(to_delete@)[i as int] == to_delete@[i as int]@);
        assert(str_views(ids@) =~= ids_of(task_views(to_delete@)).take(i + 1));
    }
    assert(ids_of(task_views(to_delete@)).take(to_delete@.len() as int) =~= ids_of(task_views(to_delete@)));
    let scrubbed_tasks = scrub_references(tasks, &ids);
    (to_delete, scrubbed_tasks)
}

// ── Graph, epics and plans ──────────────────────────────────────────

/// The dependency graph of the tasks.
pub fn build_graph(tasks: &TaskMap) -> (g: Graph)
    ensures
        graph_of(g.view(), tasks.view()),
{
    Graph::build(tasks)
}

/// The effective priority of every node of the dependency graph, with the
/// node's ID (see `Graph::effective_priorities_all`).
pub fn effective_priorities(tasks: &TaskMap) -> (r: Vec<(String, Priority)>)
    ensures
        exists|g: GraphView|
            #[trigger] graph_of(g, tasks.view()) && r@.len() == g.n() && (forall|i: int| 0 <= i < g.n() ==> #[trigger] r@[i].0@ == g.nodes[i])
                && crate::graph::effective_levels(
                g,
                crate::graph::own_levels(g, tasks.view()),
                crate::graph::levels(priorities_of(r@)),
            ),
{
    let graph = Graph::build(tasks);
    let eff = graph.effective_priorities_all(tasks);
    let ghost g = graph.view();
    graph.check_wf();
    assert(crate::graph::levels(eff@).len() == g.n());
    let mut r: Vec<(String, Priority)> = Vec::new();
    for i in 0..eff.len()
        invariant
            g == graph.view(),
            g.wf(),
            eff@.len() == g.n(),
            r@.len() == i,
            forall|k: int| #![trigger r@[k]] 0 <= k < i ==> r@[k].0@ == g.nodes[k] && r@[k].1 == eff@[k],
    {
        r.push((graph.node(i).clone(), eff[i]));
    }
    assert(priorities_of(r@) =~= eff@);
    r
}

/// The priorities of a list of (ID, priority) pairs.
pub open spec fn priorities_of(v: Seq<(String, Priority)>) -> Seq<Priority> {
    v.map_values(|e: (String, Priority)| e.1)
}

/// The epics, sorted by priority and creation time.
pub fn list_epics(tasks: &TaskMap) -> (r: Vec<Task>)
    ensures
        sorted_selection(tasks.view(), is_epic_view(), task_views(r@)),
{
    let ghost f = is_epic_view();
    let all = tasks.tasks();
    let mut keep: Vec<bool> = Vec::new();
    for i in 0..all.len()
        invariant
            task_views(all@) == tasks.view(),
            f == is_epic_view(),
            keep@.len() == i,
            forall|j: int| 0 <= j < i ==> keep@[j] == f(tasks.view()[j]),
    {
        assert(tasks.view()[i as int] == all@[i as int]@);
        keep.push(all[i].task_type.is_epic());
    }
    let mut r = select_tasks(tasks, Ghost(f), &keep);
    crate::task::sort_by_priority_owned(&mut r);
    r
}

/// The test for an epic.
pub open spec fn is_epic_view() -> spec_fn(TaskView) -> bool {
    |t: TaskView| t.task_type == TaskType::Epic
}

/// How many children of an epic are done, of how many.
#[derive(Debug, Clone, Copy, PartialEq, Eq, Structural)]
pub struct EpicProgress {
    pub done: usize,
    pub total: usize,
}

/// The number of done tasks whose parent is `pid`.
pub open spec fn done_count(ts: Seq<TaskView>, pid: Seq<char>) -> nat
    decreases ts.len(),
{
    if ts.len() == 0 {
        0
    } else {
        done_count(ts.drop_last(), pid) + if ts.last().parent == Some(pid) && ts.last().status == Status::Done {
            1nat
        } else {
            0nat
        }
    }
}

/// The progress of an epic: of the tasks whose parent is `epic_id`, how
/// many are done and how many there are.
pub fn epic_progress(tasks: &TaskMap, epic_id: &str) -> (p: EpicProgress)
    ensures
        p.done == done_count(tasks.view(), epic_id@),
        p.total == child_count(tasks.view(), epic_id@),
{
    let all = tasks.tasks();
    let ghost ts = tasks.view();
    let mut done: usize = 0;
    let mut total: usize = 0;
    for i in 0..all.len()
        invariant
            ts == tasks.view(),
            task_views(all@) == ts,
            all@.len() == ts.len(),
            total == child_count(ts.take(i as int), epic_id@),
            done == done_count(ts.take(i as int), epic_id@),
            total <= i,
            done <= i,
    {
        assert(ts.take(i + 1).drop_last() =~= ts.take(i as int));
        assert(ts.take(i + 1).last() == all@[i as int]@);
        let t = &all[i];
        let is_child = match &t.parent {
            Some(p) => crate::text::str_eq(p.as_str(), epic_id),
            None => false,
        };
        if is_child {
            total = total + 1;
            if t.status == Status::Done {
                done = done + 1;
            }
        }
    }
    assert(ts.take(all@.len() as int) =~= ts);
    EpicProgress { done, total }
}

/// An epic with its progress.
pub struct EpicSummary {
    pub id: String,
    pub title: String,
    pub status: Status,
    pub priority: Priority,
    pub tags: Vec<String>,
    pub progress: EpicProgress,
}

impl Task {
    /// Epic projection: ID, title, status, priority, tags, and progress.
    pub fn epic_summary(&self, progress: EpicProgress) -> (s: EpicSummary)
        ensures
            s.id@ == self.id@,
            s.title@ == self.title@,
            s.status == self.status,
            s.priority == self.priority,
            str_views(s.tags@) == str_views(self.tags@),
            s.progress == progress,
    {
        EpicSummary {
            id: self.id.clone(),
            title: self.title.clone(),
            status: self.status,
            priority: self.priority,
            tags: clone_strings(&self.tags),
            progress,
        }
    }
}

/// The children of an epic in execution order.
pub struct EpicPlan {
    /// Children in topological execution order.
    pub tasks: Vec<Task>,
    /// Children that cannot be ordered because they are in or behind a
    /// dependency cycle among the children, in entry order.
    pub cyclic: Vec<Task>,
}

/// The test for a child of the epic `pid`.
pub open spec fn child_of(pid: Seq<char>) -> spec_fn(TaskView) -> bool {
    |t: TaskView| t.parent == Some(pid)
}

/// The test for a task whose ID is not among those of `placed`.
pub open spec fn not_placed(placed: Seq<TaskView>) -> spec_fn(TaskView) -> bool {
    |t: TaskView| !ids_of(placed).contains(t.id)
}

/// The children of the epic that `parent_id` resolves to, in execution
/// order (see `Graph::topo_sort_subset`), and those left out by a cycle.
/// A `parent_id` that resolves to no task is its error; a task that is no
/// epic is `NotAnEpic`.
pub fn plan_epic(tasks: &TaskMap, parent_id: &str) -> (r: Result<EpicPlan, Error>)
    ensures
        match resolved(tasks.view(), parent_id@) {
            None => r matches Err(e) && resolve_failure(tasks.view(), parent_id@, e),
            Some(id) => match lookup(tasks.view(), id) {
                Some(p) => if p.task_type != TaskType::Epic {
                    r matches Err(Error::NotAnEpic(x)) && x@ == id
                } else {
                    r matches Ok(plan) && (exists|g: GraphView|
                        #[trigger] graph_of(g, tasks.view()) && crate::graph::topo_result(
                            g,
                            ids_of(filter_tasks(tasks.view(), child_of(id))),
                            tasks.view(),
                            task_views(plan.tasks@),
                        )) && task_views(plan.cyclic@) == filter_tasks(
                        filter_tasks(tasks.view(), child_of(id)),
                        not_placed(task_views(plan.tasks@)),
                    )
                },
                None => false,
            },
        },
{
    let id = resolve(tasks, parent_id)?;
    let parent = match tasks.get(id.as_str()) {
        Some(p) => p,
        None => {
            return Err(Error::TaskNotFound(id));
        },
    };
    if !parent.task_type.is_epic() {
        return Err(Error::NotAnEpic(id));
    }
    let ghost ts = tasks.view();
    let ghost f = child_of(id@);
    let all = tasks.tasks();
    let mut keep: Vec<bool> = Vec::new();
    for i in 0..all.len()
        invariant
            task_views(all@) == tasks.view(),
            f == child_of(id@),
            keep@.len() == i,
            forall|j: int| 0 <= j < i ==> keep@[j] == f(tasks.view()[j]),
    {
        let t = &all[i];
        assert(tasks.view()[i as int] == t@);
        let k = match &t.parent {
            Some(p) => crate::text::str_eq(p.as_str(), id.as_str()),
            None => false,
        };
        keep.push(k);
    }
    let children = select_tasks(tasks, Ghost(f), &keep);
    let mut child_ids: Vec<String> = Vec::new();
    for i in 0..children.len()
        invariant
            child_ids@.len() == i,
            str_views(child_ids@) == ids_of(task_views(children@)).take(i as int),
    {
        child_ids.push(children[i].id.clone());
        assert(task_views(children@)[i as int] == children@[i as int]@);
        assert(str_views(child_ids@) =~= ids_of(task_views(children@)).take(i + 1));
    }
    assert(ids_of(task_views(children@)).take(children@.len() as int) =~= ids_of(task_views(children@)));
    let graph = Graph::build(tasks);
    let sorted = graph.topo_sort_subset(&child_ids, tasks);
    let mut placed_ids: Vec<String> = Vec::new();
    for i in 0..sorted.len()
        invariant
            placed_ids@.len() == i,
            str_views(placed_ids@) == ids_of(task_views(sorted@)).take(i as int),
    {
        placed_ids.push(sorted[i].id.clone());
        assert(task_views(sorted@)[i as int] == sorted@[i as int]@);
        assert(str_views(placed_ids@) =~= ids_of(task_views(sorted@)).take(i + 1));
    }
    assert(ids_of(task_views(sorted@)).take(sorted@.len() as int) =~= ids_of(task_views(sorted@)));
    let ghost g2 = not_placed(task_views(sorted@));
    let ghost cv = task_views(children@);
    let mut cyclic: Vec<Task> = Vec::new();
    for i in 0..children.len()
        invariant
            cv == task_views(children@),
            g2 == not_placed(task_views(sorted@)),
            str_views(placed_ids@) == ids_of(task_views(sorted@)),
            task_views(cyclic@) == filter_tasks(cv.take(i as int), g2),
    {
        assert(cv.take(i + 1).drop_last() =~= cv.take(i as int));
        assert(cv.take(i + 1).last() == children@[i as int]@);
        if !crate::task::contains_string(&placed_ids, children[i].id.as_str()) {
            cyclic.push(children[i].clone());
            assert(task_views(cyclic@) =~= filter_tasks(cv.take(i + 1), g2));
        }
    }
    assert(cv.take(children@.len() as int) =~= cv);
    let ghost gv = graph.view();
    assert(graph_of(gv, ts));
    Ok(EpicPlan { tasks: sorted, cyclic })
}

} // verus!
