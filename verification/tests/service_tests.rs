use bears::error::Error;
use bears::service::{
    add_dependency, create_task, delete_task, epic_progress, get_task, list_epics, list_ready, list_tasks,
    maybe_close_parent_epic, plan_epic, prune_tasks, remove_dependency, search_tasks, set_status, update_task,
    NewTask, UpdateFields,
};
use bears::task::{Priority, Status, Task, TaskType, Timestamp};
use bears::taskmap::TaskMap;

fn svc_task(id: &str, status: Status) -> Task {
    let mut t = Task::new(id.to_string(), format!("Task {id}"), Priority::P2);
    t.status = status;
    t
}

fn make_epic(id: &str) -> Task {
    let mut t = Task::new(id.to_string(), format!("Epic {id}"), Priority::P1);
    t.task_type = TaskType::Epic;
    t
}

fn make_child(id: &str, parent: &str, status: Status) -> Task {
    let mut t = svc_task(id, status);
    t.parent = Some(parent.to_string());
    t
}

fn task_map(tasks: Vec<Task>) -> TaskMap {
    TaskMap::from_tasks(tasks)
}

fn id_list(v: &[Task]) -> Vec<&str> {
    v.iter().map(|t| t.id.as_str()).collect()
}

#[test]
fn test_epic_progress_no_children() {
    let tasks = task_map(vec![make_epic("e1")]);
    let p = epic_progress(&tasks, "e1");
    assert_eq!(p.done, 0);
    assert_eq!(p.total, 0);
}

#[test]
fn test_epic_progress_mixed() {
    let tasks = task_map(vec![
        make_epic("e1"),
        make_child("c1", "e1", Status::Done),
        make_child("c2", "e1", Status::Open),
        make_child("c3", "e1", Status::InProgress),
    ]);
    let p = epic_progress(&tasks, "e1");
    assert_eq!(p.done, 1);
    assert_eq!(p.total, 3);
}

#[test]
fn test_epic_progress_all_done() {
    let tasks = task_map(vec![
        make_epic("e1"),
        make_child("c1", "e1", Status::Done),
        make_child("c2", "e1", Status::Done),
    ]);
    let p = epic_progress(&tasks, "e1");
    assert_eq!(p.done, 2);
    assert_eq!(p.total, 2);
}

#[test]
fn test_plan_epic_linear_chain() {
    let mut c1 = make_child("c1", "e1", Status::Open);
    c1.depends_on = vec![];
    let mut c2 = make_child("c2", "e1", Status::Open);
    c2.depends_on = vec!["c1".to_string()];
    let mut c3 = make_child("c3", "e1", Status::Open);
    c3.depends_on = vec!["c2".to_string()];

    let tasks = task_map(vec![make_epic("e1"), c1, c2, c3]);
    let plan = plan_epic(&tasks, "e1").unwrap();
    assert_eq!(id_list(&plan.tasks), vec!["c1", "c2", "c3"]);
    assert!(plan.cyclic.is_empty());
}

#[test]
fn plan_epic_orders_reverse_listed_chain() {
    let mut c3 = make_child("c3", "e1", Status::Open);
    c3.depends_on = vec!["c2".to_string()];
    let mut c2 = make_child("c2", "e1", Status::Open);
    c2.depends_on = vec!["c1".to_string()];
    let c1 = make_child("c1", "e1", Status::Open);
    let tasks = task_map(vec![make_epic("e1"), c3, c2, c1]);
    let plan = plan_epic(&tasks, "e1").unwrap();
    assert_eq!(id_list(&plan.tasks), vec!["c1", "c2", "c3"]);
}

#[test]
fn plan_epic_reports_cyclic_children() {
    let mut a = make_child("ca", "e1", Status::Open);
    a.depends_on = vec!["cb".to_string()];
    let mut b = make_child("cb", "e1", Status::Open);
    b.depends_on = vec!["ca".to_string()];
    let c = make_child("cc", "e1", Status::Open);
    let tasks = task_map(vec![make_epic("e1"), a, b, c]);
    let plan = plan_epic(&tasks, "e1").unwrap();
    assert_eq!(id_list(&plan.tasks), vec!["cc"]);
    assert_eq!(id_list(&plan.cyclic), vec!["ca", "cb"]);
}

#[test]
fn test_plan_epic_independent_children() {
    let tasks = task_map(vec![
        make_epic("e1"),
        make_child("c1", "e1", Status::Open),
        make_child("c2", "e1", Status::Open),
    ]);
    let plan = plan_epic(&tasks, "e1").unwrap();
    assert_eq!(plan.tasks.len(), 2);
}

#[test]
fn test_plan_epic_no_children() {
    let tasks = task_map(vec![make_epic("e1")]);
    let plan = plan_epic(&tasks, "e1").unwrap();
    assert!(plan.tasks.is_empty());
    assert!(plan.cyclic.is_empty());
}

#[test]
fn test_plan_epic_not_found() {
    let tasks = task_map(vec![]);
    let result = plan_epic(&tasks, "nonexistent");
    assert!(result.is_err());
}

#[test]
fn test_plan_epic_non_epic_parent() {
    let parent = svc_task("p1", Status::Open);
    let tasks = task_map(vec![parent, make_child("c1", "p1", Status::Open), make_child("c2", "p1", Status::Done)]);
    let result = plan_epic(&tasks, "p1");
    assert!(matches!(result, Err(Error::NotAnEpic(ref id)) if id == "p1"));
}

fn new_task(title: &str, task_type: TaskType, parent: Option<&str>, depends_on: Vec<&str>) -> NewTask {
    let mut n = NewTask::new(title.to_string());
    n.task_type = task_type;
    n.parent = parent.map(|p| p.to_string());
    n.depends_on = depends_on.into_iter().map(|d| d.to_string()).collect();
    n
}

#[test]
fn test_epic_auto_close() {
    let mut tasks = TaskMap::new();
    let epic = create_task(&tasks, &Vec::new(), new_task("My Epic", TaskType::Epic, None, vec![]), 4).unwrap();
    tasks.insert(epic.clone());
    let child1 = create_task(&tasks, &Vec::new(), new_task("Child 1", TaskType::Task, Some(&epic.id), vec![]), 4).unwrap();
    tasks.insert(child1.clone());
    let child2 = create_task(&tasks, &Vec::new(), new_task("Child 2", TaskType::Task, Some(&epic.id), vec![]), 4).unwrap();
    tasks.insert(child2.clone());

    let done1 = set_status(&tasks, &child1.id, Status::Done).unwrap();
    assert!(maybe_close_parent_epic(&tasks, &done1).is_none());
    tasks.insert(done1);
    assert_eq!(tasks.get(&epic.id).unwrap().status, Status::Open);

    let done2 = set_status(&tasks, &child2.id, Status::Done).unwrap();
    let closed = maybe_close_parent_epic(&tasks, &done2).unwrap();
    assert_eq!(closed.id, epic.id);
    assert_eq!(closed.status, Status::Done);
}

#[test]
fn test_create_task_rejects_unknown_parent() {
    let result = create_task(&TaskMap::new(), &Vec::new(), new_task("Orphan", TaskType::Task, Some("zzzz"), vec![]), 4);
    assert!(matches!(result, Err(Error::TaskNotFound(_))));
}

#[test]
fn test_create_task_rejects_non_epic_parent() {
    let mut tasks = TaskMap::new();
    let plain = create_task(&tasks, &Vec::new(), new_task("Plain task", TaskType::Task, None, vec![]), 4).unwrap();
    tasks.insert(plain.clone());
    let result = create_task(&tasks, &Vec::new(), new_task("Child", TaskType::Task, Some(&plain.id), vec![]), 4);
    assert!(matches!(result, Err(Error::ParentNotEpic(_))));
}

#[test]
fn test_create_task_resolves_prefixes() {
    let dep = Task::new("abcd".into(), "Dep".into(), Priority::P2);
    let mut epic = Task::new("wxyz".into(), "Epic".into(), Priority::P1);
    epic.task_type = TaskType::Epic;
    let tasks = task_map(vec![dep, epic]);
    let t = create_task(&tasks, &Vec::new(), new_task("Uses prefixes", TaskType::Task, Some("wx"), vec!["ab"]), 4).unwrap();
    assert_eq!(t.depends_on, vec!["abcd"]);
    assert_eq!(t.parent.as_deref(), Some("wxyz"));
    assert_eq!(t.title, "Uses prefixes");
    assert_eq!(t.status, Status::Open);
    assert_eq!(t.id.len(), 4);
}

#[test]
fn create_task_rejects_unknown_dependencies() {
    let tasks = task_map(vec![svc_task("abcd", Status::Open)]);
    match create_task(&tasks, &Vec::new(), new_task("T", TaskType::Task, None, vec!["zz", "ab", "yy"]), 4) {
        Err(Error::UnknownDependency { ids }) => assert_eq!(ids, vec!["zz", "yy"]),
        other => panic!("unexpected {other:?}"),
    }
}

#[test]
fn test_create_task_empty_parent_is_none() {
    let t = create_task(&TaskMap::new(), &Vec::new(), new_task("No parent", TaskType::Task, Some(""), vec![]), 4).unwrap();
    assert_eq!(t.parent, None);
}

#[test]
fn test_epic_not_closed_by_recompleting_done_child() {
    let mut tasks = TaskMap::new();
    let epic = create_task(&tasks, &Vec::new(), new_task("Epic", TaskType::Epic, None, vec![]), 4).unwrap();
    tasks.insert(epic.clone());
    let child1 = create_task(&tasks, &Vec::new(), new_task("Child 1", TaskType::Task, Some(&epic.id), vec![]), 4).unwrap();
    tasks.insert(child1.clone());
    let child2 = create_task(&tasks, &Vec::new(), new_task("Child 2", TaskType::Task, Some(&epic.id), vec![]), 4).unwrap();
    tasks.insert(child2);

    let done = set_status(&tasks, &child1.id, Status::Done).unwrap();
    assert!(maybe_close_parent_epic(&tasks, &done).is_none());
    tasks.insert(done);
    let again = set_status(&tasks, &child1.id, Status::Done).unwrap();
    assert!(maybe_close_parent_epic(&tasks, &again).is_none());
    tasks.insert(again);
    assert_eq!(tasks.get(&epic.id).unwrap().status, Status::Open);
}

#[test]
fn test_epic_auto_close_via_update_task() {
    let mut tasks = TaskMap::new();
    let epic = create_task(&tasks, &Vec::new(), new_task("Epic", TaskType::Epic, None, vec![]), 4).unwrap();
    tasks.insert(epic.clone());
    let child = create_task(&tasks, &Vec::new(), new_task("Only child", TaskType::Task, Some(&epic.id), vec![]), 4).unwrap();
    tasks.insert(child.clone());

    let mut fields = UpdateFields::default();
    fields.status = Some(Status::Done);
    let updated = update_task(&tasks, &child.id, fields).unwrap();
    let closed = maybe_close_parent_epic(&tasks, &updated).unwrap();
    assert_eq!(closed.id, epic.id);
    assert_eq!(closed.status, Status::Done);
}

#[test]
fn update_task_applies_only_given_fields() {
    let mut t = svc_task("up01", Status::Open);
    t.tags = vec!["a".into()];
    t.assignee = "bob".into();
    let tasks = task_map(vec![t]);
    let mut fields = UpdateFields::default();
    fields.title = Some("Renamed".into());
    fields.priority = Some(Priority::P0);
    let u = update_task(&tasks, "up", fields).unwrap();
    assert_eq!(u.title, "Renamed");
    assert_eq!(u.priority, Priority::P0);
    assert_eq!(u.tags, vec!["a"]);
    assert_eq!(u.assignee, "bob");
    assert_eq!(u.status, Status::Open);
}

#[test]
fn test_delete_scrubs_dangling_references() {
    let mut a = make_epic("aaaa");
    a.title = "Dep target".into();
    let mut b = svc_task("bbbb", Status::Open);
    b.depends_on = vec!["aaaa".into()];
    let c = make_child("cccc", "aaaa", Status::Open);
    let tasks = task_map(vec![a, b, c]);

    let (deleted, scrubbed) = delete_task(&tasks, "aaaa").unwrap();
    assert_eq!(deleted.id, "aaaa");
    assert_eq!(id_list(&scrubbed), vec!["bbbb", "cccc"]);
    assert!(scrubbed[0].depends_on.is_empty(), "dep should be scrubbed");
    assert_eq!(scrubbed[1].parent, None, "parent should be cleared");

    let mut after = TaskMap::new();
    for t in scrubbed {
        after.insert(t);
    }
    let ready = list_ready(&after, None, None, None);
    assert!(ready.iter().any(|t| t.id == "bbbb"));
}

#[test]
fn test_prune_scrubs_dangling_references() {
    let a = svc_task("aaaa", Status::Cancelled);
    let mut b = svc_task("bbbb", Status::Open);
    b.depends_on = vec!["aaaa".into()];
    let d = svc_task("dddd", Status::Done);
    let tasks = task_map(vec![a, b, d]);
    let (gone, scrubbed) = prune_tasks(&tasks, false);
    assert_eq!(id_list(&gone), vec!["aaaa"]);
    assert_eq!(id_list(&scrubbed), vec!["bbbb"]);
    assert!(scrubbed[0].depends_on.is_empty(), "dep should be scrubbed");
    let (gone_all, _) = prune_tasks(&tasks, true);
    assert_eq!(id_list(&gone_all), vec!["aaaa", "dddd"]);
}

#[test]
fn list_hides_done_and_cancelled_by_default() {
    let tasks = task_map(vec![
        svc_task("o1", Status::Open),
        svc_task("d1", Status::Done),
        svc_task("x1", Status::Cancelled),
        svc_task("b1", Status::Blocked),
    ]);
    assert_eq!(id_list(&list_tasks(&tasks, None, None, None, false, None)), vec!["o1", "b1"]);
    assert_eq!(id_list(&list_tasks(&tasks, None, None, None, true, None)).len(), 4);
    assert_eq!(id_list(&list_tasks(&tasks, Some(Status::Done), None, None, false, None)), vec!["d1"]);
}

#[test]
fn list_sorts_by_priority_then_creation() {
    let mut a = svc_task("a1", Status::Open);
    a.priority = Priority::P3;
    a.created = Timestamp { secs: 10, nanos: 0 };
    let mut b = svc_task("b1", Status::Open);
    b.priority = Priority::P0;
    b.created = Timestamp { secs: 20, nanos: 0 };
    let mut c = svc_task("c1", Status::Open);
    c.priority = Priority::P3;
    c.created = Timestamp { secs: 5, nanos: 0 };
    let tasks = task_map(vec![a, b, c]);
    assert_eq!(id_list(&list_tasks(&tasks, None, None, None, false, None)), vec!["b1", "c1", "a1"]);
    assert_eq!(id_list(&list_tasks(&tasks, None, Some(Priority::P3), None, false, None)), vec!["c1", "a1"]);
}

#[test]
fn get_task_resolves_prefix_and_reports_errors() {
    let tasks = task_map(vec![svc_task("abcd", Status::Open), svc_task("abef", Status::Open)]);
    assert_eq!(get_task(&tasks, "abc").unwrap().id, "abcd");
    match get_task(&tasks, "ab") {
        Err(Error::AmbiguousPrefix { prefix, matches }) => {
            assert_eq!(prefix, "ab");
            assert_eq!(matches, "abcd, abef");
        }
        other => panic!("unexpected {other:?}"),
    }
    assert!(matches!(get_task(&tasks, "zz"), Err(Error::TaskNotFound(ref id)) if id == "zz"));
}

#[test]
fn add_dependency_refuses_cycle() {
    let mut a = svc_task("aaaa", Status::Open);
    a.depends_on = vec!["bbbb".into()];
    let b = svc_task("bbbb", Status::Open);
    let tasks = task_map(vec![a, b]);
    match add_dependency(&tasks, "bbbb", "aaaa") {
        Err(Error::CycleDetected { from, to }) => {
            assert_eq!(from, "bbbb");
            assert_eq!(to, "aaaa");
        }
        other => panic!("unexpected {other:?}"),
    }
    assert!(matches!(add_dependency(&tasks, "aaaa", "aaaa"), Err(Error::CycleDetected { .. })));
    let (t, changed) = add_dependency(&tasks, "aaaa", "bbbb").unwrap();
    assert!(!changed);
    assert_eq!(t.depends_on, vec!["bbbb"]);
}

#[test]
fn add_then_remove_dependency() {
    let tasks = task_map(vec![svc_task("aaaa", Status::Open), svc_task("bbbb", Status::Open)]);
    let (t, changed) = add_dependency(&tasks, "aa", "bb").unwrap();
    assert!(changed);
    assert_eq!(t.depends_on, vec!["bbbb"]);
    let mut tasks2 = tasks;
    tasks2.insert(t);
    let r = remove_dependency(&tasks2, "aaaa", "bbbb").unwrap();
    assert!(r.depends_on.is_empty());
}

#[test]
fn list_ready_skips_blocked_and_epics() {
    let mut a = svc_task("aaaa", Status::Open);
    a.depends_on = vec!["bbbb".into()];
    let b = svc_task("bbbb", Status::Open);
    let e = make_epic("eeee");
    let tasks = task_map(vec![a, b, e]);
    assert_eq!(id_list(&list_ready(&tasks, None, None, None)), vec!["bbbb"]);
}

#[test]
fn search_is_case_insensitive() {
    let mut a = svc_task("aaaa", Status::Open);
    a.title = "Fix LOGIN page".into();
    let mut b = svc_task("bbbb", Status::Done);
    b.body = "login flow".into();
    let c = svc_task("cccc", Status::Open);
    let tasks = task_map(vec![a, b, c]);
    assert_eq!(id_list(&search_tasks(&tasks, "Login", false)), vec!["aaaa"]);
    assert_eq!(id_list(&search_tasks(&tasks, "login", true)), vec!["aaaa", "bbbb"]);
    assert_eq!(id_list(&search_tasks(&tasks, "ccc", false)), vec!["cccc"]);
}

#[test]
fn list_epics_returns_only_epics() {
    let tasks = task_map(vec![svc_task("t1", Status::Open), make_epic("e1"), make_epic("e2")]);
    assert_eq!(id_list(&list_epics(&tasks)), vec!["e1", "e2"]);
}

#[test]
fn set_status_returns_the_epic_it_closes() {
    let epic = make_epic("e1");
    let c1 = make_child("c1", "e1", Status::Open);
    let c2 = make_child("c2", "e1", Status::Done);
    let tasks = task_map(vec![epic, c1, c2]);
    let (t, closed) = bears::service::set_status_and_close_epic(&tasks, "c1", Status::Done).unwrap();
    assert_eq!(t.status, Status::Done);
    let e = closed.unwrap();
    assert_eq!(e.id, "e1");
    assert_eq!(e.status, Status::Done);
    let (_, none) = bears::service::set_status_and_close_epic(&tasks, "c1", Status::InProgress).unwrap();
    assert!(none.is_none());
    let c3 = make_child("c3", "e1", Status::Open);
    let tasks2 = task_map(vec![make_epic("e1"), make_child("c1", "e1", Status::Open), c3]);
    let (_, open) = bears::service::set_status_and_close_epic(&tasks2, "c1", Status::Done).unwrap();
    assert!(open.is_none());
}

#[test]
fn test_new_task_ids_do_not_reuse_archived_ids() {
    let mut tasks = TaskMap::new();
    let archived_task = create_task(&tasks, &Vec::new(), new_task("Archived ID guard", TaskType::Task, None, vec![]), 4).unwrap();
    let id = archived_task.id.clone();
    let archived = vec![id.clone()];
    let mut new_ids = Vec::new();
    for i in 0..10 {
        let t = create_task(&tasks, &archived, new_task(&format!("New task {i}"), TaskType::Task, None, vec![]), 4).unwrap();
        new_ids.push(t.id.clone());
        tasks.insert(t);
    }
    assert!(!new_ids.contains(&id), "archived ID {id} must not be reused by new tasks: {new_ids:?}");
}

#[test]
fn archived_ids_leave_only_the_free_one() {
    let charset = "abcdefghjkmnpqrstuvwxyz23456789";
    let archived: Vec<String> = charset.chars().filter(|c| *c != 'k').map(|c| c.to_string()).collect();
    let t = create_task(&TaskMap::new(), &archived, new_task("Last", TaskType::Task, None, vec![]), 1).unwrap();
    assert_eq!(t.id, "k");
}

#[test]
fn refused_task_is_refused_before_any_draw() {
    let charset = "abcdefghjkmnpqrstuvwxyz23456789";
    let archived: Vec<String> = charset.chars().map(|c| c.to_string()).collect();
    let r = create_task(&TaskMap::new(), &archived, new_task("T", TaskType::Task, None, vec!["zz"]), 1);
    match r {
        Err(Error::UnknownDependency { ids }) => assert_eq!(ids, vec!["zz".to_string()]),
        _ => panic!("expected UnknownDependency"),
    }
}
