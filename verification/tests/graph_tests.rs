use bears::graph::{is_blocked, is_depended_on, tree_rows, DepNode, Graph};
use bears::task::{Priority, Status, Task, TaskType, Timestamp};
use bears::taskmap::TaskMap;

fn make_task(id: &str, status: Status, priority: Priority, deps: Vec<&str>) -> Task {
    Task {
        id: id.into(),
        title: format!("Task {id}"),
        task_type: TaskType::default(),
        status,
        priority,
        created: Timestamp { secs: 1_700_000_000, nanos: 0 },
        updated: Timestamp { secs: 1_700_000_000, nanos: 0 },
        tags: Vec::new(),
        depends_on: deps.into_iter().map(String::from).collect(),
        parent: None,
        assignee: String::new(),
        body: String::new(),
    }
}

fn make_tasks(tasks: Vec<Task>) -> TaskMap {
    TaskMap::from_tasks(tasks)
}

fn ids(tasks: &[Task]) -> Vec<&str> {
    tasks.iter().map(|t| t.id.as_str()).collect()
}

fn subset(names: &[&str]) -> Vec<String> {
    names.iter().map(|s| s.to_string()).collect()
}

fn eff_of(graph: &Graph, eff: &[Priority], id: &str) -> Priority {
    eff[graph.find(id).unwrap()]
}

fn count_nodes(node: &DepNode) -> usize {
    1 + node.children.iter().map(count_nodes).sum::<usize>()
}

#[test]
fn test_ready_no_deps() {
    let tasks = make_tasks(vec![
        make_task("a", Status::Open, Priority::P1, vec![]),
        make_task("b", Status::Open, Priority::P0, vec![]),
    ]);
    let graph = Graph::build(&tasks);
    let ready = graph.ready(&tasks, None, None, None);
    assert_eq!(ready.len(), 2);
    assert_eq!(ready[0].id, "b");
    assert_eq!(ready[1].id, "a");
}

#[test]
fn test_ready_with_deps() {
    let tasks = make_tasks(vec![
        make_task("a", Status::Done, Priority::P1, vec![]),
        make_task("b", Status::Open, Priority::P1, vec!["a"]),
        make_task("c", Status::Open, Priority::P1, vec!["b"]),
    ]);
    let graph = Graph::build(&tasks);
    let ready = graph.ready(&tasks, None, None, None);
    assert_eq!(ready.len(), 1);
    assert_eq!(ready[0].id, "b");
}

#[test]
fn test_ready_blocked_by_undone_dep() {
    let tasks = make_tasks(vec![
        make_task("a", Status::InProgress, Priority::P1, vec![]),
        make_task("b", Status::Open, Priority::P1, vec!["a"]),
    ]);
    let graph = Graph::build(&tasks);
    let ready = graph.ready(&tasks, None, None, None);
    assert!(ready.is_empty());
}

#[test]
fn test_ready_blocked_by_missing_dep() {
    let tasks = make_tasks(vec![make_task("b", Status::Open, Priority::P1, vec!["nonexistent"])]);
    let graph = Graph::build(&tasks);
    let ready = graph.ready(&tasks, None, None, None);
    assert!(ready.is_empty());
}

#[test]
fn test_ready_with_tag_filter() {
    let mut t = make_task("a", Status::Open, Priority::P1, vec![]);
    t.tags = vec!["backend".into()];
    let tasks = make_tasks(vec![t, make_task("b", Status::Open, Priority::P1, vec![])]);
    let graph = Graph::build(&tasks);
    let ready = graph.ready(&tasks, Some("backend"), None, None);
    assert_eq!(ready.len(), 1);
    assert_eq!(ready[0].id, "a");
}

#[test]
fn test_ready_with_limit() {
    let tasks = make_tasks(vec![
        make_task("a", Status::Open, Priority::P1, vec![]),
        make_task("b", Status::Open, Priority::P1, vec![]),
        make_task("c", Status::Open, Priority::P1, vec![]),
    ]);
    let graph = Graph::build(&tasks);
    let ready = graph.ready(&tasks, None, Some(2), None);
    assert_eq!(ready.len(), 2);
}

#[test]
fn test_ready_excludes_epics() {
    let mut epic = make_task("e", Status::Open, Priority::P0, vec![]);
    epic.task_type = TaskType::Epic;
    let tasks = make_tasks(vec![epic, make_task("a", Status::Open, Priority::P1, vec![])]);
    let graph = Graph::build(&tasks);
    let ready = graph.ready(&tasks, None, None, None);
    assert_eq!(ready.len(), 1);
    assert_eq!(ready[0].id, "a");
}

#[test]
fn test_ready_with_epic_filter() {
    let mut t1 = make_task("a", Status::Open, Priority::P1, vec![]);
    t1.parent = Some("epic1".into());
    let mut t2 = make_task("b", Status::Open, Priority::P1, vec![]);
    t2.parent = Some("epic2".into());
    let t3 = make_task("c", Status::Open, Priority::P1, vec![]);
    let tasks = make_tasks(vec![t1, t2, t3]);
    let graph = Graph::build(&tasks);

    let ready = graph.ready(&tasks, None, None, Some("epic1"));
    assert_eq!(ready.len(), 1);
    assert_eq!(ready[0].id, "a");

    let ready = graph.ready(&tasks, None, None, Some("epic2"));
    assert_eq!(ready.len(), 1);
    assert_eq!(ready[0].id, "b");

    let ready = graph.ready(&tasks, None, None, None);
    assert_eq!(ready.len(), 3);
}

#[test]
fn test_cycle_self() {
    let tasks = make_tasks(vec![make_task("a", Status::Open, Priority::P1, vec![])]);
    let graph = Graph::build(&tasks);
    assert!(graph.would_cycle("a", "a"));
}

#[test]
fn test_cycle_direct() {
    let tasks = make_tasks(vec![
        make_task("a", Status::Open, Priority::P1, vec!["b"]),
        make_task("b", Status::Open, Priority::P1, vec![]),
    ]);
    let graph = Graph::build(&tasks);
    assert!(graph.would_cycle("b", "a"));
}

#[test]
fn test_cycle_transitive() {
    let tasks = make_tasks(vec![
        make_task("a", Status::Open, Priority::P1, vec!["b"]),
        make_task("b", Status::Open, Priority::P1, vec!["c"]),
        make_task("c", Status::Open, Priority::P1, vec![]),
    ]);
    let graph = Graph::build(&tasks);
    assert!(graph.would_cycle("c", "a"));
}

#[test]
fn test_no_cycle() {
    let tasks = make_tasks(vec![
        make_task("a", Status::Open, Priority::P1, vec![]),
        make_task("b", Status::Open, Priority::P1, vec![]),
    ]);
    let graph = Graph::build(&tasks);
    assert!(!graph.would_cycle("a", "b"));
}

#[test]
fn test_dep_tree() {
    let tasks = make_tasks(vec![
        make_task("a", Status::Open, Priority::P1, vec!["b", "c"]),
        make_task("b", Status::Open, Priority::P1, vec![]),
        make_task("c", Status::Open, Priority::P1, vec![]),
    ]);
    let graph = Graph::build(&tasks);
    let tree = graph.dep_tree(&tasks, "a").unwrap();
    assert_eq!(tree.task.id, "a");
    assert_eq!(tree.children.len(), 2);
}

#[test]
fn test_empty_graph() {
    let tasks = TaskMap::new();
    let graph = Graph::build(&tasks);
    let ready = graph.ready(&tasks, None, None, None);
    assert!(ready.is_empty());
}

#[test]
fn test_adjacency_list() {
    let tasks = make_tasks(vec![
        make_task("a", Status::Open, Priority::P1, vec!["b"]),
        make_task("b", Status::Open, Priority::P1, vec![]),
    ]);
    let graph = Graph::build(&tasks);
    let adj = graph.adjacency_list();
    let get = |id: &str| adj.iter().find(|(k, _)| k == id).map(|(_, v)| v.clone());
    assert_eq!(get("a").unwrap().len(), 1);
    assert!(get("b").unwrap().is_empty());
}

#[test]
fn test_dep_tree_direct_cycle() {
    let tasks = make_tasks(vec![
        make_task("a", Status::Open, Priority::P1, vec!["b"]),
        make_task("b", Status::Open, Priority::P1, vec!["a"]),
    ]);
    let graph = Graph::build(&tasks);
    let tree = graph.dep_tree(&tasks, "a").unwrap();
    assert!(!tree.cycle);
    assert_eq!(tree.children.len(), 1);
    let b_node = &tree.children[0];
    assert_eq!(b_node.task.id, "b");
    assert!(!b_node.cycle);
    assert_eq!(b_node.children.len(), 1);
    let cycle_node = &b_node.children[0];
    assert_eq!(cycle_node.task.id, "a");
    assert!(cycle_node.cycle);
    assert!(cycle_node.children.is_empty());
}

#[test]
fn test_dep_tree_transitive_cycle() {
    let tasks = make_tasks(vec![
        make_task("a", Status::Open, Priority::P1, vec!["b"]),
        make_task("b", Status::Open, Priority::P1, vec!["c"]),
        make_task("c", Status::Open, Priority::P1, vec!["a"]),
    ]);
    let graph = Graph::build(&tasks);
    let tree = graph.dep_tree(&tasks, "a").unwrap();
    assert!(!tree.cycle);
    let b = &tree.children[0];
    let c = &b.children[0];
    assert_eq!(c.task.id, "c");
    assert!(!c.cycle);
    let back_to_a = &c.children[0];
    assert_eq!(back_to_a.task.id, "a");
    assert!(back_to_a.cycle);
    assert!(back_to_a.children.is_empty());
}

#[test]
fn test_dep_tree_self_cycle() {
    let tasks = make_tasks(vec![make_task("a", Status::Open, Priority::P1, vec!["a"])]);
    let graph = Graph::build(&tasks);
    let tree = graph.dep_tree(&tasks, "a").unwrap();
    assert!(!tree.cycle);
    assert_eq!(tree.children.len(), 1);
    let self_ref = &tree.children[0];
    assert_eq!(self_ref.task.id, "a");
    assert!(self_ref.cycle);
    assert!(self_ref.children.is_empty());
}

#[test]
fn test_dep_tree_no_cycle() {
    let tasks = make_tasks(vec![
        make_task("a", Status::Open, Priority::P1, vec!["b", "c"]),
        make_task("b", Status::Open, Priority::P1, vec!["d"]),
        make_task("c", Status::Open, Priority::P1, vec!["d"]),
        make_task("d", Status::Open, Priority::P1, vec![]),
    ]);
    let graph = Graph::build(&tasks);
    let tree = graph.dep_tree(&tasks, "a").unwrap();
    assert!(!tree.cycle);
    assert!(!tree.seen);
    assert_eq!(tree.children.len(), 2);
    for child in &tree.children {
        assert!(!child.cycle);
        assert_eq!(child.children.len(), 1);
        let d_node = &child.children[0];
        assert_eq!(d_node.task.id, "d");
        assert!(!d_node.cycle);
    }
    let d_nodes: Vec<_> = tree.children.iter().flat_map(|c| c.children.iter()).collect();
    assert_eq!(d_nodes.len(), 2);
    let seen_count = d_nodes.iter().filter(|n| n.seen).count();
    let full_count = d_nodes.iter().filter(|n| !n.seen && !n.cycle).count();
    assert_eq!(seen_count, 1, "exactly one d occurrence should be a seen-ref");
    assert_eq!(full_count, 1, "exactly one d occurrence should be fully expanded");
}

#[test]
fn test_effective_priority_no_dependents() {
    let tasks = make_tasks(vec![make_task("a", Status::Open, Priority::P3, vec![])]);
    let graph = Graph::build(&tasks);
    assert_eq!(graph.effective_priority("a", &tasks), Priority::P3);
}

#[test]
fn test_effective_priority_single_dependent() {
    let tasks = make_tasks(vec![
        make_task("a", Status::Open, Priority::P3, vec![]),
        make_task("b", Status::Open, Priority::P1, vec!["a"]),
    ]);
    let graph = Graph::build(&tasks);
    assert_eq!(graph.effective_priority("a", &tasks), Priority::P1);
    assert_eq!(graph.effective_priority("b", &tasks), Priority::P1);
}

#[test]
fn test_effective_priority_chain() {
    let tasks = make_tasks(vec![
        make_task("a", Status::Open, Priority::P3, vec![]),
        make_task("b", Status::Open, Priority::P2, vec!["a"]),
        make_task("c", Status::Open, Priority::P0, vec!["b"]),
    ]);
    let graph = Graph::build(&tasks);
    assert_eq!(graph.effective_priority("a", &tasks), Priority::P0);
    assert_eq!(graph.effective_priority("b", &tasks), Priority::P0);
    assert_eq!(graph.effective_priority("c", &tasks), Priority::P0);
}

#[test]
fn test_effective_priority_diamond() {
    let tasks = make_tasks(vec![
        make_task("a", Status::Open, Priority::P3, vec![]),
        make_task("b", Status::Open, Priority::P2, vec!["a"]),
        make_task("c", Status::Open, Priority::P3, vec!["a"]),
        make_task("d", Status::Open, Priority::P0, vec!["b", "c"]),
    ]);
    let graph = Graph::build(&tasks);
    assert_eq!(graph.effective_priority("a", &tasks), Priority::P0);
    assert_eq!(graph.effective_priority("b", &tasks), Priority::P0);
    assert_eq!(graph.effective_priority("c", &tasks), Priority::P0);
}

#[test]
fn test_effective_priority_own_is_highest() {
    let tasks = make_tasks(vec![
        make_task("a", Status::Open, Priority::P0, vec![]),
        make_task("b", Status::Open, Priority::P3, vec!["a"]),
    ]);
    let graph = Graph::build(&tasks);
    assert_eq!(graph.effective_priority("a", &tasks), Priority::P0);
}

#[test]
fn test_topo_sort_linear_chain() {
    let tasks = make_tasks(vec![
        make_task("a", Status::Open, Priority::P1, vec![]),
        make_task("b", Status::Open, Priority::P1, vec!["a"]),
        make_task("c", Status::Open, Priority::P1, vec!["b"]),
    ]);
    let graph = Graph::build(&tasks);
    let sorted = graph.topo_sort_subset(&subset(&["a", "b", "c"]), &tasks);
    assert_eq!(ids(&sorted), vec!["a", "b", "c"]);
}

#[test]
fn test_topo_sort_diamond() {
    let tasks = make_tasks(vec![
        make_task("a", Status::Open, Priority::P1, vec!["b", "c"]),
        make_task("b", Status::Open, Priority::P1, vec!["d"]),
        make_task("c", Status::Open, Priority::P1, vec!["d"]),
        make_task("d", Status::Open, Priority::P1, vec![]),
    ]);
    let graph = Graph::build(&tasks);
    let sorted = graph.topo_sort_subset(&subset(&["a", "b", "c", "d"]), &tasks);
    let ids = ids(&sorted);
    assert_eq!(ids[0], "d");
    assert_eq!(ids[ids.len() - 1], "a");
}

#[test]
fn test_topo_sort_independent() {
    let tasks = make_tasks(vec![
        make_task("a", Status::Open, Priority::P2, vec![]),
        make_task("b", Status::Open, Priority::P0, vec![]),
        make_task("c", Status::Open, Priority::P1, vec![]),
    ]);
    let graph = Graph::build(&tasks);
    let sorted = graph.topo_sort_subset(&subset(&["a", "b", "c"]), &tasks);
    assert_eq!(ids(&sorted), vec!["b", "c", "a"]);
}

#[test]
fn test_topo_sort_single_task() {
    let tasks = make_tasks(vec![make_task("a", Status::Open, Priority::P1, vec![])]);
    let graph = Graph::build(&tasks);
    let sorted = graph.topo_sort_subset(&subset(&["a"]), &tasks);
    assert_eq!(sorted.len(), 1);
    assert_eq!(sorted[0].id, "a");
}

#[test]
fn test_topo_sort_empty() {
    let tasks = make_tasks(vec![make_task("a", Status::Open, Priority::P1, vec![])]);
    let graph = Graph::build(&tasks);
    let sorted = graph.topo_sort_subset(&Vec::new(), &tasks);
    assert!(sorted.is_empty());
}

#[test]
fn test_topo_sort_ignores_external_deps() {
    let tasks = make_tasks(vec![
        make_task("a", Status::Open, Priority::P1, vec![]),
        make_task("b", Status::Open, Priority::P1, vec!["ext"]),
        make_task("ext", Status::Done, Priority::P1, vec![]),
    ]);
    let graph = Graph::build(&tasks);
    let sorted = graph.topo_sort_subset(&subset(&["a", "b"]), &tasks);
    assert_eq!(sorted.len(), 2);
}

#[test]
fn test_effective_priority_long_chain_correct() {
    let n = 20usize;
    let mut task_list = Vec::new();
    for i in 0..n {
        let priority = if i == n - 1 { Priority::P0 } else { Priority::P3 };
        task_list.push(make_task(&format!("t{i}"), Status::Open, priority, vec![]));
    }
    for i in 0..n - 1 {
        task_list[i + 1].depends_on = vec![format!("t{i}")];
    }
    let tasks = make_tasks(task_list);
    let graph = Graph::build(&tasks);
    let eff = graph.effective_priorities_all(&tasks);
    assert_eq!(eff_of(&graph, &eff, "t0"), Priority::P0, "t0 effective priority should be P0");
    assert_eq!(eff_of(&graph, &eff, "t9"), Priority::P0, "t9 effective priority should be P0");
    assert_eq!(eff_of(&graph, &eff, "t19"), Priority::P0);
}

#[test]
fn test_dep_tree_deep_diamond_linear_node_count() {
    let tasks = make_tasks(vec![
        make_task("root", Status::Open, Priority::P1, vec!["l1a", "l1b"]),
        make_task("l1a", Status::Open, Priority::P1, vec!["l2a", "l2b"]),
        make_task("l1b", Status::Open, Priority::P1, vec!["l2a", "l2b"]),
        make_task("l2a", Status::Open, Priority::P1, vec!["leaf"]),
        make_task("l2b", Status::Open, Priority::P1, vec!["leaf"]),
        make_task("leaf", Status::Open, Priority::P1, vec![]),
    ]);
    let graph = Graph::build(&tasks);
    let tree = graph.dep_tree(&tasks, "root").unwrap();
    let node_count = count_nodes(&tree);
    let v = tasks.len();
    let e: usize = tasks.tasks().iter().map(|t| t.depends_on.len()).sum();
    assert!(node_count <= v + e, "node_count={node_count} exceeded V+E={}", v + e);
}

// ── Further checks of the graph's contracts ─────────────────────────

#[test]
fn ready_orders_equal_priority_by_creation_time() {
    let mut old = make_task("old", Status::Open, Priority::P1, vec![]);
    old.created = Timestamp { secs: 100, nanos: 0 };
    let mut new = make_task("new", Status::Open, Priority::P1, vec![]);
    new.created = Timestamp { secs: 200, nanos: 0 };
    let tasks = make_tasks(vec![new, old]);
    let graph = Graph::build(&tasks);
    let ready = graph.ready(&tasks, None, None, None);
    assert_eq!(ids(&ready), vec!["old", "new"]);
}

#[test]
fn ready_uses_effective_priority() {
    // "low" (P3) blocks an open P0 task, so it is ordered as P0 and comes
    // before the P1 task.
    let tasks = make_tasks(vec![
        make_task("mid", Status::Open, Priority::P1, vec![]),
        make_task("low", Status::Open, Priority::P3, vec![]),
        make_task("top", Status::Open, Priority::P0, vec!["low"]),
    ]);
    let graph = Graph::build(&tasks);
    let ready = graph.ready(&tasks, None, None, None);
    assert_eq!(ids(&ready), vec!["low", "mid"]);
}

#[test]
fn cycle_members_keep_own_priority() {
    let tasks = make_tasks(vec![
        make_task("a", Status::Open, Priority::P3, vec!["b"]),
        make_task("b", Status::Open, Priority::P2, vec!["a"]),
        make_task("c", Status::Open, Priority::P0, vec!["a"]),
    ]);
    let graph = Graph::build(&tasks);
    assert_eq!(graph.effective_priority("a", &tasks), Priority::P3);
    assert_eq!(graph.effective_priority("b", &tasks), Priority::P2);
}

#[test]
fn unknown_id_has_priority_p3() {
    let tasks = make_tasks(vec![make_task("a", Status::Open, Priority::P0, vec![])]);
    let graph = Graph::build(&tasks);
    assert_eq!(graph.effective_priority("zzz", &tasks), Priority::P3);
}

#[test]
fn topo_sort_leaves_out_cycles() {
    let tasks = make_tasks(vec![
        make_task("a", Status::Open, Priority::P1, vec!["b"]),
        make_task("b", Status::Open, Priority::P1, vec!["a"]),
        make_task("c", Status::Open, Priority::P1, vec![]),
    ]);
    let graph = Graph::build(&tasks);
    let sorted = graph.topo_sort_subset(&subset(&["a", "b", "c"]), &tasks);
    assert_eq!(ids(&sorted), vec!["c"]);
}

#[test]
fn dep_tree_of_unknown_id_is_none() {
    let tasks = make_tasks(vec![make_task("a", Status::Open, Priority::P1, vec![])]);
    let graph = Graph::build(&tasks);
    assert!(graph.dep_tree(&tasks, "nope").is_none());
}

#[test]
fn dep_node_json_carries_fields() {
    let tasks = make_tasks(vec![
        make_task("a", Status::InProgress, Priority::P1, vec!["b"]),
        make_task("b", Status::Done, Priority::P2, vec![]),
    ]);
    let graph = Graph::build(&tasks);
    let tree = graph.dep_tree(&tasks, "a").unwrap();
    let json = bears::graph::DepNodeJson::from_dep_node(&tree);
    assert_eq!(json.id, "a");
    assert_eq!(json.status, "in_progress");
    assert_eq!(json.priority, Priority::P1);
    assert_eq!(json.children.len(), 1);
    assert_eq!(json.children[0].status, "done");
}

#[test]
fn ready_task_predicate() {
    let tasks = make_tasks(vec![
        make_task("ready", Status::Open, Priority::P1, vec!["done_dep"]),
        make_task("blocked", Status::Open, Priority::P1, vec!["open_dep"]),
        make_task("done_dep", Status::Done, Priority::P1, vec![]),
        make_task("open_dep", Status::Open, Priority::P1, vec![]),
    ]);
    let get = |id: &str| tasks.get(id).unwrap().clone();
    assert!(bears::graph::is_task_ready(&tasks, &get("ready")));
    assert!(!bears::graph::is_task_ready(&tasks, &get("blocked")));
    assert!(!bears::graph::is_task_ready(&tasks, &get("done_dep")));
}

#[test]
fn graph_roots_are_undepended_tasks_by_effective_priority() {
    // c depends on a; b stands alone; d is done.
    let a = make_task("a", Status::Open, Priority::P3, vec![]);
    let mut b = make_task("b", Status::Open, Priority::P2, vec![]);
    b.created = Timestamp { secs: 1_600_000_000, nanos: 0 };
    let c = make_task("c", Status::Open, Priority::P0, vec!["a"]);
    let d = make_task("d", Status::Done, Priority::P0, vec![]);
    let tasks = make_tasks(vec![a, b, c, d]);
    let graph = Graph::build(&tasks);
    assert!(is_depended_on(&tasks, "a"));
    assert!(!is_depended_on(&tasks, "c"));
    assert_eq!(ids(&graph.graph_roots(&tasks, false)), vec!["c", "b"]);
    assert_eq!(ids(&graph.graph_roots(&tasks, true)), vec!["c", "d", "b"]);
}

#[test]
fn blocked_needs_an_unfinished_present_dependency() {
    let a = make_task("a", Status::Open, Priority::P1, vec!["b"]);
    let b = make_task("b", Status::InProgress, Priority::P1, vec![]);
    let c = make_task("c", Status::Open, Priority::P1, vec!["gone"]);
    let d = make_task("d", Status::Blocked, Priority::P1, vec!["b"]);
    let e = make_task("e", Status::InProgress, Priority::P1, vec!["f"]);
    let f = make_task("f", Status::Done, Priority::P1, vec![]);
    let tasks = make_tasks(vec![a.clone(), b.clone(), c.clone(), d.clone(), e.clone(), f]);
    assert!(is_blocked(&tasks, &a));
    assert!(!is_blocked(&tasks, &b));
    assert!(!is_blocked(&tasks, &c));
    assert!(!is_blocked(&tasks, &d));
    assert!(!is_blocked(&tasks, &e));
}

#[test]
fn tree_rows_indent_and_hide_settled_children() {
    // root -> x, y, z ; x -> w ; z is done.
    let root = make_task("root", Status::Open, Priority::P1, vec!["x", "y", "z"]);
    let x = make_task("x", Status::Open, Priority::P1, vec!["w"]);
    let y = make_task("y", Status::Open, Priority::P1, vec![]);
    let z = make_task("z", Status::Done, Priority::P1, vec![]);
    let w = make_task("w", Status::Open, Priority::P1, vec![]);
    let tasks = make_tasks(vec![root, x, y, z, w]);
    let graph = Graph::build(&tasks);
    let tree = graph.dep_tree(&tasks, "root").unwrap();

    let rows = tree_rows(&tree, false);
    let got: Vec<(String, String, String)> =
        rows.iter().map(|r| (r.prefix.clone(), r.connector.clone(), r.task.id.clone())).collect();
    let want = vec![
        ("", "", "root"),
        ("    ", "├── ", "x"),
        ("    │   ", "└── ", "w"),
        ("    ", "└── ", "y"),
    ];
    let want: Vec<(String, String, String)> =
        want.into_iter().map(|(a, b, c)| (a.to_string(), b.to_string(), c.to_string())).collect();
    assert_eq!(got, want);

    let all_rows = tree_rows(&tree, true);
    assert_eq!(all_rows.len(), 5);
    assert_eq!(all_rows[3].connector, "├── ");
    assert_eq!(all_rows[4].task.id, "z");
    assert_eq!(all_rows[4].connector, "└── ");
}

#[test]
fn tree_rows_mark_cycles() {
    let a = make_task("a", Status::Open, Priority::P1, vec!["b"]);
    let b = make_task("b", Status::Open, Priority::P1, vec!["a"]);
    let tasks = make_tasks(vec![a, b]);
    let graph = Graph::build(&tasks);
    let tree = graph.dep_tree(&tasks, "a").unwrap();
    let rows = tree_rows(&tree, true);
    assert_eq!(rows.len(), 3);
    assert!(!rows[0].cycle && !rows[1].cycle);
    assert!(rows[2].cycle);
    assert_eq!(rows[2].task.id, "a");
}
