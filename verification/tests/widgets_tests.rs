use bears::task::{Priority, Status, Task, TaskType, Timestamp};
use bears::taskmap::TaskMap;
use bears::tui::{Filter, FocusPane, ListMode, Mode};
use bears::widgets::{
    truncate_input_for_display, BodyWidget, BottomBarWidget, DepTreeWidget, InputModalWidget, InputPromptWidget,
    StatusModalWidget, SubtaskGraphWidget, TaskDetailWidget, TaskInfoWidget, TaskListWidget,
};

#[test]
fn short_input_returned_unchanged() {
    assert_eq!(truncate_input_for_display("hello", 10), "hello");
}

#[test]
fn exact_fit_not_truncated() {
    assert_eq!(truncate_input_for_display("hello", 5), "hello");
}

#[test]
fn ascii_truncation_adds_ellipsis() {
    let result = truncate_input_for_display("abcdefghij", 5);
    assert!(result.starts_with('…'), "should start with ellipsis");
    assert_eq!(result.chars().count(), 5, "should be exactly inner_width chars");
}

#[test]
fn multibyte_utf8_no_panic_and_correct_tail() {
    let input = "café naïve résumé 🦀 done";
    let inner_width = 8;
    let result = truncate_input_for_display(input, inner_width);
    assert!(result.starts_with('…'), "result should start with ellipsis: {result:?}");
    assert_eq!(result.chars().count(), inner_width, "result should be exactly inner_width chars: {result:?}");
    let expected_tail: String =
        input.chars().rev().take(inner_width - 1).collect::<String>().chars().rev().collect();
    assert!(result.ends_with(&expected_tail), "result {result:?} should end with {expected_tail:?}");
}

#[test]
fn emoji_only_input_no_panic() {
    let input = "🦀🦀🦀🦀🦀🦀🦀🦀🦀🦀";
    let result = truncate_input_for_display(input, 5);
    assert!(result.starts_with('…'));
    assert_eq!(result.chars().count(), 5);
}

#[test]
fn truncation_exact_value_and_tiny_widths() {
    assert_eq!(truncate_input_for_display("abcdefghij", 5), "…ghij");
    assert_eq!(truncate_input_for_display("abcdefghij", 1), "abcdefghij");
    assert_eq!(truncate_input_for_display("abcdefghij", 0), "abcdefghij");
    assert_eq!(InputModalWidget::new("New task", "abcdef").display_text(3), "…ef");
    assert_eq!(InputPromptWidget::new("Filter", "xy").display_text(3), "xy");
}

#[test]
fn status_modal_marks_selected_entry() {
    let items = StatusModalWidget::new(2).items();
    assert_eq!(items, vec!["  open", "  in_progress", "▶ done", "  blocked", "  cancelled"]);
}

fn bar_text(mode: &Mode, focus: &FocusPane, filter: &Filter, error: Option<&str>, width: usize) -> String {
    BottomBarWidget::new(mode, focus, filter, error).segments(width).concat()
}

#[test]
fn normal_mode_shows_quit_hint() {
    let text = bar_text(&Mode::Normal, &FocusPane::List, &Filter::default(), None, 80);
    assert!(text.contains("quit"));
    assert!(text.contains("navigate"));
}

#[test]
fn detail_focus_shows_scroll() {
    let text = bar_text(&Mode::Normal, &FocusPane::Detail, &Filter::default(), None, 80);
    assert!(text.contains("scroll"));
}

#[test]
fn error_message_displayed() {
    let text = bar_text(&Mode::Normal, &FocusPane::List, &Filter::default(), Some("something broke"), 80);
    assert!(text.contains("ERROR"));
    assert!(text.contains("something broke"));
}

#[test]
fn bar_keeps_only_hints_that_fit() {
    let w = BottomBarWidget::new(&Mode::Normal, &FocusPane::List, &Filter::default(), None);
    // " q " + " quit " + " " = 10 columns, then " Tab " + " switch pane " + " " = 19.
    assert_eq!(w.visible_hints(28).len(), 1);
    assert_eq!(w.visible_hints(29).len(), 2);
    assert_eq!(w.segments(10), vec![" q ", " quit ", " "]);
    assert!(w.segments(9).is_empty());
    let confirm = Mode::ConfirmDelete { task_id: "a".into(), title: "A".into() };
    let text = bar_text(&confirm, &FocusPane::List, &Filter::default(), None, 80);
    assert_eq!(text, " y  confirm delete   any  cancel ");
}

#[test]
fn blank_body_returns_empty() {
    assert!(BodyWidget::new("").lines().is_empty());
    assert!(BodyWidget::new("   ").lines().is_empty());
    assert!(BodyWidget::new("\n\n").lines().is_empty());
}

#[test]
fn body_with_content_has_separator() {
    let lines = BodyWidget::new("Hello world").lines();
    assert!(lines.len() >= 4);
    let text: String = lines.concat();
    assert!(text.contains("───"));
    assert!(text.contains("Hello world"));
}

#[test]
fn multiline_body() {
    let lines = BodyWidget::new("Line 1\nLine 2\nLine 3").lines();
    let text: String = lines.concat();
    assert!(text.contains("Line 1"));
    assert!(text.contains("Line 2"));
    assert!(text.contains("Line 3"));
}

#[test]
fn body_lines_exact() {
    let lines = BodyWidget::new("a\r\nb\n").lines();
    assert_eq!(lines, vec!["", "───────────────────────────────", "", "a", "b"]);
}

fn task(id: &str, title: &str) -> Task {
    Task::new(id.into(), title.into(), Priority::P1)
}

fn map(ts: Vec<Task>) -> TaskMap {
    TaskMap::from_tasks(ts)
}

#[test]
fn no_deps_returns_empty() {
    let t = task("a", "No deps");
    let m = map(vec![t.clone()]);
    assert!(DepTreeWidget::new(&t, &m).lines().is_empty());
}

#[test]
fn shows_only_direct_dependencies() {
    let mut root = task("root", "Root");
    root.depends_on = vec!["a".into(), "b".into()];
    let mut a = task("a", "Alpha");
    a.depends_on = vec!["shared".into()];
    let mut b = task("b", "Bravo");
    b.depends_on = vec!["shared".into()];
    let shared = task("shared", "Shared");
    let m = map(vec![root.clone(), a, b, shared]);

    let text = DepTreeWidget::new(&root, &m).lines().concat();
    assert!(text.contains("Dependencies"));
    assert!(text.contains("[a]") && text.contains("[b]"));
    assert!(!text.contains("[shared]"), "transitive dep must not be shown: {text}");
}

#[test]
fn unavailable_dependency_is_marked() {
    let mut t = task("a", "Has missing dep");
    t.depends_on = vec!["gone".into()];
    let m = map(vec![t.clone()]);
    let text = DepTreeWidget::new(&t, &m).lines().concat();
    assert!(text.contains("[gone]") && text.contains("unavailable"));
}

#[test]
fn dependency_lines_exact() {
    let mut t = task("a", "Top");
    t.depends_on = vec!["b".into(), "zz".into()];
    let mut b = task("b", "Bee");
    b.status = Status::Done;
    let m = map(vec![t.clone(), b]);
    let lines = DepTreeWidget::new(&t, &m).lines();
    assert_eq!(lines.len(), 4);
    assert_eq!(lines[0], "");
    assert_eq!(lines[1], "Dependencies");
    assert!(lines[2].starts_with("  ") && lines[2].ends_with(" [b] Bee"));
    assert_eq!(lines[3], "  [zz] (unavailable)");
}

fn info_text(t: &Task, m: &TaskMap) -> String {
    TaskInfoWidget::new(t, m).lines().into_iter().map(|(a, b)| format!("{a}{b}\n")).collect()
}

#[test]
fn basic_task_info_lines() {
    let t = Task::new("abc".into(), "My Task".into(), Priority::P1);
    let m = map(vec![t.clone()]);
    let lines = TaskInfoWidget::new(&t, &m).lines();
    assert!(lines.len() >= 6);
    let text = info_text(&t, &m);
    assert!(text.contains("My Task"));
    assert!(text.contains("Status:"));
    assert!(text.contains("Priority:"));
}

#[test]
fn epic_shows_type() {
    let mut t = Task::new("abc".into(), "Epic".into(), Priority::P0);
    t.task_type = TaskType::Epic;
    let m = map(vec![t.clone()]);
    let text = info_text(&t, &m);
    assert!(text.contains("Type:"));
    assert!(text.contains("epic"));
}

#[test]
fn optional_fields_shown_when_present() {
    let mut t = Task::new("abc".into(), "Tagged".into(), Priority::P2);
    t.tags = vec!["backend".into(), "auth".into()];
    t.assignee = "alice".into();
    t.parent = Some("xyz".into());
    let m = map(vec![t.clone()]);
    let text = info_text(&t, &m);
    assert!(text.contains("Tags:"));
    assert!(text.contains("backend, auth"));
    assert!(text.contains("Assignee:"));
    assert!(text.contains("alice"));
    assert!(text.contains("Parent:"));
    assert!(text.contains("xyz"));
}

#[test]
fn optional_fields_hidden_when_absent() {
    let t = Task::new("abc".into(), "Plain".into(), Priority::P3);
    let m = map(vec![t.clone()]);
    let text = info_text(&t, &m);
    assert!(!text.contains("Tags:"));
    assert!(!text.contains("Assignee:"));
    assert!(!text.contains("Parent:"));
    assert!(!text.contains("Type:"));
}

#[test]
fn epic_shows_progress_in_status() {
    let mut epic = Task::new("e1".into(), "My Epic".into(), Priority::P0);
    epic.task_type = TaskType::Epic;
    let mut child1 = Task::new("c1".into(), "Child 1".into(), Priority::P1);
    child1.parent = Some("e1".into());
    child1.status = Status::Done;
    let mut child2 = Task::new("c2".into(), "Child 2".into(), Priority::P1);
    child2.parent = Some("e1".into());
    let m = map(vec![epic.clone(), child1, child2]);
    let text = info_text(&epic, &m);
    assert!(text.contains("(1/2)"));
}

#[test]
fn task_info_formats_times_to_the_minute() {
    let mut t = Task::new("abc".into(), "Timed".into(), Priority::P1);
    t.created = Timestamp { secs: 1773570600, nanos: 0 };
    t.updated = Timestamp { secs: 1773570659, nanos: 999 };
    let m = map(vec![t.clone()]);
    let lines = TaskInfoWidget::new(&t, &m).lines();
    let n = lines.len();
    assert_eq!(lines[n - 2], ("Created:  ".to_string(), "2026-03-15 10:30".to_string()));
    assert_eq!(lines[n - 1], ("Updated:  ".to_string(), "2026-03-15 10:30".to_string()));
    assert_eq!(lines[2], ("Status:   ".to_string(), "open".to_string()));
    assert_eq!(lines[3], ("Priority: ".to_string(), "P1".to_string()));
}

#[test]
fn subtasks_render_only_for_epics() {
    let t = task("a", "Plain task");
    let m = map(vec![t.clone()]);
    assert!(SubtaskGraphWidget::new(&t, &m).lines().is_empty());
}

#[test]
fn subtask_tree_expands_nested_epics_each_once() {
    let mut e = task("e", "Epic");
    e.task_type = TaskType::Epic;
    let mut c1 = task("c1", "Child one");
    c1.parent = Some("e".into());
    let mut e2 = task("e2", "Inner epic");
    e2.task_type = TaskType::Epic;
    e2.parent = Some("e".into());
    let mut g = task("g", "Grandchild");
    g.status = Status::Done;
    g.parent = Some("e2".into());
    let m = map(vec![e.clone(), c1, e2, g]);

    let text = SubtaskGraphWidget::new(&e, &m).lines().concat();
    assert!(text.contains("Subtasks"));
    for id in ["[c1]", "[e2]", "[g]"] {
        assert_eq!(text.matches(id).count(), 1, "{id} should appear once: {text}");
    }
}

#[test]
fn subtask_tree_lines_exact() {
    let mut e = task("e", "Epic");
    e.task_type = TaskType::Epic;
    let mut a = task("a", "Later");
    a.parent = Some("e".into());
    a.priority = Priority::P2;
    let mut b = Task::new("b".into(), "Urgent inner".into(), Priority::P0);
    b.task_type = TaskType::Epic;
    b.parent = Some("e".into());
    let mut g = task("g", "Leaf");
    g.parent = Some("b".into());
    let m = map(vec![e.clone(), a, b, g]);
    let lines = SubtaskGraphWidget::new(&e, &m).lines();
    assert_eq!(lines.len(), 5);
    assert_eq!(lines[0], "");
    assert_eq!(lines[1], "Subtasks");
    assert!(lines[2].starts_with("├─ ") && lines[2].ends_with(" [b] Urgent inner"), "{:?}", lines[2]);
    assert!(lines[3].starts_with("│  └─ ") && lines[3].ends_with(" [g] Leaf"), "{:?}", lines[3]);
    assert!(lines[4].starts_with("└─ ") && lines[4].ends_with(" [a] Later"), "{:?}", lines[4]);
}

#[test]
fn subtask_tree_survives_parent_cycle() {
    let mut e = task("e", "Epic");
    e.task_type = TaskType::Epic;
    e.parent = Some("f".into());
    let mut f = task("f", "Other epic");
    f.task_type = TaskType::Epic;
    f.parent = Some("e".into());
    let m = map(vec![e.clone(), f]);
    let lines = SubtaskGraphWidget::new(&e, &m).lines();
    assert_eq!(lines.len(), 3);
    assert!(lines[2].ends_with(" [f] Other epic"));
    let empty_epic = {
        let mut x = task("x", "Lonely");
        x.task_type = TaskType::Epic;
        x
    };
    let m2 = map(vec![empty_epic.clone()]);
    assert!(SubtaskGraphWidget::new(&empty_epic, &m2).lines().is_empty());
}

fn sample_list() -> Vec<Task> {
    vec![
        Task::new("aaa".into(), "Task A".into(), Priority::P1),
        Task::new("bbb".into(), "Task B".into(), Priority::P2),
    ]
}

#[test]
fn renders_task_titles() {
    let tasks = sample_list();
    let filter = Filter::default();
    let text = TaskListWidget::new(&tasks, &filter).rows().concat();
    assert!(text.contains("Task A"));
    assert!(text.contains("Task B"));
}

#[test]
fn filter_title_shows_query() {
    let tasks = sample_list();
    let filter = Filter { query: "test".into(), list_mode: ListMode::Open, show_all: false };
    let title = TaskListWidget::new(&tasks, &filter).title();
    assert!(title.contains("[test]"));
}

#[test]
fn shows_epic_marker() {
    let mut task = Task::new("eee".into(), "My Epic".into(), Priority::P0);
    task.task_type = TaskType::Epic;
    let tasks = vec![task];
    let filter = Filter::default();
    let text = TaskListWidget::new(&tasks, &filter).rows().concat();
    assert!(text.contains("◆"));
    assert!(text.contains("My Epic"));
}

#[test]
fn list_rows_and_title_exact() {
    let mut tasks = sample_list();
    tasks[1].status = Status::Done;
    let filter = Filter { query: "x".into(), list_mode: ListMode::All, show_all: true };
    let w = TaskListWidget::new(&tasks, &filter);
    let rows = w.rows();
    assert!(rows[0].starts_with("P1 ") && rows[0].ends_with(" [aaa] Task A"));
    assert!(rows[1].starts_with("P2 ") && rows[1].ends_with(" [bbb] Task B"));
    assert_eq!(w.title(), " Tasks [x] (all) (2) ");
    let plain = Filter::default();
    assert_eq!(TaskListWidget::new(&tasks, &plain).title(), " Tasks (2) ");
}

#[test]
fn detail_pane_composes_info_deps_and_body() {
    let m = TaskMap::new();
    assert_eq!(TaskDetailWidget::new(None, &m).lines(), vec!["No tasks found."]);

    let mut t = Task::new("abc".into(), "Title".into(), Priority::P2);
    t.depends_on = vec!["zz".into()];
    t.body = "Body text".into();
    let m = map(vec![t.clone()]);
    let lines = TaskDetailWidget::new(Some(&t), &m).lines();
    let info = TaskInfoWidget::new(&t, &m).lines();
    assert_eq!(lines[0], "Title");
    assert_eq!(lines[2], "Status:   open");
    let k = info.len();
    assert_eq!(lines[k], "");
    assert_eq!(lines[k + 1], "Dependencies");
    assert_eq!(lines[k + 2], "  [zz] (unavailable)");
    assert_eq!(lines[k + 4], "───────────────────────────────");
    assert_eq!(lines.last().unwrap(), "Body text");
    assert_eq!(lines.len(), k + 3 + 4);
}
