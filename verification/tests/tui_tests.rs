use bears::graph::is_task_ready;
use bears::task::{Priority, Status, Task, TaskType};
use bears::taskmap::TaskMap;
use bears::tui::{
    list_pane_width, loop_step, resolve_text_input, status_indicator, status_position, Action, App, Filter, FocusPane, Key, ListMode,
    LoopAction, LoopEvent, Mode, TextInputResult,
};

fn sample_tasks() -> (Vec<Task>, TaskMap) {
    let mut tasks = Vec::new();
    for (id, title, status) in [
        ("aaa", "Task A", Status::Open),
        ("bbb", "Task B", Status::InProgress),
        ("ccc", "Task C", Status::Done),
    ] {
        let mut t = Task::new(id.to_string(), title.to_string(), Priority::P1);
        t.status = status;
        tasks.push(t);
    }
    let map = TaskMap::from_tasks(tasks.clone());
    (tasks, map)
}

fn make_app() -> App {
    let (tasks, map) = sample_tasks();
    App::new(tasks, map, ".".to_string())
}

fn shown(app: &App) -> Vec<&str> {
    app.tasks.iter().map(|t| t.id.as_str()).collect()
}

#[test]
fn test_initial_selection() {
    let app = make_app();
    assert_eq!(app.selected_index(), Some(0));
    assert!(app.selected_task().is_some());
}

#[test]
fn test_navigate_down_wraps() {
    let mut app = make_app();
    let visible = app.tasks.len();
    for _ in 0..visible {
        app.handle_key(Key::Char('j'));
    }
    assert_eq!(app.selected_index(), Some(0));
}

#[test]
fn test_navigate_up_wraps() {
    let mut app = make_app();
    app.handle_key(Key::Char('k'));
    assert_eq!(app.selected_index(), Some(app.tasks.len() - 1));
}

#[test]
fn test_quit_action() {
    let mut app = make_app();
    let action = app.handle_key(Key::Char('q'));
    assert!(matches!(action, Action::Quit));
}

#[test]
fn test_esc_quits_from_normal() {
    let mut app = make_app();
    let action = app.handle_key(Key::Esc);
    assert!(matches!(action, Action::Quit));
}

#[test]
fn test_edit_action() {
    let mut app = make_app();
    let action = app.handle_key(Key::Char('e'));
    assert!(matches!(action, Action::EditSelected));
}

#[test]
fn test_create_mode() {
    let mut app = make_app();
    let action = app.handle_key(Key::Char('c'));
    assert!(matches!(action, Action::Noop));
    assert!(matches!(app.mode, Mode::CreateInput { .. }));

    app.handle_key(Key::Char('H'));
    app.handle_key(Key::Char('i'));

    let action = app.handle_key(Key::Enter);
    assert!(matches!(action, Action::CreateTask(ref t) if t == "Hi"));
    assert_eq!(app.mode, Mode::Normal);
}

#[test]
fn test_create_cancel() {
    let mut app = make_app();
    app.handle_key(Key::Char('c'));
    app.handle_key(Key::Char('x'));
    let action = app.handle_key(Key::Esc);
    assert!(matches!(action, Action::Noop));
    assert_eq!(app.mode, Mode::Normal);
}

#[test]
fn test_create_empty_title_no_action() {
    let mut app = make_app();
    app.handle_key(Key::Char('c'));
    let action = app.handle_key(Key::Enter);
    assert!(matches!(action, Action::Noop));
}

#[test]
fn test_status_select_mode() {
    let mut app = make_app();
    app.handle_key(Key::Char('s'));
    assert!(matches!(app.mode, Mode::StatusSelect { .. }));

    app.handle_key(Key::Char('j'));
    let action = app.handle_key(Key::Enter);
    assert!(matches!(action, Action::UpdateStatus(_, _)));
    assert_eq!(app.mode, Mode::Normal);
}

#[test]
fn status_select_starts_at_current_status() {
    let mut app = make_app();
    app.handle_key(Key::Char('s'));
    match &app.mode {
        Mode::StatusSelect { task_id, selected } => {
            assert_eq!(task_id, "aaa");
            assert_eq!(*selected, status_position(Status::Open));
        }
        other => panic!("unexpected {other:?}"),
    }
    app.handle_key(Key::Char('j'));
    let action = app.handle_key(Key::Enter);
    assert_eq!(action, Action::UpdateStatus("aaa".to_string(), Status::InProgress));
}

#[test]
fn test_status_cancel() {
    let mut app = make_app();
    app.handle_key(Key::Char('s'));
    let action = app.handle_key(Key::Esc);
    assert!(matches!(action, Action::Noop));
    assert_eq!(app.mode, Mode::Normal);
}

#[test]
fn test_filter_text() {
    let mut app = make_app();
    app.handle_key(Key::Char('/'));
    assert!(matches!(app.mode, Mode::FilterInput { .. }));

    app.handle_key(Key::Char('a'));
    app.handle_key(Key::Char('a'));
    app.handle_key(Key::Char('a'));
    app.handle_key(Key::Enter);

    assert_eq!(app.mode, Mode::Normal);
    assert_eq!(app.tasks.len(), 1);
    assert_eq!(app.tasks[0].id, "aaa");
}

#[test]
fn test_filter_show_all() {
    let mut app = make_app();
    let before = app.tasks.len();
    app.handle_key(Key::Char('a'));
    assert!(app.filter.show_all);
    assert!(app.tasks.len() >= before);
}

#[test]
fn test_backspace_in_create() {
    let mut app = make_app();
    app.handle_key(Key::Char('c'));
    app.handle_key(Key::Char('A'));
    app.handle_key(Key::Char('B'));
    app.handle_key(Key::Backspace);
    let action = app.handle_key(Key::Enter);
    assert!(matches!(action, Action::CreateTask(ref t) if t == "A"));
}

#[test]
fn test_home_end_navigation() {
    let mut app = make_app();
    app.handle_key(Key::End);
    assert_eq!(app.selected_index(), Some(app.tasks.len() - 1));
    app.handle_key(Key::Home);
    assert_eq!(app.selected_index(), Some(0));
}

#[test]
fn test_delete_confirm_and_cancel() {
    let mut app = make_app();
    app.handle_key(Key::Char('d'));
    assert!(matches!(app.mode, Mode::ConfirmDelete { .. }));

    app.handle_key(Key::Char('n'));
    assert_eq!(app.mode, Mode::Normal);
}

#[test]
fn test_delete_confirm_y() {
    let mut app = make_app();
    app.handle_key(Key::Char('d'));
    let action = app.handle_key(Key::Char('y'));
    assert!(matches!(action, Action::DeleteTask(_)));
    assert_eq!(app.mode, Mode::Normal);
}

#[test]
fn test_initial_focus_is_list() {
    let app = make_app();
    assert_eq!(app.focus, FocusPane::List);
    assert_eq!(app.detail_scroll, 0);
}

#[test]
fn test_tab_toggles_focus() {
    let mut app = make_app();
    assert_eq!(app.focus, FocusPane::List);
    app.handle_key(Key::Tab);
    assert_eq!(app.focus, FocusPane::Detail);
    app.handle_key(Key::Tab);
    assert_eq!(app.focus, FocusPane::List);
}

#[test]
fn test_jk_navigates_list_when_list_focused() {
    let mut app = make_app();
    assert_eq!(app.focus, FocusPane::List);
    assert_eq!(app.selected_index(), Some(0));
    app.handle_key(Key::Char('j'));
    assert_eq!(app.selected_index(), Some(1));
    app.handle_key(Key::Char('k'));
    assert_eq!(app.selected_index(), Some(0));
}

#[test]
fn test_jk_scrolls_detail_when_detail_focused() {
    let mut app = make_app();
    app.detail_content_height = 50;
    app.detail_visible_height = 10;
    app.handle_key(Key::Tab);
    assert_eq!(app.focus, FocusPane::Detail);
    assert_eq!(app.detail_scroll, 0);

    app.handle_key(Key::Char('j'));
    assert_eq!(app.detail_scroll, 1);
    app.handle_key(Key::Char('j'));
    assert_eq!(app.detail_scroll, 2);
    app.handle_key(Key::Char('k'));
    assert_eq!(app.detail_scroll, 1);
}

#[test]
fn detail_scroll_stops_at_max() {
    let mut app = make_app();
    app.detail_content_height = 12;
    app.detail_visible_height = 10;
    assert_eq!(app.detail_max_scroll(), 2);
    app.handle_key(Key::Tab);
    for _ in 0..5 {
        app.handle_key(Key::Char('j'));
    }
    assert_eq!(app.detail_scroll, 2);
}

#[test]
fn test_detail_scroll_does_not_underflow() {
    let mut app = make_app();
    app.handle_key(Key::Tab);
    app.handle_key(Key::Char('k'));
    assert_eq!(app.detail_scroll, 0);
}

#[test]
fn test_scroll_resets_on_task_change() {
    let mut app = make_app();
    app.detail_content_height = 50;
    app.detail_visible_height = 10;
    app.handle_key(Key::Tab);
    app.handle_key(Key::Char('j'));
    app.handle_key(Key::Char('j'));
    assert_eq!(app.detail_scroll, 2);

    app.handle_key(Key::Tab);
    app.handle_key(Key::Char('j'));
    assert_eq!(app.detail_scroll, 0);
}

#[test]
fn test_home_resets_detail_scroll() {
    let mut app = make_app();
    app.detail_content_height = 50;
    app.detail_visible_height = 10;
    app.handle_key(Key::Tab);
    app.handle_key(Key::Char('j'));
    app.handle_key(Key::Char('j'));
    assert_eq!(app.detail_scroll, 2);
    app.handle_key(Key::Home);
    assert_eq!(app.detail_scroll, 0);
}

#[test]
fn test_existing_keys_work_in_detail_focus() {
    let mut app = make_app();
    app.handle_key(Key::Tab);
    assert_eq!(app.focus, FocusPane::Detail);

    let action = app.handle_key(Key::Char('e'));
    assert!(matches!(action, Action::EditSelected));

    let action = app.handle_key(Key::Char('c'));
    assert!(matches!(action, Action::Noop));
    assert!(matches!(app.mode, Mode::CreateInput { .. }));
}

#[test]
fn test_enter_moves_focus_to_detail() {
    let mut app = make_app();
    assert_eq!(app.focus, FocusPane::List);
    app.handle_key(Key::Enter);
    assert_eq!(app.focus, FocusPane::Detail);
}

#[test]
fn test_resolve_text_input_submit() {
    let result = resolve_text_input(Key::Enter, "  hello  ");
    assert!(matches!(result, TextInputResult::Submit(s) if s == "hello"));
}

#[test]
fn test_resolve_text_input_cancel() {
    let result = resolve_text_input(Key::Esc, "anything");
    assert!(matches!(result, TextInputResult::Cancel));
}

#[test]
fn test_resolve_text_input_backspace() {
    let result = resolve_text_input(Key::Backspace, "abc");
    assert!(matches!(result, TextInputResult::Update(s) if s == "ab"));
}

#[test]
fn test_resolve_text_input_char() {
    let result = resolve_text_input(Key::Char('x'), "ab");
    assert!(matches!(result, TextInputResult::Update(s) if s == "abx"));
}

#[test]
fn resolve_text_input_ignores_other_keys_and_empty_backspace() {
    assert_eq!(resolve_text_input(Key::Up, "ab"), TextInputResult::Ignored);
    assert_eq!(resolve_text_input(Key::Backspace, ""), TextInputResult::Update(String::new()));
}

#[test]
fn test_empty_app() {
    let app = App::new(vec![], TaskMap::new(), ".".to_string());
    assert_eq!(app.selected_index(), None);
    assert!(app.selected_task().is_none());
}

#[test]
fn test_filter_default_hides_done() {
    let app = make_app();
    assert_eq!(app.filter.list_mode, ListMode::Open);
    let has_done = app.tasks.iter().any(|t| t.status == Status::Done);
    assert!(!has_done);
}

#[test]
fn test_completed_and_archive_modes_use_different_sources() {
    let mut app = make_app();
    let mut archived = Task::new("zzz".into(), "Archived task".into(), Priority::P2);
    archived.status = Status::Done;
    app.archived_tasks = vec![archived];

    app.filter.list_mode = ListMode::Completed;
    app.apply_filter();
    assert_eq!(shown(&app), vec!["ccc"], "Completed should show active done/cancelled tasks");

    app.filter.list_mode = ListMode::Archive;
    app.apply_filter();
    assert_eq!(shown(&app), vec!["zzz"], "Archive should show the archived set, not the active store");
}

#[test]
fn detail_task_map_includes_archived() {
    let mut app = App::new(vec![], TaskMap::new(), ".".to_string());
    let mut epic = Task::new("ep".into(), "Epic".into(), Priority::P1);
    epic.task_type = TaskType::Epic;
    let mut child = Task::new("ch".into(), "Child".into(), Priority::P2);
    child.parent = Some("ep".into());
    child.status = Status::Done;
    app.archived_tasks = vec![epic, child];

    let map = app.detail_task_map();
    assert!(map.contains_key("ep") && map.contains_key("ch"));
}

#[test]
fn test_ready_filter_agrees_with_is_task_ready() {
    let make = |id: &str, status: Status, deps: Vec<&str>| {
        let mut t = Task::new(id.to_string(), format!("Task {id}"), Priority::P1);
        t.status = status;
        t.depends_on = deps.into_iter().map(String::from).collect();
        t
    };
    let tasks_vec = vec![
        make("ready", Status::Open, vec!["done_dep"]),
        make("blocked", Status::Open, vec!["open_dep"]),
        make("missing", Status::Open, vec!["ghost"]),
        make("done_dep", Status::Done, vec![]),
        make("open_dep", Status::Open, vec![]),
    ];
    let task_map = TaskMap::from_tasks(tasks_vec.clone());

    let mut app = App::new(tasks_vec.clone(), TaskMap::from_tasks(tasks_vec.clone()), ".".to_string());
    app.filter.list_mode = ListMode::Ready;
    app.apply_filter();

    let tui_ready_ids: Vec<&str> = shown(&app);
    for task in task_map.tasks() {
        let predicate = is_task_ready(&task_map, task);
        let in_tui = tui_ready_ids.contains(&task.id.as_str());
        assert_eq!(predicate, in_tui, "disagree on task '{}'", task.id);
    }
    assert!(tui_ready_ids.contains(&"ready"));
    assert!(!tui_ready_ids.contains(&"blocked"));
    assert!(!tui_ready_ids.contains(&"missing"));
}

fn make_open_tasks(ids_titles: &[(&str, &str)]) -> (Vec<Task>, TaskMap) {
    let tasks: Vec<Task> = ids_titles
        .iter()
        .map(|(id, title)| {
            let mut t = Task::new(id.to_string(), title.to_string(), Priority::P1);
            t.status = Status::Open;
            t
        })
        .collect();
    let map = TaskMap::from_tasks(tasks.clone());
    (tasks, map)
}

#[test]
fn error_message_cleared_on_success() {
    let mut app = App::new(vec![], TaskMap::new(), "/tmp/__bears_test__".to_string());
    app.error_message = Some("previous error".into());
    app.error_message = None;
    assert!(app.error_message.is_none());
}

#[test]
fn reload_preserves_selection_by_id() {
    let (tasks, map) = make_open_tasks(&[("aaa", "Task A"), ("bbb", "Task B"), ("ccc", "Task C")]);
    let mut app = App::new(tasks, map, ".".to_string());
    app.selected = Some(1);
    assert_eq!(app.selected_task().map(|t| t.id.as_str()), Some("bbb"));

    let (new_tasks, new_map) =
        make_open_tasks(&[("aaa", "Task A"), ("aaa2", "Task A2"), ("bbb", "Task B"), ("ccc", "Task C")]);
    app.reload(new_tasks, new_map);

    assert_eq!(app.selected_task().map(|t| t.id.as_str()), Some("bbb"));
    assert_eq!(app.selected_index(), Some(2));
}

#[test]
fn reload_falls_back_to_neighbour_when_task_deleted() {
    let (tasks, map) =
        make_open_tasks(&[("aaa", "Task A"), ("bbb", "Task B"), ("ccc", "Task C"), ("ddd", "Task D")]);
    let mut app = App::new(tasks, map, ".".to_string());
    app.selected = Some(2);
    assert_eq!(app.selected_task().map(|t| t.id.as_str()), Some("ccc"));

    let (new_tasks, new_map) = make_open_tasks(&[("aaa", "Task A"), ("bbb", "Task B"), ("ddd", "Task D")]);
    app.reload(new_tasks, new_map);

    assert_eq!(app.selected_task().map(|t| t.id.as_str()), Some("ddd"));
    assert_eq!(app.selected_index(), Some(2));
}

#[test]
fn reload_clamps_index_when_list_shrinks() {
    let (tasks, map) = make_open_tasks(&[("aaa", "Task A"), ("bbb", "Task B"), ("ccc", "Task C")]);
    let mut app = App::new(tasks, map, ".".to_string());
    app.selected = Some(2);

    let (new_tasks, new_map) = make_open_tasks(&[("aaa", "Task A")]);
    app.reload(new_tasks, new_map);

    assert_eq!(app.selected_index(), Some(0));
    assert_eq!(app.selected_task().map(|t| t.id.as_str()), Some("aaa"));
}

#[test]
fn reload_preserves_mode_and_search_query() {
    let (tasks, map) = make_open_tasks(&[("aaa", "Task A alpha"), ("bbb", "Task B beta")]);
    let mut app = App::new(tasks, map, ".".to_string());

    app.filter = Filter { list_mode: ListMode::All, query: "alpha".to_string(), show_all: false };
    app.apply_filter();
    assert_eq!(app.tasks.len(), 1);
    assert_eq!(app.tasks[0].id, "aaa");

    let (new_tasks, new_map) = make_open_tasks(&[("aaa", "Task A alpha"), ("bbb", "Task B beta")]);
    app.reload(new_tasks, new_map);

    assert_eq!(app.filter.list_mode, ListMode::All);
    assert_eq!(app.filter.query, "alpha");
    assert_eq!(app.tasks.len(), 1);
    assert_eq!(app.tasks[0].id, "aaa");
}

#[test]
fn reload_clamps_detail_scroll() {
    let (tasks, map) = make_open_tasks(&[("aaa", "Task A")]);
    let mut app = App::new(tasks, map, ".".to_string());
    app.detail_scroll = 50;
    app.detail_content_height = 10;
    app.detail_visible_height = 10;

    let (new_tasks, new_map) = make_open_tasks(&[("aaa", "Task A")]);
    app.reload(new_tasks, new_map);
    assert_eq!(app.detail_scroll, 0);
}

#[test]
fn list_mode_cycles_through_all_six() {
    let mut m = ListMode::Open;
    let mut labels = Vec::new();
    for _ in 0..6 {
        labels.push(m.label());
        m = m.next();
    }
    assert_eq!(m, ListMode::Open);
    assert_eq!(labels, vec!["Open", "Ready", "Epics", "Completed", "Archive", "All"]);
}

#[test]
fn status_indicators_differ() {
    let all = [Status::Open, Status::InProgress, Status::Done, Status::Blocked, Status::Cancelled];
    for (i, a) in all.iter().enumerate() {
        for b in all.iter().skip(i + 1) {
            assert_ne!(status_indicator(a), status_indicator(b));
        }
    }
}

#[test]
fn key_presses_keep_scroll_and_selection_in_bounds() {
    let mut app = make_app();
    app.detail_content_height = 13;
    app.detail_visible_height = 10;
    let keys = [
        Key::Tab, Key::Char('j'), Key::Char('j'), Key::Char('j'), Key::Char('j'), Key::Char('j'),
        Key::Tab, Key::Char('j'), Key::Char('a'), Key::End, Key::Char('/'), Key::Char('z'), Key::Enter,
        Key::Char('j'), Key::Char('/'), Key::Backspace, Key::Enter, Key::Char('k'), Key::Char('a'),
        Key::Right, Key::Char('j'), Key::Char('j'), Key::Left, Key::Home, Key::Char('s'), Key::Char('k'),
        Key::Esc,
    ];
    for k in keys {
        app.handle_key(k);
        assert!(app.detail_scroll <= app.detail_max_scroll());
        match app.selected_index() {
            Some(i) => assert!(i < app.tasks.len()),
            None => assert!(app.tasks.is_empty()),
        }
    }
}

#[test]
fn loop_ctrl_c_quits_in_any_mode() {
    let mut app = make_app();
    app.mode = Mode::CreateInput { input: "half".to_string() };
    let a = loop_step(&mut app, LoopEvent::Press { key: Key::Char('c'), ctrl: true });
    assert!(matches!(a, LoopAction::Quit));
    assert!(matches!(app.mode, Mode::CreateInput { .. }));
}

#[test]
fn loop_plain_c_is_an_ordinary_key() {
    let mut app = make_app();
    let a = loop_step(&mut app, LoopEvent::Press { key: Key::Char('c'), ctrl: false });
    assert!(matches!(a, LoopAction::Wait));
    assert!(matches!(app.mode, Mode::CreateInput { .. }));
}

#[test]
fn loop_e_edits_and_q_quits() {
    let mut app = make_app();
    let a = loop_step(&mut app, LoopEvent::Press { key: Key::Char('e'), ctrl: false });
    assert!(matches!(a, LoopAction::Perform(Action::EditSelected)));
    let a = loop_step(&mut app, LoopEvent::Press { key: Key::Char('q'), ctrl: false });
    assert!(matches!(a, LoopAction::Quit));
}

#[test]
fn loop_outcome_sets_and_clears_the_error() {
    let mut app = make_app();
    let a = loop_step(&mut app, LoopEvent::Done(Err("task not found: zz".to_string())));
    assert!(matches!(a, LoopAction::Wait));
    assert_eq!(app.error_message.as_deref(), Some("task not found: zz"));
    let a = loop_step(&mut app, LoopEvent::Done(Ok(())));
    assert!(matches!(a, LoopAction::Wait));
    assert_eq!(app.error_message, None);
}

#[test]
fn list_pane_is_forty_percent_capped_at_forty() {
    assert_eq!(list_pane_width(80), 32);
    assert_eq!(list_pane_width(100), 40);
    assert_eq!(list_pane_width(200), 40);
    assert_eq!(list_pane_width(0), 0);
    assert_eq!(list_pane_width(9), 3);
}

#[test]
fn recorded_metrics_clamp_the_scroll() {
    let mut app = make_app();
    app.detail_scroll = 50;
    app.record_detail_metrics(30, 10);
    assert_eq!(app.detail_content_height, 30);
    assert_eq!(app.detail_visible_height, 10);
    assert_eq!(app.detail_scroll, 20);
    app.record_detail_metrics(5, 10);
    assert_eq!(app.detail_scroll, 0);
}
