use bears::error::Error;
use bears::store::{
    archive_dir, archived_id, ends_with, first_task_file, is_task_file_of, join_path, keep_first_by_path,
    resolve_prefix, tasks_dir, ARCHIVE_SUBDIR, BEARS_DIR,
};
use bears::task::{Priority, Task};
use bears::taskmap::TaskMap;

fn map_of(ids: &[&str]) -> TaskMap {
    let mut tasks = TaskMap::new();
    for (i, id) in ids.iter().enumerate() {
        tasks.insert(Task::new(id.to_string(), format!("T{}", i + 1), Priority::P2));
    }
    tasks
}

#[test]
fn test_resolve_prefix_exact_match() {
    let tasks = map_of(&["ab12"]);
    assert_eq!(resolve_prefix(&tasks, "ab12").unwrap(), "ab12");
}

#[test]
fn test_resolve_prefix_unique() {
    let tasks = map_of(&["ab12", "cd34"]);
    assert_eq!(resolve_prefix(&tasks, "ab").unwrap(), "ab12");
}

#[test]
fn test_resolve_prefix_ambiguous() {
    let tasks = map_of(&["ab12", "ab34"]);
    let err = resolve_prefix(&tasks, "ab").unwrap_err();
    assert!(matches!(err, Error::AmbiguousPrefix { .. }));
}

#[test]
fn test_resolve_prefix_no_match() {
    let tasks = map_of(&["ab12"]);
    let err = resolve_prefix(&tasks, "zz").unwrap_err();
    assert!(matches!(err, Error::TaskNotFound(_)));
}

#[test]
fn resolve_prefix_exact_id_wins_over_longer_ones() {
    let tasks = map_of(&["ab", "abc", "abd"]);
    assert_eq!(resolve_prefix(&tasks, "ab").unwrap(), "ab");
}

#[test]
fn ambiguous_prefix_lists_sorted_matches() {
    let tasks = map_of(&["abz9", "cd34", "ab34", "ab12"]);
    let err = resolve_prefix(&tasks, "ab").unwrap_err();
    assert_eq!(err.to_string(), "ambiguous prefix 'ab' matches multiple tasks: ab12, ab34, abz9");
    let err = resolve_prefix(&tasks, "q").unwrap_err();
    assert_eq!(err.to_string(), "task not found: q");
}

#[test]
fn paths_under_the_project() {
    assert_eq!(BEARS_DIR, ".bears");
    assert_eq!(ARCHIVE_SUBDIR, "archive");
    assert_eq!(tasks_dir("/p"), "/p/.bears");
    assert_eq!(tasks_dir("/p/"), "/p/.bears");
    assert_eq!(archive_dir("/p"), "/p/.bears/archive");
    assert_eq!(join_path("", "x"), "x");
}

#[test]
fn task_file_names() {
    assert!(is_task_file_of("ab12-fix-bug.md", "ab12"));
    assert!(!is_task_file_of("ab123-fix.md", "ab12"));
    assert!(!is_task_file_of("ab12-fix.txt", "ab12"));
    assert!(ends_with("x.md", ".md"));
    assert!(!ends_with("md", ".md"));
    let names = vec!["zz-1.md".to_string(), "ab12-b.md".to_string(), "ab12-a.md".to_string(), "notes.txt".to_string()];
    assert_eq!(first_task_file(&names, "ab12"), Some(2));
    assert_eq!(first_task_file(&names, "cd34"), None);
}

#[test]
fn archived_file_ids() {
    assert_eq!(archived_id("ab12-some-title.md").as_deref(), Some("ab12"));
    assert_eq!(archived_id("nodash.md").as_deref(), Some("nodash.md"));
    assert_eq!(archived_id("ab12-title.txt"), None);
}

#[test]
fn test_load_all_duplicate_id_deterministic() {
    let mut a = Task::new("dup1".into(), "From B".into(), Priority::P2);
    a.body = "b".into();
    let mut b = Task::new("dup1".into(), "From A".into(), Priority::P2);
    b.body = "a".into();
    let c = Task::new("solo".into(), "Solo".into(), Priority::P1);
    let files = vec![
        (".bears/dup1-z.md".to_string(), a),
        (".bears/solo-x.md".to_string(), c),
        (".bears/dup1-a.md".to_string(), b),
    ];
    let m = keep_first_by_path(files);
    assert_eq!(m.len(), 2);
    assert_eq!(m.get("dup1").unwrap().title, "From A");
    assert_eq!(m.get("solo").unwrap().title, "Solo");
}
