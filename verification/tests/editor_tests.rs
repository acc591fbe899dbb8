use bears::editor::{editor_command_of, id_change_rejection, open_in_editor, parse_editor_command, ExitOutcome};
use bears::task::{Priority, Task};
use bears::error::Error;

#[test]
fn parse_simple_binary() {
    let (exe, args) = parse_editor_command("vim");
    assert_eq!(exe, "vim");
    assert!(args.is_empty());
}

#[test]
fn parse_binary_with_flags() {
    let (exe, args) = parse_editor_command("code --wait");
    assert_eq!(exe, "code");
    assert_eq!(args, vec!["--wait"]);
}

#[test]
fn parse_multiple_flags() {
    let (exe, args) = parse_editor_command("emacs -nw --no-splash");
    assert_eq!(exe, "emacs");
    assert_eq!(args, vec!["-nw", "--no-splash"]);
}

#[test]
fn parse_empty_falls_back_to_vi() {
    let (exe, _) = parse_editor_command("");
    assert_eq!(exe, "vi");
}

#[test]
fn parse_path_with_spaces() {
    let (exe, args) = parse_editor_command("'/usr/local/My Apps/editor' --wait");
    assert_eq!(exe, "/usr/local/My Apps/editor");
    assert_eq!(args, vec!["--wait"]);
}

#[test]
fn parse_quoted_args() {
    let (exe, args) = parse_editor_command("editor '--config path'");
    assert_eq!(exe, "editor");
    assert_eq!(args, vec!["--config path"]);
}

#[test]
fn parse_double_quoted_exe() {
    let (exe, args) = parse_editor_command(r#""My Editor" --wait"#);
    assert_eq!(exe, "My Editor");
    assert_eq!(args, vec!["--wait"]);
}

#[test]
fn parse_unbalanced_quote_falls_back_to_vi() {
    let (exe, args) = parse_editor_command("'unterminated --wait");
    assert_eq!(exe, "vi");
    assert!(args.is_empty());
}

#[test]
fn command_of_words_splits_first_word() {
    let (exe, args) = editor_command_of(Some(vec!["nano".to_string(), "-w".to_string(), "-x".to_string()]));
    assert_eq!(exe, "nano");
    assert_eq!(args, vec!["-w", "-x"]);
    let (exe, args) = editor_command_of(None);
    assert_eq!(exe, "vi");
    assert!(args.is_empty());
    let (exe, _) = editor_command_of(Some(Vec::new()));
    assert_eq!(exe, "vi");
}

#[test]
fn successful_editor_is_fine() {
    assert!(open_in_editor("vim", ExitOutcome { success: true, code: Some(0) }).is_ok());
}

#[test]
fn failing_editor_names_its_exit_code() {
    match open_in_editor("false", ExitOutcome { success: false, code: Some(1) }) {
        Err(Error::EditorFailed { reason }) => assert_eq!(reason, "false exited with 1"),
        other => panic!("unexpected {other:?}"),
    }
    match open_in_editor("ed", ExitOutcome { success: false, code: Some(-3) }) {
        Err(Error::EditorFailed { reason }) => assert_eq!(reason, "ed exited with -3"),
        other => panic!("unexpected {other:?}"),
    }
    let err = open_in_editor("ed", ExitOutcome { success: false, code: None }).unwrap_err();
    assert_eq!(err.to_string(), "editor failed: ed exited with signal");
}

#[test]
fn test_edit_id_change_rejected_no_orphan() {
    let before = Task::new("ab12".to_string(), "Orphan test task".to_string(), Priority::P2);
    let mut edited = Task::new("ab12".to_string(), "Orphan test task".to_string(), Priority::P2);
    edited.id = "zzzz".to_string();
    let message = id_change_rejection(&before, &edited).unwrap();
    assert!(message.contains("id field is not allowed"));
    assert_eq!(message, "changing the id field is not allowed (ab12 -> zzzz); the edit was discarded");
}

#[test]
fn edit_keeping_the_id_is_accepted() {
    let before = Task::new("ab12".to_string(), "Title".to_string(), Priority::P2);
    let mut edited = Task::new("ab12".to_string(), "Other title".to_string(), Priority::P0);
    edited.body = "new body".to_string();
    assert_eq!(id_change_rejection(&before, &edited), None);
}
