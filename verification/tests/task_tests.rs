use bears::frontmatter::{render_frontmatter, split_frontmatter};
use bears::task::{
    filename, generate_id, is_active, is_default_task_type, matches_tag, shown_effective_priority, slugify,
    sort_by_priority_owned, timestamp_from_clock, yaml_safe_id, Priority, Status, Task, TaskType, Timestamp,
};

const ID_CHARS: &str = "abcdefghjkmnpqrstuvwxyz23456789";

fn yaml_field(yaml: &str, key: &str) -> String {
    let v: serde_yml::Value = serde_yml::from_str(yaml).unwrap();
    match &v[key] {
        serde_yml::Value::String(s) => s.clone(),
        other => panic!("field {key} is not a string: {other:?}"),
    }
}

#[test]
fn test_slugify_basic() {
    assert_eq!(slugify("Implement OAuth flow"), "implement-oauth-flow");
}

#[test]
fn test_slugify_special_chars() {
    assert_eq!(slugify("Fix bug #123!"), "fix-bug-123");
}

#[test]
fn test_slugify_leading_trailing() {
    assert_eq!(slugify("  hello world  "), "hello-world");
}

#[test]
fn test_slugify_consecutive_special() {
    assert_eq!(slugify("a---b___c"), "a-b-c");
}

#[test]
fn slugify_lowercases_and_drops_non_ascii() {
    assert_eq!(slugify("ÉTÉ Plans"), "t-plans");
    assert_eq!(slugify("---"), "");
    assert_eq!(slugify(""), "");
}

#[test]
fn test_generate_id_unique() {
    let existing: Vec<String> = Vec::new();
    let id = generate_id(&existing, 4).unwrap();
    assert_eq!(id.chars().count(), 4);
    assert!(id.chars().all(|c| ID_CHARS.contains(c)));
}

#[test]
fn test_generate_id_avoids_collision() {
    let mut existing: Vec<String> = Vec::new();
    let id1 = generate_id(&existing, 4).unwrap();
    existing.push(id1.clone());
    let id2 = generate_id(&existing, 4).unwrap();
    assert_ne!(id1, id2);
}

#[test]
fn test_generate_id_excludes_ambiguous_chars() {
    let existing: Vec<String> = Vec::new();
    let ambiguous = ['0', 'o', '1', 'l', 'i'];
    for _ in 0..100 {
        let id = generate_id(&existing, 6).unwrap();
        assert!(!id.chars().any(|c| ambiguous.contains(&c)));
    }
}

#[test]
fn test_yaml_safe_id_rejects_nan() {
    assert!(!yaml_safe_id("nan"));
    assert!(yaml_safe_id("abc"));
    assert!(yaml_safe_id("a2b"));
}

#[test]
fn yaml_safe_id_rejects_numbers_and_booleans() {
    assert!(!yaml_safe_id("234"));
    assert!(!yaml_safe_id("true"));
    assert!(!yaml_safe_id("null"));
    assert!(yaml_safe_id("ab2c"));
}

#[test]
fn test_generate_id_never_yaml_ambiguous() {
    let existing: Vec<String> = Vec::new();
    for _ in 0..200 {
        let id = generate_id(&existing, 3).unwrap();
        assert!(yaml_safe_id(&id), "generated YAML-unsafe id {id}");
    }
}

#[test]
fn generate_id_has_requested_length() {
    let existing: Vec<String> = Vec::new();
    let id = generate_id(&existing, 5).unwrap();
    assert_eq!(id.len(), 5);
}

#[test]
fn test_filename() {
    let task = Task::new("a1b2".into(), "Implement OAuth flow".into(), Priority::P1);
    assert_eq!(filename(&task), "a1b2-implement-oauth-flow.md");
}

#[test]
fn test_priority_ordering() {
    assert!(Priority::P0 < Priority::P1);
    assert!(Priority::P1 < Priority::P2);
    assert!(Priority::P2 < Priority::P3);
}

#[test]
fn test_status_display() {
    assert_eq!(Status::InProgress.to_string(), "in_progress");
    assert_eq!(Status::Open.to_string(), "open");
}

#[test]
fn test_status_from_str() {
    assert_eq!("in_progress".parse::<Status>().unwrap(), Status::InProgress);
    assert!("invalid".parse::<Status>().is_err());
}

#[test]
fn every_status_and_priority_round_trips_through_its_label() {
    for s in [Status::Open, Status::InProgress, Status::Done, Status::Blocked, Status::Cancelled] {
        assert_eq!(Status::parse(&s.to_string()).unwrap(), s);
    }
    for p in [Priority::P0, Priority::P1, Priority::P2, Priority::P3] {
        assert_eq!(Priority::parse(&p.to_string()).unwrap(), p);
    }
    assert_eq!(Priority::P2.to_string(), "P2");
    assert!(Priority::parse("P4").is_err());
    assert!(Priority::parse("p1").is_err());
}

#[test]
fn test_summary_basic_fields() {
    let t = Task::new("ab12".into(), "Test task".into(), Priority::P2);
    let s = t.summary(None);
    assert_eq!(s.id, "ab12");
    assert_eq!(s.title, "Test task");
    assert_eq!(s.status.to_string(), "open");
    assert_eq!(s.priority.to_string(), "P2");
    assert!(s.effective_priority.is_none());
}

#[test]
fn test_summary_with_effective_priority() {
    let t = Task::new("cd34".into(), "High eff".into(), Priority::P3);
    let s = t.summary(Some(&Priority::P1));
    assert_eq!(s.effective_priority.unwrap().to_string(), "P1");
}

#[test]
fn test_summary_effective_not_set_when_same() {
    let t = Task::new("ef56".into(), "Same prio".into(), Priority::P1);
    let s = t.summary(Some(&Priority::P1));
    assert!(s.effective_priority.is_none());
}

#[test]
fn summary_effective_not_set_when_less_urgent() {
    let t = Task::new("ef57".into(), "Urgent".into(), Priority::P0);
    assert!(t.summary(Some(&Priority::P2)).effective_priority.is_none());
    assert_eq!(shown_effective_priority(Priority::P2, Some(Priority::P0)), Some(Priority::P0));
    assert_eq!(shown_effective_priority(Priority::P2, Some(Priority::P3)), None);
    assert_eq!(shown_effective_priority(Priority::P2, None), None);
}

#[test]
fn test_detail_has_all_fields() {
    let mut t = Task::new("gh78".into(), "Detail test".into(), Priority::P1);
    t.body = "Some body".into();
    t.depends_on = vec!["ab12".into()];
    t.parent = Some("zz99".into());
    t.assignee = "alice".into();

    let d = t.detail(Some(&Priority::P0));
    assert_eq!(d.summary.id, "gh78");
    assert_eq!(d.summary.title, "Detail test");
    assert_eq!(d.summary.priority, Priority::P1);
    assert_eq!(d.summary.effective_priority, Some(Priority::P0));
    assert_eq!(d.body, "Some body");
    assert_eq!(d.depends_on, vec!["ab12".to_string()]);
    assert_eq!(d.parent.as_deref(), Some("zz99"));
    assert_eq!(d.assignee, "alice");
    assert_eq!(d.created, t.created);
    assert_eq!(d.updated, t.updated);
}

#[test]
fn test_summary_includes_type_for_epic() {
    let mut t = Task::new("ep10".into(), "An epic".into(), Priority::P1);
    t.task_type = TaskType::Epic;
    assert_eq!(t.summary(None).task_type, TaskType::Epic);
    assert!(!is_default_task_type(&t.summary(None).task_type));
}

#[test]
fn test_summary_omits_type_for_task() {
    let t = Task::new("tk10".into(), "A task".into(), Priority::P1);
    assert!(is_default_task_type(&t.summary(None).task_type));
}

#[test]
fn test_is_active() {
    let mut t = Task::new("a1".into(), "T".into(), Priority::P2);
    assert!(is_active(&t));

    t.status = Status::InProgress;
    assert!(is_active(&t));

    t.status = Status::Done;
    assert!(!is_active(&t));

    t.status = Status::Cancelled;
    assert!(!is_active(&t));

    t.status = Status::Blocked;
    assert!(is_active(&t));
}

#[test]
fn test_matches_tag() {
    let mut t = Task::new("b2".into(), "T".into(), Priority::P2);
    t.tags = vec!["backend".into(), "api".into()];

    assert!(matches_tag(&t, None));
    assert!(matches_tag(&t, Some("backend")));
    assert!(matches_tag(&t, Some("api")));
    assert!(!matches_tag(&t, Some("frontend")));
}

fn at(secs: i64) -> Timestamp {
    Timestamp { secs, nanos: 0 }
}

#[test]
fn test_sort_by_priority_owned() {
    let mut t1 = Task::new("a1".into(), "Low".into(), Priority::P3);
    t1.created = at(1767225600); // 2026-01-01T00:00:00Z
    let mut t2 = Task::new("b2".into(), "High".into(), Priority::P0);
    t2.created = at(1767312000); // 2026-01-02T00:00:00Z
    let mut t3 = Task::new("c3".into(), "Also low, older".into(), Priority::P3);
    t3.created = at(1748736000); // 2025-06-01T00:00:00Z

    let mut tasks = vec![t1, t3, t2];
    sort_by_priority_owned(&mut tasks);

    assert_eq!(tasks[0].id, "b2");
    assert_eq!(tasks[1].id, "c3");
    assert_eq!(tasks[2].id, "a1");
}

#[test]
fn sort_keeps_order_of_equal_keys() {
    let mut a = Task::new("x1".into(), "A".into(), Priority::P1);
    a.created = at(100);
    let mut b = Task::new("x2".into(), "B".into(), Priority::P1);
    b.created = at(100);
    let mut c = Task::new("x3".into(), "C".into(), Priority::P1);
    c.created = Timestamp { secs: 99, nanos: 5 };
    let mut tasks = vec![a, b, c];
    sort_by_priority_owned(&mut tasks);
    let ids: Vec<&str> = tasks.iter().map(|t| t.id.as_str()).collect();
    assert_eq!(ids, vec!["x3", "x1", "x2"]);
}

#[test]
fn test_parse_no_body() {
    let content = "---
id: x1y2
title: No body task
status: done
priority: P3
created: 2026-03-15T10:30:00Z
updated: 2026-03-15T10:30:00Z
---
";
    let (yaml, body) = split_frontmatter(content).unwrap();
    assert_eq!(yaml_field(&yaml, "id"), "x1y2");
    assert_eq!(body, "");
}

#[test]
fn test_parse_missing_delimiter() {
    let content = "id: broken\ntitle: No delimiters\n";
    assert!(split_frontmatter(content).is_err());
}

#[test]
fn test_parse_render_roundtrip() {
    let content = "---
id: a1b2
title: Test task
status: open
priority: P1
created: 2026-03-15T10:30:00Z
updated: 2026-03-15T10:30:00Z
tags:
- backend
depends_on:
- f4c9
assignee: ''
---

This is the body.
";
    let (yaml, body) = split_frontmatter(content).unwrap();
    assert_eq!(yaml_field(&yaml, "id"), "a1b2");
    assert_eq!(yaml_field(&yaml, "title"), "Test task");
    assert_eq!(yaml_field(&yaml, "status"), "open");
    assert_eq!(yaml_field(&yaml, "priority"), "P1");
    assert_eq!(body, "This is the body.\n");

    let rendered = render_frontmatter(&yaml, &body);
    assert_eq!(rendered, content);
    let (yaml2, body2) = split_frontmatter(&rendered).unwrap();
    assert_eq!(yaml2, yaml);
    assert_eq!(body2, body);
}

#[test]
fn test_parse_crlf_line_endings() {
    let content = "---\r\nid: cr01\r\ntitle: CRLF task\r\nstatus: open\r\npriority: P2\r\ncreated: 2026-03-15T10:30:00Z\r\nupdated: 2026-03-15T10:30:00Z\r\n---\r\n\r\nBody with CRLF.\r\n";
    let (yaml, body) = split_frontmatter(content).unwrap();
    assert_eq!(yaml_field(&yaml, "id"), "cr01");
    assert_eq!(yaml_field(&yaml, "title"), "CRLF task");
    assert_eq!(body, "Body with CRLF.\n");
}

#[test]
fn test_parse_bom_prefix() {
    let content = "\u{feff}---\nid: bom1\ntitle: BOM task\nstatus: open\npriority: P1\ncreated: 2026-03-15T10:30:00Z\nupdated: 2026-03-15T10:30:00Z\n---\n";
    let (yaml, body) = split_frontmatter(content).unwrap();
    assert_eq!(yaml_field(&yaml, "id"), "bom1");
    assert_eq!(body, "");
}

#[test]
fn test_parse_bom_with_crlf() {
    let content = "\u{feff}---\r\nid: bc01\r\ntitle: BOM+CRLF\r\nstatus: done\r\npriority: P0\r\ncreated: 2026-03-15T10:30:00Z\r\nupdated: 2026-03-15T10:30:00Z\r\n---\r\n\r\nBoth BOM and CRLF.\r\n";
    let (yaml, body) = split_frontmatter(content).unwrap();
    assert_eq!(yaml_field(&yaml, "id"), "bc01");
    assert_eq!(yaml_field(&yaml, "title"), "BOM+CRLF");
    assert_eq!(body, "Both BOM and CRLF.\n");
}

#[test]
fn test_parse_missing_opening_delimiter() {
    let content = "id: broken\ntitle: No opening\n---\n";
    let err = split_frontmatter(content).unwrap_err();
    assert!(err.to_string().contains("opening ---"));
}

#[test]
fn test_parse_missing_closing_delimiter() {
    let content = "---\nid: broken\ntitle: No closing\n";
    let err = split_frontmatter(content).unwrap_err();
    assert!(err.to_string().contains("closing ---"));
}

#[test]
fn test_parse_no_body_no_trailing_newline() {
    let content = "---\nid: nb01\ntitle: Minimal\nstatus: open\npriority: P3\ncreated: 2026-03-15T10:30:00Z\nupdated: 2026-03-15T10:30:00Z\n---";
    let (yaml, body) = split_frontmatter(content).unwrap();
    assert_eq!(yaml_field(&yaml, "id"), "nb01");
    assert_eq!(body, "");
}

#[test]
fn test_parse_body_preserves_internal_triple_dashes() {
    let content = "---\nid: td01\ntitle: Triple dashes in body\nstatus: open\npriority: P2\ncreated: 2026-03-15T10:30:00Z\nupdated: 2026-03-15T10:30:00Z\n---\n\nSome text\n--- not a delimiter\nMore text\n";
    let (yaml, body) = split_frontmatter(content).unwrap();
    assert_eq!(yaml_field(&yaml, "id"), "td01");
    assert!(body.contains("--- not a delimiter"));
    assert!(body.contains("More text"));
}

#[test]
fn delimiter_with_trailing_spaces_is_accepted() {
    let (yaml, body) = split_frontmatter("---  \nid: ws01\n---\t\nbody\n").unwrap();
    assert_eq!(yaml, "id: ws01");
    assert_eq!(body, "body\n");
}

#[test]
fn frontmatter_error_has_exact_message() {
    let err = split_frontmatter("no delimiters").unwrap_err();
    assert_eq!(err.to_string(), "invalid frontmatter in : missing opening --- delimiter");
}

#[test]
fn render_then_split_gives_back_the_parts() {
    let out = render_frontmatter("id: rt01\ntitle: x\n", "Line one\n\nLine two\n");
    assert_eq!(out, "---\nid: rt01\ntitle: x\n---\n\nLine one\n\nLine two\n");
    let (y, b) = split_frontmatter(&out).unwrap();
    assert_eq!(y, "id: rt01\ntitle: x");
    assert_eq!(b, "Line one\n\nLine two\n");
    assert_eq!(render_frontmatter("id: e\n", ""), "---\nid: e\n---\n");
}

#[test]
fn test_task_type_default() {
    assert_eq!(TaskType::default(), TaskType::Task);
}

#[test]
fn test_task_type_display() {
    assert_eq!(TaskType::Task.to_string(), "task");
    assert_eq!(TaskType::Epic.to_string(), "epic");
}

#[test]
fn test_task_type_from_str() {
    assert_eq!("task".parse::<TaskType>().unwrap(), TaskType::Task);
    assert_eq!("epic".parse::<TaskType>().unwrap(), TaskType::Epic);
    assert!("invalid".parse::<TaskType>().is_err());
}

#[test]
fn test_task_new_defaults_to_task_type() {
    let t = Task::new("ab12".into(), "Test".into(), Priority::P1);
    assert_eq!(t.task_type, TaskType::Task);
}

#[test]
fn task_new_is_fresh() {
    let t = Task::new("ab13".into(), "Fresh".into(), Priority::P3);
    assert_eq!(t.status, Status::Open);
    assert_eq!(t.created, t.updated);
    assert!(t.created.secs > 1_700_000_000);
    assert!(t.tags.is_empty() && t.depends_on.is_empty() && t.parent.is_none());
    assert!(t.assignee.is_empty() && t.body.is_empty());
}

#[test]
fn slug_is_clean_and_idempotent() {
    for title in ["Implement OAuth flow", "  --Fix  bug #123!--", "a---b___c", "ÉTÉ Plans", "", "---", "Straße KELVIN \u{212A} İstanbul ΣΑΣ"] {
        let s = slugify(title);
        assert!(s.chars().all(|c| c.is_ascii_lowercase() || c.is_ascii_digit() || c == '-'));
        assert!(!s.starts_with('-') && !s.ends_with('-') && !s.contains("--"));
        assert_eq!(slugify(&s), s);
    }
}

#[test]
fn slug_of_non_ascii_title() {
    assert_eq!(slugify("Ärger über Öl"), "rger-ber-l");
    assert_eq!(slugify("\u{212A}elvin"), "kelvin");
}

#[test]
fn clock_readings_become_timestamps() {
    assert_eq!(timestamp_from_clock(Ok((1_700_000_000, 5))), Timestamp { secs: 1_700_000_000, nanos: 5 });
    assert_eq!(timestamp_from_clock(Err((2, 0))), Timestamp { secs: -2, nanos: 0 });
    assert_eq!(timestamp_from_clock(Err((2, 250_000_000))), Timestamp { secs: -3, nanos: 750_000_000 });
    assert_eq!(timestamp_from_clock(Ok((u64::MAX, 0))), Timestamp { secs: i64::MAX, nanos: 0 });
    assert_eq!(timestamp_from_clock(Err((u64::MAX, 7))), Timestamp { secs: i64::MIN, nanos: 0 });
}
