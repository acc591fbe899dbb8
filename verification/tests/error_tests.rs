use bears::error::{archived_not_found, Error};

#[test]
fn every_error_message() {
    let cases: Vec<(Error, &str)> = vec![
        (Error::NotInitialized, "not initialized — run `bea init` first"),
        (Error::TaskNotFound("ab12".into()), "task not found: ab12"),
        (
            Error::AmbiguousPrefix { prefix: "ab".into(), matches: "ab12, ab34".into() },
            "ambiguous prefix 'ab' matches multiple tasks: ab12, ab34",
        ),
        (Error::NotAnEpic("t1".into()), "task t1 is not an epic — plans can only be generated for epics"),
        (Error::ParentNotEpic("p1".into()), "parent p1 is not an epic — only epics can have child tasks"),
        (
            Error::CycleDetected { from: "a".into(), to: "b".into() },
            "adding dependency would create a cycle: a -> b",
        ),
        (
            Error::UnknownDependency { ids: vec!["x".into(), "y".into()] },
            "unknown dependency ID(s): x, y",
        ),
        (Error::InvalidConfig { reason: "bad".into() }, "invalid config: bad"),
        (
            Error::InvalidFrontmatter { path: "f.md".into(), reason: "why".into() },
            "invalid frontmatter in f.md: why",
        ),
        (Error::EditorFailed { reason: "vi exited with 1".into() }, "editor failed: vi exited with 1"),
        (
            Error::NotArchivable { id: "a".into(), blockers: vec!["b".into(), "c".into()] },
            "task a is not archivable — active dependents: b, c",
        ),
        (Error::NotArchived("z".into()), "task not found in archive: z"),
        (Error::IdSpaceExhausted, "no free task ID of the configured length"),
        (Error::RandomUnavailable, "the system random source is unavailable"),
        (Error::Json { reason: "expected value at line 1 column 1".into() }, "expected value at line 1 column 1"),
    ];
    for (e, want) in cases {
        assert_eq!(e.to_string(), want);
    }
}

#[test]
fn archived_hint_message() {
    let e = archived_not_found("ab12");
    assert_eq!(e.to_string(), "task not found: ab12 (task is archived — use `bea restore ab12` first)");
}
