use bears::scaffold::{builtin_registry, scaffold, ScaffoldStep};

fn plan(base: &str, labels: &[&str]) -> Vec<ScaffoldStep> {
    let labels: Vec<String> = labels.iter().map(|l| l.to_string()).collect();
    scaffold(base, &labels, &builtin_registry())
}

fn paths(steps: &[ScaffoldStep]) -> Vec<String> {
    steps
        .iter()
        .map(|s| match s {
            ScaffoldStep::Write { path, .. } => path.clone(),
            ScaffoldStep::MergeMcp { path, .. } => path.clone(),
        })
        .collect()
}

#[test]
fn scaffold_plan_is_the_same_on_a_second_run() {
    let written = paths(&plan("proj", &["copilot", "codex"]));
    assert!(written.iter().any(|p| p.ends_with(".github/mcp.json")), "mcp.json must be in written list");
    let written2 = paths(&plan("proj", &["copilot", "codex"]));
    assert_eq!(written, written2);
    assert_eq!(written.len(), 6);
}

#[test]
fn test_scaffold_copilot_skill_and_agent() {
    let steps = plan("proj", &["copilot"]);
    let written = paths(&steps);
    assert_eq!(
        written,
        vec![
            "proj/.github/copilot-instructions.md",
            "proj/.github/skills/bears-planning/SKILL.md",
            "proj/.github/skills/bears-planning/references/cli-fallback.md",
            "proj/.github/agents/planner.agent.md",
            "proj/.github/mcp.json",
        ]
    );
    match &steps[4] {
        ScaffoldStep::MergeMcp { server_key, .. } => assert_eq!(server_key, "servers"),
        _ => panic!("the last step registers the MCP server"),
    }
}

#[test]
fn test_scaffold_unknown_label_skipped() {
    let steps = plan("proj", &["nope", "codex"]);
    assert_eq!(paths(&steps), vec!["proj/AGENTS.md"]);
    match &steps[0] {
        ScaffoldStep::Write { template, .. } => assert_eq!(template, "codex/AGENTS.md"),
        _ => panic!("codex writes one file"),
    }
}
