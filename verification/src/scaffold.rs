use vstd::prelude::*;

use crate::store::{join_path, join_path_spec};
use crate::task::str_views;

verus! {

/// How a harness registers the MCP server.
pub enum McpStrategy {
    /// Merge the `bears` entry under `server_key` into the JSON file at
    /// `target` (relative to the project root), taking the entry from the
    /// seed document of template `seed`.
    MergeJson { target: String, server_key: String, seed: String },
    /// The harness finds servers another way: nothing to register.
    Unregistered,
}

/// One file to write: where, relative to the project root, and which
/// template gives its content.
pub struct ScaffoldFile {
    pub target: String,
    pub template: String,
}

/// A coding-harness integration: its name, the files it needs and how it
/// registers the MCP server.
pub struct Harness {
    pub name: String,
    pub files: Vec<ScaffoldFile>,
    pub mcp: McpStrategy,
}

/// One step of scaffolding, with its path under the project directory.
pub enum ScaffoldStep {
    /// Write the template's content to the path (overwriting).
    Write { path: String, template: String },
    /// Merge the `bears` MCP entry of the seed template into the JSON file.
    MergeMcp { path: String, server_key: String, seed: String },
}

/// A scaffolding step as mathematics.
pub enum StepView {
    Write { path: Seq<char>, template: Seq<char> },
    MergeMcp { path: Seq<char>, server_key: Seq<char>, seed: Seq<char> },
}

impl ScaffoldStep {
    pub open spec fn view(&self) -> StepView {
        match self {
            ScaffoldStep::Write { path, template } => StepView::Write { path: path@, template: template@ },
            ScaffoldStep::MergeMcp { path, server_key, seed } => StepView::MergeMcp {
                path: path@,
                server_key: server_key@,
                seed: seed@,
            },
        }
    }
}

/// The harness registered under `label`: the first entry of the registry
/// with that label.
pub open spec fn harness_for(registry: Seq<(String, Harness)>, label: Seq<char>) -> Option<Harness>
    decreases registry.len(),
{
    if registry.len() == 0 {
        None
    } else if registry[0].0@ == label {
        Some(registry[0].1)
    } else {
        harness_for(registry.drop_first(), label)
    }
}

/// The steps for one label under `base`: the plan of its harness, nothing
/// for an unknown label.
pub open spec fn label_steps(base: Seq<char>, registry: Seq<(String, Harness)>, label: Seq<char>) -> Seq<StepView> {
    match harness_for(registry, label) {
        Some(h) => harness_plan(base, h),
        None => Seq::empty(),
    }
}

/// The steps for every label in turn.
pub open spec fn all_steps(base: Seq<char>, registry: Seq<(String, Harness)>, labels: Seq<Seq<char>>) -> Seq<StepView>
    decreases labels.len(),
{
    if labels.len() == 0 {
        Seq::empty()
    } else {
        all_steps(base, registry, labels.drop_last()) + label_steps(base, registry, labels.last())
    }
}

/// The views of a list of steps.
pub open spec fn step_views(v: Seq<ScaffoldStep>) -> Seq<StepView> {
    v.map_values(|s: ScaffoldStep| s.view())
}

/// The position of the harness registered under `label`, if any.
pub fn find_harness(registry: &Vec<(String, Harness)>, label: &str) -> (r: Option<usize>)
    ensures
        match r {
            Some(k) => k < registry@.len() && harness_for(registry@, label@) == Some(registry@[k as int].1),
            None => harness_for(registry@, label@) is None,
        },
{
    let n = registry.len();
    let mut i: usize = 0;
    assert(registry@.subrange(0, n as int) =~= registry@);
    while i < n
        invariant
            n == registry@.len(),
            i <= n,
            harness_for(registry@, label@) == harness_for(registry@.subrange(i as int, n as int), label@),
        decreases n - i,
    {
        let ghost rest = registry@.subrange(i as int, n as int);
        assert(rest[0] == registry@[i as int]);
        assert(rest.drop_first() =~= registry@.subrange(i + 1, n as int));
        if crate::text::str_eq(registry[i].0.as_str(), label) {
            return Some(i);
        }
        i = i + 1;
    }
    assert(registry@.subrange(n as int, n as int).len() == 0);
    None
}

/// The step that writes file `f` under `base`.
pub open spec fn file_step(base: Seq<char>, f: ScaffoldFile) -> StepView {
    StepView::Write { path: join_path_spec(base, f.target@), template: f.template@ }
}

/// The steps that write the files under `base`, in order.
pub open spec fn file_steps(base: Seq<char>, files: Seq<ScaffoldFile>) -> Seq<StepView> {
    files.map_values(|f: ScaffoldFile| file_step(base, f))
}

/// The steps of a harness under `base`.
pub open spec fn harness_plan(base: Seq<char>, h: Harness) -> Seq<StepView> {
    file_steps(base, h.files@) + match h.mcp {
        McpStrategy::MergeJson { target, server_key, seed } => seq![
            StepView::MergeMcp { path: join_path_spec(base, target@), server_key: server_key@, seed: seed@ },
        ],
        McpStrategy::Unregistered => Seq::empty(),
    }
}

/// The steps that scaffold the harnesses with these labels into the
/// project directory `base`: for each label in turn, the files of the harness
/// registered under it (overwritten) and then its MCP registration; unknown
/// labels are skipped.
pub fn scaffold(base: &str, harness_labels: &Vec<String>, registry: &Vec<(String, Harness)>) -> (r: Vec<ScaffoldStep>)
    ensures
        step_views(r@) == all_steps(base@, registry@, str_views(harness_labels@)),
{
    let ghost lv = str_views(harness_labels@);
    let mut r: Vec<ScaffoldStep> = Vec::new();
    for i in 0..harness_labels.len()
        invariant
            lv == str_views(harness_labels@),
            step_views(r@) == all_steps(base@, registry@, lv.take(i as int)),
    {
        assert(lv.take(i + 1).drop_last() =~= lv.take(i as int));
        assert(lv.take(i + 1).last() == harness_labels@[i as int]@);
        let ghost before = step_views(r@);
        match find_harness(registry, harness_labels[i].as_str()) {
            Some(hk) => {
                let h = &registry[hk].1;
                let ghost fv = file_steps(base@, h.files@);
                for j in 0..h.files.len()
                    invariant
                        fv == file_steps(base@, h.files@),
                        r@.len() == before.len() + j,
                        forall|k: int| 0 <= k < before.len() ==> #[trigger] step_views(r@)[k] == before[k],
                        forall|k: int| 0 <= k < j ==> #[trigger] step_views(r@)[before.len() + k] == fv[k],
                {
                    let f = &h.files[j];
                    let ghost old_r = r@;
                    r.push(ScaffoldStep::Write { path: join_path(base, f.target.as_str()), template: f.template.clone() });
                    proof {
                        assert forall|k: int| 0 <= k < before.len() implies #[trigger] step_views(r@)[k] == before[k] by {
                            assert(r@[k] == old_r[k]);
                            assert(step_views(old_r)[k] == before[k]);
                        }
                        assert forall|k: int| 0 <= k < j + 1 implies #[trigger] step_views(r@)[before.len() + k] == fv[k] by {
                            if k < j {
                                assert(r@[before.len() + k] == old_r[before.len() + k]);
                                assert(step_views(old_r)[before.len() + k] == fv[k]);
                            }
                        }
                    }
                }
                assert forall|k: int| 0 <= k < step_views(r@).len() implies step_views(r@)[k] == (before + fv)[k] by {
                    if k >= before.len() {
                        let k2 = k - before.len();
                        assert(step_views(r@)[before.len() + k2] == fv[k2]);
                    }
                }
                assert(step_views(r@) =~= before + fv);
                let ghost mid = r@;
                match &h.mcp {
                    McpStrategy::MergeJson { target, server_key, seed } => {
                        r.push(ScaffoldStep::MergeMcp { path: join_path(base, target.as_str()), server_key: server_key.clone(), seed: seed.clone() });
                        assert(step_views(r@) =~= step_views(mid).push(StepView::MergeMcp { path: join_path_spec(base@, target@), server_key: server_key@, seed: seed@ }));
                        assert(harness_plan(base@, *h) =~= fv + seq![StepView::MergeMcp { path: join_path_spec(base@, target@), server_key: server_key@, seed: seed@ }]);
                    },
                    McpStrategy::Unregistered => {
                        assert(harness_plan(base@, *h) =~= fv);
                    },
                }
                assert(step_views(r@) =~= before + harness_plan(base@, *h));
                assert(harness_plan(base@, *h) == label_steps(base@, registry@, lv[i as int]));
            },
            None => {
                assert(label_steps(base@, registry@, lv[i as int]) =~= Seq::<StepView>::empty());
                assert(step_views(r@) =~= before + label_steps(base@, registry@, lv[i as int]));
            },
        }
    }
    assert(lv.take(harness_labels@.len() as int) =~= lv);
    r
}

/// A scaffold file as mathematics: its target and its template.
pub open spec fn file_view(f: ScaffoldFile) -> (Seq<char>, Seq<char>) {
    (f.target@, f.template@)
}

/// A harness as mathematics: its name, its files, and its MCP registration
/// (target, server key, seed template) if it has one.
pub open spec fn harness_view(h: Harness) -> (Seq<char>, Seq<(Seq<char>, Seq<char>)>, Option<(Seq<char>, Seq<char>, Seq<char>)>) {
    (
        h.name@,
        h.files@.map_values(|f: ScaffoldFile| file_view(f)),
        match h.mcp {
            McpStrategy::MergeJson { target, server_key, seed } => Some((target@, server_key@, seed@)),
            McpStrategy::Unregistered => None,
        },
    )
}

/// A registry as mathematics: each label with its harness.
pub open spec fn registry_view(r: Seq<(String, Harness)>) -> Seq<(Seq<char>, (Seq<char>, Seq<(Seq<char>, Seq<char>)>, Option<(Seq<char>, Seq<char>, Seq<char>)>))> {
    r.map_values(|e: (String, Harness)| (e.0@, harness_view(e.1)))
}

/// The harnesses built into this tool, by label: for each, its files
/// (target relative to the project root, template relative to the templates
/// directory) and where its MCP server is registered. Other harnesses come
/// from a registry file of the templates directory.
pub open spec fn builtin_harnesses() -> Seq<(Seq<char>, (Seq<char>, Seq<(Seq<char>, Seq<char>)>, Option<(Seq<char>, Seq<char>, Seq<char>)>))> {
    seq![
        ("copilot"@, ("Copilot"@, seq![
            (".github/copilot-instructions.md"@, "copilot/copilot-instructions.md"@),
            (".github/skills/bears-planning/SKILL.md"@, "copilot/skills/bears-planning/SKILL.md"@),
            (".github/skills/bears-planning/references/cli-fallback.md"@, "copilot/skills/bears-planning/references/cli-fallback.md"@),
            (".github/agents/planner.agent.md"@, "copilot/agents/planner.agent.md"@),
        ], Some((".github/mcp.json"@, "servers"@, "copilot/mcp.json"@)))),
        ("codex"@, ("Codex"@, seq![("AGENTS.md"@, "codex/AGENTS.md"@)], None)),
    ]
}

/// A file to scaffold from `template` to `target`.
fn scaffold_file(target: &str, template: &str) -> (f: ScaffoldFile)
    ensures
        file_view(f) == (target@, template@),
{
    ScaffoldFile { target: target.to_string(), template: template.to_string() }
}

/// The registry of the harnesses built into this tool (see
/// `builtin_harnesses`); the template texts are read from the templates
/// directory by their names.
pub fn builtin_registry() -> (r: Vec<(String, Harness)>)
    ensures
        registry_view(r@) == builtin_harnesses(),
{
    let mut pf: Vec<ScaffoldFile> = Vec::new();
    pf.push(scaffold_file(".github/copilot-instructions.md", "copilot/copilot-instructions.md"));
    pf.push(scaffold_file(".github/skills/bears-planning/SKILL.md", "copilot/skills/bears-planning/SKILL.md"));
    pf.push(scaffold_file(".github/skills/bears-planning/references/cli-fallback.md", "copilot/skills/bears-planning/references/cli-fallback.md"));
    pf.push(scaffold_file(".github/agents/planner.agent.md", "copilot/agents/planner.agent.md"));
    let mut xf: Vec<ScaffoldFile> = Vec::new();
    xf.push(scaffold_file("AGENTS.md", "codex/AGENTS.md"));
    let copilot = Harness {
        name: "Copilot".to_string(),
        files: pf,
        mcp: McpStrategy::MergeJson {
            target: ".github/mcp.json".to_string(),
            server_key: "servers".to_string(),
            seed: "copilot/mcp.json".to_string(),
        },
    };
    let codex = Harness { name: "Codex".to_string(), files: xf, mcp: McpStrategy::Unregistered };
    assert(harness_view(copilot) =~= builtin_harnesses()[0].1);
    assert(harness_view(codex) =~= builtin_harnesses()[1].1);
    let mut r: Vec<(String, Harness)> = Vec::new();
    r.push(("copilot".to_string(), copilot));
    r.push(("codex".to_string(), codex));
    assert(registry_view(r@) =~= builtin_harnesses());
    r
}

} // verus!
