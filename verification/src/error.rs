use vstd::prelude::*;

use crate::text::{joined, push_all, string_views};

verus! {

/// Everything the library refuses, with what it refused.
#[derive(Debug)]
pub enum Error {
    /// The `.bears/` directory does not exist.
    NotInitialized,
    /// No task has this ID, and none starts with it.
    TaskNotFound(String),
    /// More than one task ID starts with the prefix; `matches` lists them,
    /// sorted and separated by `, `.
    AmbiguousPrefix { prefix: String, matches: String },
    /// A plan was asked for a task that is not an epic.
    NotAnEpic(String),
    /// A parent was given that is not an epic.
    ParentNotEpic(String),
    /// Adding the dependency `from -> to` would close a cycle.
    CycleDetected { from: String, to: String },
    /// Dependencies that name no task.
    UnknownDependency { ids: Vec<String> },
    /// The configuration holds a value outside its range.
    InvalidConfig { reason: String },
    /// A task file whose frontmatter cannot be read.
    InvalidFrontmatter { path: String, reason: String },
    /// The editor exited unsuccessfully.
    EditorFailed { reason: String },
    /// The task cannot be archived because active tasks depend on it.
    NotArchivable { id: String, blockers: Vec<String> },
    /// The task is not found in the archive.
    NotArchived(String),
    /// Every ID of the configured length is taken or cannot be stored safely.
    IdSpaceExhausted,
    /// The system's random source could not seed the ID generator.
    RandomUnavailable,
    /// A JSON document that cannot be read or does not have the expected
    /// shape; the message is the reason alone.
    Json { reason: String },
}

impl Error {
    /// The message shown for this error.
    pub open spec fn message(&self) -> Seq<char> {
        match self {
            Error::NotInitialized => "not initialized — run `bea init` first"@,
            Error::TaskNotFound(id) => "task not found: "@ + id@,
            Error::AmbiguousPrefix { prefix, matches } => "ambiguous prefix '"@ + prefix@
                + "' matches multiple tasks: "@ + matches@,
            Error::NotAnEpic(id) => "task "@ + id@
                + " is not an epic — plans can only be generated for epics"@,
            Error::ParentNotEpic(id) => "parent "@ + id@
                + " is not an epic — only epics can have child tasks"@,
            Error::CycleDetected { from, to } => "adding dependency would create a cycle: "@
                + from@ + " -> "@ + to@,
            Error::UnknownDependency { ids } => "unknown dependency ID(s): "@ + joined(
                string_views(ids@),
                ", "@,
            ),
            Error::InvalidConfig { reason } => "invalid config: "@ + reason@,
            Error::InvalidFrontmatter { path, reason } => "invalid frontmatter in "@ + path@ + ": "@
                + reason@,
            Error::EditorFailed { reason } => "editor failed: "@ + reason@,
            Error::NotArchivable { id, blockers } => "task "@ + id@
                + " is not archivable — active dependents: "@ + joined(string_views(blockers@), ", "@),
            Error::NotArchived(id) => "task not found in archive: "@ + id@,
            Error::IdSpaceExhausted => "no free task ID of the configured length"@,
            Error::RandomUnavailable => "the system random source is unavailable"@,
            Error::Json { reason } => reason@,
        }
    }

    /// The message shown for this error.
    pub fn to_string(&self) -> (s: String)
        ensures
            s@ == self.message(),
    {
        let mut s = String::new();
        match self {
            Error::NotInitialized => {
                push_all(&mut s, "not initialized — run `bea init` first");
            },
            Error::TaskNotFound(id) => {
                push_all(&mut s, "task not found: ");
                push_all(&mut s, id.as_str());
            },
            Error::AmbiguousPrefix { prefix, matches } => {
                push_all(&mut s, "ambiguous prefix '");
                push_all(&mut s, prefix.as_str());
                push_all(&mut s, "' matches multiple tasks: ");
                push_all(&mut s, matches.as_str());
            },
            Error::NotAnEpic(id) => {
                push_all(&mut s, "task ");
                push_all(&mut s, id.as_str());
                push_all(&mut s, " is not an epic — plans can only be generated for epics");
            },
            Error::ParentNotEpic(id) => {
                push_all(&mut s, "parent ");
                push_all(&mut s, id.as_str());
                push_all(&mut s, " is not an epic — only epics can have child tasks");
            },
            Error::CycleDetected { from, to } => {
                push_all(&mut s, "adding dependency would create a cycle: ");
                push_all(&mut s, from.as_str());
                push_all(&mut s, " -> ");
                push_all(&mut s, to.as_str());
            },
            Error::UnknownDependency { ids } => {
                push_all(&mut s, "unknown dependency ID(s): ");
                let j = crate::text::join_strings(ids, ", ");
                push_all(&mut s, j.as_str());
            },
            Error::InvalidConfig { reason } => {
                push_all(&mut s, "invalid config: ");
                push_all(&mut s, reason.as_str());
            },
            Error::InvalidFrontmatter { path, reason } => {
                push_all(&mut s, "invalid frontmatter in ");
                push_all(&mut s, path.as_str());
                push_all(&mut s, ": ");
                push_all(&mut s, reason.as_str());
            },
            Error::EditorFailed { reason } => {
                push_all(&mut s, "editor failed: ");
                push_all(&mut s, reason.as_str());
            },
            Error::NotArchivable { id, blockers } => {
                push_all(&mut s, "task ");
                push_all(&mut s, id.as_str());
                push_all(&mut s, " is not archivable — active dependents: ");
                let j = crate::text::join_strings(blockers, ", ");
                push_all(&mut s, j.as_str());
            },
            Error::NotArchived(id) => {
                push_all(&mut s, "task not found in archive: ");
                push_all(&mut s, id.as_str());
            },
            Error::IdSpaceExhausted => {
                push_all(&mut s, "no free task ID of the configured length");
            },
            Error::RandomUnavailable => {
                push_all(&mut s, "the system random source is unavailable");
            },
            Error::Json { reason } => {
                push_all(&mut s, reason.as_str());
            },
        }
        assert(s@ =~= self.message());
        s
    }
}


/// The error for a task that is not among the active ones but is archived:
/// `TaskNotFound`, with a hint to restore it first.
pub fn archived_not_found(id: &str) -> (e: Error)
    ensures
        e matches Error::TaskNotFound(m) && m@ == id@ + " (task is archived — use `bea restore "@ + id@ + "` first)"@,
{
    let mut m = String::new();
    push_all(&mut m, id);
    push_all(&mut m, " (task is archived — use `bea restore ");
    push_all(&mut m, id);
    push_all(&mut m, "` first)");
    Error::TaskNotFound(m)
}

} // verus!
