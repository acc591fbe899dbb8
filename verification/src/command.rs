use vstd::prelude::*;

verus! {

/// A subcommand of `bea dep`.
pub enum DepCommand {
    /// Make task `id` depend on `depends_on`.
    Add { id: String, depends_on: String },
    /// Drop the dependency of task `id` on `depends_on`.
    Remove { id: String, depends_on: String },
    /// Show the dependency tree of task `id`.
    Tree { id: String },
}

} // verus!
