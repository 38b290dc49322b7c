//! The command line of the tool: a subcommand and its arguments.
use vstd::prelude::*;

verus! {

/// The parsed command line.
pub struct Cli {
    pub command: Commands,
}

/// The subcommands.
#[allow(inconsistent_fields)]
pub enum Commands {
    /// Create a repository.
    Init,
    /// Without a name, list the branches; with one, create a branch of that name.
    Branch { name: Option<String> },
    /// Point HEAD to the given branch and restore its tree.
    Switch { name: String },
    /// Stage the given paths.
    Add { paths: Vec<String> },
    /// Show the log of the current branch.
    Log,
}

} // verus!
