//! What an invocation asks for, as plain data. The surrounding binary parses
//! the actual command line into this shape.

use vstd::prelude::*;

verus! {

/// One parsed invocation: env files to load (the remembered ones are used
/// when empty), whether to rerun on env-file changes, and the command to
/// run.
pub struct Cli {
    pub env_files: Vec<String>,
    pub watch: bool,
    pub command: Vec<String>,
    pub subcommand: Option<Commands>,
}

/// The subcommands besides running a command.
pub enum Commands {
    /// Show the remembered env files for the current directory.
    Ls,
}

} // verus!
