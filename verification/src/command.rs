//! Commands for a shell.

use vstd::prelude::*;

verus! {

/// The shell that a command is written for.
#[derive(Copy, Clone, Debug, PartialEq, Eq, Structural)]
pub enum Shell {
    Bash,
    PowerShell,
    Cmd,
    PlatformIndependent,
}

/// A command line and the shell that understands it.
pub struct Command {
    /// The command line.
    pub cmd_str: String,
    /// The shell that the command line is written for.
    pub shell: Shell,
}

impl Command {
    /// A command for the given shell.
    pub fn new(s: &str, shell: Shell) -> (c: Command)
        ensures
            c.cmd_str@ == s@,
            c.shell == shell,
    {
        Command { cmd_str: s.to_owned(), shell: shell }
    }
}

} // verus!
