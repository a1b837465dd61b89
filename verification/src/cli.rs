//! The command line: its options and subcommands.
use vstd::prelude::*;

verus! {

/// The parsed command line.
#[derive(Debug)]
pub struct Cli {
    /// Run as the background daemon.
    pub daemon: bool,
    /// Print responses as JSON.
    pub json: bool,
    pub command: Option<Command>,
}

/// A subcommand of the client.
#[derive(Debug, PartialEq)]
pub enum Command {
    /// Start processes defined in pm3.toml
    Start { names: Vec<String>, env: Option<String>, wait: bool },
    /// Stop running processes
    Stop { names: Vec<String> },
    /// Restart running processes
    Restart { names: Vec<String> },
    /// List all managed processes
    List,
    /// Open interactive TUI
    Tui,
    /// Initialize a new pm3.toml configuration file
    Init,
    /// Stop all processes and shut down the daemon
    Kill,
    /// Reload process configuration
    Reload { names: Vec<String> },
    /// Show detailed info about a process
    Info { name: String },
    /// Send a signal to a process
    Signal { name: String, signal: String },
    /// Save current process list for resurrection
    Save,
    /// Restore previously saved processes
    Resurrect,
    /// Clear log files for processes
    Flush { names: Vec<String> },
    /// Generate a system service file for boot auto-start
    Startup,
    /// Remove the generated system service file
    Unstartup,
    /// View process logs
    Log { name: Option<String>, lines: usize, follow: bool, err: bool },
}

impl Command {
    /// The names given on the command line, or `None` (meaning all) when
    /// none were given.
    pub fn optional_names(names: Vec<String>) -> (r: Option<Vec<String>>)
        ensures
            names@.len() == 0 ==> r is None,
            names@.len() > 0 ==> r == Some(names),
    {
        if names.len() == 0 { None } else { Some(names) }
    }

    /// Whether the subcommand is carried out by the client alone, without a
    /// request to the daemon.
    pub open spec fn is_local(&self) -> bool {
        self is Tui || self is Init || self is Startup || self is Unstartup
    }

    /// Whether the subcommand is carried out by the client alone (see
    /// `is_local`).
    pub fn runs_locally(&self) -> (r: bool)
        ensures
            r == self.is_local(),
    {
        match self {
            Command::Tui | Command::Init | Command::Startup | Command::Unstartup => true,
            _ => false,
        }
    }
}

} // verus!
