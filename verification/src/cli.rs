//! The command line: the commands and what each asks for.
use vstd::prelude::*;
use crate::config::{config, config_decision, ConfigError, ConfigTask};

verus! {

/// cntl — a version control system with content-addressable storage and a
/// two-tier history model.
pub struct Cli {
    pub command: Command,
}

/// The subcommands.
pub enum Command {
    /// Initialize a new repository in the current directory.
    Init,
    /// Get or set configuration values.
    Config { key: Option<String>, value: Option<String>, local: bool, all: bool, verbose: bool },
    /// Show changes between the working tree and HEAD.
    Status,
    /// Show the unified diff between the working tree and HEAD.
    Diff,
    /// Restore the given files to their content in HEAD.
    Restore { paths: Vec<String> },
    /// Record a new commit with all current changes.
    Commit { message: String },
    /// Show the commit history.
    Log,
}

/// The work that a command line asks for.
pub enum Task {
    Init,
    Config(ConfigTask),
    Status,
    Diff,
    Restore { paths: Vec<String> },
    Commit { message: String },
    Log,
}

/// Dispatches a parsed command line to the work it asks for; configuration
/// arguments are checked here.
pub fn run(cli: Cli) -> (r: Result<Task, ConfigError>)
    ensures
        match cli.command {
            Command::Init => r matches Ok(Task::Init),
            Command::Config { key, value, local, all, verbose } => match r {
                Ok(Task::Config(t)) => config_decision(key, value, local, all, verbose, Ok(t)),
                Err(e) => config_decision(key, value, local, all, verbose, Err(e)),
                _ => false,
            },
            Command::Status => r matches Ok(Task::Status),
            Command::Diff => r matches Ok(Task::Diff),
            Command::Restore { paths } => r matches Ok(Task::Restore { paths: p }) && p == paths,
            Command::Commit { message } => r matches Ok(Task::Commit { message: m }) && m == message,
            Command::Log => r matches Ok(Task::Log),
        },
{
    match cli.command {
        Command::Init => Ok(Task::Init),
        Command::Config { key, value, local, all, verbose } => {
            let t = config(key, value, local, all, verbose)?;
            Ok(Task::Config(t))
        },
        Command::Status => Ok(Task::Status),
        Command::Diff => Ok(Task::Diff),
        Command::Restore { paths } => Ok(Task::Restore { paths }),
        Command::Commit { message } => Ok(Task::Commit { message }),
        Command::Log => Ok(Task::Log),
    }
}

/// Why a repository could not be created.
#[derive(Debug)]
pub enum InitError {
    /// The current directory already holds one.
    AlreadyExists,
}

/// Whether `cntl init` may create the repository: only where none exists.
pub fn init_check(exists: bool) -> (r: Result<(), InitError>)
    ensures
        exists <==> r matches Err(InitError::AlreadyExists),
        !exists <==> r is Ok,
{
    if exists {
        Err(InitError::AlreadyExists)
    } else {
        Ok(())
    }
}

} // verus!
