//! The repository's configuration, the arguments of each command, and the
//! errors that the library reports.

use vstd::prelude::*;
use crate::paths::RepoPath;

verus! {

/// `std::path::PathBuf`, carried through unread.
#[verifier::external_type_specification]
#[verifier::external_body]
pub struct ExPathBuf(std::path::PathBuf);

/// The kind of migration scripts a repository holds.
#[derive(Clone, Copy, Debug, PartialEq, Eq, Structural, PartialOrd, Ord, Hash)]
pub enum InitType {
    Shell,
    Postgres,
    Mysql,
}

/// The contents of `repo.toml`.
#[derive(Clone, Copy, Debug, PartialEq, Eq, Structural)]
pub struct RepoConfig {
    pub mode: InitType,
}

/// Arguments of `regrate commit`.
pub struct CommitArgs {
    /// Message describing the migration (stored in its info.toml)
    pub message: String,
}

/// Arguments of `regrate create`.
pub struct CreateArgs {
    /// Migrate to the 'current' migration but don't revert (for dev)
    pub current: bool,
    /// What command to execute migrations
    pub command: Option<String>,
    /// where to put the version in command invocation
    pub replace: String,
}

/// Arguments of `regrate init`.
pub struct InitArgs {
    /// Type of migration
    pub which: InitType,
    /// Do not generate a default template for this filetype
    pub no_template: bool,
    /// Force removal of existing migration (danger!)
    pub force: bool,
    /// place to insert migration directory (default $PWD)
    pub path: Option<std::path::PathBuf>,
}

/// Arguments of `regrate run`.
pub struct RunArgs {
    /// after migrating to latest, run the "current" migration too
    pub current: bool,
    /// What command to execute migrations
    pub command: Vec<String>,
}

/// What a committed migration records about itself in its `info.toml`.
pub struct Info {
    pub name: String,
    pub message: String,
}

/// Why a command refuses to go on.
pub enum RegrateError {
    /// There is no `regrate/store` directory.
    NotInitialized,
    /// `init` found an existing store and was not forced.
    AlreadyInitialized,
    /// `create` found a `current` migration already.
    CurrentAlreadyExists,
    /// `commit` found no `current` migration.
    NoCurrentToCommit,
    /// `run --current` found no `current` migration.
    NoCurrentToRun,
    /// The store holds migrations that the name chain does not reach
    /// (sorted names).
    Unreachable(Vec<String>),
    /// The name chain comes back to a name it already passed, so walking it
    /// would never end.
    ChainCycle,
    /// A run command used `{next-name}` for the `current` migration.
    NextNameUnknown,
    /// A run command used `{next-path}` for the `current` migration.
    NextPathUnknown,
    /// A run command needed the text of a path that is not valid UTF-8.
    PathNotUtf8(RepoPath),
    /// `run` was given no command.
    CommandRequired,
    /// Store conflicts span several migrations (their sorted names).
    ConflictsSpanMigrations(Vec<String>),
    /// `resolve` found a `current` migration in its way.
    CurrentBlocksResolve,
}

} // verus!
