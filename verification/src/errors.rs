use vstd::prelude::*;

verus! {

/// The failures a command can report.
///
/// `Io` carries a message from the host's filesystem or database layer.
/// The planning commands themselves are pure and only ever produce
/// `DirtyMigrations`, `DivergentMigration`, `UnrollbackableMigration`
/// or `Unknown`.
#[derive(Debug, PartialEq, Eq)]
pub enum Error {
    /// Filesystem or database transport failure, with its message.
    Io(String),
    /// A migration record could not be read or written.
    BadMigration,
    /// A migration was given an empty or whitespace-only name.
    BadMigrationName,
    /// The configured migrations directory does not exist.
    MigrationDirNotFound,
    /// `up` in strict mode found pending migrations ordered before
    /// already-applied ones.
    DirtyMigrations,
    /// `redo` encountered an applied migration with no local file.
    DivergentMigration,
    /// A plan required a down step on a migration lacking down SQL.
    UnrollbackableMigration,
    /// Builder misuse: a required input was never supplied.
    Unknown,
}

} // verus!
