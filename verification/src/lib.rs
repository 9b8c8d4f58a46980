//! A migration reconciliation engine for a clustered database: derives
//! version identifiers and integrity checksums from migration files,
//! parses their UP and DOWN sections, models the ledger of applied
//! migrations, computes pending and divergent sets, and drives fail-fast
//! apply and rollback batches. The database round trips and the file
//! system stay outside; the engine works on plain values handed in.
pub mod codec;
pub mod config;
pub mod engine;
pub mod ledger;
pub mod parser;
pub mod scan;
pub mod schema;
pub mod text;

use vstd::prelude::*;

verus! {

/// A migration file discovered on disk, reconstructed from its name and
/// text on every scan; never persisted.
#[derive(Debug)]
pub struct MigrationFile {
    pub version: String,
    pub description: String,
    pub file_path: String,
    pub content: String,
    pub checksum: String,
}

/// A row of the migration ledger: one per applied migration, with the
/// instant of application in milliseconds since the epoch and the
/// checksum of the file content at apply time.
#[derive(Debug)]
pub struct MigrationRecord {
    pub version: String,
    pub applied_at: i64,
    pub checksum: String,
    pub description: String,
}

/// The failure taxonomy of the engine. Collaborator-level failures
/// (connection, query, file I/O) carry the collaborator's message text.
#[derive(Debug)]
pub enum MigrationError {
    DatabaseError(String),
    QueryError(String),
    FileError(String),
    ConfigError(String),
    IntegrityError(String),
    MigrationNotFound(String),
    ChecksumMismatch { version: String, expected: String, actual: String },
    RollbackError { version: String, reason: String },
    AlreadyApplied { version: String },
    InvalidFormat(String),
}

/// An integrity finding of verification: an applied migration whose file
/// content changed, or whose file is gone.
#[derive(Debug)]
pub enum IntegrityIssue {
    ChecksumMismatch { version: String, expected: String, actual: String },
    MissingFile { version: String },
}

} // verus!
