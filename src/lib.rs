//! Renames specimen photographs after the accession code found in them.
//!
//! The library holds the decisions of a batch: which files take part, what
//! canonical name a decoded payload gives, which suffix a repeated specimen
//! gets, which sibling files move together, and what the audit log records.
//! Running the decoders and touching the file system is left to the caller.

pub mod batch;
pub mod name;
pub mod paths;
pub mod setup;
