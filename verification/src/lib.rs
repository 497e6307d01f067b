//! A minimal notes library: a repository with create, find-by-id and
//! delete-by-id operations over `Note` entities, together with the SQL
//! statements that a database-backed binding issues for the same contract.
//!
//! The repository semantics are stated over a sequence of note models and
//! proved; the storage- and HTTP-facing glue lives outside this crate and
//! consumes these contracts.

pub mod migrations;
pub mod note;
pub mod note_id;
