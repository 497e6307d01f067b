//! Schema migrations, as the ordered list of SQL statements to execute.
//!
//! The library owns the statement text; executing it against a live
//! database is the caller's concern. Every statement is guarded with
//! `IF NOT EXISTS`, so running the list repeatedly is a no-op.

use vstd::prelude::*;

verus! {

/// The statement of the first migration: creates the `notes` table.
pub open spec fn migration_000_statement() -> Seq<char> {
    "CREATE TABLE IF NOT EXISTS notes (id UUID PRIMARY KEY, content TEXT NOT NULL, confidential BOOLEAN NOT NULL);"@
}

/// First migration: the idempotent creation of the `notes` table.
pub fn migrate_000_create_notes() -> (r: String)
    ensures
        r@ == migration_000_statement(),
{
    let s: &str = "CREATE TABLE IF NOT EXISTS notes (id UUID PRIMARY KEY, content TEXT NOT NULL, confidential BOOLEAN NOT NULL);";
    s.to_owned()
}

/// All migrations, in the order in which they must run.
pub fn run_postgres_migrations() -> (r: Vec<String>)
    ensures
        r@.len() == 1,
        r@[0]@ == migration_000_statement(),
{
    let mut statements: Vec<String> = Vec::new();
    statements.push(migrate_000_create_notes());
    statements
}

} // verus!
