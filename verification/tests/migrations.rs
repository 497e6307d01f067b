use ohw_server::migrations::{migrate_000_create_notes, run_postgres_migrations};
use ohw_server::note::repository::{sql_delete_note, sql_insert_note, sql_select_note};

#[test]
fn the_first_migration_creates_the_notes_table_idempotently() {
    assert_eq!(
        migrate_000_create_notes(),
        "CREATE TABLE IF NOT EXISTS notes (id UUID PRIMARY KEY, content TEXT NOT NULL, confidential BOOLEAN NOT NULL);"
    );
}

#[test]
fn migrations_run_in_order_and_there_is_one() {
    let statements = run_postgres_migrations();
    assert_eq!(statements.len(), 1);
    assert_eq!(statements[0], migrate_000_create_notes());
}

#[test]
fn the_repository_sql_is_parametrized_per_operation() {
    assert_eq!(
        sql_insert_note(),
        "INSERT INTO notes (id, content, confidential) VALUES (gen_random_uuid(), $1, $2) RETURNING id, content, confidential"
    );
    assert_eq!(sql_select_note(), "SELECT id, content, confidential FROM notes WHERE id = $1");
    assert_eq!(sql_delete_note(), "DELETE FROM notes WHERE id = $1");
}
