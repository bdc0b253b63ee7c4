use rhp::db::{
    count_rows, kind_name, normalise_dsn, quote_ident, rows_or_error, transaction_error, where_clause,
    ColumnKind, TableStmt, TxAction,
};

#[test]
fn quote_ident_doubles_quotes() {
    assert_eq!(quote_ident("users"), "\"users\"");
    assert_eq!(quote_ident("we\"ird"), "\"we\"\"ird\"");
}

#[test]
fn where_clause_joins_conditions() {
    assert_eq!(where_clause(&vec![]), "");
    assert_eq!(
        where_clause(&vec!["a".to_string(), "b".to_string()]),
        " WHERE \"a\" = ? AND \"b\" = ?"
    );
}

#[test]
fn table_statements() {
    let t: TableStmt<i64> = TableStmt::new("users");
    assert_eq!(t.all_sql(), "SELECT * FROM \"users\"");
    assert_eq!(t.one_sql(), "SELECT * FROM \"users\" LIMIT 1");
    assert_eq!(t.delete_sql(), "DELETE FROM \"users\"");
    let t = t.where_(vec![("name".to_string(), 1), ("age".to_string(), 2)]);
    assert_eq!(
        t.all_sql(),
        "SELECT * FROM \"users\" WHERE \"age\" = ? AND \"name\" = ?"
    );
    assert_eq!(
        t.conditions(),
        &vec![("age".to_string(), 2), ("name".to_string(), 1)]
    );
}

#[test]
fn where_replaces_existing_condition() {
    let t: TableStmt<i64> = TableStmt::new("t");
    let t = t.where_(vec![("id".to_string(), 1)]);
    let t = t.where_(vec![("id".to_string(), 7), ("a".to_string(), 3)]);
    assert_eq!(t.conditions(), &vec![("a".to_string(), 3), ("id".to_string(), 7)]);
    assert_eq!(t.table(), "t");
}

#[test]
fn insert_and_update_statements() {
    let t: TableStmt<i64> = TableStmt::new("users");
    let cols = vec!["id".to_string(), "name".to_string()];
    assert_eq!(
        t.insert_sql(&cols),
        "INSERT INTO \"users\" (\"id\", \"name\") VALUES (?, ?)"
    );
    let t = t.where_(vec![("id".to_string(), 1)]);
    assert_eq!(
        t.update_sql(&vec!["name".to_string()]),
        "UPDATE \"users\" SET \"name\" = ? WHERE \"id\" = ?"
    );
    assert_eq!(t.delete_sql(), "DELETE FROM \"users\" WHERE \"id\" = ?");
}

#[test]
fn normalise_dsn_cases() {
    assert_eq!(normalise_dsn("postgres://u@h/db"), "postgres://u@h/db");
    assert_eq!(normalise_dsn("sqlite::memory:"), "sqlite::memory:");
    assert_eq!(
        normalise_dsn(":memory:"),
        "sqlite://file%3Arhp?mode=memory&cache=shared"
    );
    assert_eq!(normalise_dsn("test.db"), "sqlite://test.db?mode=rwc");
}

#[test]
fn normalise_dsn_twice_is_once() {
    for d in ["test.db", ":memory:", "postgres://x", "sqlite://y"] {
        let once = normalise_dsn(d);
        assert_eq!(normalise_dsn(&once), once);
    }
}

#[test]
fn column_kind_names() {
    assert_eq!(kind_name(ColumnKind::BigInt), "INTEGER");
    assert_eq!(kind_name(ColumnKind::SmallInt), "INTEGER");
    assert_eq!(kind_name(ColumnKind::Text), "TEXT");
    assert_eq!(kind_name(ColumnKind::Bool), "BOOLEAN");
    assert_eq!(kind_name(ColumnKind::Null), "NULL");
}

#[test]
fn count_ignores_error_rows() {
    assert_eq!(count_rows(3, false), 3);
    assert_eq!(count_rows(1, true), 0);
    assert_eq!(count_rows(0, false), 0);
}

#[test]
fn transaction_bookkeeping() {
    assert_eq!(transaction_error(false, TxAction::Begin), None);
    assert_eq!(transaction_error(true, TxAction::Begin), Some("a transaction is already open"));
    assert_eq!(transaction_error(true, TxAction::Commit), None);
    assert_eq!(transaction_error(false, TxAction::Commit), Some("no transaction to commit"));
    assert_eq!(transaction_error(true, TxAction::Rollback), None);
    assert_eq!(transaction_error(false, TxAction::Rollback), Some("no transaction to roll back"));
}

#[test]
fn rows_or_error_shapes_results() {
    assert_eq!(rows_or_error::<i32>(Ok(vec![1, 2])), vec![1, 2]);
    assert_eq!(rows_or_error::<i32>(Ok(vec![])), Vec::<i32>::new());
    assert_eq!(rows_or_error(Err(7)), vec![7]);
}
