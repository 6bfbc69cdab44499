use limbo_core::wide_table::{
    aggregation_query, columns_to_select, create_wide_table_sql, insert_wide_table_sql,
    integer_cell, selectivity_query, text_cell, wide_column_name, wide_column_type,
    wide_table_file_name,
};

#[test]
fn column_names_and_types_cycle() {
    assert_eq!(wide_column_name(0), "col_0");
    assert_eq!(wide_column_name(1234), "col_1234");
    assert_eq!(wide_column_type(0), "INTEGER");
    assert_eq!(wide_column_type(5), "REAL");
    assert_eq!(wide_column_type(10), "TEXT");
    assert_eq!(wide_column_type(99), "BLOB");
}

#[test]
fn create_table_statement() {
    assert_eq!(
        create_wide_table_sql(5),
        "CREATE TABLE wide_table (col_0 INTEGER, col_1 REAL, col_2 TEXT, col_3 BLOB, col_4 INTEGER)"
    );
    assert_eq!(create_wide_table_sql(1), "CREATE TABLE wide_table (col_0 INTEGER)");
    assert_eq!(create_wide_table_sql(0), "CREATE TABLE wide_table ()");
}

#[test]
fn insert_statement() {
    assert_eq!(
        insert_wide_table_sql(3),
        "INSERT INTO wide_table (col_0, col_1, col_2) VALUES (?, ?, ?)"
    );
}

#[test]
fn selectivity_queries() {
    assert_eq!(columns_to_select(10, 10), 1);
    assert_eq!(columns_to_select(10, 25), 2);
    assert_eq!(columns_to_select(3, 10), 1);
    assert_eq!(columns_to_select(100, 50), 50);
    assert_eq!(selectivity_query(10, 25), "SELECT col_0, col_1 FROM wide_table WHERE col_0 < 1000");
    assert_eq!(selectivity_query(10, 10), "SELECT col_0 FROM wide_table WHERE col_0 < 1000");
    assert_eq!(selectivity_query(25, 100), "SELECT * FROM wide_table WHERE col_0 < 1000");
}

#[test]
fn aggregation_and_cells() {
    assert_eq!(aggregation_query("COUNT(*) FROM wide_table"), "SELECT COUNT(*) FROM wide_table");
    assert_eq!(wide_table_file_name(25), "wide_table_25.db");
    assert_eq!(integer_cell(7, 3), 703);
    assert_eq!(text_cell(12, 6), "text_12_6");
    assert_eq!(text_cell(0, 10), "text_0_10");
}
