use dbmorph::sqlite::{
    bind_values, build_insert_sql, column_names, create_fts5_sql, drop_table_sql, effective_batch,
    fast_pragmas, path_with_extension, quote_identifier, quoted_column_list, resolve_table,
    row_count_sql, row_total, sanitize_identifier, select_as_text_sql, sqlite_source_url,
    sqlite_target_url, str_ends_with, table_info_sql, unique_column_names, InsertError,
    SourceError,
};

fn strs(v: &[&str]) -> Vec<String> {
    v.iter().map(|s| s.to_string()).collect()
}

#[test]
fn column_names_are_trimmed_filled_and_numbered() {
    let names = unique_column_names(&strs(&["a", " a ", "", "b", "a"]));
    assert_eq!(names, strs(&["a", "a_1", "c2", "b", "a_2"]));
}

#[test]
fn identifiers_are_sanitized_and_quoted() {
    assert_eq!(sanitize_identifier("my-table 1_x"), "mytable1_x");
    assert_eq!(sanitize_identifier("t\u{e9}l\u{e9}"), "t\u{e9}l\u{e9}");
    assert_eq!(quote_identifier("we\"ird"), "\"we\"\"ird\"");
    assert_eq!(quoted_column_list(&strs(&["a", "b"])), "\"a\", \"b\"");
}

#[test]
fn statements_are_built() {
    assert_eq!(
        create_fts5_sql("t", &strs(&["a", "b"])),
        "CREATE VIRTUAL TABLE IF NOT EXISTS \"t\" USING fts5(\"a\", \"b\", tokenize ='unicode61')"
    );
    assert_eq!(drop_table_sql("t"), "DROP TABLE IF EXISTS \"t\"");
    assert_eq!(
        build_insert_sql("t", "\"a\", \"b\"", 2, 2),
        "INSERT INTO \"t\" (\"a\", \"b\") VALUES (?, ?),(?, ?)"
    );
    assert_eq!(table_info_sql("t"), "PRAGMA table_info(\"t\")");
    assert_eq!(row_count_sql("t"), "SELECT count(*) FROM \"t\"");
    assert_eq!(
        select_as_text_sql("t", &strs(&["a", "b"])),
        "SELECT CAST(\"a\" AS TEXT), CAST(\"b\" AS TEXT) FROM \"t\""
    );
}

#[test]
fn law_values_clause_placeholders_on_a_sample() {
    let sql = build_insert_sql("t", "\"a\"", 3, 4);
    assert_eq!(sql.matches('?').count(), 12);
}

#[test]
fn values_are_bound_row_by_row_padded() {
    let chunk = vec![strs(&["a"]), strs(&["b", "c", "d"])];
    assert_eq!(bind_values(&chunk, 2), strs(&["a", "", "b", "c"]));
}

#[test]
fn batch_respects_the_parameter_ceiling() {
    assert_eq!(effective_batch(0, 10), Err(InsertError::ZeroColumns));
    assert_eq!(effective_batch(3, 50_000), Ok(10_922));
    assert_eq!(effective_batch(3, 0), Ok(1));
    assert_eq!(effective_batch(40_000, 5), Ok(1));
    for cols in [1usize, 7, 100, 32_766] {
        let b = effective_batch(cols, 50_000).unwrap();
        assert!(b >= 1 && b * cols <= 32_766);
    }
}

#[test]
fn pragmas_and_paths() {
    assert_eq!(
        fast_pragmas(),
        strs(&[
            "PRAGMA synchronous = OFF;",
            "PRAGMA locking_mode = EXCLUSIVE;",
            "PRAGMA temp_store = MEMORY;",
            "PRAGMA cache_size = -65536;",
            "PRAGMA mmap_size = 268435456;",
        ])
    );
    assert!(str_ends_with("out.csv", ".csv"));
    assert!(!str_ends_with("csv", ".csv"));
    assert_eq!(path_with_extension("out", ".csv"), "out.csv");
    assert_eq!(path_with_extension("out.csv", ".csv"), "out.csv");
    assert_eq!(sqlite_source_url("data"), "sqlite://data.db");
    assert_eq!(sqlite_source_url("data.db"), "sqlite://data.db");
    assert_eq!(sqlite_target_url("o"), "sqlite://o.db");
}

#[test]
fn source_table_and_columns() {
    assert_eq!(row_total(-5), 0);
    assert_eq!(row_total(12), 12);
    assert_eq!(resolve_table(Some("a".to_string()), Some("b".to_string())), Ok("a".to_string()));
    assert_eq!(resolve_table(None, Some("b".to_string())), Ok("b".to_string()));
    assert_eq!(resolve_table(None, None), Err(SourceError::NoTables));
    assert_eq!(column_names(vec![]), Err(SourceError::NoColumns));
    assert_eq!(column_names(strs(&["x"])), Ok(strs(&["x"])));
}

#[test]
fn law_statement_matches_binds_on_a_sample() {
    let chunk = vec![strs(&["a", "b", "c"]), strs(&["d"])];
    let sql = build_insert_sql("t", "\"x\", \"y\", \"z\"", 3, chunk.len());
    assert_eq!(sql.matches('?').count(), bind_values(&chunk, 3).len());
}

#[test]
fn law_distinct_headers_keep_names_on_a_sample() {
    assert_eq!(unique_column_names(&strs(&["id", " name ", "", "x"])), strs(&["id", "name", "c2", "x"]));
}

#[test]
fn numbering_can_meet_an_existing_name() {
    assert_eq!(unique_column_names(&strs(&["a", "a", "a_1"])), strs(&["a", "a_1", "a_1"]));
}

#[test]
fn law_quoted_identifier_round_trip_on_a_sample() {
    let q = quote_identifier("a\"b\"\"c");
    assert_eq!(q, "\"a\"\"b\"\"\"\"c\"");
    let body = &q[1..q.len() - 1];
    assert_eq!(body.replace("\"\"", "\""), "a\"b\"\"c");
}
