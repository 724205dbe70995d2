use synth::export::{columns_for, csv_field, export, export_ident, ExportFormat, ExportTable};
use synth::value::Value;

fn whole(v: i64) -> Value {
    Value::Number(v.to_string())
}

fn text(s: &str) -> Value {
    Value::Text(s.to_string())
}

fn names(list: &[&str]) -> Vec<String> {
    list.iter().map(|s| s.to_string()).collect()
}

fn written(
    name: &str,
    columns: &[&str],
    rows: Vec<Vec<Value>>,
    format: ExportFormat,
    dialect: &str,
) -> String {
    let columns = names(columns);
    let table = ExportTable {
        name,
        columns: &columns,
        rows: &rows,
        schema: None,
    };
    export(&table, format, dialect).unwrap()
}

#[test]
fn csv_export_uses_real_column_names() {
    let rows = vec![vec![whole(1), text("hello")], vec![whole(2), text("world")]];
    let content = written("users", &["id", "name"], rows, ExportFormat::Csv, "mysql");
    assert!(content.starts_with("id,name\n"));
    assert!(content.contains("1,hello\n"));
    assert!(content.contains("2,world\n"));
}

#[test]
fn csv_export_escapes_special_headers() {
    let rows = vec![vec![whole(1), whole(2)]];
    let content = written("t", &["a,b", "c\"d"], rows, ExportFormat::Csv, "mysql");
    assert!(content.starts_with("\"a,b\",\"c\"\"d\"\n"));
}

#[test]
fn csv_export_falls_back_to_col_n_without_column_info() {
    let content = written("t", &[], vec![vec![whole(1)]], ExportFormat::Csv, "mysql");
    assert!(content.starts_with("col_0\n"));
}

#[test]
fn jsonl_export_keys_by_column_name() {
    let rows = vec![vec![whole(1), text("hello")]];
    let content = written("users", &["id", "name"], rows, ExportFormat::Jsonl, "mysql");
    assert!(content.contains("\"id\":1"));
    assert!(content.contains("\"name\":\"hello\""));
}

#[test]
fn json_export_is_array_of_named_objects() {
    let content = written("users", &["id"], vec![vec![whole(1)]], ExportFormat::Json, "mysql");
    assert!(content.contains("\"id\": 1"));
    let parsed: serde_json::Value = serde_json::from_str(&content).unwrap();
    assert_eq!(parsed[0]["id"], serde_json::Value::from(1));
}

#[test]
fn sql_export_includes_quoted_column_list() {
    let rows = vec![vec![whole(1), text("hello")]];
    let content = written("users", &["id", "name"], rows, ExportFormat::Sql, "mysql");
    let line = content.lines().next().unwrap();
    assert_eq!(
        line,
        "INSERT INTO `users` (`id`, `name`) VALUES (1, 'hello');"
    );
}

#[test]
fn sql_export_uses_double_quotes_for_non_mysql() {
    let content = written("t", &["id"], vec![vec![whole(1)]], ExportFormat::Sql, "gaussdb");
    assert!(content.contains("INSERT INTO \"t\" (\"id\") VALUES (1);"));
}

#[test]
fn sql_export_folds_oracle_identifiers_to_uppercase() {
    let content = written("users", &["id"], vec![vec![whole(1)]], ExportFormat::Sql, "oracle");
    assert!(content.contains("INSERT INTO \"USERS\" (\"ID\") VALUES (1);"));
}

#[test]
fn sql_export_escapes_single_quotes() {
    let content = written("t", &[], vec![vec![text("o'brien")]], ExportFormat::Sql, "mysql");
    assert!(content.contains("'o''brien'"));
}

#[test]
fn a_cell_that_is_no_json_cannot_be_written_as_json() {
    let columns = names(&["id"]);
    let rows = vec![vec![Value::Number("not a number".to_string())]];
    let table = ExportTable {
        name: "t",
        columns: &columns,
        rows: &rows,
        schema: None,
    };
    assert_eq!(
        export(&table, ExportFormat::Jsonl, "mysql"),
        Err("serialize JSONL row".to_string())
    );
    assert_eq!(
        export(&table, ExportFormat::Json, "mysql"),
        Err("serialize JSON".to_string())
    );
    assert!(export(&table, ExportFormat::Csv, "mysql").is_ok());
}

#[test]
fn a_schema_qualifies_the_table_in_sql() {
    let columns = names(&["id"]);
    let rows = vec![vec![Value::Null]];
    let table = ExportTable {
        name: "t",
        columns: &columns,
        rows: &rows,
        schema: Some("s"),
    };
    let content = export(&table, ExportFormat::Sql, "mysql").unwrap();
    assert_eq!(content.lines().next(), Some("INSERT INTO `s`.`t` (`id`) VALUES (NULL);"));
}

#[test]
fn fields_are_quoted_only_where_they_must_be() {
    assert_eq!(csv_field("plain"), "plain");
    assert_eq!(csv_field("a,b"), "\"a,b\"");
    assert_eq!(csv_field("a\"b"), "\"a\"\"b\"");
    assert_eq!(csv_field("a\nb"), "\"a\nb\"");
}

#[test]
fn identifiers_are_quoted_by_dialect() {
    assert_eq!(export_ident("mysql", "a`b"), "`a``b`");
    assert_eq!(export_ident("postgres", "a\"b"), "\"a\"\"b\"");
    assert_eq!(export_ident("oracle", "ab"), "\"AB\"");
}

#[test]
fn columns_are_numbered_where_their_names_do_not_fit() {
    assert_eq!(columns_for(&names(&["a", "b"]), 2), names(&["a", "b"]));
    assert_eq!(columns_for(&names(&["a"]), 2), names(&["col_0", "col_1"]));
}

#[test]
fn formats_are_read_by_their_names() {
    assert_eq!(ExportFormat::parse("csv"), Ok(ExportFormat::Csv));
    assert_eq!(ExportFormat::parse("jsonl"), Ok(ExportFormat::Jsonl));
    assert_eq!(ExportFormat::parse("json"), Ok(ExportFormat::Json));
    assert_eq!(ExportFormat::parse("sql"), Ok(ExportFormat::Sql));
    assert_eq!(
        ExportFormat::parse("xml"),
        Err("unsupported format: xml".to_string())
    );
    assert_eq!(ExportFormat::Jsonl.file_name("users"), "users.jsonl");
}

#[test]
fn a_table_without_rows_is_an_empty_csv() {
    assert_eq!(written("t", &["a"], Vec::new(), ExportFormat::Csv, "mysql"), "");
}
