use synth::session::{
    against_db_env_warning, check_table_names, requested_tables, resolve_connection,
    resolve_schema, sample_may_be_truncated, schema_priority, split_tables, table_of_file,
    url_scheme, ORACLE_DRIVER_PREFETCH_CAP,
};

fn names(list: &[&str]) -> Vec<String> {
    list.iter().map(|s| s.to_string()).collect()
}

#[test]
fn schema_flag_beats_connection_schema_beats_driver_probe() {
    assert_eq!(
        schema_priority(Some("cli"), Some("conn")),
        Some("cli".to_string())
    );
    assert_eq!(
        schema_priority(None, Some("conn")),
        Some("conn".to_string())
    );
    assert_eq!(schema_priority(None, None), None);
    assert_eq!(
        schema_priority(Some(""), Some("conn")),
        Some("conn".to_string())
    );
    assert_eq!(schema_priority(None, Some("")), None);
}

#[test]
fn against_db_name_warns_only_when_env_url_is_set() {
    let warning = against_db_env_warning(Some("prod"), true).expect("warning expected");
    assert!(
        warning.contains("--against-db connection name 'prod' is ignored"),
        "{}",
        warning
    );
    assert!(warning.contains("always named"), "{}", warning);
    assert!(against_db_env_warning(None, true).is_none());
    assert!(against_db_env_warning(Some("prod"), false).is_none());
}

#[test]
fn should_resolve_schema_from_connection_default_when_unspecified() {
    assert_eq!(resolve_schema(None, "public".to_string()), "public");
    assert_eq!(resolve_schema(Some(""), "public".to_string()), "public");
    assert_eq!(resolve_schema(Some("other"), "public".to_string()), "other");
}

#[test]
fn should_flag_oracle_sample_at_driver_cap() {
    assert!(sample_may_be_truncated("oracle", 100, 10_000));
    assert!(sample_may_be_truncated("Oracle", 100, 10_000));
}

#[test]
fn should_not_flag_oracle_sample_below_cap() {
    assert!(!sample_may_be_truncated("oracle", 99, 10_000));
    assert!(!sample_may_be_truncated("oracle", 101, 10_000));
    assert!(!sample_may_be_truncated("oracle", 0, 10_000));
}

#[test]
fn should_not_flag_non_oracle_sample_of_100() {
    assert!(!sample_may_be_truncated("mysql", 100, 10_000));
    assert!(!sample_may_be_truncated("gaussdb", 100, 10_000));
    assert!(!sample_may_be_truncated("duckdb", 100, 10_000));
}

#[test]
fn should_not_flag_oracle_when_the_cap_was_requested() {
    assert!(!sample_may_be_truncated("oracle", 100, 100));
    assert!(!sample_may_be_truncated("oracle", 100, 5));
    assert!(sample_may_be_truncated("oracle", 100, 101));
    assert!(sample_may_be_truncated("oracle", 100, 10_000));
    assert_eq!(ORACLE_DRIVER_PREFETCH_CAP, 100);
}

#[test]
fn split_tables_trims_and_skips_empty() {
    assert_eq!(
        split_tables(" a , b,,  c "),
        vec!["a".to_string(), "b".to_string(), "c".to_string()]
    );
    assert!(split_tables(" , ").is_empty());
}

#[test]
fn schema_qualified_table_name_is_rejected_with_actionable_error() {
    let err = check_table_names(&["staging.customer".to_string()])
        .expect_err("dotted names must fail fast");
    assert!(err.contains("--schema"), "must point at --schema: {err}");
    assert!(
        err.contains("staging.customer"),
        "must echo the name: {err}"
    );
}

#[test]
fn plain_table_names_pass_the_dotted_name_check() {
    assert!(check_table_names(&["customer".to_string(), "orders".to_string()]).is_ok());
    assert!(
        check_table_names(&[]).is_ok(),
        "emptiness is checked elsewhere"
    );
}

#[test]
fn a_run_needs_tables() {
    assert_eq!(requested_tables("a, b").unwrap(), names(&["a", "b"]));
    assert_eq!(
        requested_tables(" , "),
        Err("--tables must list at least one table".to_string())
    );
    assert!(requested_tables("a,s.b").is_err());
}

#[test]
fn the_scheme_stands_before_the_address() {
    assert_eq!(url_scheme("oracle://h/db"), "oracle");
    assert_eq!(url_scheme("h/db"), "mysql");
}

#[test]
fn a_connection_is_found_by_its_name() {
    let known = names(&["default", "prod"]);
    assert_eq!(resolve_connection(Some("prod"), "default", &known), Ok(1));
    assert_eq!(resolve_connection(None, "default", &known), Ok(0));
    assert_eq!(
        resolve_connection(Some("dev"), "default", &known),
        Err("connection 'dev' not found\n  available: [\"default\", \"prod\"]".to_string())
    );
}

#[test]
fn files_belong_to_tables() {
    assert_eq!(
        table_of_file("orders.model.json", ".model.json").as_deref(),
        Some("orders")
    );
    assert_eq!(table_of_file("orders.profile.json", ".model.json"), None);
    assert_eq!(table_of_file("json", ".model.json"), None);
}
