use synth::branch::{BranchOutcome, CoverageStatus};
use synth::export::ExportFormat;
use synth::generate_run::{
    branch_line, data_files, pool_warning, validation_lines, GenerateFlags,
};
use synth::generator::{GeneratedData, GeneratedTable};
use synth::model::{Provenance, TableModel};
use synth::value::Value;

fn data() -> GeneratedData {
    GeneratedData {
        tables: vec![GeneratedTable {
            name: "users".to_string(),
            columns: vec!["id".to_string()],
            rows: vec![vec![Value::Number("1".to_string())]],
            schema: Some("app".to_string()),
            branches: Vec::new(),
            value_pools: Vec::new(),
            warnings: Vec::new(),
        }],
        dialect: "mysql".to_string(),
    }
}

fn flags(no_schema_qualifier: bool) -> GenerateFlags {
    GenerateFlags {
        enforce_min_max_values: true,
        no_schema_qualifier,
    }
}

#[test]
fn every_table_gets_a_file() {
    let files = data_files(&data(), ExportFormat::Sql, flags(false)).unwrap();
    assert_eq!(files.len(), 1);
    assert_eq!(files[0].0, "users.sql");
    assert!(files[0].1.starts_with("INSERT INTO `app`.`users` (`id`) VALUES (1);"));
}

#[test]
fn the_schema_can_be_left_out() {
    let files = data_files(&data(), ExportFormat::Sql, flags(true)).unwrap();
    assert!(files[0].1.starts_with("INSERT INTO `users` (`id`) VALUES (1);"));
}

#[test]
fn a_table_that_cannot_be_written_fails_the_run() {
    let mut bad = data();
    bad.tables[0].rows[0][0] = Value::Number("one".to_string());
    assert!(data_files(&bad, ExportFormat::Json, flags(true)).is_err());
}

fn outcome(status: CoverageStatus) -> BranchOutcome {
    BranchOutcome {
        id: "b".to_string(),
        matching: 5,
        status,
        rounds: 2,
        flips: 3,
        failed_evaluations: 1,
    }
}

#[test]
fn a_missed_target_is_a_warning() {
    let (warns, line) = branch_line(&outcome(CoverageStatus::Pass), "0.500", "0.500");
    assert!(!warns);
    assert_eq!(
        line,
        "branch 'b': target 0.500, actual 0.500 (Pass, 2 round(s), 3 row(s) rewritten, 1 evaluation failure(s))"
    );
    let (warns, line) = branch_line(&outcome(CoverageStatus::Warn), "0.500", "0.400");
    assert!(warns);
    assert!(line.starts_with("warning: branch 'b'"));
    assert!(line.contains("(Warn, "));
    let (warns, line) = branch_line(&outcome(CoverageStatus::Fail), "0.500", "0.000");
    assert!(warns);
    assert!(line.contains("(Fail, "));
}

#[test]
fn shares_that_miss_their_weights_are_listed() {
    let share = |v: &str, s: &str| (v.to_string(), s.to_string());
    assert_eq!(
        pool_warning(
            "t",
            "c",
            "0.200",
            "0.05",
            &vec![share("a", "0.700"), share("b", "0.300")],
            &vec![share("a", "0.500"), share("b", "0.500")],
        ),
        "warning: table 't' column 'c': generated shares deviate from the declared weights by 0.200 (tolerance 0.05); declared [a=0.700, b=0.300] actual [a=0.500, b=0.500]"
    );
}

#[test]
fn a_model_is_described() {
    let model = TableModel {
        version: 1,
        table: "orders".to_string(),
        dialect: "mysql".to_string(),
        schema: None,
        provenance: Provenance {
            source: "native".to_string(),
            converter_version: None,
            sdv_version: None,
            truncated: false,
            trained_rows: None,
        },
        pk: vec!["a".to_string(), "b".to_string()],
        columns: Vec::new(),
        column_order: Vec::new(),
        fk_cardinality: Vec::new(),
    };
    assert_eq!(
        validation_lines(&model, 4),
        vec![
            "Model validation passed:".to_string(),
            "  Table: orders".to_string(),
            "  Columns: 0".to_string(),
            "  Copula dimension: 4".to_string(),
            "  Dialect: mysql".to_string(),
            "  Primary key: a, b".to_string(),
        ]
    );
}

#[test]
fn model_rejects_higher_version() {
    assert!(TableModel::check_version(1).is_ok());
    assert_eq!(
        TableModel::check_version(99),
        Err("model version 99 not supported (max 1)".to_string())
    );
}
