use synth::draft::{
    draft_cycle_warning, implicit_fk_warning, load_primary_keys, mined_line, mining_line,
    rules_from_models, MINE_SAMPLE_ROWS,
};
use synth::mine::{CandidateLine, MineReport, TableCandidates};
use synth::model::{Provenance, TableModel};
use synth::rules::{PoolStrategy, Relationship, SynthRules, TableRule, TableStrategy};

fn draft_rule(name: &str, relationships: Vec<(&str, &str)>) -> TableRule {
    TableRule {
        name: name.to_string(),
        rows: None,
        strategy: TableStrategy::Uniform,
        columns: Vec::new(),
        relationships: relationships
            .into_iter()
            .map(|(pk, reference)| Relationship {
                pk: pk.to_string(),
                references: vec![reference.to_string()],
                pool_strategy: PoolStrategy::Projection { unique: false },
            })
            .collect(),
        derive: Vec::new(),
        branches: Vec::new(),
    }
}

fn drafted(tables: Vec<TableRule>) -> SynthRules {
    SynthRules {
        version: "1".to_string(),
        tables,
    }
}

fn model(table: &str, pk: &[&str]) -> TableModel {
    TableModel {
        version: 1,
        table: table.to_string(),
        dialect: "mysql".to_string(),
        schema: None,
        provenance: Provenance {
            source: "test".to_string(),
            converter_version: None,
            sdv_version: None,
            truncated: false,
            trained_rows: None,
        },
        pk: pk.iter().map(|k| k.to_string()).collect(),
        columns: Vec::new(),
        column_order: Vec::new(),
        fk_cardinality: Vec::new(),
    }
}

#[test]
fn cycle_warning_names_the_cycle_path() {
    let rules = drafted(vec![
        draft_rule("customer", vec![("last_update", "rental.last_update")]),
        draft_rule("rental", vec![("last_update", "customer.last_update")]),
    ]);
    let warning = draft_cycle_warning(&rules).expect("mutual reference must warn");
    assert!(warning.contains("customer"), "{warning}");
    assert!(warning.contains("rental"), "{warning}");
    assert!(warning.contains("cycle"), "{warning}");
}

#[test]
fn acyclic_draft_produces_no_cycle_warning() {
    let rules = drafted(vec![
        draft_rule("users", vec![]),
        draft_rule("orders", vec![("user_id", "users.id")]),
    ]);
    assert!(draft_cycle_warning(&rules).is_none());
}

#[test]
fn self_reference_is_reported_as_cycle() {
    let rules = drafted(vec![draft_rule(
        "employee",
        vec![("manager_id", "employee.id")],
    )]);
    assert!(
        draft_cycle_warning(&rules).is_some(),
        "self-loop is a cycle"
    );
}

#[test]
fn should_warn_when_profiles_run_without_primary_keys() {
    let warning = implicit_fk_warning(0, 1, "/nonexistent/.synth")
        .expect("profiles without models must warn");
    assert!(
        warning.contains("may invent references"),
        "warning must name the consequence: {warning}"
    );
}

#[test]
fn should_not_warn_when_primary_keys_or_profiles_are_present() {
    assert!(implicit_fk_warning(1, 1, ".synth").is_none());
    assert!(implicit_fk_warning(0, 0, ".synth").is_none());
}

#[test]
fn should_read_primary_keys_from_trained_models() {
    let keys = load_primary_keys(&[model("orders", &["order_id"])]);
    assert_eq!(keys, vec![("orders".to_string(), "order_id".to_string())]);
}

#[test]
fn tables_without_a_key_have_none() {
    let keys = load_primary_keys(&[model("log", &[]), model("t", &["a", "b"])]);
    assert_eq!(keys, vec![("t".to_string(), "a".to_string())]);
}

#[test]
fn rules_for_a_report_list_the_tables_in_order() {
    let rules = rules_from_models(&[model("b", &[]), model("a", &[])], 7);
    assert_eq!(rules.version, "1");
    assert_eq!(rules.tables.len(), 2);
    assert_eq!(rules.tables[0].name, "a");
    assert_eq!(rules.tables[1].name, "b");
    for table in &rules.tables {
        assert_eq!(table.rows, Some(7));
        assert!(table.relationships.is_empty());
    }
}

#[test]
fn mining_is_told() {
    let report = MineReport {
        candidates: Vec::new(),
        participating_columns: 2,
        pairs_total: 6,
        pairs_considered: 2,
    };
    assert_eq!(
        mining_line("t", 20, MINE_SAMPLE_ROWS, &report),
        "mining table 't': sampled 20 row(s) (cap 50000), scanned 2 of 6 column pair(s), 0 candidate(s) - pair cap hit"
    );
    assert_eq!(mined_line(&[]), None);
    let line = CandidateLine {
        column: "a".to_string(),
        value: "1".to_string(),
        implies_column: "b".to_string(),
        implies_value: "2".to_string(),
        confidence: "1.0000".to_string(),
        support: "0.5000".to_string(),
    };
    let mined = [TableCandidates {
        table: "t".to_string(),
        candidates: vec![line],
    }];
    assert_eq!(
        mined_line(&mined).as_deref(),
        Some("mined 1 conditional rule candidate(s); they are comments only (never enabled)")
    );
}
