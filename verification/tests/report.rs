use synth::cardinality::CardinalityDist;
use synth::model::{Provenance, TableModel};
use synth::report::{
    check_baselines, check_data, check_models, check_scored, connection_name, judge_score,
    learned_cardinality, missing_data_quality, missing_reason, read_key_pool, report_tables,
    skipped_section, wanted_keys, Section, TableQuality, KEY_POOL_LIMIT,
};
use synth::value::Value;

fn names(list: &[&str]) -> Vec<String> {
    list.iter().map(|s| s.to_string()).collect()
}

fn scored(table: &str) -> TableQuality {
    TableQuality {
        table: table.to_string(),
        rows: 100,
        shapes: Section::Scored,
        pairs: Section::Scored,
        fk: skipped_section("no rules"),
        scored: true,
    }
}

fn reason(section: &Section) -> &str {
    match section {
        Section::Skipped { reason } => reason,
        Section::Scored => panic!("expected a skipped section"),
    }
}

#[test]
fn report_lists_tables_whose_generated_data_is_missing() {
    let models = names(&["t", "other"]);
    let tables = report_tables(&models, Some("data"), &[scored("t")]);
    assert_eq!(tables.len(), 2);
    let other = tables
        .iter()
        .find(|table| table.table == "other")
        .expect("the data-less table must still be listed");
    assert_eq!(other.rows, 0);
    let shapes = reason(&other.shapes);
    assert!(shapes.contains("no generated data"), "{shapes}");
    assert_eq!(reason(&other.fk), shapes);
    assert!(!other.scored, "a table with no data has no score");

    let err = check_data(true, &models, &names(&["t"])).unwrap_err();
    assert!(err.contains("no generated data"), "{err}");

    let err = check_scored(&tables, "0.5", true).unwrap_err();
    assert!(err.contains("requires every table to be scored"), "{err}");
    assert!(
        err.contains("other"),
        "the error must name the table: {err}"
    );
}

#[test]
fn report_min_score_fails_when_nothing_is_scored() {
    let unscored = missing_data_quality("t", "no report baseline");
    let err = check_scored(&[unscored], "0.5", false).unwrap_err();
    assert_eq!(
        err,
        "--min-score 0.5 requires every table to be scored, but 1 could not be: t (no report baseline)"
    );
}

#[test]
fn report_skips_shapes_without_a_baseline() {
    assert_eq!(
        check_baselines(false, &names(&["t"])).unwrap(),
        vec![
            "warning: table 't': no report baseline; shapes and pairs will be skipped".to_string()
        ]
    );
    let err = check_baselines(true, &names(&["t"])).unwrap_err();
    assert!(err.contains("--strict"), "{err}");
    assert_eq!(
        err,
        "--strict: no report baseline for [\"t\"] (retrain with --holdout-ratio > 0)"
    );
    assert!(check_baselines(true, &[]).unwrap().is_empty());
}

#[test]
fn report_min_score_rejects_degraded_data() {
    let err = judge_score(true, "0.412", "0.900").unwrap_err();
    assert!(err.contains("below --min-score"), "{err}");
    assert_eq!(
        judge_score(false, "0.950", "0.900").unwrap(),
        "quality score 0.950 >= --min-score 0.900"
    );
}

#[test]
fn a_report_without_models_is_refused() {
    assert_eq!(
        check_models(".synth", 0),
        Err("no trained models found in .synth (expected <table>.model.json)".to_string())
    );
    assert!(check_models(".synth", 1).is_ok());
}

#[test]
fn a_report_has_a_row_for_every_model_in_order() {
    let tables = report_tables(&names(&["b", "c", "a"]), None, &[scored("c"), scored("a")]);
    let listed: Vec<&str> = tables.iter().map(|t| t.table.as_str()).collect();
    assert_eq!(listed, vec!["a", "b", "c"]);
    assert!(tables[0].scored && !tables[1].scored && tables[2].scored);
    assert_eq!(
        reason(&tables[1].pairs),
        "no generated data for table 'b'"
    );
    assert_eq!(missing_reason("b", Some("d")), "no generated data for table 'b' in d");
}

#[test]
fn strict_reports_name_every_table_without_data() {
    assert!(check_data(false, &names(&["a"]), &[]).is_ok());
    assert!(check_data(true, &names(&["a"]), &names(&["a"])).is_ok());
    assert_eq!(
        check_data(true, &names(&["b", "c", "a"]), &names(&["c"])),
        Err(
            "--strict: no generated data for [\"a\", \"b\"] (pass --data including those tables, or narrow --models)"
                .to_string()
        )
    );
}

#[test]
fn a_score_needs_something_scored() {
    assert_eq!(
        check_scored(&[], "0.5", false),
        Err("--min-score 0.5 cannot be checked: no section was scored".to_string())
    );
    assert!(check_scored(&[scored("t")], "0.5", true).is_ok());
    let half = TableQuality {
        scored: false,
        ..scored("z")
    };
    assert_eq!(
        check_scored(&[half], "1", true).unwrap_err(),
        "--min-score 1 requires every table to be scored, but 1 could not be: z (no scored section)"
    );
}

#[test]
fn an_empty_connection_name_means_the_default_one() {
    assert_eq!(connection_name(""), None);
    assert_eq!(connection_name("prod").as_deref(), Some("prod"));
}

#[test]
fn parent_keys_are_asked_for_once() {
    let pair = |a: &str, b: &str| (a.to_string(), b.to_string());
    let wanted = wanted_keys(&vec![
        pair("users", "id"),
        pair("items", "no"),
        pair("users", "id"),
        pair("items", "code"),
    ]);
    assert_eq!(
        wanted,
        vec![pair("items", "code"), pair("items", "no"), pair("users", "id")]
    );
}

#[test]
fn key_pools_hold_the_keys_that_are_not_null() {
    let rows = vec![
        vec![Value::Text("a".to_string())],
        vec![Value::Null],
        vec![],
        vec![Value::Number("7".to_string())],
    ];
    let (keys, warning) = read_key_pool("users", "id", &rows);
    assert_eq!(keys, names(&["a", "7"]));
    assert_eq!(warning, None);
    let many: Vec<Vec<Value>> = (0..KEY_POOL_LIMIT)
        .map(|i| vec![Value::Number(i.to_string())])
        .collect();
    let (keys, warning) = read_key_pool("users", "id", &many);
    assert_eq!(keys.len(), KEY_POOL_LIMIT);
    assert_eq!(
        warning.as_deref(),
        Some(
            "warning: key pool users.id hit the 100000 key cap; join rates are computed against a truncated pool"
        )
    );
}

#[test]
fn what_models_learned_is_collected() {
    let dist = |n: usize| CardinalityDist {
        counts: vec![(1, n)],
        parents: n,
        null_rows: 0,
        rows: n,
    };
    let model = |table: &str, cards: Vec<(String, CardinalityDist)>| TableModel {
        version: 1,
        table: table.to_string(),
        dialect: "mysql".to_string(),
        schema: None,
        provenance: Provenance {
            source: "native".to_string(),
            converter_version: None,
            sdv_version: None,
            truncated: false,
            trained_rows: None,
        },
        pk: Vec::new(),
        columns: Vec::new(),
        column_order: Vec::new(),
        fk_cardinality: cards,
    };
    let learned = learned_cardinality(&[
        model("a", vec![("x".to_string(), dist(1)), ("y".to_string(), dist(2))]),
        model("b", Vec::new()),
        model("c", vec![("z".to_string(), dist(3))]),
    ]);
    let found: Vec<(&str, &str, usize)> = learned
        .iter()
        .map(|l| (l.table.as_str(), l.column.as_str(), l.cardinality.parents))
        .collect();
    assert_eq!(found, vec![("a", "x", 1), ("a", "y", 2), ("c", "z", 3)]);
}
