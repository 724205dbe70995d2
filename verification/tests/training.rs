use synth::cardinality::CardinalityDist;
use synth::model::{ColumnModel, LogicalType, Provenance, Rate, TableModel};
use synth::rules::{
    ColumnMode, ColumnRule, SdType, SynthRules, TableRule, TableStrategy,
};
use synth::train_run::{
    large_model_warning,
    attach_fk_cardinality, baseline_columns, column_instants, detect_pii_columns,
    forced_marginals, leave_reserved, oversized_marginal_columns, oversized_warning, sample_of,
    sdtype_of, skipped_warning, truncated_warning, unusable_warning, Clue,
    COLUMN_MARGINAL_BUDGET_BYTES,
};
use synth::training::{
    learn_cardinalities, parse_categorical_top_k, parse_foreign_keys, pii_reserved_columns,
    reconcile_primary_key, rows_map_for_rules, write_trained, zero_correlation, ForeignKeyInfo,
    LearnedKey, QueryResult,
};
use synth::value::Value;
use synth::CategoricalTopK;

fn names(list: &[&str]) -> Vec<String> {
    list.iter().map(|s| s.to_string()).collect()
}

fn text(s: &str) -> Value {
    Value::Text(s.to_string())
}

fn number(n: i64) -> Value {
    Value::Number(n.to_string())
}

fn table_rule(name: &str, rows: Option<usize>, columns: Vec<(String, ColumnRule)>) -> TableRule {
    TableRule {
        name: name.to_string(),
        rows,
        strategy: TableStrategy::Uniform,
        columns,
        relationships: Vec::new(),
        derive: Vec::new(),
        branches: Vec::new(),
    }
}

fn column_rule(marginal: Option<&str>, sdtype: SdType, provider: Option<&str>) -> ColumnRule {
    ColumnRule {
        fixed: None,
        values: None,
        fixed_range: None,
        mode: ColumnMode::Rejection,
        null_rate: None,
        marginal: marginal.map(str::to_string),
        sdtype,
        pii_provider: provider.map(str::to_string),
    }
}

fn key(from: (&str, &str), to: (&str, &str)) -> ForeignKeyInfo {
    ForeignKeyInfo {
        from_table: from.0.to_string(),
        from_column: from.1.to_string(),
        to_table: to.0.to_string(),
        to_column: to.1.to_string(),
    }
}

#[test]
fn should_prefer_cli_rows_over_rules() {
    let rules = SynthRules {
        version: "1".to_string(),
        tables: vec![table_rule("orders", Some(2), Vec::new())],
    };

    let rows = rows_map_for_rules(&rules, Some(42));

    assert_eq!(rows, vec![("orders".to_string(), 42)]);
}

#[test]
fn rows_come_from_the_rules_and_default_to_a_hundred() {
    let rules = SynthRules {
        version: "1".to_string(),
        tables: vec![
            table_rule("orders", Some(2), Vec::new()),
            table_rule("users", None, Vec::new()),
        ],
    };
    assert_eq!(
        rows_map_for_rules(&rules, None),
        vec![("orders".to_string(), 2), ("users".to_string(), 100)]
    );
}

#[test]
fn reconcile_primary_key_normalizes_case_and_drops_unknown() {
    let columns = names(&["Xwdm", "Security_Id", "amt"]);
    let pk = names(&["XWDM", "security_id", "missing"]);
    assert_eq!(
        reconcile_primary_key(pk, &columns),
        names(&["Xwdm", "Security_Id"])
    );
}

#[test]
fn reconcile_primary_key_keeps_key_order_and_empty_input() {
    let columns = names(&["b", "a"]);
    assert_eq!(
        reconcile_primary_key(names(&["a", "b"]), &columns),
        names(&["a", "b"])
    );
    assert!(reconcile_primary_key(vec![], &columns).is_empty());
}

#[test]
fn parse_foreign_keys_maps_columns_case_insensitively() {
    let result = QueryResult {
        columns: names(&[
            "TABLE_NAME",
            "COLUMN_NAME",
            "REFERENCED_TABLE",
            "REFERENCED_COLUMN",
        ]),
        rows: vec![vec![
            text("orders"),
            text("user_id"),
            text("users"),
            text("id"),
        ]],
    };

    let fks = parse_foreign_keys(&result).unwrap();
    assert_eq!(fks.len(), 1);
    assert_eq!(fks[0].from_table, "orders");
    assert_eq!(fks[0].to_table, "users");
}

#[test]
fn parse_foreign_keys_errors_on_missing_column() {
    let result = QueryResult {
        columns: names(&["table_name"]),
        rows: vec![vec![text("orders")]],
    };
    assert_eq!(
        parse_foreign_keys(&result),
        Err("FK query result missing column 'column_name'".to_string())
    );
}

#[test]
fn parse_foreign_keys_empty_result_yields_no_fks() {
    let result = QueryResult {
        columns: Vec::new(),
        rows: Vec::new(),
    };
    assert_eq!(parse_foreign_keys(&result).unwrap(), vec![]);
}

#[test]
fn parse_foreign_keys_zero_rows_with_columns_yields_no_fks() {
    let result = QueryResult {
        columns: names(&[
            "table_name",
            "column_name",
            "referenced_table",
            "referenced_column",
        ]),
        rows: vec![],
    };
    assert_eq!(parse_foreign_keys(&result).unwrap(), vec![]);
}

#[test]
fn rows_that_are_not_texts_are_no_foreign_keys() {
    let result = QueryResult {
        columns: names(&[
            "table_name",
            "column_name",
            "referenced_table",
            "referenced_column",
        ]),
        rows: vec![
            vec![text("orders"), number(1), text("users"), text("id")],
            vec![text("orders")],
        ],
    };
    assert_eq!(parse_foreign_keys(&result).unwrap(), vec![]);
}

#[test]
fn top_k_is_a_positive_number_or_full() {
    assert_eq!(parse_categorical_top_k("FULL"), Ok(CategoricalTopK::Full));
    assert_eq!(parse_categorical_top_k("12"), Ok(CategoricalTopK::Limit(12)));
    assert_eq!(parse_categorical_top_k("+7"), Ok(CategoricalTopK::Limit(7)));
    assert_eq!(
        parse_categorical_top_k("0"),
        Err("--categorical-top-k must be a positive integer or 'full'".to_string())
    );
    assert_eq!(
        parse_categorical_top_k("x"),
        Err(
            "invalid --categorical-top-k 'x': expected a positive integer or 'full'".to_string()
        )
    );
    assert!(parse_categorical_top_k("99999999999999999999999").is_err());
    assert_eq!(CategoricalTopK::Limit(12).cap(), Some(12));
    assert_eq!(CategoricalTopK::Full.cap(), None);
}

#[test]
fn should_reserve_only_foreign_keys_from_pii_anonymization() {
    let foreign_keys = vec![key(("orders", "user_id"), ("users", "id"))];
    let reserved = pii_reserved_columns(&foreign_keys, "orders");
    assert!(reserved.contains(&"user_id".to_string()));
    assert_eq!(reserved.len(), 1, "primary keys must not be reserved");
    assert!(pii_reserved_columns(&foreign_keys, "other").is_empty());
}

#[derive(Debug, Clone, Copy, PartialEq, Eq)]
enum Provider {
    Email,
    Name,
}

fn clues(rules: &SynthRules, columns: &[String]) -> Vec<Clue<Provider>> {
    columns
        .iter()
        .map(|column| {
            let (sdtype, provider) = sdtype_of(rules, "t", column);
            Clue {
                sdtype,
                named: match provider.as_deref() {
                    Some("name") => Some(Provider::Name),
                    Some("email") => Some(Provider::Email),
                    _ => None,
                },
                guess: if column == "email" {
                    Some(Provider::Email)
                } else {
                    None
                },
            }
        })
        .collect()
}

#[test]
fn should_apply_pii_sdtype_overrides() {
    let columns = names(&["email", "status"]);
    let none = SynthRules {
        version: "1".to_string(),
        tables: vec![table_rule("t", None, Vec::new())],
    };
    let auto = detect_pii_columns(&columns, &clues(&none, &columns), Provider::Name);
    assert_eq!(auto, vec![("email".to_string(), Provider::Email)]);

    let keep = SynthRules {
        version: "1".to_string(),
        tables: vec![table_rule(
            "t",
            None,
            vec![("email".to_string(), column_rule(None, SdType::Keep, None))],
        )],
    };
    assert!(detect_pii_columns(&columns, &clues(&keep, &columns), Provider::Name).is_empty());

    let forced = SynthRules {
        version: "1".to_string(),
        tables: vec![table_rule(
            "t",
            None,
            vec![(
                "status".to_string(),
                column_rule(None, SdType::Pii, Some("name")),
            )],
        )],
    };
    let out = detect_pii_columns(&columns, &clues(&forced, &columns), Provider::Name);
    assert_eq!(
        out,
        vec![
            ("email".to_string(), Provider::Email),
            ("status".to_string(), Provider::Name)
        ]
    );
}

#[test]
fn a_foreign_key_is_never_made_anonymous() {
    let found = vec![
        ("email".to_string(), Provider::Email),
        ("user_id".to_string(), Provider::Name),
    ];
    let (kept, warnings) = leave_reserved("orders", &found, &names(&["user_id"]));
    assert_eq!(kept, vec![("email".to_string(), Provider::Email)]);
    assert_eq!(
        warnings,
        vec![
            "warning: table 'orders': column 'user_id' is a foreign key; PII anonymization skipped (generation fills it from the parent pool)"
                .to_string()
        ]
    );
}

#[test]
fn the_last_rule_of_a_table_forces_a_family() {
    let rules = SynthRules {
        version: "1".to_string(),
        tables: vec![
            table_rule(
                "t",
                None,
                vec![
                    ("a".to_string(), column_rule(Some("gamma"), SdType::Auto, None)),
                    ("b".to_string(), column_rule(None, SdType::Auto, None)),
                ],
            ),
            table_rule(
                "t",
                None,
                vec![("a".to_string(), column_rule(Some("ecdf"), SdType::Auto, None))],
            ),
        ],
    };
    assert_eq!(
        forced_marginals(&rules, "t"),
        vec![("a".to_string(), "ecdf".to_string())]
    );
    assert!(forced_marginals(&rules, "u").is_empty());
}

#[test]
fn a_column_leaves_the_correlations() {
    let columns = names(&["a", "b", "c"]);
    let mut matrix = vec![vec![1, 2, 3], vec![2, 1, 4], vec![3, 4, 1]];
    zero_correlation(&columns, &mut matrix, "b", 1, 0);
    assert_eq!(matrix, vec![vec![1, 0, 3], vec![0, 1, 0], vec![3, 0, 1]]);
    let before = matrix.clone();
    zero_correlation(&columns, &mut matrix, "z", 1, 0);
    assert_eq!(matrix, before);
}

fn model(columns: &[&str]) -> TableModel {
    TableModel {
        version: 1,
        table: "orders".to_string(),
        dialect: "mysql".to_string(),
        schema: None,
        provenance: Provenance {
            source: "native".to_string(),
            converter_version: None,
            sdv_version: None,
            truncated: false,
            trained_rows: None,
        },
        pk: Vec::new(),
        columns: columns
            .iter()
            .map(|c| {
                (
                    c.to_string(),
                    ColumnModel {
                        logical_type: LogicalType::Numerical,
                        rounding: None,
                        decimal_scale: None,
                        datetime_format: None,
                        min: None,
                        max: None,
                        levels: None,
                        null_rate: Some(Rate {
                            text: "0".to_string(),
                            positive: false,
                        }),
                    },
                )
            })
            .collect(),
        column_order: names(columns),
        fk_cardinality: Vec::new(),
    }
}

#[test]
fn children_are_counted_for_each_sampled_foreign_key() {
    let keys = vec![
        key(("orders", "user_id"), ("users", "id")),
        key(("orders", "gone"), ("users", "id")),
    ];
    let users = sample_of(
        "users",
        &names(&["id"]),
        &vec![vec![number(1)], vec![number(2)], vec![number(3)]],
        &names(&["id"]),
        &keys,
    );
    assert_eq!(users.key, Some(("id".to_string(), 3)));
    assert!(users.links.is_empty());
    let orders = sample_of(
        "orders",
        &names(&["no", "user_id"]),
        &vec![
            vec![number(10), number(1)],
            vec![number(11), number(1)],
            vec![number(12), Value::Null],
        ],
        &names(&[]),
        &keys,
    );
    assert_eq!(orders.key, None);
    assert_eq!(orders.links.len(), 1);

    let learned = learn_cardinalities(&keys, &vec![orders, users]);
    assert_eq!(learned.len(), 1);
    assert_eq!(
        learned[0].cardinality,
        CardinalityDist {
            counts: vec![(0, 2), (2, 1)],
            parents: 3,
            null_rows: 1,
            rows: 3,
        }
    );

    let mut model_of_orders = model(&["no", "user_id"]);
    assert!(attach_fk_cardinality(&mut model_of_orders, &learned));
    assert_eq!(model_of_orders.fk_cardinality.len(), 1);
    assert_eq!(model_of_orders.fk_cardinality[0].0, "user_id");
    assert_eq!(model_of_orders.fk_cardinality[0].1, learned[0].cardinality);
}

#[test]
fn a_learned_key_of_another_table_or_column_is_left_alone() {
    let dist = || CardinalityDist {
        counts: vec![(1, 1)],
        parents: 1,
        null_rows: 0,
        rows: 1,
    };
    let learned = vec![
        LearnedKey {
            table: "users".to_string(),
            column: "no".to_string(),
            cardinality: dist(),
        },
        LearnedKey {
            table: "orders".to_string(),
            column: "unknown".to_string(),
            cardinality: dist(),
        },
    ];
    let mut m = model(&["no"]);
    assert!(!attach_fk_cardinality(&mut m, &learned));
    assert!(m.fk_cardinality.is_empty());
}

#[test]
fn large_marginals_are_named_in_order() {
    let sizes = vec![
        ("b".to_string(), COLUMN_MARGINAL_BUDGET_BYTES + 2),
        ("small".to_string(), COLUMN_MARGINAL_BUDGET_BYTES),
        ("a".to_string(), COLUMN_MARGINAL_BUDGET_BYTES + 1),
    ];
    assert_eq!(
        oversized_marginal_columns(&sizes),
        vec![
            ("a".to_string(), COLUMN_MARGINAL_BUDGET_BYTES + 1),
            ("b".to_string(), COLUMN_MARGINAL_BUDGET_BYTES + 2),
        ]
    );
}

#[test]
fn baseline_columns_are_found_in_the_sample() {
    let order = names(&["a", "b", "c"]);
    assert_eq!(
        baseline_columns("t", &order, &names(&["c", "a"])),
        Ok(vec![2, 0])
    );
    assert_eq!(
        baseline_columns("t", &order, &names(&["a", "z"])),
        Err(
            "table 't': column 'z' is in the model but not in the sampled order".to_string()
        )
    );
}

#[test]
fn instants_are_read_by_the_format() {
    let rows = vec![
        vec![text("1970-01-02")],
        vec![text("no date")],
        vec![],
        vec![text("1970-01-01")],
    ];
    assert_eq!(
        column_instants(&rows, 0, "%Y-%m-%d"),
        vec![86_400_000_000, 0]
    );
}

#[test]
fn training_tells_what_it_did() {
    assert_eq!(
        write_trained("t", 3, 100, &names(&["a", "b"]), "t.model.json"),
        "trained t: 3 columns, 100 rows sampled, pk [a, b] -> t.model.json"
    );
    assert_eq!(
        write_trained("t", 3, 100, &names(&[]), "t.model.json"),
        "trained t: 3 columns, 100 rows sampled -> t.model.json"
    );
    assert_eq!(
        skipped_warning("t", "c"),
        "warning: table 't': column 'c' skipped (unsupported or untrainable type)"
    );
    assert_eq!(
        truncated_warning("t", 100),
        "warning: Oracle driver truncated the sample of table 't' at 100 rows; fitted distributions may be distorted"
    );
    assert_eq!(
        oversized_warning("t", "c", 20_000),
        "warning: table 't': column 'c' marginal serializes to 20000 bytes, over the 16384 byte budget"
    );
    assert!(unusable_warning("c", "gamma", true).ends_with("keeping the Normal marginal"));
    assert!(unusable_warning("c", "gamma", false).ends_with("falling back to auto-selection"));
}

#[test]
fn only_a_large_model_with_every_level_is_remarked_upon() {
    let limit = 10 * 1024 * 1024;
    let full = CategoricalTopK::Full;
    assert_eq!(large_model_warning("m.json", limit, "10.0", full), None);
    assert_eq!(large_model_warning("m.json", 2 * limit, "20.0", CategoricalTopK::Limit(50)), None);
    assert_eq!(
        large_model_warning("m.json", 2 * limit, "20.0", full).as_deref(),
        Some("warning: m.json is 20.0 MiB; --categorical-top-k full stored every dictionary level and the file exceeds 10 MiB")
    );
}
