use synth::domain::Point;
use synth::fitting::{after_trial, build_model_with_overrides, BuiltModel, Fitter, Kept, Next};
use synth::model::{ColumnModel, LogicalType, Rate, TableModel};
use synth::training::{format_warning, plan_fit, FitPlan, ProfileColumn};
use synth::value::Value;

fn names(list: &[&str]) -> Vec<String> {
    list.iter().map(|s| s.to_string()).collect()
}

fn number(n: i64) -> Value {
    Value::Number(n.to_string())
}

fn text(s: &str) -> Value {
    Value::Text(s.to_string())
}

fn column(name: &str, kind: &str) -> ProfileColumn {
    ProfileColumn {
        name: name.to_string(),
        logical_type: kind.to_string(),
        datetime_format: None,
        levels: None,
        has_mean: false,
        all_null: false,
        is_integer: false,
        decimal_scale: None,
        min: None,
        max: None,
        null_rate: Rate {
            text: "0".to_string(),
            positive: false,
        },
    }
}

fn integers(name: &str) -> ProfileColumn {
    ProfileColumn {
        has_mean: true,
        is_integer: true,
        ..column(name, "numerical")
    }
}

fn dictionary(name: &str, kind: &str, levels: usize) -> ProfileColumn {
    ProfileColumn {
        levels: Some((0..levels).map(|i| format!("{name}{i}")).collect()),
        ..column(name, kind)
    }
}

fn timestamp(name: &str) -> ProfileColumn {
    ProfileColumn {
        datetime_format: Some("%Y-%m-%d %H:%M:%S".to_string()),
        ..column(name, "datetime")
    }
}

/// Keeps what it was asked for, and fails on what is in `failing`; the parameters of
/// families in `unusable` cannot be used.
#[derive(Default)]
struct Plans {
    asked: Vec<(String, String)>,
    failing: Vec<String>,
    unusable: Vec<String>,
}

fn plans() -> Plans {
    Plans::default()
}

impl Plans {
    fn ask(&mut self, column: &ProfileColumn, what: String) -> Result<bool, String> {
        let usable = !self.unusable.contains(&what);
        let failed = self.failing.contains(&what);
        self.asked.push((column.name.clone(), what));
        if failed {
            Err("does not fit".to_string())
        } else {
            Ok(usable)
        }
    }
}

impl Fitter for Plans {
    fn force(
        &mut self,
        column: &ProfileColumn,
        family: &str,
        on_epoch_axis: bool,
    ) -> Result<bool, String> {
        let axis = if on_epoch_axis { "epoch " } else { "" };
        self.ask(column, format!("{axis}{family}"))
    }

    fn select(&mut self, column: &ProfileColumn) -> Result<(), String> {
        self.ask(column, "auto".to_string()).map(|_| ())
    }

    fn keep(&mut self, column: &ProfileColumn, kept: Kept) {
        let what = match kept {
            Kept::Levels => "dictionary",
            Kept::Instants => "epoch",
            Kept::Point => "point",
        };
        self.asked.push((column.name.clone(), what.to_string()));
    }
}

fn build_with(
    profile: Vec<ProfileColumn>,
    rows: Vec<Vec<Value>>,
    pk: &[&str],
    forced: &[(&str, &str)],
    fitter: &mut Plans,
) -> Result<BuiltModel, String> {
    let order: Vec<String> = profile.iter().map(|c| c.name.clone()).collect();
    let forced: Vec<(String, String)> = forced
        .iter()
        .map(|(c, f)| (c.to_string(), f.to_string()))
        .collect();
    build_model_with_overrides(
        "t",
        "mysql",
        &profile,
        &order,
        &rows,
        &names(pk),
        Some("sales"),
        &forced,
        &names(&["normal", "beta", "gamma", "uniform"]),
        &names(&["normal", "beta", "gamma", "uniform", "ecdf", "categorical"]),
        fitter,
    )
}

fn build(profile: Vec<ProfileColumn>, pk: &[&str]) -> BuiltModel {
    build_with(profile, Vec::new(), pk, &[], &mut plans()).unwrap()
}

fn refused(profile: Vec<ProfileColumn>, forced: &[(&str, &str)]) -> String {
    match build_with(profile, Vec::new(), &[], forced, &mut plans()) {
        Ok(_) => panic!("must fail the table"),
        Err(e) => e,
    }
}

fn modelled<'a>(model: &'a TableModel, name: &str) -> &'a ColumnModel {
    model.column(name).expect("a modelled column")
}

#[test]
fn build_model_correlation_matches_column_count() {
    let b = build(
        vec![integers("a"), integers("b"), dictionary("c", "categorical", 2)],
        &[],
    );
    assert!(b.skipped.is_empty());
    assert_eq!(b.model.schema.as_deref(), Some("sales"));
    assert_eq!(b.model.column_order, names(&["a", "b", "c"]));
    assert!(b.samples.is_none(), "no rows, so nothing is correlated");
}

#[test]
fn build_model_rejects_empty_profile() {
    assert_eq!(
        refused(Vec::new(), &[]),
        "table 't' has no columns to model"
    );
}

#[test]
fn build_model_fits_categorical_from_top_values() {
    let b = build(vec![dictionary("status", "categorical", 2)], &[]);
    assert!(b.skipped.is_empty());
    let levels = modelled(&b.model, "status").levels.as_ref().unwrap();
    assert_eq!(levels.len(), 2);
}

#[test]
fn should_fit_low_cardinality_numeric_as_categorical() {
    let plan = plan_fit(&dictionary("amount", "numerical", 19), None);
    assert!(matches!(plan, FitPlan::Dictionary));
}

#[test]
fn should_fit_high_cardinality_numeric_via_auto_selection() {
    let plan = plan_fit(&integers("amount"), None);
    assert!(matches!(plan, FitPlan::Auto));
}

#[test]
fn build_model_skips_unsupported_columns() {
    let b = build(vec![integers("id"), column("last_update", "unsupported")], &[]);
    assert_eq!(b.skipped, names(&["last_update"]));
    assert_eq!(b.model.column_order, names(&["id"]));
    assert!(b.model.column("last_update").is_none());
}

#[test]
fn build_model_correlation_ignores_skipped_columns() {
    let rows: Vec<Vec<Value>> = (0..10)
        .map(|i| {
            vec![
                number(i),
                text("<unsupported type timestamptz>: \\x00"),
                number(3 * i),
            ]
        })
        .collect();
    let profile = vec![
        integers("id"),
        column("last_update", "unsupported"),
        integers("v3"),
    ];
    let b = build_with(profile, rows, &[], &[], &mut plans()).unwrap();
    assert_eq!(b.skipped, names(&["last_update"]));
    assert_eq!(b.model.column_order, names(&["id", "v3"]));
    let samples = b.samples.expect("rows enough to correlate");
    assert_eq!(samples.len(), 10);
    for (i, row) in samples.iter().enumerate() {
        assert_eq!(*row, vec![number(i as i64), number(3 * i as i64)]);
    }
    assert_eq!(b.model.provenance.trained_rows, Some(10));
}

#[test]
fn build_model_marks_integer_columns_for_rounding() {
    let b = build(vec![integers("id")], &[]);
    assert_eq!(modelled(&b.model, "id").rounding, Some(0));
}

#[test]
fn build_model_allows_negative_integer_column() {
    let profile = ProfileColumn { min: Some("-3".to_string()), ..integers("v") };
    let b = build(vec![profile], &[]);
    assert_eq!(modelled(&b.model, "v").rounding, Some(0));
}

#[test]
fn build_model_records_composite_pk() {
    let b = build(vec![integers("a"), integers("b")], &["a", "b"]);
    assert_eq!(b.model.pk, names(&["a", "b"]));
}

#[test]
fn build_model_drops_pk_column_missing_from_the_model() {
    let b = build(vec![integers("a")], &["a", "ghost"]);
    assert_eq!(b.model.pk, names(&["a"]));
}

#[test]
fn build_model_maps_compact_date_to_datetime() {
    let profile = ProfileColumn {
        has_mean: true,
        is_integer: true,
        ..column("biz_date", "datetime")
    };
    let mut fitter = plans();
    let b = build_with(vec![profile], Vec::new(), &[], &[], &mut fitter).unwrap();
    assert!(b.skipped.is_empty());
    let col = modelled(&b.model, "biz_date");
    assert_eq!(col.logical_type, LogicalType::Datetime);
    assert_eq!(col.rounding, Some(0));
    assert_eq!(fitter.asked, vec![("biz_date".to_string(), "auto".to_string())]);
}

#[test]
fn should_copy_decimal_scale_from_profile() {
    let profile = ProfileColumn {
        has_mean: true,
        decimal_scale: Some(4),
        ..column("amt", "numerical")
    };
    let b = build(vec![profile], &[]);
    assert!(b.skipped.is_empty());
    assert_eq!(modelled(&b.model, "amt").decimal_scale, Some(4));
}

fn bounds(model: &TableModel, name: &str) -> (String, String) {
    let shown = |p: &Option<Point>| match p {
        Some(Point::Number(s)) => s.clone(),
        Some(Point::Instant(n)) => format!("@{n}"),
        None => "none".to_string(),
    };
    let column = modelled(model, name);
    (shown(&column.min), shown(&column.max))
}

#[test]
fn a_column_keeps_the_bounds_of_what_was_seen() {
    let seen = |c: ProfileColumn| ProfileColumn {
        min: Some("-1.5".to_string()),
        max: Some("9".to_string()),
        ..c
    };
    let rows = ["1970-01-02 00:00:00", "", "1970-01-01 00:00:01", "1970-01-01 06:00:00"]
        .iter()
        .map(|t| vec![number(1), text(t)])
        .collect();
    let profile = vec![seen(integers("n")), seen(timestamp("at")), seen(timestamp("later"))];
    let b = build_with(profile, rows, &[], &[], &mut plans()).unwrap();
    let pair = |a: &str, b: &str| (a.to_string(), b.to_string());
    assert_eq!(bounds(&b.model, "n"), pair("-1.5", "9"));
    assert_eq!(bounds(&b.model, "at"), pair("@1000000", "@86400000000"));
    assert_eq!(bounds(&b.model, "later"), pair("-1.5", "9"));
}

#[test]
fn build_model_fits_all_null_numeric_from_schema() {
    let profile = ProfileColumn {
        all_null: true,
        null_rate: Rate {
            text: "1".to_string(),
            positive: true,
        },
        ..column("amt", "numerical")
    };
    let b = build(vec![profile], &[]);
    assert!(b.skipped.is_empty());
    let col = modelled(&b.model, "amt");
    assert_eq!(col.logical_type, LogicalType::Numerical);
    assert_eq!(col.null_rate.as_ref().unwrap().text, "1");
}

#[test]
fn build_model_keeps_all_null_datetime() {
    let profile = ProfileColumn {
        all_null: true,
        null_rate: Rate {
            text: "1".to_string(),
            positive: true,
        },
        ..column("ts", "datetime")
    };
    assert_eq!(format_warning(&profile), None);
    let b = build(vec![profile], &[]);
    assert!(b.skipped.is_empty());
    let col = modelled(&b.model, "ts");
    assert_eq!(col.logical_type, LogicalType::Datetime);
    assert_eq!(col.null_rate.as_ref().unwrap().text, "1");
}

#[test]
fn should_warn_and_fall_back_when_datetime_format_is_unknown() {
    let profile = dictionary("biz_date", "datetime", 4);
    assert_eq!(
        format_warning(&profile).as_deref(),
        Some(
            "warning: column 'biz_date': datetime format could not be inferred; falling back to legacy modelling"
        )
    );
    let b = build(vec![profile], &[]);
    assert!(b.skipped.is_empty());
    let col = modelled(&b.model, "biz_date");
    assert_eq!(col.logical_type, LogicalType::Datetime);
    assert!(col.datetime_format.is_none());
    assert_eq!(col.levels.as_ref().unwrap().len(), 4);
}

#[test]
fn should_keep_low_cardinality_numeric_as_categorical() {
    let b = build(vec![dictionary("code", "numerical", 19)], &[]);
    assert!(b.skipped.is_empty());
    assert_eq!(modelled(&b.model, "code").levels.as_ref().unwrap().len(), 19);
}

#[test]
fn should_force_marginal_from_rules_override() {
    let fee = || ProfileColumn {
        has_mean: true,
        ..column("fee", "numerical")
    };
    let mut fitter = plans();
    build_with(vec![fee()], Vec::new(), &[], &[("fee", "gamma")], &mut fitter).unwrap();
    assert_eq!(fitter.asked, vec![("fee".to_string(), "gamma".to_string())]);
    let mut fitter = plans();
    build_with(vec![fee()], Vec::new(), &[], &[("fee", "ecdf")], &mut fitter).unwrap();
    assert_eq!(fitter.asked, vec![("fee".to_string(), "ecdf".to_string())]);
    let mut fitter = plans();
    build_with(vec![fee()], Vec::new(), &[], &[], &mut fitter).unwrap();
    assert_eq!(fitter.asked, vec![("fee".to_string(), "auto".to_string())]);
}

#[test]
fn should_fail_train_on_unknown_forced_marginal() {
    let err = refused(vec![integers("v")], &[("v", "kde")]);
    assert!(err.contains("unknown marginal 'kde'"), "{err}");
    assert!(err.contains("column 'v'"), "{err}");
}

#[test]
fn should_fail_train_when_override_conflicts_with_the_value_dictionary() {
    let status = || dictionary("status", "numerical", 5);
    let err = refused(vec![status()], &[("status", "gamma")]);
    assert!(
        err.contains("conflicts with the 5-level value dictionary"),
        "{err}"
    );

    let b = build_with(
        vec![status()],
        Vec::new(),
        &["status"],
        &[("status", "categorical")],
        &mut plans(),
    )
    .unwrap();
    assert!(b.skipped.is_empty());
    assert_eq!(b.model.pk, names(&["status"]));
    assert!(modelled(&b.model, "status").levels.is_some());
}

#[test]
fn should_fail_train_when_categorical_is_forced_on_a_timestamp() {
    let err = refused(vec![timestamp("biz_date")], &[("biz_date", "categorical")]);
    assert!(err.contains("epoch axis"), "{err}");
}

#[test]
fn should_apply_marginal_override_on_the_datetime_epoch_axis() {
    let mut fitter = plans();
    build_with(vec![timestamp("biz_date")], Vec::new(), &[], &[], &mut fitter).unwrap();
    assert_eq!(fitter.asked, vec![("biz_date".to_string(), "epoch".to_string())]);

    let mut fitter = plans();
    let b = build_with(
        vec![timestamp("biz_date")],
        Vec::new(),
        &[],
        &[("biz_date", "ecdf")],
        &mut fitter,
    )
    .unwrap();
    assert_eq!(
        fitter.asked,
        vec![("biz_date".to_string(), "epoch ecdf".to_string())]
    );
    let col = modelled(&b.model, "biz_date");
    assert_eq!(col.datetime_format.as_deref(), Some("%Y-%m-%d %H:%M:%S"));
    assert_eq!(col.rounding, None);
}

#[test]
fn should_reject_override_for_an_unknown_column() {
    let err = refused(vec![integers("v")], &[("typo", "gamma")]);
    assert!(err.contains("unknown column 'typo'"), "{err}");
}

#[test]
fn a_categorical_marginal_needs_a_dictionary() {
    let err = refused(vec![integers("v")], &[("v", "categorical")]);
    assert!(err.contains("needs a value dictionary"), "{err}");
}

#[test]
fn a_table_without_a_trainable_column_is_refused() {
    assert_eq!(
        refused(vec![column("x", "unsupported")], &[]),
        "table 't' has no trainable columns (all unsupported)"
    );
}

#[test]
fn a_family_that_does_not_fit_leaves_its_column_out() {
    let mut fitter = plans();
    fitter.failing.push("auto".to_string());
    let b = build_with(
        vec![integers("a"), dictionary("b", "categorical", 1)],
        Vec::new(),
        &["a", "b"],
        &[],
        &mut fitter,
    )
    .unwrap();
    assert_eq!(b.skipped, names(&["a"]));
    assert_eq!(b.model.pk, names(&["b"]));
    assert_eq!(b.skipped.len() + b.model.columns.len(), 2);
}

fn asked(fitter: &Plans) -> Vec<&str> {
    fitter.asked.iter().map(|(_, what)| what.as_str()).collect()
}

#[test]
fn a_forced_family_without_usable_parameters_gives_way_to_the_best() {
    let mut fitter = plans();
    fitter.unusable.push("gamma".to_string());
    let forced = [("fee", "gamma")];
    let b = build_with(vec![integers("fee")], Vec::new(), &[], &forced, &mut fitter).unwrap();
    assert!(b.skipped.is_empty());
    assert_eq!(asked(&fitter), ["gamma", "auto"]);
    assert_eq!(
        b.warnings,
        names(&["warning: column 'fee': forced marginal 'gamma' produced unusable parameters; falling back to auto-selection"])
    );

    let mut fitter = plans();
    fitter.failing.push("gamma".to_string());
    let profile = vec![integers("fee"), integers("id")];
    let b = build_with(profile, Vec::new(), &[], &forced, &mut fitter).unwrap();
    assert_eq!(b.skipped, names(&["fee"]));
    assert_eq!(asked(&fitter), ["gamma", "auto"]);
    assert!(b.warnings.is_empty());
}

#[test]
fn a_trial_decides_what_is_done_next() {
    let next = |tried: Result<bool, String>, epoch: bool| after_trial("c", "beta", tried, epoch);
    let failed = || Err("no fit".to_string());
    assert_eq!(next(Ok(true), false), (Next::Done, None));
    assert_eq!(next(Ok(true), true), (Next::Done, None));
    assert_eq!(next(Ok(false), false).0, Next::Select);
    assert_eq!(next(Ok(false), true).0, Next::Instants);
    assert_eq!(next(failed(), false), (Next::LeftOut, None));
    assert_eq!(next(failed(), true).0, Next::Instants);
}

#[test]
fn a_forced_family_gives_way_to_the_plain_distribution_of_instants() {
    let forced = [("at", "gamma")];
    let mut fitter = plans();
    fitter.unusable.push("epoch gamma".to_string());
    let b = build_with(vec![timestamp("at")], Vec::new(), &[], &forced, &mut fitter).unwrap();
    assert_eq!(asked(&fitter), ["epoch gamma", "epoch"]);
    assert_eq!(
        b.warnings,
        names(&["warning: column 'at': forced marginal 'gamma' produced unusable parameters on the epoch axis; keeping the Normal marginal"])
    );

    let mut fitter = plans();
    fitter.failing.push("epoch gamma".to_string());
    let b = build_with(vec![timestamp("at")], Vec::new(), &[], &forced, &mut fitter).unwrap();
    assert!(b.skipped.is_empty());
    assert_eq!(
        b.warnings,
        names(&["warning: column 'at': forced marginal error (does not fit); keeping the Normal marginal"])
    );
}

#[test]
fn a_column_without_frequencies_is_not_supported() {
    match plan_fit(&column("c", "categorical"), None) {
        FitPlan::Unsupported(why) => assert_eq!(
            why,
            "column 'c' is categorical but profile has no value frequencies; retrain"
        ),
        other => panic!("unexpected plan {other:?}"),
    }
    match plan_fit(&column("c", "blob"), None) {
        FitPlan::Unsupported(why) => assert_eq!(
            why,
            "column 'c' has logical type 'blob'; training supports numerical, datetime, and categorical"
        ),
        other => panic!("unexpected plan {other:?}"),
    }
}

#[test]
fn detected_columns_lose_their_dictionaries() {
    let mut profile =
        vec![dictionary("email", "categorical", 3), dictionary("plan", "categorical", 2), integers("n")];
    synth::train_run::forget_levels(&mut profile, &["email".to_string(), "n".to_string()]);
    assert_eq!(profile.len(), 3);
    assert_eq!(profile[0].levels, None);
    assert_eq!(profile[0].name, "email");
    assert_eq!(profile[1].levels.as_ref().map(Vec::len), Some(2));
    assert_eq!(profile[2].levels, None);
    assert!(profile[2].has_mean && profile[2].is_integer);
}
