use synth::mine::{
    append_candidate_comments, mine_candidates, mine_without_recognised,
    render_candidate_comments, render_candidate_report, Candidate, CandidateLine, MineConfig,
    Ratio, TableCandidates,
};
use synth::value::Value;

fn columns(names: &[&str]) -> Vec<String> {
    names.iter().map(|s| s.to_string()).collect()
}

fn config() -> MineConfig {
    MineConfig::default()
}

fn text(s: &str) -> Value {
    Value::Text(s.to_string())
}

fn number(n: i32) -> Value {
    Value::Number(n.to_string())
}

fn confidence(c: &Candidate) -> f64 {
    c.hits as f64 / c.seen as f64
}

fn support(c: &Candidate) -> f64 {
    c.seen as f64 / c.rows as f64
}

fn lines(candidates: &[Candidate]) -> Vec<CandidateLine> {
    candidates
        .iter()
        .map(|c| CandidateLine {
            column: c.column.clone(),
            value: c.value.clone(),
            implies_column: c.implies_column.clone(),
            implies_value: c.implies_value.clone(),
            confidence: format!("{:.4}", confidence(c)),
            support: format!("{:.4}", support(c)),
        })
        .collect()
}

fn known_rule_rows() -> Vec<Vec<Value>> {
    let mut rows = Vec::new();
    for i in 0..4000 {
        rows.push(vec![text("1"), text(if i < 3960 { "0" } else { "1" })]);
    }
    for i in 0..6000 {
        rows.push(vec![text("0"), text(if i < 2000 { "0" } else { "1" })]);
    }
    rows
}

#[test]
fn should_skip_identity_like_columns_on_small_samples() {
    let mut rows = Vec::new();
    for i in 0..20 {
        rows.push(vec![number(i), text(if i % 2 == 0 { "x" } else { "y" })]);
    }
    let report = mine_candidates(&columns(&["id", "tag"]), &rows, &config());
    assert!(
        report.candidates.is_empty(),
        "identity-like columns must not produce candidates: {:?}",
        report.candidates
    );
}

#[test]
fn should_keep_low_cardinality_columns_on_small_samples() {
    let mut rows = Vec::new();
    for i in 0..20 {
        rows.push(vec![
            text(if i < 15 { "1" } else { "2" }),
            text(if i < 15 { "0" } else { "9" }),
        ]);
    }
    let report = mine_candidates(&columns(&["bs", "yhs"]), &rows, &config());
    assert!(
        report
            .candidates
            .iter()
            .any(|c| c.column == "bs" && c.implies_column == "yhs"),
        "a repeated 2-level column must still participate: {:?}",
        report.candidates
    );
}

#[test]
fn should_mine_detects_known_conditional_rule() {
    let report = mine_candidates(&columns(&["bs", "yhs"]), &known_rule_rows(), &config());

    let c = report
        .candidates
        .iter()
        .find(|c| c.column == "bs" && c.value == "'1'")
        .expect("bs='1' => yhs='0' must be mined");
    assert_eq!(c.implies_column, "yhs");
    assert_eq!(c.implies_value, "'0'");
    assert!(
        (confidence(c) - 0.99).abs() < 1e-9,
        "confidence {} should be 0.99",
        confidence(c)
    );
    assert!(
        (support(c) - 0.40).abs() < 1e-9,
        "support {} should be 0.40",
        support(c)
    );
}

#[test]
fn should_mine_stays_silent_on_independent_columns() {
    let mut rows = Vec::new();
    for i in 0..900 {
        rows.push(vec![number(i % 3), number((i / 9) % 3)]);
    }
    let report = mine_candidates(&columns(&["a", "b"]), &rows, &config());
    assert!(
        report.candidates.is_empty(),
        "independent columns must not produce candidates: {:?}",
        report.candidates
    );
}

#[test]
fn should_respect_mine_confidence_threshold() {
    let mut rows = Vec::new();
    for i in 0..4000 {
        rows.push(vec![text("1"), text(if i < 3600 { "0" } else { "1" })]);
    }
    for i in 0..6000 {
        rows.push(vec![text("0"), text(if i < 2000 { "0" } else { "1" })]);
    }
    let cols = columns(&["bs", "yhs"]);

    let strict = mine_candidates(
        &cols,
        &rows,
        &MineConfig {
            confidence: Ratio { part: 95, whole: 100 },
            ..config()
        },
    );
    assert!(
        !strict
            .candidates
            .iter()
            .any(|c| c.column == "bs" && c.value == "'1'"),
        "confidence 0.90 rule must not clear a 0.95 threshold"
    );

    let loose = mine_candidates(
        &cols,
        &rows,
        &MineConfig {
            confidence: Ratio { part: 85, whole: 100 },
            ..config()
        },
    );
    assert!(
        loose
            .candidates
            .iter()
            .any(|c| c.column == "bs" && c.value == "'1'"),
        "confidence 0.90 rule must clear a 0.85 threshold"
    );
}

#[test]
fn should_skip_high_cardinality_columns() {
    let mut rows = Vec::new();
    for i in 0..5000 {
        rows.push(vec![number(i), text(if i % 2 == 0 { "0" } else { "1" })]);
    }
    let report = mine_candidates(&columns(&["id", "flag"]), &rows, &config());
    assert!(
        !report.candidates.iter().any(|c| c.column == "id"),
        "high-cardinality column must not be an antecedent"
    );
}

#[test]
fn should_report_pairs_truncated_at_max_pairs() {
    let mut rows = Vec::new();
    for i in 0..200 {
        rows.push(vec![number(i % 3), number((i / 3) % 3), number((i / 9) % 3)]);
    }
    let report = mine_candidates(
        &columns(&["a", "b", "c"]),
        &rows,
        &MineConfig {
            max_pairs: 2,
            ..config()
        },
    );
    assert_eq!(report.pairs_total, 6);
    assert_eq!(report.pairs_considered, 2);
    assert!(report.pairs_truncated());
}

#[test]
fn should_ignore_null_cells() {
    let mut rows = known_rule_rows();
    for _ in 0..500 {
        rows.push(vec![text("1"), Value::Null]);
    }
    let report = mine_candidates(&columns(&["bs", "yhs"]), &rows, &config());
    let c = report
        .candidates
        .iter()
        .find(|c| c.column == "bs" && c.value == "'1'")
        .expect("rule must survive NULL cells");
    assert!((confidence(c) - 0.99).abs() < 1e-9);
}

#[test]
fn should_mine_deterministically() {
    let rows = known_rule_rows();
    let first = mine_candidates(&columns(&["bs", "yhs"]), &rows, &config());
    let second = mine_candidates(&columns(&["bs", "yhs"]), &rows, &config());
    assert_eq!(first.candidates, second.candidates);
}

#[test]
fn should_emit_candidates_as_disabled_comments() {
    let report = mine_candidates(&columns(&["bs", "yhs"]), &known_rule_rows(), &config());
    let tables = vec![TableCandidates {
        table: "orders".to_string(),
        candidates: lines(&report.candidates),
    }];

    let block = render_candidate_comments(&tables);
    assert!(!block.is_empty());
    for line in block.lines() {
        assert!(
            line.starts_with('#'),
            "every line must be a comment: {line}"
        );
    }
    assert!(block.contains("candidate: orders.bs='1' => orders.yhs='0'"));
    assert!(block.contains("confidence=0.99"));
    assert!(block.contains("support=0.40"));

    let yaml = "version: \"1\"\ntables: []\n";
    let with_comments = append_candidate_comments(yaml, &tables);
    let parsed: serde_yaml::Value =
        serde_yaml::from_str(&with_comments).expect("draft with comments must stay parseable");
    assert!(parsed["tables"].as_sequence().unwrap().is_empty());
}

#[test]
fn draft_without_candidates_is_unchanged() {
    let yaml = "version: \"1\"\ntables: []\n";
    assert_eq!(append_candidate_comments(yaml, &[]), yaml);
    let empty = vec![TableCandidates {
        table: "orders".to_string(),
        candidates: vec![],
    }];
    assert_eq!(append_candidate_comments(yaml, &empty), yaml);
}

#[test]
fn render_candidate_report_lists_everything() {
    let report = mine_candidates(&columns(&["bs", "yhs"]), &known_rule_rows(), &config());
    let tables = vec![TableCandidates {
        table: "orders".to_string(),
        candidates: lines(&report.candidates),
    }];
    let text = render_candidate_report(&tables);
    assert!(text.contains("orders.bs='1' => orders.yhs='0'"));
    assert_eq!(
        render_candidate_report(&[]),
        "# hepta-dbcli rules-draft --mine candidate list (NOT enabled)\n# no candidates\n"
    );
}

#[test]
fn every_pair_of_columns_is_scanned_both_ways() {
    let rows = known_rule_rows();
    let report = mine_candidates(&columns(&["bs", "yhs"]), &rows, &config());
    assert_eq!(report.participating_columns, 2);
    assert_eq!(report.pairs_total, 2);
    assert_eq!(report.pairs_considered, 2);
    assert!(!report.pairs_truncated());
}

#[test]
fn candidates_stand_in_order() {
    let mut rows = Vec::new();
    for i in 0..400 {
        let v = if i % 2 == 0 { "x" } else { "y" };
        rows.push(vec![text(v), text(v)]);
    }
    let report = mine_candidates(&columns(&["b", "a"]), &rows, &config());
    let keys: Vec<(String, String)> = report
        .candidates
        .iter()
        .map(|c| (c.column.clone(), c.value.clone()))
        .collect();
    let mut sorted = keys.clone();
    sorted.sort();
    assert_eq!(report.candidates.len(), 4);
    assert_eq!(keys, sorted);
}

#[test]
fn a_rule_that_moves_the_distribution_by_exactly_the_support_is_kept() {
    let mut rows = Vec::new();
    for i in 0..100 {
        let a = if i < 50 { "x" } else { "y" };
        let b = if i < 95 { "p" } else { "q" };
        rows.push(vec![text(a), text(b)]);
    }
    let at = MineConfig {
        confidence: Ratio { part: 95, whole: 100 },
        support: Ratio { part: 5, whole: 100 },
        ..config()
    };
    let names = columns(&["a", "b"]);
    let kept = |c: &MineConfig| {
        mine_candidates(&names, &rows, c)
            .candidates
            .iter()
            .any(|c| c.value.contains('x') && c.implies_value.contains('p'))
    };
    assert!(kept(&at));
    assert!(!kept(&MineConfig { support: Ratio { part: 6, whole: 100 }, ..at }));
}

#[test]
fn line_breaks_do_not_end_a_comment() {
    let broken = |s: &str| CandidateLine {
        column: format!("bs{s}tables:"),
        value: format!("1{s}- x"),
        implies_column: format!("yhs{s}y: 1"),
        implies_value: format!("0{s}z: 2"),
        confidence: "1.0000".to_string(),
        support: "0.5000".to_string(),
    };
    for end in ["\n", "\r", "\r\n", "\u{85}", "\u{2028}", "\u{2029}"] {
        let tables =
            vec![TableCandidates { table: format!("t{end}live: true"), candidates: vec![broken(end)] }];
        let block = render_candidate_comments(&tables);
        let whole = append_candidate_comments("version: \"1\"\n", &tables);
        for (i, line) in block.split(['\n', '\r', '\u{85}', '\u{2028}', '\u{2029}']).enumerate() {
            assert!(line.is_empty() || line.starts_with('#'), "line {i} of {block:?}");
        }
        assert!(whole.ends_with(&block), "{whole:?}");
    }
}

#[test]
fn recognised_columns_take_no_part_in_mining() {
    let rows = known_rule_rows();
    let names = columns(&["bs", "yhs"]);
    let all = mine_candidates(&names, &rows, &config());
    assert!(!all.candidates.is_empty());
    let (none, skipped) = mine_without_recognised(&names, &rows, &[false, true], false, &config());
    assert!(none.candidates.is_empty());
    assert_eq!(skipped, vec!["yhs".to_string()]);
    let (kept, skipped) = mine_without_recognised(&names, &rows, &[false, true], true, &config());
    assert_eq!(kept.candidates.len(), all.candidates.len());
    assert!(skipped.is_empty());
}
