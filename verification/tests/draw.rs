use rand::rngs::StdRng;
use rand::{Rng, SeedableRng};
use synth::branch::BranchTarget;
use synth::distinct::make_distinct;
use synth::domain::{Drawn, Point};
use synth::draw::{draw_rows, Pinned, Sampler};
use synth::model::{ColumnModel, LogicalType, Provenance, Rate, TableModel};
use synth::overrides::{apply_column_value_overrides, conditional_pins};
use synth::pools::RelPool;
use synth::rules::{ColumnMode, ColumnRule, SdType, TableRule, TableStrategy, ValuePool};
use synth::seed::column_streams;
use synth::value::Value;

/// Draws that tell where they come from: the cell of column `c` and row `r` is
/// `100 c + r`, another draw is one of `again`.
#[derive(Default)]
struct Marked {
    again: Vec<u32>,
    pinned: Vec<(usize, String)>,
    refuses: bool,
}

fn marked(n: usize) -> Drawn {
    Drawn::Real(Point::Number(n.to_string()))
}

fn shown(p: &Point) -> String {
    match p {
        Point::Number(s) => s.clone(),
        Point::Instant(n) => format!("@{n}"),
    }
}

impl Sampler for Marked {
    fn pin(
        &mut self,
        _table: &TableModel,
        column: usize,
        target: Pinned,
        _rows: usize,
        _rng: &mut StdRng,
    ) -> bool {
        let held = match target {
            Pinned::Fixed(p) => shown(&p),
            Pinned::Range(a, b) => format!("{}..{}", shown(&a), shown(&b)),
        };
        self.pinned.push((column, held));
        !self.refuses
    }

    fn sample(&mut self, _table: &TableModel, _rows: usize, _seed: Option<u64>) {}

    fn sample_pinned(
        &mut self,
        _table: &TableModel,
        _rows: usize,
        _seed: Option<u64>,
    ) -> Result<(), String> {
        Ok(())
    }

    fn value(&self, _table: &TableModel, column: usize, row: usize) -> Drawn {
        marked(100 * column + row)
    }

    fn redraw(&self, _table: &TableModel, _column: usize, rng: &mut StdRng) -> Drawn {
        marked(self.again[rng.gen_range(0..self.again.len())] as usize)
    }

    fn is_null(&self, rate: &str, _rng: &mut StdRng) -> bool {
        rate == "1"
    }

    fn parent_index(&self, _rel: &RelPool, _rng: &mut StdRng) -> usize {
        0
    }

    fn parent_order(&self, rel: &RelPool, _rng: &mut StdRng) -> Vec<usize> {
        (0..rel.pool.len()).collect()
    }

    fn pool_index(
        &self,
        _table: &str,
        _column: &str,
        _pool: &ValuePool,
        rng: &mut StdRng,
    ) -> usize {
        rng.gen_range(0..3)
    }

    fn branch_target(&self, _rule: &TableRule, _branch: usize, _rows: usize) -> BranchTarget {
        BranchTarget { wanted: 0, pass_low: 0, pass_high: 0, spared_high: 0 }
    }

    fn percent(&self, part: usize, whole: u128) -> String {
        format!("{:.2}", part as f64 / whole as f64 * 100.0)
    }
}

fn trained() -> ColumnModel {
    ColumnModel {
        logical_type: LogicalType::Numerical,
        rounding: Some(0),
        decimal_scale: None,
        datetime_format: None,
        min: None,
        max: None,
        levels: None,
        null_rate: None,
    }
}

fn table(names: &[&str]) -> TableModel {
    TableModel {
        version: 1,
        table: "t".to_string(),
        dialect: "mysql".to_string(),
        schema: None,
        provenance: Provenance {
            source: "test".to_string(),
            converter_version: None,
            sdv_version: None,
            truncated: false,
            trained_rows: None,
        },
        pk: Vec::new(),
        columns: names.iter().map(|n| (n.to_string(), trained())).collect(),
        column_order: names.iter().map(|n| n.to_string()).collect(),
        fk_cardinality: Vec::new(),
    }
}

fn plain() -> ColumnRule {
    ColumnRule {
        fixed: None,
        values: None,
        fixed_range: None,
        mode: ColumnMode::Rejection,
        null_rate: None,
        marginal: None,
        sdtype: SdType::Auto,
        pii_provider: None,
    }
}

fn ruled(columns: Vec<(&str, ColumnRule)>) -> TableRule {
    TableRule {
        name: "t".to_string(),
        rows: None,
        strategy: TableStrategy::Uniform,
        columns: columns.into_iter().map(|(n, c)| (n.to_string(), c)).collect(),
        relationships: Vec::new(),
        derive: Vec::new(),
        branches: Vec::new(),
    }
}

fn number(n: i64) -> Value {
    Value::Number(n.to_string())
}

fn texts(rows: &[Vec<Value>]) -> Vec<Vec<String>> {
    rows.iter()
        .map(|row| {
            row.iter()
                .map(|v| match v {
                    Value::Number(s) => s.clone(),
                    Value::Null => "null".to_string(),
                    _ => panic!("unexpected {v:?}"),
                })
                .collect()
        })
        .collect()
}

fn streams(model: &TableModel, purpose: &str, seed: u64) -> Vec<StdRng> {
    column_streams(Some(seed), "t", &model.column_order, purpose)
}

#[test]
fn every_cell_takes_its_own_draw() {
    let model = table(&["a", "b"]);
    let mut rng = StdRng::seed_from_u64(1);
    let rows = draw_rows(
        &Marked::default(),
        &model,
        "t",
        &model.column_order,
        &mut Vec::new(),
        &vec![None, None],
        &vec![false, false],
        &mut streams(&model, "null", 1),
        3,
        &mut rng,
    )
    .unwrap();
    assert_eq!(texts(&rows), vec![vec!["0", "100"], vec!["1", "101"], vec!["2", "102"]]);
}

#[test]
fn a_column_is_null_at_its_own_rate() {
    let model = table(&["a", "b"]);
    let always = Rate { text: "1".to_string(), positive: true };
    let mut rng = StdRng::seed_from_u64(1);
    let rows = draw_rows(
        &Marked::default(),
        &model,
        "t",
        &model.column_order,
        &mut Vec::new(),
        &vec![Some(&always), None],
        &vec![false, false],
        &mut streams(&model, "null", 1),
        2,
        &mut rng,
    )
    .unwrap();
    assert_eq!(texts(&rows), vec![vec!["null", "100"], vec!["null", "101"]]);
}

fn settle(again: &[u32], start: &[i64]) -> (Vec<Vec<String>>, Result<(), String>) {
    let model = table(&["a"]);
    let sampler = Marked { again: again.to_vec(), ..Marked::default() };
    let mut rows: Vec<Vec<Value>> = start.iter().map(|n| vec![number(*n)]).collect();
    let mut rng = StdRng::seed_from_u64(7);
    let settled = make_distinct(
        &sampler,
        &model,
        "t",
        &model.column_order,
        0,
        &mut rows,
        &Vec::new(),
        false,
        &mut rng,
    );
    (texts(&rows), settled)
}

#[test]
fn repeated_values_are_drawn_again_until_none_repeats() {
    let (rows, settled) = settle(&[1, 2, 3], &[1, 1, 1]);
    assert_eq!(settled, Ok(()));
    let mut values: Vec<String> = rows.into_iter().map(|row| row[0].clone()).collect();
    assert_eq!(values[0], "1");
    values.sort();
    assert_eq!(values, vec!["1", "2", "3"]);
}

#[test]
fn a_value_space_that_is_spent_is_refused() {
    let (_, settled) = settle(&[1], &[1, 1]);
    let message = settled.unwrap_err();
    assert!(message.contains("exhausted its value space after 10000 redraws"), "{message}");
}

fn replace(
    rule: ColumnRule,
    again: &[u32],
    count: usize,
    seed: u64,
) -> (Vec<Vec<String>>, Result<(), String>) {
    let model = table(&["a", "b"]);
    let rule = ruled(vec![("a", rule)]);
    let sampler = Marked { again: again.to_vec(), ..Marked::default() };
    let mut rows: Vec<Vec<Value>> = (0..count).map(|_| vec![number(0), number(9)]).collect();
    let done = apply_column_value_overrides(
        &sampler,
        &mut rows,
        &rule,
        &model,
        &model.column_order,
        &[],
        false,
        streams(&model, "values", seed),
        streams(&model, "range", seed),
    );
    (texts(&rows), done)
}

fn within(low: i64, high: i64) -> ColumnRule {
    ColumnRule { fixed_range: Some((number(low), number(high))), ..plain() }
}

#[test]
fn a_range_takes_the_first_draw_that_lies_in_it() {
    let (rows, done) = replace(within(2, 3), &[1, 2, 9], 4, 5);
    assert_eq!(done, Ok(()));
    assert!(rows.iter().all(|row| row[0] == "2" && row[1] == "9"), "{rows:?}");
}

#[test]
fn a_range_that_nothing_meets_is_refused_after_its_draws() {
    let (_, done) = replace(within(5, 6), &[1], 1, 5);
    let message = done.unwrap_err();
    assert!(message.contains("fixed_range rejection exceeded 10000 draws"), "{message}");
}

#[test]
fn a_range_that_too_few_draws_meet_is_refused() {
    let mut again = vec![1; 999];
    again.push(5);
    let (_, done) = replace(within(5, 6), &again, 5, 5);
    let message = done.unwrap_err();
    assert!(message.contains("fixed_range acceptance is 0."), "{message}");
    assert!(message.contains("% (below 1%)"), "{message}");
}

#[test]
fn a_range_of_texts_is_not_comparable_with_numbers() {
    let said = ColumnRule {
        fixed_range: Some((Value::Text("x".to_string()), Value::Text("y".to_string()))),
        ..plain()
    };
    let (_, done) = replace(said, &[1], 1, 5);
    let message = done.unwrap_err();
    assert!(message.contains("endpoints are not comparable"), "{message}");
}

#[test]
fn a_pool_is_drawn_from_the_stream_of_its_column() {
    let pool = || ColumnRule {
        values: Some(ValuePool::Uniform(vec!["4".to_string(), "5".to_string(), "6".to_string()])),
        ..plain()
    };
    let (first, done) = replace(pool(), &[], 20, 11);
    assert_eq!(done, Ok(()));
    assert_eq!(replace(pool(), &[], 20, 11).0, first);
    let mut stream = streams(&table(&["a", "b"]), "values", 11).swap_remove(0);
    for row in &first {
        assert_eq!(row[0], ["4", "5", "6"][stream.gen_range(0..3)]);
        assert_eq!(row[1], "9");
    }
}

fn pins(rules: Vec<(&str, ColumnRule)>, refuses: bool) -> (Vec<(usize, String)>, Result<bool, String>) {
    let model = table(&["a", "b", "c"]);
    let mut sampler = Marked { refuses, ..Marked::default() };
    let pinned = conditional_pins(
        &mut sampler,
        &ruled(rules),
        &model,
        &model.column_order,
        4,
        streams(&model, "range", 3),
    );
    (sampler.pinned, pinned)
}

fn conditional(rule: ColumnRule) -> ColumnRule {
    ColumnRule { mode: ColumnMode::CopulaConditional, ..rule }
}

#[test]
fn conditional_columns_are_pinned_to_what_their_rules_say() {
    let fixed = ColumnRule { fixed: Some("7".to_string()), ..plain() };
    let rules = vec![("c", conditional(within(1, 2))), ("a", conditional(fixed))];
    let (held, pinned) = pins(rules, false);
    assert_eq!(held, vec![(0, "7".to_string()), (2, "1..2".to_string())]);
    assert_eq!(pinned, Ok(true));
}

#[test]
fn without_a_condition_nothing_is_pinned() {
    let (held, pinned) = pins(vec![("a", within(1, 2))], false);
    assert!(held.is_empty());
    assert_eq!(pinned, Ok(false));
}

#[test]
fn a_range_without_mass_is_refused() {
    let (held, pinned) = pins(vec![("b", conditional(within(1, 2)))], true);
    assert_eq!(held.len(), 1);
    assert!(pinned.unwrap_err().contains("covers no probability mass"));
}
