use rand::rngs::StdRng;
use rand::{Rng, SeedableRng};
use rand_distr::StandardNormal;
use rust_decimal::Decimal;
use std::collections::{HashMap, HashSet};
use synth::branch::{apply_branch_repair, BranchOutcome, BranchTarget, CoverageStatus};
use synth::datetime::{format_epoch, infer_format, parse_to_epoch};
use synth::domain::{between, gen_column_value, read_micros, Drawn, Point, Rank};
use synth::draw::{Pinned, Sampler};
use synth::fk_pool::{SelectionStrategy, Weight};
use synth::grid::{grid_bounds, quantize};
use synth::generator::{check_value_pools, generate, GeneratedData, GeneratorConfig, ValuePoolOutcome};
use synth::literal::{is_number, numeric_value, numeric_value_or_string, typed_literal};
use synth::marginal::CategoricalFitter;
use synth::model::{ColumnModel, LogicalType, Provenance, Rate, TableModel};
use synth::overrides::value_in_range;
use synth::pools::RelPool;
use synth::rules::{
    BranchRule, ColumnMode, ColumnRule, DeriveRule, PoolStrategy, Relationship, SdType,
    SynthRules, TableRule, TableStrategy, ValuePool,
};
use synth::value::Value;

// A numeric side: Gaussian copula over simple marginals.

#[derive(Clone)]
enum Shape {
    Normal(f64, f64),
    Uniform(f64, f64),
    Levels(Vec<String>, Vec<f64>),
}

#[derive(Clone)]
struct Col {
    name: String,
    kind: LogicalType,
    rounding: Option<u32>,
    scale: Option<u8>,
    format: Option<String>,
    shape: Shape,
    nulls: Option<f64>,
    min: Option<f64>,
    max: Option<f64>,
}

#[derive(Clone)]
struct Tab {
    name: String,
    cols: Vec<Col>,
    correlation: Vec<Vec<f64>>,
}

fn erf(x: f64) -> f64 {
    let (a1, a2, a3) = (0.254829592, -0.284496736, 1.421413741);
    let (a4, a5, p) = (-1.453152027, 1.061405429, 0.3275911);
    let sign = if x < 0.0 { -1.0 } else { 1.0 };
    let x = x.abs();
    let t = 1.0 / (1.0 + p * x);
    let y = 1.0 - (((((a5 * t + a4) * t) + a3) * t + a2) * t + a1) * t * (-x * x).exp();
    sign * y
}

fn normal_cdf(x: f64, loc: f64, scale: f64) -> f64 {
    let z = (x - loc) / scale;
    0.5 * (1.0 + erf(z / std::f64::consts::SQRT_2))
}

fn normal_ppf(loc: f64, scale: f64, p: f64) -> f64 {
    const EPS: f64 = 1e-15;
    let p = p.clamp(EPS, 1.0 - EPS);
    if (p - 0.5).abs() < 1e-15 {
        return loc;
    }
    let mut lo = loc - 10.0 * scale;
    let mut hi = loc + 10.0 * scale;
    for _ in 0..50 {
        let mid = (lo + hi) * 0.5;
        if normal_cdf(mid, loc, scale) < p {
            lo = mid;
        } else {
            hi = mid;
        }
        if hi - lo < 1e-12 {
            break;
        }
    }
    (lo + hi) * 0.5
}

fn level_at(weights: &[f64], u: f64) -> usize {
    let total: f64 = weights.iter().sum();
    let target = u.clamp(0.0, 1.0) * total;
    let mut acc = 0.0;
    for (i, w) in weights.iter().enumerate() {
        acc += w;
        if target < acc {
            return i;
        }
    }
    weights.len() - 1
}

fn cdf(shape: &Shape, x: f64) -> f64 {
    match shape {
        Shape::Normal(loc, scale) => normal_cdf(x, *loc, *scale),
        Shape::Uniform(low, high) => ((x - low) / (high - low)).clamp(0.0, 1.0),
        Shape::Levels(_, _) => 0.0,
    }
}

fn ppf(shape: &Shape, p: f64) -> f64 {
    match shape {
        Shape::Normal(loc, scale) => normal_ppf(*loc, *scale, p),
        Shape::Uniform(low, high) => low + (high - low) * p,
        Shape::Levels(_, weights) => level_at(weights, p) as f64,
    }
}

fn unit(u: f64) -> f64 {
    u.clamp(1e-12, 1.0 - 1e-12)
}

fn json_number(x: f64) -> String {
    serde_json::Number::from_f64(x).map_or("null".to_string(), |n| n.to_string())
}

fn point(col: &Col, x: f64) -> Point {
    if col.kind == LogicalType::Datetime && col.format.is_some() {
        Point::Instant((x * 1e6).round() as i64)
    } else {
        Point::Number(x.to_string())
    }
}

fn drawn(col: &Col, u: f64) -> Drawn {
    let u = unit(u);
    match &col.shape {
        Shape::Levels(values, weights) => Drawn::Level(values[level_at(weights, u)].clone()),
        shape => Drawn::Real(point(col, ppf(shape, u))),
    }
}

fn cholesky(matrix: &[Vec<f64>]) -> Vec<Vec<f64>> {
    let n = matrix.len();
    let mut l = vec![vec![0.0f64; n]; n];
    for i in 0..n {
        for j in 0..=i {
            let sum: f64 = (0..j).map(|k| l[i][k] * l[j][k]).sum();
            if i == j {
                let diff = matrix[i][i] - sum;
                l[i][j] = if diff > 0.0 { diff.sqrt() } else { 0.001 };
            } else {
                l[i][j] = (matrix[i][j] - sum) / l[j][j];
            }
        }
    }
    l
}

fn stream(seed: Option<u64>) -> StdRng {
    match seed {
        Some(s) => StdRng::seed_from_u64(s),
        None => StdRng::from_entropy(),
    }
}

fn normals(dimension: usize, n: usize, seed: Option<u64>) -> Vec<Vec<f64>> {
    let mut rng = stream(seed);
    (0..dimension)
        .map(|_| (0..n).map(|_| rng.sample(StandardNormal)).collect())
        .collect()
}

#[derive(Default)]
struct Numbers {
    tabs: Vec<Tab>,
    weights: Vec<(String, String, Vec<f64>)>,
    targets: Vec<(String, Vec<(f64, f64)>)>,
    pins: Vec<(usize, Vec<f64>)>,
    uniforms: Vec<Vec<f64>>,
}

impl Numbers {
    fn tab(&self, name: &str) -> &Tab {
        self.tabs.iter().find(|t| t.name == name).expect("a known table")
    }

    fn at(&self, table: &TableModel, column: usize, u: f64) -> Drawn {
        drawn(&self.tab(&table.table).cols[column], u)
    }

    fn parent_weights(&self, rel: &RelPool) -> Vec<f64> {
        let (table, column) = rel.reference.split_once('.').expect("table.column");
        rel.pool
            .weights()
            .iter()
            .map(|w| match w {
                Weight::Count(n) => *n as f64,
                Weight::Level(i) => {
                    let cols = &self.tab(table).cols;
                    match &cols.iter().find(|c| c.name == column).expect("a column").shape {
                        Shape::Levels(_, weights) => weights[*i],
                        _ => 1.0,
                    }
                }
            })
            .collect()
    }
}

impl Sampler for Numbers {
    fn pin(
        &mut self,
        table: &TableModel,
        column: usize,
        target: Pinned,
        rows: usize,
        rng: &mut StdRng,
    ) -> bool {
        let at = |p: &Point| match p {
            Point::Number(s) => s.parse::<f64>().expect("a number"),
            Point::Instant(micros) => *micros as f64 / 1e6,
        };
        let shape = self.tab(&table.table).cols[column].shape.clone();
        let uniforms = match target {
            Pinned::Fixed(p) => vec![unit(cdf(&shape, at(&p))); rows],
            Pinned::Range(a, b) => {
                let low = unit(cdf(&shape, at(&a)));
                let high = unit(cdf(&shape, at(&b)));
                if high <= low {
                    return false;
                }
                (0..rows).map(|_| unit(low + rng.gen::<f64>() * (high - low))).collect()
            }
        };
        self.pins.push((column, uniforms));
        true
    }

    fn sample(&mut self, table: &TableModel, rows: usize, seed: Option<u64>) {
        self.pins.clear();
        let matrix = &self.tab(&table.table).correlation;
        let l = cholesky(matrix);
        let free = normals(matrix.len(), rows, seed);
        self.uniforms = (0..matrix.len())
            .map(|i| {
                (0..rows)
                    .map(|t| {
                        let mut z = 0.0;
                        for j in 0..=i {
                            z += l[i][j] * free[j][t];
                        }
                        normal_cdf(z, 0.0, 1.0)
                    })
                    .collect()
            })
            .collect();
    }

    fn sample_pinned(
        &mut self,
        table: &TableModel,
        rows: usize,
        seed: Option<u64>,
    ) -> Result<(), String> {
        // One pinned column is enough here.
        let matrix = self.tab(&table.table).correlation.clone();
        let (held, pinned) = self.pins[0].clone();
        let free: Vec<usize> = (0..matrix.len()).filter(|i| *i != held).collect();
        let spread: Vec<Vec<f64>> = free
            .iter()
            .map(|i| {
                free.iter()
                    .map(|j| matrix[*i][*j] - matrix[*i][held] * matrix[held][*j])
                    .collect()
            })
            .collect();
        let l = cholesky(&spread);
        let noise = normals(free.len(), rows, seed);
        let mut out = vec![vec![0.0; rows]; matrix.len()];
        out[held] = pinned.clone();
        for t in 0..rows {
            let z0 = normal_ppf(0.0, 1.0, pinned[t]);
            for (i, column) in free.iter().enumerate() {
                let mut z = matrix[*column][held] * z0;
                for j in 0..=i {
                    z += l[i][j] * noise[j][t];
                }
                out[*column][t] = normal_cdf(z, 0.0, 1.0);
            }
        }
        self.uniforms = out;
        Ok(())
    }

    fn value(&self, table: &TableModel, column: usize, row: usize) -> Drawn {
        self.at(table, column, self.uniforms[column][row])
    }

    fn redraw(&self, table: &TableModel, column: usize, rng: &mut StdRng) -> Drawn {
        self.at(table, column, rng.gen::<f64>())
    }

    fn is_null(&self, rate: &str, rng: &mut StdRng) -> bool {
        rng.gen::<f64>() < rate.parse::<f64>().expect("a rate")
    }

    fn parent_index(&self, rel: &RelPool, rng: &mut StdRng) -> usize {
        let weights: Vec<f64> = match rel.strategy {
            SelectionStrategy::Zipf => (1..=rel.pool.len()).map(|k| 1.0 / k as f64).collect(),
            _ => self.parent_weights(rel),
        };
        let total: f64 = weights.iter().sum();
        if total <= 0.0 {
            return rng.gen_range(0..rel.pool.len());
        }
        let u: f64 = rng.gen_range(0.0..total);
        let mut acc = 0.0;
        for (i, w) in weights.iter().enumerate() {
            acc += w;
            if u < acc {
                return i;
            }
        }
        rel.pool.len() - 1
    }

    fn parent_order(&self, rel: &RelPool, rng: &mut StdRng) -> Vec<usize> {
        let weights = self.parent_weights(rel);
        let mut keyed: Vec<(f64, usize)> = (0..rel.pool.len())
            .map(|i| {
                let u = rng.gen::<f64>().clamp(1e-12, 1.0);
                let w = match rel.strategy {
                    SelectionStrategy::Zipf => 1.0 / (i + 1) as f64,
                    _ => weights.get(i).copied().filter(|w| *w > 0.0).unwrap_or(1.0),
                };
                (u.powf(1.0 / w), i)
            })
            .collect();
        keyed.sort_by(|a, b| a.0.total_cmp(&b.0));
        keyed.into_iter().map(|(_, i)| i).collect()
    }

    fn pool_index(
        &self,
        table: &str,
        column: &str,
        pool: &ValuePool,
        rng: &mut StdRng,
    ) -> usize {
        match pool {
            ValuePool::Uniform(values) => {
                ((rng.gen::<f64>() * values.len() as f64) as usize).min(values.len() - 1)
            }
            ValuePool::Weighted { .. } => {
                let weights = self
                    .weights
                    .iter()
                    .find(|(t, c, _)| t == table && c == column)
                    .map(|(_, _, w)| w.clone())
                    .expect("weights of the pool");
                level_at(&weights, rng.gen::<f64>())
            }
        }
    }

    fn branch_target(&self, rule: &TableRule, branch: usize, rows: usize) -> BranchTarget {
        let (target, tolerance) = self
            .targets
            .iter()
            .find(|(t, _)| t == &rule.name)
            .map(|(_, all)| all[branch])
            .expect("a target");
        let n = rows.max(1);
        let share = |m: usize| m as f64 / n as f64;
        let passing: Vec<usize> =
            (0..=rows).filter(|m| (share(*m) - target).abs() <= tolerance).collect();
        BranchTarget {
            wanted: (target * n as f64).round() as usize,
            pass_low: passing.first().copied().unwrap_or(1),
            pass_high: passing.last().copied().unwrap_or(0),
            spared_high: (0..=rows).filter(|m| share(*m) <= target + tolerance).max().unwrap_or(0),
        }
    }

    fn percent(&self, part: usize, whole: u128) -> String {
        format!("{:.2}", part as f64 / whole as f64 * 100.0)
    }
}

// Models and rules.

const ROUNDS: usize = 10;
const TOLERANCE: f64 = 0.05;

fn rate(r: f64) -> Rate {
    Rate { text: r.to_string(), positive: r > 0.0 }
}

fn column(name: &str, kind: LogicalType, shape: Shape) -> Col {
    Col {
        name: name.to_string(),
        kind,
        rounding: None,
        scale: None,
        format: None,
        shape,
        nulls: None,
        min: None,
        max: None,
    }
}

fn normal(name: &str, loc: f64, scale: f64) -> Col {
    column(name, LogicalType::Numerical, Shape::Normal(loc, scale))
}

fn levels(name: &str, kind: LogicalType, values: &[&str], weights: &[f64]) -> Col {
    let values = values.iter().map(|v| v.to_string()).collect();
    column(name, kind, Shape::Levels(values, weights.to_vec()))
}

fn table(name: &str, cols: Vec<Col>) -> Tab {
    let n = cols.len();
    let correlation = (0..n)
        .map(|i| (0..n).map(|j| if i == j { 1.0 } else { 0.0 }).collect())
        .collect();
    Tab { name: name.to_string(), cols, correlation }
}

fn numerical_model(name: &str, col: &str, loc: f64, scale: f64) -> Tab {
    table(name, vec![normal(col, loc, scale)])
}

fn trained(col: &Col) -> ColumnModel {
    ColumnModel {
        logical_type: col.kind,
        rounding: col.rounding,
        decimal_scale: col.scale,
        datetime_format: col.format.clone(),
        min: col.min.map(|x| point(col, x)),
        max: col.max.map(|x| point(col, x)),
        levels: match &col.shape {
            Shape::Levels(values, _) => Some(values.clone()),
            _ => None,
        },
        null_rate: col.nulls.map(rate),
    }
}

fn model_of(tab: &Tab) -> TableModel {
    TableModel {
        version: 1,
        table: tab.name.clone(),
        dialect: "mysql".to_string(),
        schema: None,
        provenance: Provenance {
            source: "test".to_string(),
            converter_version: None,
            sdv_version: None,
            truncated: false,
            trained_rows: None,
        },
        pk: Vec::new(),
        columns: tab.cols.iter().map(|c| (c.name.clone(), trained(c))).collect(),
        column_order: tab.cols.iter().map(|c| c.name.clone()).collect(),
        fk_cardinality: Vec::new(),
    }
}

fn single_rule(name: &str, relationships: Vec<Relationship>) -> TableRule {
    TableRule {
        name: name.to_string(),
        rows: None,
        strategy: TableStrategy::Uniform,
        columns: Vec::new(),
        relationships,
        derive: Vec::new(),
        branches: Vec::new(),
    }
}

fn with_rows(mut rule: TableRule, rows: usize) -> TableRule {
    rule.rows = Some(rows);
    rule
}

fn reference(pk: &str, to: &str, unique: bool) -> Relationship {
    Relationship {
        pk: pk.to_string(),
        references: vec![to.to_string()],
        pool_strategy: PoolStrategy::Projection { unique },
    }
}

fn column_rule() -> ColumnRule {
    ColumnRule {
        fixed: None,
        values: None,
        fixed_range: None,
        mode: ColumnMode::Rejection,
        null_rate: None,
        marginal: None,
        sdtype: SdType::Auto,
        pii_provider: None,
    }
}

fn fixed_rule(text: &str) -> ColumnRule {
    ColumnRule { fixed: Some(text.to_string()), ..column_rule() }
}

fn rate_rule(r: f64) -> ColumnRule {
    ColumnRule { null_rate: Some(rate(r)), ..column_rule() }
}

fn number_end(x: f64) -> Value {
    Value::Number(json_number(x))
}

fn text_end(s: &str) -> Value {
    Value::Text(s.to_string())
}

fn range_rule(a: Value, b: Value) -> ColumnRule {
    ColumnRule { fixed_range: Some((a, b)), ..column_rule() }
}

fn conditional(rule: ColumnRule) -> ColumnRule {
    ColumnRule { mode: ColumnMode::CopulaConditional, ..rule }
}

fn with_column(mut rule: TableRule, name: &str, said: ColumnRule) -> TableRule {
    rule.columns.push((name.to_string(), said));
    rule
}

fn with_derive(mut rule: TableRule, name: &str, expr: &str) -> TableRule {
    rule.derive.push(DeriveRule { column: name.to_string(), expr: expr.to_string() });
    rule
}

#[derive(Default)]
struct Plan {
    tables: Vec<TableRule>,
    weights: Vec<(String, String, Vec<f64>)>,
    targets: Vec<(String, Vec<(f64, f64)>)>,
}

fn plan(tables: Vec<TableRule>) -> Plan {
    Plan { tables, ..Plan::default() }
}

fn add_branch(
    plan: &mut Plan,
    id: &str,
    predicate: &str,
    target: f64,
    tolerance: Option<f64>,
    set: &[(&str, &str)],
) {
    let rule = plan.tables.last_mut().expect("a table");
    rule.branches.push(BranchRule {
        id: id.to_string(),
        predicate: predicate.to_string(),
        set: set.iter().map(|(c, v)| (c.to_string(), v.to_string())).collect(),
    });
    let numbers = (target, tolerance.unwrap_or(TOLERANCE));
    match plan.targets.iter_mut().find(|(t, _)| t == &rule.name) {
        Some((_, all)) => all.push(numbers),
        None => plan.targets.push((rule.name.clone(), vec![numbers])),
    }
}

fn add_pool(plan: &mut Plan, name: &str, values: &[(&str, f64)]) {
    let rule = plan.tables.last_mut().expect("a table");
    let pool = ValuePool::Weighted {
        values: values.iter().map(|(v, _)| v.to_string()).collect(),
        weighs: values.iter().map(|(_, w)| w).sum::<f64>() > 0.0,
    };
    rule.columns.push((
        name.to_string(),
        ColumnRule { values: Some(pool), ..column_rule() },
    ));
    let weights = values.iter().map(|(_, w)| *w).collect();
    plan.weights.push((rule.name.clone(), name.to_string(), weights));
}

fn config(tables: &[&str], rows: usize) -> GeneratorConfig {
    GeneratorConfig {
        rows_per_table: tables.iter().map(|t| (t.to_string(), rows)).collect(),
        seed: Some(42),
        enforce_min_max_values: true,
    }
}

fn run(tabs: &[Tab], plan: Plan, config: &GeneratorConfig) -> Result<GeneratedData, String> {
    let models: Vec<TableModel> = tabs.iter().map(model_of).collect();
    let rules = SynthRules { version: "1".to_string(), tables: plan.tables };
    let mut numbers = Numbers {
        tabs: tabs.to_vec(),
        weights: plan.weights,
        targets: plan.targets,
        ..Numbers::default()
    };
    generate(&models, &rules, config, &mut numbers, ROUNDS)
}

fn rows<'a>(data: &'a GeneratedData, name: &str) -> &'a Vec<Vec<Value>> {
    &data.tables.iter().find(|t| t.name == name).expect("a generated table").rows
}

fn branches(data: &GeneratedData) -> Vec<&BranchOutcome> {
    data.tables.iter().flat_map(|t| t.branches.iter()).collect()
}

fn pools(data: &GeneratedData) -> Vec<&ValuePoolOutcome> {
    data.tables.iter().flat_map(|t| t.value_pools.iter()).collect()
}

fn number_text(v: &Value) -> &str {
    match v {
        Value::Number(s) => s,
        other => panic!("expected a number, got {other:?}"),
    }
}

fn float_of(v: &Value) -> f64 {
    number_text(v).parse().expect("a number")
}

fn whole_number(v: &Value) -> i64 {
    number_text(v).parse().expect("a whole number")
}

fn plain(v: &Value) -> &str {
    match v {
        Value::Text(s) => s,
        other => panic!("expected a text, got {other:?}"),
    }
}

fn json(table: &[Vec<Value>]) -> String {
    let cell = |v: &Value| match v {
        Value::Null => "null".to_string(),
        Value::Bool(b) => b.to_string(),
        Value::Text(s) => format!("{s:?}"),
        Value::Number(s) | Value::Array(s) | Value::Object(s) => s.clone(),
    };
    let lines: Vec<String> = table
        .iter()
        .map(|row| format!("[{}]", row.iter().map(cell).collect::<Vec<_>>().join(",")))
        .collect();
    format!("[{}]", lines.join(","))
}

fn dec(v: &Value) -> Decimal {
    Decimal::from_f64_retain(float_of(v)).unwrap()
}

fn share_of(table: &[Vec<Value>], c: usize, text: &str) -> f64 {
    let hits = table
        .iter()
        .filter(|row| matches!(&row[c], Value::Text(s) if s == text))
        .count();
    hits as f64 / table.len() as f64
}

// Row counts and referential integrity.

#[test]
fn generator_produces_correct_row_count() {
    let tabs = [numerical_model("users", "id", 0.0, 1.0)];
    let data = run(&tabs, plan(vec![single_rule("users", vec![])]), &config(&["users"], 50)).unwrap();
    assert_eq!(rows(&data, "users").len(), 50);
}

#[test]
fn should_generate_per_table_row_counts_from_rules() {
    let tabs = [
        numerical_model("parent", "id", 0.0, 1.0),
        numerical_model("child", "id", 0.0, 1.0),
    ];
    let rules = plan(vec![
        with_rows(single_rule("parent", vec![]), 2),
        with_rows(single_rule("child", vec![]), 5),
    ]);
    let data = run(&tabs, rules, &GeneratorConfig::default()).unwrap();
    assert_eq!(rows(&data, "parent").len(), 2);
    assert_eq!(rows(&data, "child").len(), 5);
}

#[test]
fn should_generate_null_for_all_null_column() {
    let mut tab = numerical_model("t", "empty_num", 0.0, 0.0);
    tab.cols[0].nulls = Some(1.0);
    let data = run(&[tab], plan(vec![single_rule("t", vec![])]), &config(&["t"], 6)).unwrap();
    assert_eq!(rows(&data, "t").len(), 6);
    assert!(rows(&data, "t").iter().all(|row| row[0].is_null()));
}

#[test]
fn should_not_null_out_a_zero_variance_column_with_values() {
    let mut tab = numerical_model("t", "constant", 5.0, 0.0);
    tab.cols[0].nulls = Some(0.0);
    tab.cols[0].min = Some(5.0);
    tab.cols[0].max = Some(5.0);
    let data = run(&[tab], plan(vec![single_rule("t", vec![])]), &config(&["t"], 4)).unwrap();
    assert!(rows(&data, "t").iter().all(|row| float_of(&row[0]) == 5.0));
}

fn int_key_model(name: &str, col: &str, loc: f64) -> Tab {
    numerical_model(name, col, loc, 1.0)
}

#[test]
fn should_sample_referenced_columns_without_duplicates() {
    let key = |name: &str| {
        let mut col = column("id", LogicalType::Numerical, Shape::Uniform(0.0, 100.0));
        col.rounding = Some(0);
        table(name, vec![col])
    };
    let rules = plan(vec![
        with_rows(single_rule("parent", vec![]), 40),
        single_rule("child", vec![reference("id", "parent.id", false)]),
    ]);
    let data = run(&[key("parent"), key("child")], rules, &GeneratorConfig::default()).unwrap();
    let parent = rows(&data, "parent");
    assert_eq!(parent.len(), 40);
    let distinct: HashSet<&str> = parent.iter().map(|r| number_text(&r[0])).collect();
    assert_eq!(distinct.len(), 40);
}

#[test]
fn should_keep_fk_values_in_parent_pool_when_referenced_column_is_fk() {
    let tabs = [
        int_key_model("a", "id", 1_000_000.0),
        int_key_model("b", "a_id", 0.0),
        int_key_model("c", "b_a_id", 0.0),
    ];
    let rules = plan(vec![
        with_rows(single_rule("a", vec![]), 50),
        with_rows(single_rule("b", vec![reference("a_id", "a.id", false)]), 30),
        with_rows(single_rule("c", vec![reference("b_a_id", "b.a_id", false)]), 10),
    ]);
    let data = run(&tabs, rules, &GeneratorConfig::default()).unwrap();
    let ids: HashSet<&str> = rows(&data, "a").iter().map(|r| number_text(&r[0])).collect();
    for row in rows(&data, "b") {
        assert!(ids.contains(number_text(&row[0])), "{row:?} left a.id");
    }
}

#[test]
fn should_error_when_referenced_categorical_levels_cannot_cover_rows() {
    let mut k = levels("k", LogicalType::Numerical, &["1", "2", "3"], &[1.0 / 3.0; 3]);
    k.rounding = Some(0);
    let tabs = [table("parent", vec![k]), int_key_model("child", "k", 0.0)];
    let rules = plan(vec![
        with_rows(single_rule("parent", vec![]), 10),
        single_rule("child", vec![reference("k", "parent.k", false)]),
    ]);
    let err = run(&tabs, rules, &GeneratorConfig::default()).unwrap_err();
    assert!(err.contains("parent.k"), "error must name the column: {err}");
}

#[test]
fn should_error_when_referenced_fk_pool_cannot_cover_rows() {
    let two = |name: &str, col: &str| {
        let mut c = levels(col, LogicalType::Numerical, &["1", "2"], &[0.5, 0.5]);
        c.rounding = Some(0);
        table(name, vec![c])
    };
    let tabs = [two("a", "id"), two("b", "a_id"), int_key_model("c", "b_a_id", 0.0)];
    let rules = plan(vec![
        with_rows(single_rule("a", vec![]), 2),
        with_rows(single_rule("b", vec![reference("a_id", "a.id", false)]), 5),
        single_rule("c", vec![reference("b_a_id", "b.a_id", false)]),
    ]);
    let err = run(&tabs, rules, &GeneratorConfig::default()).unwrap_err();
    assert!(err.contains("b.a_id"), "error must name the column: {err}");
}

#[test]
fn should_error_when_referenced_column_value_space_is_exhausted() {
    let mut tab = numerical_model("parent", "id", 0.0, 0.01);
    tab.cols[0].rounding = Some(0);
    let tabs = [tab, int_key_model("child", "id", 0.0)];
    let rules = plan(vec![
        with_rows(single_rule("parent", vec![]), 200),
        single_rule("child", vec![reference("id", "parent.id", false)]),
    ]);
    let err = run(&tabs, rules, &GeneratorConfig::default()).unwrap_err();
    assert!(err.contains("parent.id"), "error must name the column: {err}");
}

#[test]
fn child_fk_values_come_from_parent_column() {
    let tabs = [
        numerical_model("users", "id", 0.0, 1.0),
        table("orders", vec![normal("total", 10.0, 2.0), normal("user_id", 0.0, 1.0)]),
    ];
    let rules = plan(vec![
        single_rule("orders", vec![reference("user_id", "users.id", false)]),
        single_rule("users", vec![]),
    ]);
    let data = run(&tabs, rules, &config(&["users", "orders"], 30)).unwrap();
    let users = rows(&data, "users");
    let orders = rows(&data, "orders");
    assert_eq!(users.len(), 30);
    assert_eq!(orders.len(), 30);
    let ids: HashSet<u64> = users.iter().map(|r| float_of(&r[0]).to_bits()).collect();
    assert!(!ids.is_empty());
    for row in orders {
        assert!(ids.contains(&float_of(&row[1]).to_bits()), "{row:?} is no parent key");
    }
}

#[test]
fn should_generate_three_table_chain_with_referential_integrity() {
    let chain = |name: &str, cols: &[&str]| {
        let cols = cols
            .iter()
            .map(|c| {
                let mut col = normal(c, 100.0, 15.0);
                col.rounding = Some(0);
                col
            })
            .collect();
        table(name, cols)
    };
    let tabs = [chain("a", &["id"]), chain("b", &["id", "parent"]), chain("c", &["id", "parent"])];
    let rules = plan(vec![
        with_rows(single_rule("c", vec![reference("parent", "b.id", false)]), 20),
        with_rows(single_rule("b", vec![reference("parent", "a.id", false)]), 10),
        with_rows(single_rule("a", vec![]), 3),
    ]);
    let data = run(&tabs, rules, &GeneratorConfig::default()).unwrap();
    let keys = |name: &str| -> HashSet<i64> {
        rows(&data, name).iter().map(|row| whole_number(&row[0])).collect()
    };
    assert_eq!(rows(&data, "a").len(), 3);
    assert_eq!(rows(&data, "b").len(), 10);
    assert_eq!(rows(&data, "c").len(), 20);
    assert!(rows(&data, "b").iter().all(|row| keys("a").contains(&whole_number(&row[1]))));
    assert!(rows(&data, "c").iter().all(|row| keys("b").contains(&whole_number(&row[1]))));
}

#[test]
fn generate_errors_when_reference_target_missing() {
    let tabs = [numerical_model("orders", "total", 10.0, 2.0)];
    let rules = plan(vec![single_rule("orders", vec![reference("total", "ghost.id", false)])]);
    let err = run(&tabs, rules, &config(&["orders"], 5)).unwrap_err();
    assert!(err.contains("ghost.id"), "error should name the target: {err}");
}

#[test]
fn generator_should_weight_fk_references_by_parent_frequency() {
    let cat = |name: &str, col: &str| {
        table(name, vec![levels(col, LogicalType::Categorical, &["a", "b", "c"], &[0.6, 0.3, 0.1])])
    };
    let mut orders = with_rows(
        single_rule("orders", vec![reference("user_id", "users.id", false)]),
        10_000,
    );
    orders.strategy = TableStrategy::Weighted;
    let rules = plan(vec![with_rows(single_rule("users", vec![]), 3), orders]);
    let cfg = GeneratorConfig { seed: Some(42), ..GeneratorConfig::default() };
    let data = run(&[cat("users", "id"), cat("orders", "user_id")], rules, &cfg)
        .expect("Weighted must not error");
    let child = rows(&data, "orders");
    assert_eq!(child.len(), 10_000);
    for (key, expected) in [("a", 0.6), ("b", 0.3), ("c", 0.1)] {
        let share = share_of(child, 0, key);
        assert!((share - expected).abs() < 0.05, "{key} share {share}, expected {expected}");
    }
}

#[test]
fn fixed_pool_strategy_uses_yaml_values() {
    let tabs = [numerical_model("users", "id", 0.0, 1.0)];
    let rules = plan(vec![single_rule(
        "users",
        vec![Relationship {
            pk: "id".to_string(),
            references: vec!["region.code".to_string()],
            pool_strategy: PoolStrategy::Fixed {
                values: vec!["CN".to_string(), "US".to_string()],
            },
        }],
    )]);
    let data = run(&tabs, rules, &config(&["users"], 10)).unwrap();
    assert_eq!(rows(&data, "users").len(), 10);
    for row in rows(&data, "users") {
        let s = plain(row.last().unwrap());
        assert!(s == "CN" || s == "US", "unexpected FK value: {s}");
    }
}

#[test]
fn categorical_column_generates_declared_values() {
    let col = levels("status", LogicalType::Categorical, &["open", "closed"], &[0.5, 0.5]);
    let rules = plan(vec![single_rule("tasks", vec![])]);
    let data = run(&[table("tasks", vec![col])], rules, &config(&["tasks"], 20)).unwrap();
    for row in rows(&data, "tasks") {
        let s = plain(&row[0]);
        assert!(s == "open" || s == "closed", "unexpected: {s}");
    }
}

#[test]
fn should_generate_on_grid_values_for_discrete_numeric() {
    let names: Vec<String> = (1..=19).map(|level| level.to_string()).collect();
    let mut col = column(
        "amount",
        LogicalType::Numerical,
        Shape::Levels(names, vec![1.0 / 19.0; 19]),
    );
    col.rounding = Some(0);
    col.min = Some(1.0);
    col.max = Some(19.0);
    let rules = plan(vec![single_rule("payments", vec![])]);
    let data = run(&[table("payments", vec![col])], rules, &config(&["payments"], 1000)).unwrap();
    assert_eq!(rows(&data, "payments").len(), 1000);
    assert!(rows(&data, "payments")
        .iter()
        .all(|row| (1..=19).contains(&whole_number(&row[0]))));
}

#[test]
fn zipf_strategy_generates_all_rows() {
    let mut rule = single_rule("users", vec![]);
    rule.strategy = TableStrategy::Zipf;
    let tabs = [numerical_model("users", "id", 0.0, 1.0)];
    let data = run(&tabs, plan(vec![rule]), &config(&["users"], 25)).unwrap();
    assert_eq!(rows(&data, "users").len(), 25);
}

#[test]
fn unique_fk_never_repeats() {
    let tabs = [
        numerical_model("users", "id", 0.0, 1.0),
        numerical_model("orders", "total", 10.0, 2.0),
    ];
    let rules = plan(vec![
        single_rule("orders", vec![reference("total", "users.id", true)]),
        single_rule("users", vec![]),
    ]);
    let data = run(&tabs, rules, &config(&["users", "orders"], 5)).unwrap();
    assert_eq!(rows(&data, "users").len(), 5);
    assert_eq!(rows(&data, "orders").len(), 5);
    let ids: HashSet<u64> = rows(&data, "users").iter().map(|r| float_of(&r[0]).to_bits()).collect();
    let mut seen = HashSet::new();
    for row in rows(&data, "orders") {
        let bits = float_of(&row[0]).to_bits();
        assert!(ids.contains(&bits));
        assert!(seen.insert(bits), "unique FK repeated: {row:?}");
    }
}

#[test]
fn unique_fk_errors_when_child_exceeds_parent_pool() {
    let tabs = [
        numerical_model("users", "id", 0.0, 1.0),
        numerical_model("orders", "total", 10.0, 2.0),
    ];
    let rules = plan(vec![
        single_rule("orders", vec![reference("total", "users.id", true)]),
        single_rule("users", vec![]),
    ]);
    let mut cfg = config(&["orders"], 5);
    cfg.rows_per_table.push(("users".to_string(), 3));
    let err = run(&tabs, rules, &cfg).unwrap_err();
    assert!(err.contains("unique FK"), "error: {err}");
    assert!(err.contains("'total'"), "error should name the column: {err}");
    assert!(err.contains("3 parent rows"), "error: {err}");
}

#[test]
fn unique_fk_with_zipf_is_rejected() {
    // Unique keys drawn by rank: each parent is used once.
    let tabs = [
        numerical_model("users", "id", 0.0, 1.0),
        numerical_model("orders", "total", 5.0, 1.0),
    ];
    let mut orders = single_rule("orders", vec![reference("total", "users.id", true)]);
    orders.strategy = TableStrategy::Zipf;
    let rules = plan(vec![orders, single_rule("users", vec![])]);
    let data = run(&tabs, rules, &config(&["users", "orders"], 5)).expect("unique+zipf must not error");
    let seen: HashSet<u64> =
        rows(&data, "orders").iter().map(|row| float_of(&row[0]).to_bits()).collect();
    assert_eq!(seen.len(), 5);
}

#[test]
fn same_seed_yields_different_streams_per_table() {
    let tabs = [numerical_model("alpha", "v", 0.0, 1.0), numerical_model("beta", "v", 0.0, 1.0)];
    let rules = plan(vec![single_rule("alpha", vec![]), single_rule("beta", vec![])]);
    let data = run(&tabs, rules, &config(&["alpha", "beta"], 8)).unwrap();
    assert_ne!(rows(&data, "alpha")[0][0], rows(&data, "beta")[0][0]);
}

#[test]
fn integer_column_generates_whole_numbers() {
    let mut tab = numerical_model("users", "id", 100.0, 15.0);
    tab.cols[0].rounding = Some(0);
    let data = run(&[tab], plan(vec![single_rule("users", vec![])]), &config(&["users"], 30)).unwrap();
    for row in rows(&data, "users") {
        assert!(number_text(&row[0]).parse::<i64>().is_ok(), "not whole: {row:?}");
    }
}

#[test]
fn fk_copies_preserve_parent_integer_type() {
    let mut users = numerical_model("users", "id", 100.0, 15.0);
    users.cols[0].rounding = Some(0);
    let tabs = [users, numerical_model("orders", "total", 5.0, 1.0)];
    let rules = plan(vec![
        single_rule("orders", vec![reference("total", "users.id", true)]),
        single_rule("users", vec![]),
    ]);
    let data = run(&tabs, rules, &config(&["users", "orders"], 4)).unwrap();
    for row in rows(&data, "orders") {
        assert!(number_text(&row[0]).parse::<i64>().is_ok(), "FK copy must stay integer: {row:?}");
    }
}

#[test]
fn clipping_enforces_min_max_bounds() {
    let mut tab = numerical_model("metrics", "value", 100.0, 50.0);
    tab.cols[0].min = Some(0.0);
    tab.cols[0].max = Some(120.0);
    let rules = plan(vec![single_rule("metrics", vec![])]);
    let data = run(&[tab], rules, &config(&["metrics"], 200)).unwrap();
    for row in rows(&data, "metrics") {
        assert!((0.0..=120.0).contains(&float_of(&row[0])), "out of [0, 120]: {row:?}");
    }
}

#[test]
fn clipping_disabled_allows_out_of_range_values() {
    let mut tab = numerical_model("metrics", "value", 100.0, 50.0);
    tab.cols[0].min = Some(0.0);
    tab.cols[0].max = Some(101.0);
    let mut cfg = config(&["metrics"], 200);
    cfg.enforce_min_max_values = false;
    let data = run(&[tab], plan(vec![single_rule("metrics", vec![])]), &cfg).unwrap();
    assert!(rows(&data, "metrics").iter().any(|row| float_of(&row[0]) > 101.0));
}

#[test]
fn generated_data_carries_column_names() {
    let tabs = [numerical_model("users", "id", 0.0, 1.0)];
    let data = run(&tabs, plan(vec![single_rule("users", vec![])]), &config(&["users"], 3)).unwrap();
    assert_eq!(data.tables[0].columns, vec!["id".to_string()]);
}

// Output for a seed.

const USERS: &str =
    "[[2.3076754763602025],[-0.5264344435639146],[-0.48212996526018514],[-0.07395728769978405]]";

fn users_and_orders(amount_rate: Option<f64>) -> [Tab; 2] {
    let mut amount = normal("amount", 10.0, 2.0);
    amount.nulls = amount_rate;
    let mut user_id = normal("user_id", 0.0, 1.0);
    user_id.nulls = Some(0.0);
    [numerical_model("users", "id", 0.0, 1.0), table("orders", vec![amount, user_id])]
}

#[test]
fn should_keep_zero_null_rate_output_byte_identical() {
    let rules = plan(vec![
        single_rule("users", vec![]),
        single_rule("orders", vec![reference("user_id", "users.id", false)]),
    ]);
    let data = run(&users_and_orders(Some(0.0)), rules, &config(&["users", "orders"], 4)).unwrap();
    assert_eq!(json(rows(&data, "users")), USERS);
    assert_eq!(
        json(rows(&data, "orders")),
        "[[8.56627954969241,-0.48212996526018514],[9.248506620196224,-0.48212996526018514],[8.233932622046893,2.3076754763602025],[7.009810102099152,-0.07395728769978405]]"
    );
}

#[test]
fn should_keep_legacy_rules_yaml_output_byte_identical() {
    let mut orders = with_rows(
        single_rule("orders", vec![reference("user_id", "users.id", false)]),
        4,
    );
    orders.strategy = TableStrategy::Zipf;
    orders = with_column(orders, "user_id", rate_rule(0.25));
    orders = with_column(orders, "amount", rate_rule(0.0));
    let rules = plan(vec![with_rows(single_rule("users", vec![]), 4), orders]);
    let data = run(&users_and_orders(None), rules, &config(&["users", "orders"], 4)).unwrap();
    assert_eq!(json(rows(&data, "users")), USERS);
    assert_eq!(
        json(rows(&data, "orders")),
        "[[8.56627954969241,null],[9.248506620196224,-0.5264344435639146],[8.233932622046893,null],[7.009810102099152,-0.5264344435639146]]"
    );
}

// NULLs.

fn model_with_null_rate(name: &str, col: &str, r: f64) -> Tab {
    let mut tab = numerical_model(name, col, 0.0, 1.0);
    tab.cols[0].nulls = Some(r);
    tab
}

fn null_share(table: &[Vec<Value>]) -> f64 {
    table.iter().filter(|row| row[0].is_null()).count() as f64 / table.len() as f64
}

#[test]
fn should_reproduce_training_null_rate() {
    let tabs = [model_with_null_rate("users", "email", 0.20)];
    let rules = plan(vec![single_rule("users", vec![])]);
    let data = run(&tabs, rules, &config(&["users"], 10_000)).unwrap();
    assert_eq!(rows(&data, "users").len(), 10_000);
    let observed = null_share(rows(&data, "users"));
    assert!((0.17..=0.23).contains(&observed), "observed null rate {observed}");
}

#[test]
fn should_place_nulls_identically_for_same_seed() {
    let tabs = [model_with_null_rate("users", "email", 0.20)];
    let mask = || -> Vec<bool> {
        let rules = plan(vec![single_rule("users", vec![])]);
        let data = run(&tabs, rules, &config(&["users"], 200)).unwrap();
        rows(&data, "users").iter().map(|row| row[0].is_null()).collect()
    };
    let first = mask();
    assert_eq!(first, mask());
    assert!(first.iter().any(|is_null| *is_null));
    assert!(first.iter().any(|is_null| !*is_null));
}

#[test]
fn should_keep_fk_values_in_parent_pool_when_null_rate_is_set() {
    let mut child = numerical_model("orders", "user_id", 0.0, 1.0);
    child.cols[0].rounding = Some(0);
    child.cols[0].nulls = Some(0.1);
    let tabs = [model_with_null_rate("users", "id", 0.5), child];
    let rules = plan(vec![
        single_rule("users", vec![]),
        single_rule("orders", vec![reference("user_id", "users.id", false)]),
    ]);
    let data = run(&tabs, rules, &config(&["users", "orders"], 200)).unwrap();
    let parents = rows(&data, "users");
    assert!(parents.iter().all(|row| !row[0].is_null()));
    let pool: HashSet<&str> = parents.iter().map(|row| number_text(&row[0])).collect();
    let children = rows(&data, "orders");
    assert!(children.iter().any(|row| row[0].is_null()));
    assert!(children.iter().any(|row| !row[0].is_null()));
    for row in children.iter().filter(|row| !row[0].is_null()) {
        assert!(pool.contains(number_text(&row[0])), "{row:?} is no parent key");
    }
}

#[test]
fn should_override_null_rate_from_rules() {
    let rules = plan(vec![with_column(single_rule("users", vec![]), "email", rate_rule(0.0))]);
    let data = run(
        &[model_with_null_rate("users", "email", 0.50)],
        rules,
        &config(&["users"], 200),
    )
    .unwrap();
    assert!(rows(&data, "users").iter().all(|row| !row[0].is_null()));

    let rules = plan(vec![with_column(single_rule("users", vec![]), "email", rate_rule(0.20))]);
    let data = run(
        &[model_with_null_rate("users", "email", 0.0)],
        rules,
        &config(&["users"], 10_000),
    )
    .unwrap();
    let observed = null_share(rows(&data, "users"));
    assert!((0.17..=0.23).contains(&observed), "observed null rate {observed}");
}

#[test]
fn should_not_consume_unique_fk_pool_on_null_rows() {
    let mut child = numerical_model("orders", "user_id", 0.0, 1.0);
    child.cols[0].nulls = Some(0.5);
    let tabs = [numerical_model("users", "id", 0.0, 1.0), child];
    let mut orders =
        with_rows(single_rule("orders", vec![reference("user_id", "users.id", true)]), 14);
    orders = with_column(orders, "user_id", rate_rule(0.5));
    let rules = plan(vec![with_rows(single_rule("users", vec![]), 10), orders]);
    // A seed under which at most ten of the fourteen keys are asked for.
    let data = run(&tabs, rules, &config(&[], 0)).expect("NULL rows must not exhaust the pool");
    let pool: HashSet<&str> = rows(&data, "users").iter().map(|r| number_text(&r[0])).collect();
    let mut used = HashSet::new();
    for row in rows(&data, "orders").iter().filter(|row| !row[0].is_null()) {
        let key = number_text(&row[0]);
        assert!(pool.contains(key));
        assert!(used.insert(key), "unique FK repeated: {row:?}");
    }
    assert!(rows(&data, "orders").iter().any(|row| row[0].is_null()));
}

// Digits.

fn amounts(scale: Option<u8>, spread: f64, max: f64) -> Tab {
    let mut tab = numerical_model("payments", "amt", 1004.5678, spread);
    tab.cols[0].scale = scale;
    tab.cols[0].min = Some(1.0);
    tab.cols[0].max = Some(max);
    tab.cols[0].nulls = Some(0.0);
    tab
}

#[test]
fn should_keep_legacy_model_without_decimal_scale_byte_identical() {
    let rules = plan(vec![single_rule("payments", vec![])]);
    let data = run(&[amounts(None, 12.5, 2000.0)], rules, &config(&["payments"], 8)).unwrap();
    assert_eq!(
        json(rows(&data, "payments")),
        "[[1007.664388321776],[1021.4910250901899],[1000.258291072789],[1022.4674214957709],[989.8366471906627],[1004.3359119647007],[1007.8413059613897],[982.1004635402403]]"
    );
}

fn matches_scaled_decimal(s: &str, max_frac: usize) -> bool {
    let Some((head, frac)) = s.split_once('.') else {
        return false;
    };
    !head.is_empty()
        && head.bytes().all(|b| b.is_ascii_digit())
        && (1..=max_frac).contains(&frac.len())
        && frac.bytes().all(|b| b.is_ascii_digit())
}

fn generated_amt_strings(scale: u8, count: usize) -> Vec<String> {
    let rules = plan(vec![single_rule("payments", vec![])]);
    let data =
        run(&[amounts(Some(scale), 50.0, 9999.0)], rules, &config(&["payments"], count)).unwrap();
    rows(&data, "payments").iter().map(|row| number_text(&row[0]).to_string()).collect()
}

#[test]
fn should_quantize_generated_values_to_four_place_scale() {
    for s in generated_amt_strings(4, 10_000) {
        assert!(matches_scaled_decimal(&s, 4), "value {s} must have up to four places");
        assert!(!s.contains("9999999"), "trailing 9s artefact: {s}");
    }
}

#[test]
fn should_quantize_generated_values_to_two_place_scale() {
    for s in generated_amt_strings(2, 10_000) {
        assert!(matches_scaled_decimal(&s, 2), "value {s} must have up to two places");
        assert!(!s.contains("9999999"), "trailing 9s artefact: {s}");
    }
}

#[test]
fn should_keep_integer_columns_emitting_i64() {
    let mut tab = numerical_model("ids", "id", 50.0, 10.0);
    tab.cols[0].rounding = Some(0);
    tab.cols[0].scale = Some(0);
    tab.cols[0].min = Some(0.0);
    tab.cols[0].max = Some(100.0);
    tab.cols[0].nulls = Some(0.0);
    let data = run(&[tab], plan(vec![single_rule("ids", vec![])]), &config(&["ids"], 200)).unwrap();
    for row in rows(&data, "ids") {
        assert!(number_text(&row[0]).parse::<i64>().is_ok(), "not whole: {row:?}");
    }
}

#[test]
fn should_keep_legacy_datetime_model_behaviour() {
    let generated = |kind: LogicalType| {
        let col = levels("created_at", kind, &["2024-01-01", "2024-06-01"], &[0.5, 0.5]);
        let rules = plan(vec![single_rule("t", vec![])]);
        run(&[table("t", vec![col])], rules, &config(&["t"], 80)).unwrap()
    };
    let from_dt = generated(LogicalType::Datetime);
    let from_cat = generated(LogicalType::Categorical);
    assert_eq!(rows(&from_dt, "t"), rows(&from_cat, "t"));
    for row in rows(&from_dt, "t") {
        let s = plain(&row[0]);
        assert!(s == "2024-01-01" || s == "2024-06-01");
    }
}

fn scaled_column(scale: u8, bounds: Option<(f64, f64)>, loc: f64) -> Col {
    let mut col = column("v", LogicalType::Numerical, Shape::Uniform(loc, loc));
    col.scale = Some(scale);
    col.min = bounds.map(|b| b.0);
    col.max = bounds.map(|b| b.1);
    col.nulls = Some(0.0);
    col
}

fn generated_value(col: &Col) -> Value {
    gen_column_value(Some(&trained(col)), drawn(col, 0.5), true)
}

#[test]
fn quantize_is_bit_exact_and_uses_decimal_half_up() {
    let bits = |value: f64, scale: u8| {
        quantize(&value.to_string(), scale).parse::<f64>().expect("a number").to_bits()
    };
    assert_eq!(bits(1.23456, 4), 1.2346f64.to_bits());
    assert_eq!(bits(1.23455, 4), 1.2346f64.to_bits());
    assert_eq!(bits(1.23454, 4), 1.2345f64.to_bits());
    assert_eq!(bits(1.225, 2), 1.23f64.to_bits());
    assert_eq!(bits(-1.225, 2), (-1.23f64).to_bits());
    let artefact = quantize(&1004.9999999999999f64.to_string(), 4);
    assert_eq!(artefact.parse::<f64>().unwrap().to_bits(), 1005.0f64.to_bits());
    assert!(!artefact.contains("9999999"));
}

#[test]
fn the_bounds_of_a_grid_lie_within_the_range() {
    let pair = |a: &str, b: &str| (a.to_string(), b.to_string());
    assert_eq!(grid_bounds("1.221", "1.229", 2), pair("1.23", "1.22"));
    assert_eq!(grid_bounds("-1.225", "1.225", 2), pair("-1.22", "1.22"));
    assert_eq!(grid_bounds("-0.5", "2.5", 0), pair("0.0", "2.0"));
    assert_eq!(grid_bounds("1e300", "inf", 2), pair("1e300", "inf"));
}

#[test]
fn points_of_a_column_are_clipped_and_snapped() {
    let value = |col: &Col, x: &str, enforce: bool| {
        gen_column_value(Some(&trained(col)), Drawn::Real(Point::Number(x.to_string())), enforce)
    };
    let number = |s: &str| Value::Number(s.to_string());
    let col = scaled_column(2, Some((1.0, 2.0)), 1.5);
    assert_eq!(value(&col, "1.239", true), number("1.24"));
    assert_eq!(value(&col, "7.5", true), number("2.0"));
    assert_eq!(value(&col, "-7.5", true), number("1.0"));
    assert_eq!(value(&col, "7.509", false), number("7.51"));
    assert_eq!(value(&col, "inf", true), number("2.0"));
    assert_eq!(value(&col, "NaN", true), number("1.0"));
    assert_eq!(value(&col, "inf", false), Value::Null);
    let narrow = scaled_column(2, Some((1.221, 1.229)), 1.225);
    assert_eq!(value(&narrow, "1.225", true), number("1.23"));
    let mut whole = scaled_column(0, Some((-3.5, 3.5)), 0.0);
    whole.rounding = Some(0);
    assert_eq!(value(&whole, "2.5", true), number("3"));
    assert_eq!(value(&whole, "-9", true), number("-3"));
    assert_eq!(value(&whole, "1e30", false), number(&i64::MAX.to_string()));
    assert_eq!(value(&whole, "-inf", false), number(&i64::MIN.to_string()));
    assert_eq!(value(&whole, "NaN", false), number("0"));
}

#[test]
fn instants_of_a_column_are_clipped_and_written() {
    let mut col = column("at", LogicalType::Datetime, Shape::Uniform(0.0, 1.0));
    col.format = Some("%Y-%m-%d %H:%M:%S".to_string());
    let mut model = trained(&col);
    model.max = Some(Point::Number("86400.0".to_string()));
    let at = |n: i64, enforce: bool| {
        gen_column_value(Some(&model), Drawn::Real(Point::Instant(n)), enforce)
    };
    let text = |s: &str| Value::Text(s.to_string());
    assert_eq!(at(60_000_000, true), text("1970-01-01 00:01:00"));
    assert_eq!(at(90_000_000_000, true), text("1970-01-02 00:00:00"));
    assert_eq!(at(90_000_000_000, false), text("1970-01-02 01:00:00"));
}

#[test]
fn should_keep_quantized_values_within_training_max() {
    let value = generated_value(&scaled_column(2, Some((1.0, 1.225)), 1.225));
    assert_eq!(value, Value::Number("1.22".to_string()));
}

#[test]
fn should_keep_quantized_values_within_training_min() {
    let value = generated_value(&scaled_column(2, Some((1.225, 2.0)), 1.225));
    assert_eq!(value, Value::Number("1.23".to_string()));
}

#[test]
fn should_keep_rounded_integers_within_training_max() {
    let mut col = scaled_column(0, Some((0.0, 1.5)), 1.5);
    col.rounding = Some(0);
    assert_eq!(generated_value(&col), Value::Number("1".to_string()));
}

#[test]
fn should_leave_quantized_values_alone_without_min_max() {
    let value = generated_value(&scaled_column(2, None, 1.225));
    assert_eq!(value, Value::Number("1.23".to_string()));
}

#[test]
fn a_column_without_a_model_or_values_stays_null() {
    let one = || Drawn::Real(Point::Number("1.0".to_string()));
    assert_eq!(gen_column_value(None, one(), true), Value::Null);
    let mut col = scaled_column(2, None, 1.0);
    assert_eq!(gen_column_value(Some(&trained(&col)), one(), true), Value::Number("1.0".to_string()));
    col.nulls = Some(1.0);
    assert_eq!(gen_column_value(Some(&trained(&col)), one(), true), Value::Null);
}

// Column rules.

fn status_table(name: &str) -> Tab {
    table(name, vec![levels("status", LogicalType::Categorical, &["seed"], &[1.0])])
}

#[test]
fn should_pin_column_to_fixed_value() {
    let tabs = [numerical_model("t", "amount", 0.0, 1.0)];
    let rules = plan(vec![with_column(single_rule("t", vec![]), "amount", fixed_rule("42"))]);
    let data = run(&tabs, rules, &config(&["t"], 5)).unwrap();
    assert_eq!(rows(&data, "t").len(), 5);
    assert!(rows(&data, "t").iter().all(|row| whole_number(&row[0]) == 42));
}

#[test]
fn should_emit_numeric_fixed_value_without_quotes() {
    let tabs = [numerical_model("t", "part_date", 0.0, 1.0)];
    let rules =
        plan(vec![with_column(single_rule("t", vec![]), "part_date", fixed_rule("20240101"))]);
    let data = run(&tabs, rules, &config(&["t"], 4)).unwrap();
    for row in rows(&data, "t") {
        assert_eq!(row[0], Value::Number("20240101".to_string()));
    }
}

#[test]
fn should_sample_weighted_value_pool_according_to_weights() {
    let mut rules = plan(vec![single_rule("t", vec![])]);
    add_pool(&mut rules, "status", &[("normal", 0.7), ("peak", 0.3)]);
    let data = run(&[status_table("t")], rules, &config(&["t"], 10_000)).unwrap();
    for (key, expected) in [("normal", 0.7), ("peak", 0.3)] {
        let share = share_of(rows(&data, "t"), 0, key);
        assert!((share - expected).abs() < 0.05, "{key} share {share}, expected {expected}");
    }
}

fn uniform_pool(values: &[&str]) -> ColumnRule {
    let pool = ValuePool::Uniform(values.iter().map(|v| v.to_string()).collect());
    ColumnRule { values: Some(pool), ..column_rule() }
}

#[test]
fn should_emit_numeric_value_pool_without_quotes() {
    let tabs = [numerical_model("t", "amount", 0.0, 1.0)];
    let rules =
        plan(vec![with_column(single_rule("t", vec![]), "amount", uniform_pool(&["1", "2", "3"]))]);
    let data = run(&tabs, rules, &config(&["t"], 30)).unwrap();
    for row in rows(&data, "t") {
        assert!((1..=3).contains(&whole_number(&row[0])), "unexpected pool value {row:?}");
    }
}

#[test]
fn should_reproduce_value_pool_for_same_seed() {
    let drawn_once = || {
        let mut rules = plan(vec![single_rule("t", vec![])]);
        add_pool(&mut rules, "status", &[("normal", 0.6), ("peak", 0.4)]);
        let data = run(&[status_table("t")], rules, &config(&["t"], 500)).unwrap();
        json(rows(&data, "t"))
    };
    assert_eq!(drawn_once(), drawn_once());
}

#[test]
fn should_keep_other_columns_rng_stream_untouched_by_fixed_column() {
    let tabs = [table("t", vec![normal("a", 0.0, 1.0), normal("b", 10.0, 1.0)])];
    let baseline = run(&tabs, plan(vec![single_rule("t", vec![])]), &config(&["t"], 50)).unwrap();
    let rules = plan(vec![with_column(single_rule("t", vec![]), "a", fixed_rule("999"))]);
    let fixed = run(&tabs, rules, &config(&["t"], 50)).unwrap();
    let second = |data: &GeneratedData| -> Vec<String> {
        rows(data, "t").iter().map(|row| number_text(&row[1]).to_string()).collect()
    };
    assert_eq!(second(&baseline), second(&fixed));
    assert!(rows(&fixed, "t").iter().all(|row| whole_number(&row[0]) == 999));
}

#[test]
fn should_redraw_until_value_inside_fixed_range() {
    let col = column("v", LogicalType::Numerical, Shape::Uniform(0.0, 100.0));
    let said = range_rule(number_end(10.0), number_end(20.0));
    let rules = plan(vec![with_column(single_rule("t", vec![]), "v", said)]);
    let data = run(&[table("t", vec![col])], rules, &config(&["t"], 1000)).unwrap();
    for row in rows(&data, "t") {
        assert!((10.0..=20.0).contains(&float_of(&row[0])), "out of range: {row:?}");
    }
}

#[test]
fn should_error_when_fixed_range_on_categorical_column() {
    let said = range_rule(text_end("a"), text_end("b"));
    let rules = plan(vec![with_column(single_rule("t", vec![]), "status", said)]);
    let err = run(&[status_table("t")], rules, &config(&["t"], 10)).unwrap_err();
    assert!(err.contains("status"), "error must name the column: {err}");
    assert!(err.contains("categorical"), "error must be explicit: {err}");
}

#[test]
fn should_error_when_fixed_range_acceptance_is_below_one_percent() {
    let tabs = [numerical_model("t", "v", 0.0, 1.0)];
    let said = range_rule(number_end(2.0), number_end(2.1));
    let rules = plan(vec![with_column(single_rule("t", vec![]), "v", said)]);
    let err = run(&tabs, rules, &config(&["t"], 100)).unwrap_err();
    assert!(err.contains('v'), "error must name the column: {err}");
    assert!(err.contains("copula_conditional"), "error must suggest the other mode: {err}");
}

// Conditional draws.

fn correlated_pair(rho: f64) -> Tab {
    let mut tab = table("t", vec![normal("a", 0.0, 1.0), normal("b", 0.0, 1.0)]);
    tab.correlation = vec![vec![1.0, rho], vec![rho, 1.0]];
    tab
}

fn pinned_plan(name: &str, said: ColumnRule) -> Plan {
    plan(vec![with_column(single_rule("t", vec![]), name, conditional(said))])
}

fn column_stats(data: &GeneratedData, c: usize) -> (f64, f64, f64) {
    let values: Vec<f64> = rows(data, "t").iter().map(|row| float_of(&row[c])).collect();
    let min = values.iter().cloned().fold(f64::INFINITY, f64::min);
    let max = values.iter().cloned().fold(f64::NEG_INFINITY, f64::max);
    (min, max, values.iter().sum::<f64>() / values.len() as f64)
}

#[test]
fn should_truncate_pinned_column_to_the_conditional_range() {
    let rules = pinned_plan("a", range_rule(number_end(-1.0), number_end(1.0)));
    let data = run(&[correlated_pair(0.9)], rules, &config(&["t"], 3000)).unwrap();
    let (min, max, _) = column_stats(&data, 0);
    assert!(min >= -1.0 && max <= 1.0, "pinned column escaped the range: [{min}, {max}]");
    assert!(min < -0.5 && max > 0.5, "range not covered: [{min}, {max}]");
}

#[test]
fn should_condition_other_columns_on_the_pinned_value() {
    let rules = pinned_plan("a", fixed_rule("1.2816"));
    let data = run(&[correlated_pair(0.9)], rules, &config(&["t"], 4000)).unwrap();
    let (min, max, _) = column_stats(&data, 0);
    assert_eq!((min, max), (1.2816, 1.2816), "fixed value must be exact");
    let (_, _, mean) = column_stats(&data, 1);
    assert!((mean - 1.15).abs() < 0.1, "conditioned mean of b was {mean}, expected 1.15");
}

#[test]
fn should_apply_the_conditional_pin_to_every_row_deterministically() {
    let once = || {
        let rules = pinned_plan("a", range_rule(number_end(-0.5), number_end(0.5)));
        let data = run(&[correlated_pair(0.5)], rules, &config(&["t"], 200)).unwrap();
        json(rows(&data, "t"))
    };
    assert_eq!(once(), once());
}

#[test]
fn should_reject_copula_conditional_on_a_categorical_column() {
    let rules = pinned_plan("status", fixed_rule("a"));
    let err = run(&[status_table("t")], rules, &config(&["t"], 10)).unwrap_err();
    assert!(err.contains("status"), "error must name the column: {err}");
    assert!(err.contains("categorical"), "error must be explicit: {err}");
}

#[test]
fn should_reject_copula_conditional_range_outside_the_trained_marginal() {
    let rules = pinned_plan("a", range_rule(number_end(10.0), number_end(20.0)));
    let err = run(&[correlated_pair(0.5)], rules, &config(&["t"], 10)).unwrap_err();
    assert!(err.contains('a'), "error must name the column: {err}");
    assert!(err.contains("probability mass"), "error must explain the cause: {err}");
}

#[test]
fn should_keep_unpinned_output_byte_identical_when_no_conditional_mode_is_set() {
    let rules = plan(vec![single_rule("t", vec![])]);
    let data = run(&[correlated_pair(0.9)], rules, &config(&["t"], 4)).unwrap();
    assert_eq!(
        json(rows(&data, "t")),
        "[[-0.7745645303296556,-1.0475389209122454],[1.0044406514899151,0.8203717137465105],[-2.1981105969970827,-2.360240735362993],[0.1440950566134802,-0.4979425620572897]]"
    );
}

// Derived columns.

fn three_column_model() -> Tab {
    let cols = ["price", "qty", "total"].iter().map(|c| normal(c, 0.0, 1.0)).collect();
    table("t", cols)
}

#[test]
fn should_derive_column_as_an_exact_function_of_other_columns() {
    let rules = plan(vec![with_derive(single_rule("t", vec![]), "total", "price * qty")]);
    let data = run(&[three_column_model()], rules, &config(&["t"], 500)).unwrap();
    for row in rows(&data, "t") {
        let product = dec(&row[0]) * dec(&row[1]);
        assert_eq!(dec(&row[2]).round_dp(12), product.round_dp(12), "row {row:?}");
    }
}

#[test]
fn should_derive_in_dependency_order() {
    let cols = ["price", "qty", "b", "c"].iter().map(|c| normal(c, 0.0, 1.0)).collect();
    let mut rule = single_rule("t", vec![]);
    rule = with_derive(rule, "c", "b + 1");
    rule = with_derive(rule, "b", "price * 2");
    let data = run(&[table("t", cols)], plan(vec![rule]), &config(&["t"], 200)).unwrap();
    for row in rows(&data, "t") {
        let (price, b, c) = (dec(&row[0]), dec(&row[2]), dec(&row[3]));
        assert_eq!(b.round_dp(12), (price * Decimal::TWO).round_dp(12));
        assert_eq!(c.round_dp(12), (b + Decimal::ONE).round_dp(12));
    }
}

#[test]
fn should_reject_derive_referencing_an_unknown_column() {
    let rules = plan(vec![with_derive(single_rule("t", vec![]), "total", "price * ghost")]);
    let err = run(&[three_column_model()], rules, &config(&["t"], 10)).unwrap_err();
    assert!(err.contains("ghost"), "error must name the column: {err}");
}

#[test]
fn should_propagate_null_from_a_derived_expression_source() {
    let mut tab = three_column_model();
    tab.cols[0].nulls = Some(0.5);
    let rules = plan(vec![with_derive(single_rule("t", vec![]), "total", "price * qty")]);
    let data = run(&[tab], rules, &config(&["t"], 200)).expect("a NULL source must not abort");
    let table = rows(&data, "t");
    let nulls = table.iter().filter(|row| row[2].is_null()).count();
    assert!(nulls > 0 && nulls < table.len(), "expected a mix, got {nulls} of {}", table.len());
    for row in table {
        if row[2].is_null() {
            assert!(row[0].is_null(), "a NULL total without a NULL source: {row:?}");
        } else {
            let product = dec(&row[0]) * dec(&row[1]);
            assert_eq!(dec(&row[2]).round_dp(12), product.round_dp(12), "row {row:?}");
        }
    }
}

#[test]
fn should_keep_output_byte_identical_without_derive_rules() {
    let rules = plan(vec![single_rule("t", vec![])]);
    let data = run(&[three_column_model()], rules, &config(&["t"], 3)).unwrap();
    assert_eq!(
        json(rows(&data, "t")),
        "[[-0.7745645303296556,0.1440950566134802,-0.8762332024966213],[1.0044406514899151,-0.803943491589223,-1.4398776414381587],[-2.1981105969970827,-0.19184861516094998,0.5787749357941152]]"
    );
}

// Datetime ranges.

const SECOND: i64 = 1_000_000;

fn instant(s: &str, format: &str) -> i64 {
    parse_to_epoch(&Value::Text(s.to_string()), Some(format))
        .unwrap_or_else(|| panic!("{s} must parse"))
}

fn datetime_model(format: &str, centre: &str, days: f64) -> Tab {
    let loc = (instant(centre, format) / SECOND) as f64;
    let mut col = column(
        "created_at",
        LogicalType::Datetime,
        Shape::Normal(loc, days * 86_400.0),
    );
    col.format = Some(format.to_string());
    table("t", vec![col])
}

#[test]
fn should_compare_a_datetime_fixed_range_in_epochs_not_as_text() {
    const FORMAT: &str = "%d/%m/%Y";
    let said = range_rule(text_end("01/01/2026"), text_end("31/01/2026"));
    let rules = plan(vec![with_column(single_rule("t", vec![]), "created_at", said)]);
    let tab = datetime_model(FORMAT, "15/01/2026", 10.0);
    let data = run(&[tab], rules, &config(&["t"], 400)).unwrap();
    let (low, high) = (instant("01/01/2026", FORMAT), instant("31/01/2026", FORMAT));
    for row in rows(&data, "t") {
        let at = instant(plain(&row[0]), FORMAT);
        assert!(low <= at && at <= high, "{row:?} is outside the range");
    }
}

fn assert_in_january(data: &GeneratedData, format: &str) {
    let low = instant("2026-01-01 00:00:00", format);
    let high = instant("2026-01-31 00:00:00", format);
    for row in rows(data, "t") {
        let at = instant(plain(&row[0]), format);
        assert!(low <= at && at <= high, "{row:?} is outside the closed range");
    }
}

#[test]
fn should_accept_a_date_only_endpoint_on_a_datetime_column() {
    const FORMAT: &str = "%Y-%m-%d %H:%M:%S";
    let said = range_rule(text_end("2026-01-01"), text_end("2026-01-31"));
    let rules = plan(vec![with_column(single_rule("t", vec![]), "created_at", said)]);
    let tab = datetime_model(FORMAT, "2026-01-15 12:00:00", 5.0);
    assert_in_january(&run(&[tab], rules, &config(&["t"], 200)).unwrap(), FORMAT);
}

#[test]
fn should_accept_a_date_only_endpoint_for_copula_conditional_too() {
    const FORMAT: &str = "%Y-%m-%d %H:%M:%S";
    let rules = pinned_plan("created_at", range_rule(text_end("2026-01-01"), text_end("2026-01-31")));
    let tab = datetime_model(FORMAT, "2026-01-15 12:00:00", 5.0);
    assert_in_january(&run(&[tab], rules, &config(&["t"], 200)).unwrap(), FORMAT);
}

// Branches.

fn binary_model(values: &[&str], weights: &[f64]) -> Tab {
    table(
        "t",
        vec![levels("status", LogicalType::Categorical, values, weights), normal("amount", 0.0, 1.0)],
    )
}

fn with_double(mut tab: Tab, centre: f64) -> Tab {
    tab.cols[1].shape = Shape::Normal(centre, 1.0);
    tab.cols.push(normal("double", 0.0, 1.0));
    table("t", tab.cols)
}

fn branch_rules(target: f64, tolerance: Option<f64>, set: &[(&str, &str)]) -> Plan {
    let mut rules = plan(vec![single_rule("t", vec![])]);
    add_branch(&mut rules, "paid", "status == 'A'", target, tolerance, set);
    rules
}

fn doubled_rules() -> Plan {
    plan(vec![with_derive(single_rule("t", vec![]), "double", "amount * 2")])
}

fn assert_doubled(table: &[Vec<Value>]) {
    for row in table {
        let twice = dec(&row[1]) * Decimal::TWO;
        assert_eq!(dec(&row[2]).round_dp(12), twice.round_dp(12), "stale derived value: {row:?}");
    }
}

fn amount_texts(data: &GeneratedData) -> Vec<String> {
    rows(data, "t").iter().map(|row| number_text(&row[1]).to_string()).collect()
}

#[test]
fn should_repair_branch_coverage_up_to_the_target() {
    let rules = branch_rules(0.8, Some(0.02), &[("status", "A")]);
    let data = run(&[binary_model(&["A", "B"], &[0.5, 0.5])], rules, &config(&["t"], 1000)).unwrap();
    let outcome = branches(&data)[0];
    assert_eq!(outcome.status, CoverageStatus::Pass, "{outcome:?}");
    let share = share_of(rows(&data, "t"), 0, "A");
    assert!((share - 0.8).abs() <= 0.02, "actual A ratio {share} is outside tolerance");
    assert!(outcome.flips > 0, "rows must have been rewritten");
    assert_eq!(outcome.failed_evaluations, 0);
}

#[test]
fn should_leave_rows_untouched_when_the_branch_is_already_covered() {
    let rules = branch_rules(0.8, Some(0.05), &[("status", "A")]);
    let data = run(&[binary_model(&["A", "B"], &[0.8, 0.2])], rules, &config(&["t"], 1000)).unwrap();
    let outcome = branches(&data)[0];
    assert_eq!(outcome.status, CoverageStatus::Pass, "{outcome:?}");
    assert_eq!(outcome.flips, 0, "a covered branch must not rewrite rows");
}

#[test]
fn should_recompute_derived_columns_after_a_repair() {
    let mut rules = doubled_rules();
    add_branch(&mut rules, "big", "amount > 3", 0.8, Some(0.02), &[("amount", "7.5")]);
    let tab = with_double(binary_model(&["A", "B"], &[0.5, 0.5]), 0.0);
    let data = run(&[tab], rules, &config(&["t"], 600)).unwrap();
    assert_eq!(branches(&data)[0].status, CoverageStatus::Pass);
    assert_doubled(rows(&data, "t"));
}

#[test]
fn should_recompute_derived_columns_when_the_predicate_reads_them() {
    let mut rules = doubled_rules();
    add_branch(&mut rules, "big", "double > 3", 0.8, Some(0.02), &[("amount", "7.5")]);
    let tab = with_double(binary_model(&["A", "B"], &[0.5, 0.5]), 0.0);
    let data = run(&[tab], rules, &config(&["t"], 600)).unwrap();
    assert_eq!(branches(&data)[0].status, CoverageStatus::Pass, "{:?}", branches(&data));
    assert_doubled(rows(&data, "t"));
}

#[test]
fn should_leave_no_stale_derived_value_after_a_stalled_repair_rollback() {
    let tab = with_double(binary_model(&["A", "B"], &[0.5, 0.5]), 0.0);
    let tabs = [tab];
    let clean = run(&tabs, plan(vec![single_rule("t", vec![])]), &config(&["t"], 400)).unwrap();
    let mut rules = doubled_rules();
    add_branch(&mut rules, "paid", "status == 'A'", 0.9, Some(0.02), &[("amount", "7")]);
    let repaired = run(&tabs, rules, &config(&["t"], 400)).unwrap();
    assert_ne!(branches(&repaired)[0].status, CoverageStatus::Pass);
    assert_eq!(amount_texts(&clean), amount_texts(&repaired));
    assert_doubled(rows(&repaired, "t"));
}

fn repair_two_rows(wanted: usize, referenced: &[String]) -> Result<Vec<BranchOutcome>, String> {
    let mut rules = doubled_rules();
    add_branch(&mut rules, "big", "amount > 3", 1.0, None, &[("amount", "7")]);
    let model = model_of(&with_double(binary_model(&["A", "B"], &[0.5, 0.5]), 0.0));
    let row = || {
        vec![
            Value::Text("A".to_string()),
            Value::Number("1".to_string()),
            Value::Number("2".to_string()),
        ]
    };
    let mut table = vec![row(), row()];
    let target = BranchTarget { wanted, pass_low: wanted, pass_high: wanted, spared_high: wanted };
    let columns = model.column_order.clone();
    apply_branch_repair(&mut table, &rules.tables[0], &model, &columns, referenced, &[target], ROUNDS)
}

#[test]
fn a_round_that_rewrites_rows_refuses_a_derived_parent_key() {
    let parent = ["t.double".to_string()];
    assert_eq!(repair_two_rows(1, &[]).unwrap()[0].flips, 1);
    assert_eq!(repair_two_rows(0, &parent).unwrap()[0].flips, 0);
    let message = repair_two_rows(1, &parent).unwrap_err();
    assert!(message.starts_with("table 't': derive cannot target parent key 't.double'"), "{message}");
}

fn two_sided(values: &[&str], weights: &[f64]) -> GeneratedData {
    let mut rules = plan(vec![single_rule("t", vec![])]);
    add_branch(&mut rules, "a", "status == 'A'", 0.3, Some(0.02), &[("status", "A")]);
    add_branch(&mut rules, "b", "status == 'B'", 0.7, Some(0.02), &[("status", "B")]);
    run(&[binary_model(values, weights)], rules, &config(&["t"], 500)).unwrap()
}

fn assert_split(data: &GeneratedData) {
    let a = share_of(rows(data, "t"), 0, "A");
    let b = share_of(rows(data, "t"), 0, "B");
    assert!((a - 0.3).abs() <= 0.02, "first branch: got {a} ({:?})", branches(data));
    assert!((b - 0.7).abs() <= 0.02, "second branch: got {b} ({:?})", branches(data));
    assert_eq!(branches(data)[0].rounds, 1, "{:?}", branches(data));
    for outcome in branches(data) {
        assert_eq!(outcome.status, CoverageStatus::Pass, "{outcome:?}");
    }
}

#[test]
fn should_not_let_a_later_branch_undo_an_earlier_branch_in_the_same_round() {
    assert_split(&two_sided(&["A", "B", "C"], &[0.1, 0.1, 0.8]));
}

#[test]
fn should_convert_surplus_from_an_over_target_sibling_branch() {
    assert_split(&two_sided(&["A", "B"], &[0.1, 0.9]));
}

#[test]
fn should_stack_two_branches_that_write_different_columns() {
    let mut rules = plan(vec![single_rule("t", vec![])]);
    add_branch(&mut rules, "a", "status == 'A'", 0.9, Some(0.02), &[("status", "A")]);
    add_branch(&mut rules, "seven", "amount == 7", 0.5, Some(0.02), &[("amount", "7")]);
    let data = run(&[binary_model(&["A", "B"], &[0.2, 0.8])], rules, &config(&["t"], 500)).unwrap();
    let table = rows(&data, "t");
    let a = share_of(table, 0, "A");
    let seven =
        table.iter().filter(|row| float_of(&row[1]) == 7.0).count() as f64 / table.len() as f64;
    assert!((a - 0.9).abs() <= 0.02, "first branch: got {a} ({:?})", branches(&data));
    assert!((seven - 0.5).abs() <= 0.02, "second branch: got {seven} ({:?})", branches(&data));
    for outcome in branches(&data) {
        assert_eq!(outcome.status, CoverageStatus::Pass, "{outcome:?}");
    }
}

fn derived_branch_rules(derived_first: bool, big: f64, killed: f64) -> Plan {
    let mut rules = doubled_rules();
    for derived in [derived_first, !derived_first] {
        if derived {
            add_branch(&mut rules, "big", "double > 3", big, Some(0.02), &[("amount", "7.5")]);
        } else {
            add_branch(&mut rules, "killed", "amount == 0", killed, Some(0.02), &[("amount", "0")]);
        }
    }
    rules
}

fn derived_amount_model() -> Tab {
    with_double(binary_model(&["A", "B"], &[0.5, 0.5]), 1.5)
}

fn big_rows(data: &GeneratedData) -> usize {
    rows(data, "t").iter().filter(|row| float_of(&row[2]) > 3.0).count()
}

fn assert_derived_repair(derived_first: bool) {
    let tabs = [derived_amount_model()];
    let clean = run(&tabs, doubled_rules(), &config(&["t"], 600)).unwrap();
    let deficit = 360 - big_rows(&clean);
    let rules = derived_branch_rules(derived_first, 0.6, 0.3);
    let data = run(&tabs, rules, &config(&["t"], 600)).unwrap();
    let table = rows(&data, "t");
    assert_doubled(table);
    let big = big_rows(&data) as f64 / 600.0;
    let killed = table.iter().filter(|row| float_of(&row[1]) == 0.0).count() as f64 / 600.0;
    assert!((big - 0.6).abs() <= 0.02, "got {big} ({:?})", branches(&data));
    assert!((killed - 0.3).abs() <= 0.02, "got {killed} ({:?})", branches(&data));
    for outcome in branches(&data) {
        assert_eq!(outcome.status, CoverageStatus::Pass, "{outcome:?}");
        assert_eq!(outcome.rounds, 1, "{outcome:?}");
        let flips = if outcome.id == "big" { deficit } else { 180 };
        assert_eq!(outcome.flips, flips as u128, "{outcome:?}");
    }
}

#[test]
fn should_not_let_a_branch_destroy_coverage_that_runs_through_a_derived_column() {
    assert_derived_repair(false);
}

#[test]
fn should_not_let_a_sibling_clobber_rows_written_for_a_derived_predicate() {
    assert_derived_repair(true);
}

#[test]
fn should_not_let_an_unreachable_branch_destroy_a_reachable_one() {
    let rules = derived_branch_rules(true, 0.6, 0.95);
    let data = run(&[derived_amount_model()], rules, &config(&["t"], 600)).unwrap();
    assert_doubled(rows(&data, "t"));
    let outcome = |id: &str| branches(&data).into_iter().find(|o| o.id == id).unwrap().status;
    assert_eq!(outcome("big"), CoverageStatus::Pass, "{:?}", branches(&data));
    let big = big_rows(&data) as f64 / 600.0;
    assert!((big - 0.6).abs() <= 0.02, "got {big} ({:?})", branches(&data));
    assert_ne!(outcome("killed"), CoverageStatus::Pass, "{:?}", branches(&data));
}

#[test]
fn should_leave_no_writes_behind_when_a_repair_cannot_move_the_predicate() {
    let tabs = [binary_model(&["A", "B"], &[0.5, 0.5])];
    let clean = run(&tabs, plan(vec![single_rule("t", vec![])]), &config(&["t"], 400)).unwrap();
    let rules = branch_rules(0.8, Some(0.02), &[("amount", "1")]);
    let repaired = run(&tabs, rules, &config(&["t"], 400)).unwrap();
    let outcome = branches(&repaired)[0];
    assert_ne!(outcome.status, CoverageStatus::Pass, "{outcome:?}");
    assert_eq!(outcome.flips, 0);
    assert_eq!(amount_texts(&clean), amount_texts(&repaired));
}

#[test]
fn should_report_a_branch_whose_repair_cannot_move_the_predicate() {
    let rules = branch_rules(0.8, Some(0.02), &[("amount", "1")]);
    let data = run(&[binary_model(&["A", "B"], &[0.5, 0.5])], rules, &config(&["t"], 1000)).unwrap();
    let outcome = branches(&data)[0];
    assert_ne!(outcome.status, CoverageStatus::Pass, "{outcome:?}");
    assert!(outcome.rounds < ROUNDS, "the loop must stop when a round makes no progress");
}

#[test]
fn should_fail_a_branch_that_needs_rows_it_cannot_write() {
    let rules = branch_rules(0.0, None, &[("status", "A")]);
    let data = run(&[binary_model(&["A"], &[1.0])], rules, &config(&["t"], 200)).unwrap();
    let outcome = branches(&data)[0];
    assert_eq!(outcome.status, CoverageStatus::Fail, "{outcome:?}");
    assert_eq!(outcome.flips, 0);
}

#[test]
fn should_reject_branch_repair_on_a_fk_column() {
    let tabs = [
        numerical_model("parent", "id", 0.0, 1.0),
        binary_model(&["A", "B"], &[0.5, 0.5]),
    ];
    let mut rules = plan(vec![
        single_rule("parent", vec![]),
        single_rule("t", vec![reference("amount", "parent.id", false)]),
    ]);
    add_branch(&mut rules, "paid", "status == 'A'", 0.8, None, &[("amount", "1")]);
    let err = run(&tabs, rules, &config(&["parent", "t"], 50)).unwrap_err();
    assert!(err.contains("amount"), "error must name the column: {err}");
    assert!(err.contains("referential integrity"), "error must explain why: {err}");
}

#[test]
fn should_fail_a_branch_whose_predicate_matches_no_row_type() {
    let mut rules = plan(vec![single_rule("t", vec![])]);
    add_branch(&mut rules, "paid", "status == 1", 0.8, None, &[("status", "A")]);
    let err =
        run(&[binary_model(&["A", "B"], &[0.5, 0.5])], rules, &config(&["t"], 50)).unwrap_err();
    assert!(err.contains("paid"), "error must name the branch: {err}");
    assert!(err.contains("evaluated"), "error must explain the predicate could not run: {err}");
}

#[test]
fn should_keep_output_byte_identical_without_branch_rules() {
    let rules = plan(vec![single_rule("t", vec![])]);
    let data = run(&[binary_model(&["A", "B"], &[0.5, 0.5])], rules, &config(&["t"], 4)).unwrap();
    assert!(branches(&data).is_empty());
    assert_eq!(
        json(rows(&data, "t")),
        "[[\"A\",-0.803943491589223],[\"B\",-0.19184861516094998],[\"A\",-0.8762332024966213],[\"B\",-1.4398776414381587]]"
    );
}

// Value pools.

fn largest_miss(outcome: &ValuePoolOutcome, declared: &[(&str, f64)], total: usize) -> f64 {
    let shares: HashMap<&str, f64> =
        outcome.hits.iter().map(|(v, n)| (v.as_str(), *n as f64 / total as f64)).collect();
    declared.iter().map(|(v, w)| (shares[v] - w).abs()).fold(0.0, f64::max)
}

#[test]
fn should_report_value_pool_shares_close_to_the_declared_weights() {
    let mut rules = plan(vec![single_rule("t", vec![])]);
    add_pool(&mut rules, "status", &[("A", 0.7), ("B", 0.3)]);
    let data = run(&[binary_model(&["A", "B"], &[0.5, 0.5])], rules, &config(&["t"], 5000)).unwrap();
    assert_eq!(pools(&data).len(), 1, "one pool must be audited");
    let outcome = pools(&data)[0];
    assert_eq!(outcome.column, "status");
    assert!(largest_miss(outcome, &[("A", 0.7), ("B", 0.3)], 5000) <= 0.05, "{outcome:?}");
    assert_eq!(outcome.hits.iter().map(|(_, n)| n).sum::<usize>(), 5000);
}

#[test]
fn should_flag_a_value_pool_whose_shares_miss_the_declared_weights() {
    let mut rules = plan(vec![single_rule("t", vec![])]);
    add_pool(&mut rules, "status", &[("A", 0.7), ("B", 0.3)]);
    let table: Vec<Vec<Value>> = (0..10)
        .map(|i| vec![Value::Text(if i < 5 { "A" } else { "B" }.to_string())])
        .collect();
    let model = model_of(&binary_model(&["A", "B"], &[0.5, 0.5]));
    let outcomes =
        check_value_pools(&table, &rules.tables[0], &model, &["status".to_string()]);
    assert_eq!(outcomes.len(), 1);
    assert_eq!(outcomes[0].hits, vec![("A".to_string(), 5), ("B".to_string(), 5)]);
    let miss = largest_miss(&outcomes[0], &[("A", 0.7), ("B", 0.3)], 10);
    assert!((miss - 0.2).abs() < 1e-12, "deviation was {miss}");
    assert!(miss > 0.05);
}

#[test]
fn should_audit_a_uniform_value_pool_against_equal_shares() {
    let rules =
        plan(vec![with_column(single_rule("t", vec![]), "status", uniform_pool(&["A", "B"]))]);
    let data = run(&[binary_model(&["A", "B"], &[0.5, 0.5])], rules, &config(&["t"], 4000)).unwrap();
    let outcome = pools(&data)[0];
    assert!(largest_miss(outcome, &[("A", 0.5), ("B", 0.5)], 4000) <= 0.05, "{outcome:?}");
}

#[test]
fn should_audit_numeric_value_pools_by_typed_literal() {
    let mut rules = plan(vec![single_rule("t", vec![])]);
    add_pool(&mut rules, "amount", &[("1", 0.8), ("2", 0.2)]);
    let data = run(&[binary_model(&["A", "B"], &[0.5, 0.5])], rules, &config(&["t"], 2000)).unwrap();
    let outcome = pools(&data)[0];
    assert_eq!(outcome.column, "amount");
    assert!(largest_miss(outcome, &[("1", 0.8), ("2", 0.2)], 2000) <= 0.05, "{outcome:?}");
}

// Keys that other tables refer to.

fn parent_child() -> [Tab; 2] {
    [numerical_model("p", "id", 0.0, 1.0), numerical_model("c", "fk", 0.0, 1.0)]
}

#[test]
fn should_reject_derive_on_a_referenced_parent_key_at_generate_time() {
    let rules = plan(vec![
        with_derive(single_rule("p", vec![]), "id", "id * 0"),
        single_rule("c", vec![reference("fk", "p.id", false)]),
    ]);
    let err = run(&parent_child(), rules, &config(&["p", "c"], 20)).unwrap_err();
    assert!(err.contains("p.id"), "error must name the key: {err}");
    assert!(err.contains("derive"), "error must name the phase: {err}");
}

#[test]
fn should_reject_branch_repair_on_a_referenced_parent_key_at_generate_time() {
    let mut rules = plan(vec![single_rule("p", vec![])]);
    add_branch(&mut rules, "pin", "id > 0", 0.9, None, &[("id", "1")]);
    rules.tables.push(single_rule("c", vec![reference("fk", "p.id", false)]));
    let err = run(&parent_child(), rules, &config(&["p", "c"], 20)).unwrap_err();
    assert!(err.contains("id"), "error must name the column: {err}");
    assert!(err.contains("referenced"), "error must explain the reference: {err}");
}

#[test]
fn a_table_without_a_model_is_named() {
    let err = run(&[], plan(vec![single_rule("t", vec![])]), &config(&["t"], 3)).unwrap_err();
    assert_eq!(err, "no model for table 't'");
}

#[test]
fn tables_that_refer_to_each_other_are_refused() {
    let tabs = [numerical_model("a", "id", 0.0, 1.0), numerical_model("b", "id", 0.0, 1.0)];
    let rules = plan(vec![
        single_rule("a", vec![reference("id", "b.id", false)]),
        single_rule("b", vec![reference("id", "a.id", false)]),
    ]);
    let err = run(&tabs, rules, &config(&["a", "b"], 3)).unwrap_err();
    assert!(err.starts_with("cycle detected: "), "{err}");
}

#[test]
fn unused_null_rates_are_warned_about() {
    let said = ColumnRule { null_rate: Some(rate(0.5)), ..fixed_rule("7") };
    let rules = plan(vec![with_column(single_rule("t", vec![]), "v", said)]);
    let data = run(&[model_with_null_rate("t", "v", 0.25)], rules, &config(&["t"], 3)).unwrap();
    assert_eq!(
        data.tables[0].warnings,
        vec![
            "warning: column 't.v' has a fixed/values/fixed_range rule; ignoring trained null_rate 0.25".to_string(),
            "warning: column 't.v' has a fixed/values/fixed_range rule; ignoring rule null_rate 0.5".to_string(),
        ]
    );
}

// Trained columns, generated.

fn generated(tab: Tab, count: usize) -> Vec<Vec<Value>> {
    let name = tab.name.clone();
    let rules = plan(vec![with_rows(single_rule(&name, vec![]), count)]);
    let cfg = config(&[name.as_str()], count);
    let mut data = run(&[tab], rules, &cfg).unwrap();
    data.tables.remove(0).rows
}

#[test]
fn should_cover_all_dictionary_levels_with_full_top_k() {
    const LEVELS: usize = 500;
    const GEN_ROWS: usize = 10_000;
    let samples: Vec<String> =
        (0..LEVELS).flat_map(|i| vec![format!("L{i:03}"); 20]).collect();
    let counted = CategoricalFitter.fit_strings(&samples).unwrap();
    assert_eq!(counted.values.len(), LEVELS);
    let weights = counted.counts.iter().map(|n| *n as f64 / counted.total as f64).collect();
    let shape = Shape::Levels(counted.values, weights);
    let table = generated(
        table("dict", vec![column("code", LogicalType::Categorical, shape)]),
        GEN_ROWS,
    );
    assert_eq!(table.len(), GEN_ROWS);
    let mut counts: HashMap<&str, usize> = HashMap::new();
    for row in &table {
        *counts.entry(plain(&row[0])).or_insert(0) += 1;
    }
    assert!(counts.len() >= 495, "covered {} of 500 levels", counts.len());
    let p = 1.0 / LEVELS as f64;
    let mut tv = 0.0;
    for i in 0..LEVELS {
        let key = format!("L{i:03}");
        let q = *counts.get(key.as_str()).unwrap_or(&0) as f64 / GEN_ROWS as f64;
        assert!((q - p).abs() < 0.05, "level {key}: generated share {q} vs train {p}");
        tv += (p - q).abs() / 2.0;
    }
    assert!(tv < 0.15, "TV distance {tv}");
}

fn instant_column(values: &[String], format: &str) -> Tab {
    let epochs: Vec<f64> =
        values.iter().map(|s| (instant(s, format) / SECOND) as f64).collect();
    let n = epochs.len() as f64;
    let loc = epochs.iter().sum::<f64>() / n;
    let variance = epochs.iter().map(|x| (x - loc).powi(2)).sum::<f64>() / n;
    let mut col =
        column("created_at", LogicalType::Datetime, Shape::Normal(loc, variance.sqrt()));
    col.format = Some(format.to_string());
    col.min = epochs.iter().copied().reduce(f64::min);
    col.max = epochs.iter().copied().reduce(f64::max);
    table("t1", vec![col])
}

fn texts_of(values: &[String]) -> Vec<Value> {
    values.iter().map(|s| Value::Text(s.clone())).collect()
}

#[test]
fn should_restore_primary_datetime_format_round_trip() {
    let values: Vec<String> = (0..200)
        .map(|i| format!("2024-03-{:02} {:02}:30:00", 1 + (i % 28), i % 24))
        .collect();
    let format = infer_format(&texts_of(&values)).expect("inferred datetime format");
    assert_eq!(format, "%Y-%m-%d %H:%M:%S");
    let table = generated(instant_column(&values, &format), 1000);
    assert_eq!(table.len(), 1000);
    for row in &table {
        let s = plain(&row[0]);
        let rendered = format_epoch(instant(s, &format), &format).unwrap();
        assert_eq!(rendered, s, "generated value must be character-identical");
    }
}

#[test]
fn should_clip_generated_datetime_to_training_range() {
    let mut values = vec!["2020-01-01".to_string(), "2026-01-01".to_string()];
    for i in 0..80 {
        values.push(format!("{}-06-15", 2020 + (i % 6)));
    }
    let format = infer_format(&texts_of(&values)).expect("date format");
    let low = instant("2020-01-01", &format);
    let high = instant("2026-01-01", &format);
    for row in generated(instant_column(&values, &format), 400) {
        let at = instant(plain(&row[0]), &format);
        assert!(low <= at && at <= high, "{row:?} is outside the trained range");
    }
}

// Ranges.

fn in_range(value: Value, a: Value, b: Value) -> Option<bool> {
    value_in_range(&value, &(a, b), None)
}

#[test]
fn numbers_are_compared_as_numbers() {
    let number = |s: &str| Value::Number(s.to_string());
    assert_eq!(in_range(number("9"), number_end(10.0), number_end(20.0)), Some(false));
    assert_eq!(in_range(number("10"), number_end(10.0), number_end(20.0)), Some(true));
    assert_eq!(in_range(number("2e1"), number_end(10.0), number_end(20.0)), Some(true));
    assert_eq!(in_range(number("100"), number_end(10.0), number_end(20.0)), Some(false));
    assert_eq!(in_range(number("5"), text_end(" +4.5"), text_end("inf")), Some(true));
    assert_eq!(in_range(number("5"), text_end("a"), text_end("b")), None);
    assert_eq!(in_range(Value::Null, number_end(1.0), number_end(2.0)), None);
}

#[test]
fn instants_are_compared_with_epoch_seconds() {
    let day = Value::Text("1970-01-02".to_string());
    let ends = |a: f64, b: f64| (number_end(a), number_end(b));
    assert_eq!(value_in_range(&day, &ends(86_400.0, 86_401.0), Some("%Y-%m-%d")), Some(true));
    assert_eq!(value_in_range(&day, &ends(86_400.5, 86_401.0), Some("%Y-%m-%d")), Some(false));
}

#[test]
fn a_value_outside_either_end_is_outside() {
    assert_eq!(between(Some(Rank::Below), Some(Rank::Same)), Some(true));
    assert_eq!(between(Some(Rank::Above), Some(Rank::Below)), Some(false));
    assert_eq!(between(Some(Rank::Same), Some(Rank::Above)), Some(false));
    assert_eq!(between(None, Some(Rank::Same)), None);
}

// Literals.

#[test]
fn literals_of_numerical_columns_are_numbers_where_they_write_one() {
    let number = |s: &str| Value::Number(s.to_string());
    assert_eq!(numeric_value_or_string("42"), number("42"));
    assert_eq!(numeric_value_or_string("+042"), number("42"));
    assert_eq!(numeric_value_or_string("1.50"), number("1.5"));
    assert_eq!(numeric_value_or_string("9223372036854775808"), number("9.223372036854776e+18"));
    assert_eq!(numeric_value_or_string("inf"), Value::Text("inf".to_string()));
    assert_eq!(numeric_value_or_string("A1"), Value::Text("A1".to_string()));
    assert_eq!(typed_literal("42", false), Value::Text("42".to_string()));
    assert_eq!(numeric_value("x", Some("2.5")), number("2.5"));
    assert!(is_number("inf") && is_number("1e3") && !is_number("one"));
}

fn repair_statuses(set: &[(&str, &str)]) -> (Vec<Vec<Value>>, Result<Vec<BranchOutcome>, String>) {
    let mut rules = plan(vec![single_rule("t", vec![])]);
    add_branch(&mut rules, "one", "amount == 1", 0.5, None, &[("amount", "1")]);
    add_branch(&mut rules, "all", "status == 'A'", 1.0, None, set);
    let model = model_of(&binary_model(&["A", "B"], &[0.5, 0.5]));
    let mut table = vec![
        vec![Value::Text("A".to_string()), Value::Number("1".to_string())],
        vec![Value::Text("B".to_string()), Value::Number("2".to_string())],
    ];
    let exactly =
        |n: usize| BranchTarget { wanted: n, pass_low: n, pass_high: n, spared_high: n };
    let columns = model.column_order.clone();
    let targets = [exactly(1), exactly(2)];
    let done =
        apply_branch_repair(&mut table, &rules.tables[0], &model, &columns, &[], &targets, ROUNDS);
    (table, done)
}

#[test]
fn a_branch_that_is_covered_from_the_start_takes_no_rounds() {
    let (_, done) = repair_statuses(&[("status", "A")]);
    let outcomes = done.unwrap();
    assert_eq!(outcomes[0].rounds, 0, "{outcomes:?}");
    assert_eq!(outcomes[0].status, CoverageStatus::Pass, "{outcomes:?}");
    assert_eq!(outcomes[1].rounds, 1, "{outcomes:?}");
    assert_eq!(outcomes[1].status, CoverageStatus::Pass, "{outcomes:?}");
}

#[test]
fn a_refused_branch_leaves_the_rows_alone() {
    let (table, done) = repair_statuses(&[("nowhere", "A")]);
    assert!(done.unwrap_err().contains("nowhere"));
    assert_eq!(number_text(&table[0][1]), "1");
    assert_eq!(number_text(&table[1][1]), "2");
    assert!(matches!(&table[1][0], Value::Text(s) if s == "B"));
}

#[test]
fn a_pool_whose_weights_add_up_to_nothing_is_not_audited() {
    let mut rules = plan(vec![single_rule("t", vec![])]);
    add_pool(&mut rules, "status", &[("A", 0.0), ("B", 0.0)]);
    let table = vec![vec![Value::Text("A".to_string())]];
    let model = model_of(&binary_model(&["A", "B"], &[0.5, 0.5]));
    let outcomes =
        check_value_pools(&table, &rules.tables[0], &model, &["status".to_string()]);
    assert!(outcomes.is_empty());
}

#[test]
fn one_seed_gives_one_result() {
    let tabs = [
        table("users", vec![normal("id", 0.0, 100.0), normal("age", 40.0, 9.0)]),
        table("orders", vec![normal("user_id", 0.0, 1.0), normal("total", 5.0, 2.0)]),
    ];
    let make = |seed: u64| {
        let rules = plan(vec![
            with_column(single_rule("users", vec![]), "age", rate_rule(0.4)),
            single_rule("orders", vec![reference("user_id", "users.id", false)]),
        ]);
        let config = GeneratorConfig { seed: Some(seed), ..config(&["users", "orders"], 40) };
        let data = run(&tabs, rules, &config).unwrap();
        format!("{:?}", data.tables.iter().map(|t| (&t.name, &t.rows)).collect::<Vec<_>>())
    };
    assert_eq!(make(3), make(3));
    assert_ne!(make(3), make(4));
}

#[test]
fn seconds_are_counted_in_microseconds_as_doubles() {
    let mut col = column("at", LogicalType::Datetime, Shape::Uniform(0.0, 1.0));
    col.format = Some("%Y-%m-%d %H:%M:%S%.6f".to_string());
    let at = |x: &str| {
        gen_column_value(Some(&trained(&col)), Drawn::Real(Point::Number(x.to_string())), false)
    };
    let text = |s: &str| Value::Text(s.to_string());
    assert_eq!(at("0"), text("1970-01-01 00:00:00.000000"));
    assert_eq!(at("1e-7"), text("1970-01-01 00:00:00.000000"));
    assert_eq!(at("5e-7"), text("1970-01-01 00:00:00.000001"));
    assert_eq!(at("1.5e9"), text("2017-07-14 02:40:00.000000"));
    assert_eq!(at("-0.25"), text("1969-12-31 23:59:59.750000"));
    assert_eq!(at("1e300"), Value::Null);
    assert_eq!(at("inf"), Value::Null);
}

#[test]
fn whole_microseconds_are_read_up_to_the_largest() {
    assert_eq!(read_micros("12"), Some(12));
    assert_eq!(read_micros("-12"), Some(-12));
    assert_eq!(read_micros("9223372036854775807"), Some(i64::MAX));
    assert_eq!(read_micros("9223372036854775808"), Some(i64::MAX));
    assert_eq!(read_micros("9223372036854775809"), None);
    assert_eq!(read_micros("-9223372036854775808"), Some(i64::MIN));
    assert_eq!(read_micros("-9223372036854775809"), None);
    assert_eq!(read_micros("1.5"), None);
}

#[test]
fn hits_of_a_pool_are_counted_by_what_numbers_are() {
    let mut rules = plan(vec![single_rule("t", vec![])]);
    add_pool(&mut rules, "amount", &[("0.0", 0.5), ("2", 0.5)]);
    let cells = ["0.0", "-0.0", "2", "2.0"];
    let table: Vec<Vec<Value>> =
        cells.iter().map(|s| vec![Value::Null, Value::Number(s.to_string())]).collect();
    let model = model_of(&binary_model(&["A", "B"], &[0.5, 0.5]));
    let outcomes = check_value_pools(&table, &rules.tables[0], &model, &model.column_order);
    assert_eq!(outcomes[0].hits, vec![("0.0".to_string(), 2), ("2".to_string(), 1)]);
}

#[test]
fn computed_columns_are_refused_for_a_cycle_and_for_nothing_else() {
    let tabs = [table("t", vec![normal("a", 0.0, 1.0), normal("b", 0.0, 1.0), normal("c", 0.0, 1.0)])];
    let with = |derives: &[(&str, &str)]| {
        let mut rule = single_rule("t", vec![]);
        for (name, expr) in derives {
            rule = with_derive(rule, name, expr);
        }
        run(&tabs, plan(vec![rule]), &config(&["t"], 3))
    };
    assert!(with(&[("a", "b + 1"), ("b", "c + 1")]).is_ok());
    let err = with(&[("a", "b + 1"), ("b", "c + 1"), ("c", "a + 1")]).unwrap_err();
    assert_eq!(err, "table 't': derive rules form a cycle involving a, b, c");
}
