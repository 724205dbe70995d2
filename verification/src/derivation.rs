//! Columns computed from other columns of the row.
use crate::decimal;
use crate::decimal::{Dec, Decimal, Rounding};
use crate::expr;
use crate::expr::{Expr, ExprError, Fault, Stop};
use crate::graph;
use crate::grid;
use crate::model;
use crate::model::TableModel;
use crate::names;
use crate::parser;
use crate::parser::Ast;
use crate::rules::DeriveRule;
use crate::text;
use crate::value;
use crate::value::{Cell, TableRow, Value};
use vstd::prelude::*;

verus! {

/// One computed column: where it stands, how it is computed and how the number
/// is written.
pub struct Step {
    pub column: Seq<char>,
    pub index: int,
    pub tree: Ast,
    pub whole: bool,
    pub places: Option<u8>,
}

pub struct DeriveStep {
    column: String,
    index: usize,
    expr: Expr,
    is_integer: bool,
    scale: Option<u8>,
}

impl View for DeriveStep {
    type V = Step;

    closed spec fn view(&self) -> Step {
        Step {
            column: self.column@,
            index: self.index as int,
            tree: self.expr.tree(),
            whole: self.is_integer,
            places: self.scale,
        }
    }
}

impl DeepView for DeriveStep {
    type V = Step;

    open spec fn deep_view(&self) -> Step {
        self@
    }
}

/// How messages of a computed column begin.
pub open spec fn heading(table: Seq<char>, column: Seq<char>) -> Seq<char> {
    "table '"@ + table + "' derive '"@ + column + "': "@
}

fn write_heading(table: &str, column: &str) -> (r: String)
    ensures
        r@ == heading(table@, column@),
{
    let mut r = text::around("table '", table, "' derive '");
    text::push_text(&mut r, column);
    text::push_text(&mut r, "': ");
    r
}

/// The whole number nearest to a decimal.
pub open spec fn whole_of(d: Dec) -> Dec {
    Dec {
        negative: d.negative,
        magnitude: decimal::half_even(d.magnitude, decimal::ten_to(d.scale)),
        scale: 0,
    }
}

/// How a number is written into a computed column: as a whole number where the
/// column holds those, else as a double with the column's digits.
pub open spec fn written_cell(step: Step, d: Dec) -> Result<Cell, Seq<char>> {
    if step.whole {
        let n = whole_of(d);
        if i64::MIN <= n.signed() <= i64::MAX {
            Ok(Cell::Number(text::integer_text(n.signed())))
        } else {
            Err("result "@ + decimal::written(n) + " does not fit an integer column"@)
        }
    } else {
        match decimal::double_json(d) {
            Some(t) => Ok(
                Cell::Number(
                    match step.places {
                        Some(s) => grid::on_grid(t, s, Rounding::HalfAway),
                        None => t,
                    },
                ),
            ),
            None => Err("result "@ + decimal::written(d) + " is out of range for a double"@),
        }
    }
}

/// A cell holds a number with the digits of its column: in a column of whole numbers the
/// nearest of these, else a double; where the column has so many digits after the point,
/// one with no more than these and at most half a step of the last of them away.
pub open spec fn keeps_digits(whole: bool, places: Option<u8>, d: Dec, cell: Cell) -> bool {
    if whole {
        exists|n: int| #[trigger] nearest_whole(d, n) && cell == Cell::Number(text::integer_text(n))
    } else {
        cell is Number && match places {
            None => decimal::reads_as(d, cell->Number_0),
            Some(s) => exists|t: Seq<char>| #[trigger]
                decimal::reads_as(d, t) && grid::writes_nearest(
                    t,
                    if s < 28 {
                        s as nat
                    } else {
                        28
                    },
                    cell->Number_0,
                ),
        }
    }
}

/// A whole number is at most half a unit away from a number.
pub open spec fn nearest_whole(d: Dec, n: int) -> bool {
    2 * decimal::size_of(n * decimal::ten_to(28) - d.units()) <= decimal::ten_to(28)
}

/// The nearest whole number is at most half a unit away.
pub(crate) proof fn lemma_whole_is_nearest(d: Dec)
    requires
        d.scale <= 28,
    ensures
        nearest_whole(d, whole_of(d).signed()),
{
    let p = decimal::ten_to(d.scale) as int;
    let u = decimal::ten_to((28 - d.scale) as nat) as int;
    let m = d.magnitude as int;
    grid::lemma_ten_to_adds(d.scale, (28 - d.scale) as nat);
    grid::lemma_ten_to_adds((28 - d.scale) as nat, 0);
    let q = m / p;
    let rest = m % p;
    vstd::arithmetic::div_mod::lemma_fundamental_div_mod(m, p);
    let n = whole_of(d).magnitude as int;
    let t = decimal::ten_to(28) as int;
    assert(t == p * u);
    assert(n == q || n == q + 1);
    assert(2 * (n * p - m) <= p && 2 * (m - n * p) <= p) by {
        assert((q + 1) * p == p * q + p) by (nonlinear_arith);
        assert(q * p == p * q) by (nonlinear_arith);
    }
    assert(n * t - m * u == (n * p - m) * u) by (nonlinear_arith)
        requires
            t == p * u,
    ;
    assert(2 * ((n * p - m) * u) <= t && -t <= 2 * ((n * p - m) * u)) by (nonlinear_arith)
        requires
            2 * (n * p - m) <= p,
            2 * (m - n * p) <= p,
            u > 0,
            t == p * u,
    ;
    assert((-n) * t == -(n * t)) by (nonlinear_arith);
    assert((-m) * u == -(m * u)) by (nonlinear_arith);
}

/// A number with no more than `places` digits is a whole number of steps of the last of
/// them.
proof fn lemma_in_steps(d: Dec, places: nat)
    requires
        d.scale <= places <= 28,
    ensures
        d.units() == decimal::aligned(d, places) * decimal::ten_to((28 - places) as nat),
{
    let a = decimal::ten_to((places - d.scale) as nat) as int;
    let b = decimal::ten_to((28 - places) as nat) as int;
    let s = d.signed();
    grid::lemma_ten_to_adds((places - d.scale) as nat, (28 - places) as nat);
    assert((places - d.scale) as nat + (28 - places) as nat == (28 - d.scale) as nat);
    assert(s * (a * b) == (s * a) * b) by (nonlinear_arith);
}

proof fn lemma_ten_grows(a: nat, b: nat)
    requires
        a <= b,
    ensures
        0 < decimal::ten_to(a) <= decimal::ten_to(b),
{
    grid::lemma_ten_to_adds(a, (b - a) as nat);
    grid::lemma_ten_to_adds((b - a) as nat, 0);
    let x = decimal::ten_to(a) as int;
    let y = decimal::ten_to((b - a) as nat) as int;
    assert(x <= x * y) by (nonlinear_arith)
        requires
            x > 0,
            y >= 1,
    ;
}

/// An exact value that has no more digits than its column, up to ten to the 13th steps of
/// the last of them, is written as that very value.
pub proof fn lemma_exact_values_are_written(s: u8, d: Dec, cell: Cell)
    requires
        s <= 22,
        d.scale <= s,
        decimal::size_of(d.units()) <= decimal::ten_to(13) * decimal::ten_to((28 - s) as nat),
        keeps_digits(false, Some(s), d, cell),
    ensures
        exists|v: Dec|
            #![trigger decimal::reads_as(v, cell->Number_0)]
            v.scale <= s && v.units() == d.units() && decimal::reads_as(v, cell->Number_0),
{
    let places = s as nat;
    let step = decimal::ten_to((28 - places) as nat) as int;
    let unit = decimal::ten_to((28 - d.scale) as nat) as int;
    let t = choose|t: Seq<char>| #[trigger]
        decimal::reads_as(d, t) && grid::writes_nearest(t, places, cell->Number_0);
    lemma_ten_grows(6, (28 - places) as nat);
    lemma_ten_grows((28 - places) as nat, (28 - d.scale) as nat);
    assert(decimal::ten_to(6) == 1_000_000 && decimal::ten_to(13) == 10_000_000_000_000
        && decimal::ten_to(14) == 100_000_000_000_000 && decimal::ten_to(15)
        == 1_000_000_000_000_000) by {
        reveal_with_fuel(decimal::ten_to, 17);
    }
    let m = d.magnitude as int;
    assert(decimal::size_of(d.units()) == m * unit) by {
        assert((-m) * unit == -(m * unit)) by (nonlinear_arith);
        assert(m * unit >= 0) by (nonlinear_arith)
            requires
                m >= 0,
                unit > 0,
        ;
    }
    assert(m <= 10_000_000_000_000) by (nonlinear_arith)
        requires
            m * unit <= 10_000_000_000_000 * step,
            0 < step <= unit,
            m >= 0,
    ;
    let e = decimal::of_double(t)->0;
    let v = choose|v: Dec| #[trigger]
        grid::nearest_point(e, places, v) && decimal::reads_as(v, cell->Number_0);
    lemma_in_steps(d, places);
    lemma_in_steps(v, places);
    let k = decimal::aligned(d, places);
    let j = decimal::aligned(v, places);
    assert(decimal::close_to(d, e));
    assert(-step < v.units() - d.units() < step);
    assert(j == k) by (nonlinear_arith)
        requires
            -step < j * step - k * step < step,
            step > 0,
    ;
    assert(decimal::reads_as(v, cell->Number_0));
}

/// What is read from a computed cell differs from the exact value by no more than half a
/// step of the column's last digit, but for what doubles blur.
pub proof fn lemma_written_values_are_near(s: u8, d: Dec, cell: Cell)
    requires
        s <= 22,
        d.scale <= 22,
        d.magnitude < decimal::ten_to(15),
        decimal::size_of(d.units()) <= decimal::ten_to(13) * decimal::ten_to((28 - s) as nat),
        keeps_digits(false, Some(s), d, cell),
    ensures
        decimal::of_double(cell->Number_0) is Some,
        ({
            let step = decimal::ten_to((28 - s) as nat) as int;
            let read = decimal::of_double(cell->Number_0)->0;
            10 * decimal::size_of(read.units() - d.units()) <= 8 * step
        }),
{
    let places = s as nat;
    let step = decimal::ten_to((28 - places) as nat) as int;
    let t = choose|t: Seq<char>| #[trigger]
        decimal::reads_as(d, t) && grid::writes_nearest(t, places, cell->Number_0);
    lemma_ten_grows(6, (28 - places) as nat);
    assert(decimal::ten_to(6) == 1_000_000 && decimal::ten_to(13) == 10_000_000_000_000
        && decimal::ten_to(14) == 100_000_000_000_000 && decimal::ten_to(15)
        == 1_000_000_000_000_000) by {
        reveal_with_fuel(decimal::ten_to, 17);
    }
    let e = decimal::of_double(t)->0;
    let v = choose|v: Dec| #[trigger]
        grid::nearest_point(e, places, v) && decimal::reads_as(v, cell->Number_0);
    assert(decimal::close_to(d, e));
    lemma_ten_grows((28 - places) as nat, (28 - v.scale) as nat);
    let unit = decimal::ten_to((28 - v.scale) as nat) as int;
    let m = v.magnitude as int;
    assert(decimal::size_of(v.units()) == m * unit) by {
        assert((-m) * unit == -(m * unit)) by (nonlinear_arith);
        assert(m * unit >= 0) by (nonlinear_arith)
            requires
                m >= 0,
                unit > 0,
        ;
    }
    assert(decimal::size_of(v.units()) <= 10_000_000_000_001 * step);
    assert(m <= 10_000_000_000_001) by (nonlinear_arith)
        requires
            m * unit <= 10_000_000_000_001 * step,
            0 < step <= unit,
            m >= 0,
    ;
    assert(decimal::close_to(v, decimal::of_double(cell->Number_0)->0));
}

/// The value of a computed column on a row: NULL where the expression is NULL.
pub open spec fn step_cell(step: Step, columns: Seq<Seq<char>>, row: Seq<Cell>) -> Result<
    Cell,
    Seq<char>,
> {
    let found = expr::eval(step.tree, value::table_cells(columns, row));
    match found {
        Err(Stop::Overflow) => Err("decimal overflow"@),
        _ => match expr::as_decimal(found) {
            Ok(d) => written_cell(step, d),
            Err(Fault::NullResult) => Ok(Cell::Null),
            Err(f) => Err(expr::fault_text(f)),
        },
    }
}

/// The row with its columns computed, one step after the other, or the message
/// of the first step that fails.
pub open spec fn derive_row(
    table: Seq<char>,
    columns: Seq<Seq<char>>,
    steps: Seq<Step>,
    row: Seq<Cell>,
) -> Result<Seq<Cell>, Seq<char>>
    decreases steps.len(),
{
    if steps.len() == 0 {
        Ok(row)
    } else {
        match step_cell(steps[0], columns, row) {
            Err(m) => Err(heading(table, steps[0].column) + m),
            Ok(c) => derive_row(table, columns, steps.skip(1), row.update(steps[0].index, c)),
        }
    }
}

/// The rows with their columns computed, or the message of the first row that
/// fails.
pub open spec fn derive_rows(
    table: Seq<char>,
    columns: Seq<Seq<char>>,
    steps: Seq<Step>,
    rows: Seq<Seq<Cell>>,
) -> Result<Seq<Seq<Cell>>, Seq<char>>
    decreases rows.len(),
{
    if rows.len() == 0 {
        Ok(Seq::empty())
    } else {
        match derive_row(table, columns, steps, rows[0]) {
            Err(m) => Err(m),
            Ok(first) => match derive_rows(table, columns, steps, rows.skip(1)) {
                Err(m) => Err(m),
                Ok(rest) => Ok(seq![first] + rest),
            },
        }
    }
}

impl DeriveStep {
    fn write_cell(&self, d: Decimal) -> (r: Result<Value, String>)
        ensures
            match r {
                Ok(v) => {
                    &&& written_cell(self@, d@) == Ok::<Cell, Seq<char>>(v@)
                    &&& keeps_digits(self@.whole, self@.places, d@, v@)
                },
                Err(m) => {
                    &&& written_cell(self@, d@) == Err::<Cell, Seq<char>>(m@)
                    &&& self@.whole
                },
            },
    {
        let _ = d.digits();
        proof {
            lemma_whole_is_nearest(d@);
        }
        if self.is_integer {
            let n = d.rounded();
            match n.to_integer() {
                Some(i) => Ok(Value::Number(text::signed_text(i))),
                None => {
                    proof {
                        assert(n@ == whole_of(d@));
                    }
                    let t = n.write_text();
                    Err(text::around("result ", t.as_str(), " does not fit an integer column"))
                },
            }
        } else {
            let double = d.write_double();
            proof {
                assert(decimal::reads_as(d@, double->0@));
            }
            match double {
                Some(t) => match self.scale {
                    Some(s) => Ok(Value::Number(grid::quantize(t.as_str(), s))),
                    None => Ok(Value::Number(t)),
                },
                None => {
                    let t = d.write_text();
                    Err(text::around("result ", t.as_str(), " is out of range for a double"))
                },
            }
        }
    }

    fn cell(&self, columns: &[String], row: &[Value]) -> (r: Result<Value, String>)
        ensures
            match r {
                Ok(v) => step_cell(self@, columns.deep_view(), row.deep_view()) == Ok::<
                    Cell,
                    Seq<char>,
                >(v@),
                Err(m) => step_cell(self@, columns.deep_view(), row.deep_view()) == Err::<
                    Cell,
                    Seq<char>,
                >(m@),
            },
    {
        let view = TableRow { columns, row };
        match self.expr.try_eval_decimal(&view) {
            None => Err("decimal overflow".to_owned()),
            Some(Ok(d)) => self.write_cell(d),
            Some(Err(ExprError::NullResult)) => Ok(Value::Null),
            Some(Err(e)) => Err(e.to_string()),
        }
    }
}

/// The computed columns, in the order of their rules.
pub open spec fn targets(rules: Seq<DeriveRule>) -> Seq<Seq<char>> {
    Seq::new(rules.len(), |i: int| rules[i].column@)
}

/// Every expression parses.
pub open spec fn all_parse(rules: Seq<DeriveRule>, n: int) -> bool {
    forall|i: int| 0 <= i < n ==> parser::parsed_text((#[trigger] rules[i]).expr@) is Ok
}

/// The expression of a computed column; of rules for one column the last
/// counts.
pub open spec fn tree_of(rules: Seq<DeriveRule>, name: Seq<char>) -> Ast {
    parser::parsed_text(rules[value::last_place(targets(rules), name)].expr@)->Ok_0
}

/// A computed column can be computed once those of its inputs that are computed
/// themselves are done.
pub open spec fn is_ready(
    rules: Seq<DeriveRule>,
    done: Seq<Seq<char>>,
    name: Seq<char>,
) -> bool {
    forall|n: Seq<char>| #[trigger]
        expr::mentions(tree_of(rules, name), n) && targets(rules).contains(n) ==> done.contains(n)
}

/// An order in which each computed column comes after its computed inputs, and
/// that leaves out only what cannot be put in such an order.
pub open spec fn plan_order(rules: Seq<DeriveRule>, order: Seq<Seq<char>>) -> bool {
    &&& order.no_duplicates()
    &&& forall|j: int|
        0 <= j < order.len() ==> targets(rules).contains(#[trigger] order[j]) && is_ready(
            rules,
            order.take(j),
            order[j],
        )
    &&& forall|n: Seq<char>| #[trigger]
        targets(rules).contains(n) && is_ready(rules, order, n) ==> order.contains(n)
}

/// An order with those of the rules from `i` on that are ready when their turn comes.
pub open spec fn one_pass(rules: Seq<DeriveRule>, order: Seq<Seq<char>>, i: int) -> Seq<Seq<char>>
    decreases rules.len() - i,
{
    if i >= rules.len() {
        order
    } else {
        let n = targets(rules)[i];
        if !order.contains(n) && is_ready(rules, order, n) {
            one_pass(rules, order.push(n), i + 1)
        } else {
            one_pass(rules, order, i + 1)
        }
    }
}

/// The order after passes over the rules, until one of them adds nothing.
pub open spec fn passes(rules: Seq<DeriveRule>, order: Seq<Seq<char>>, limit: nat) -> Seq<Seq<char>>
    decreases limit,
{
    let next = one_pass(rules, order, 0);
    if limit == 0 || next.len() == order.len() {
        next
    } else {
        passes(rules, next, (limit - 1) as nat)
    }
}

/// The order in which the columns are computed.
pub open spec fn rule_order(rules: Seq<DeriveRule>) -> Seq<Seq<char>> {
    passes(rules, Seq::empty(), rules.len())
}

proof fn lemma_pass_grows(rules: Seq<DeriveRule>, order: Seq<Seq<char>>, i: int)
    requires
        0 <= i,
    ensures
        one_pass(rules, order, i).len() >= order.len(),
        one_pass(rules, order, i).len() == order.len() ==> one_pass(rules, order, i) == order,
    decreases rules.len() - i,
{
    if i < rules.len() {
        let n = targets(rules)[i];
        if !order.contains(n) && is_ready(rules, order, n) {
            lemma_pass_grows(rules, order.push(n), i + 1);
        } else {
            lemma_pass_grows(rules, order, i + 1);
        }
    }
}

/// The step of a computed column.
pub open spec fn step_of(
    rules: Seq<DeriveRule>,
    table_model: TableModel,
    columns: Seq<Seq<char>>,
    name: Seq<char>,
) -> Step {
    let m = model::column_model(table_model.columns@, name);
    Step {
        column: name,
        index: value::last_place(columns, name),
        tree: tree_of(rules, name),
        whole: m is Some && m->0.whole(),
        places: match m {
            Some(c) => c.decimal_scale,
            None => None,
        },
    }
}

/// The rules whose columns are not in the order.
pub open spec fn left_over(rules: Seq<DeriveRule>, order: Seq<Seq<char>>) -> Seq<Seq<char>> {
    targets(rules).filter(|n: Seq<char>| !order.contains(n))
}

/// The first fault of an expression.
pub open spec fn rejected(table: Seq<char>, rules: Seq<DeriveRule>, i: int, m: Seq<char>) -> bool {
    &&& 0 <= i < rules.len()
    &&& all_parse(rules, i)
    &&& parser::parsed_text(rules[i].expr@) is Err
    &&& m == "table '"@ + table + "' derive '"@ + rules[i].column@ + "': expression '"@
        + rules[i].expr@ + "' rejected: "@ + expr::fault_text(
        parser::parsed_text(rules[i].expr@)->Err_0,
    )
}

pub open spec fn some_rejected(table: Seq<char>, rules: Seq<DeriveRule>, m: Seq<char>) -> bool {
    exists|i: int| #[trigger] rejected(table, rules, i, m)
}

/// Not all rules can be put in order.
pub open spec fn cyclic(
    table: Seq<char>,
    rules: Seq<DeriveRule>,
    order: Seq<Seq<char>>,
    m: Seq<char>,
) -> bool {
    &&& all_parse(rules, rules.len() as int)
    &&& plan_order(rules, order)
    &&& order.len() != rules.len()
    &&& m == "table '"@ + table + "': derive rules form a cycle involving "@ + text::joined(
        names::sorted(left_over(rules, order)),
        ", "@,
    )
}

/// Why no plan can be made: the first expression that does not parse; where all do,
/// a cycle; where there is none, the first column that does not exist.
pub open spec fn unplanned(
    table: Seq<char>,
    rules: Seq<DeriveRule>,
    columns: Seq<Seq<char>>,
    m: Seq<char>,
) -> bool {
    ||| some_rejected(table, rules, m)
    ||| cyclic(table, rules, rule_order(rules), m)
    ||| {
        &&& all_parse(rules, rules.len() as int)
        &&& rule_order(rules).len() == rules.len()
        &&& some_unknown(table, rules, columns, m)
    }
}

/// Every column that a rule speaks of exists.
pub open spec fn rule_known(
    rules: Seq<DeriveRule>,
    columns: Seq<Seq<char>>,
    i: int,
) -> bool {
    &&& columns.contains(rules[i].column@)
    &&& forall|n: Seq<char>| #[trigger]
        expr::mentions(parser::parsed_text(rules[i].expr@)->Ok_0, n) ==> columns.contains(n)
}

/// A rule speaks of a column that does not exist: the first such rule is named,
/// and of the columns it reads the first that is missing, or else its target.
pub open spec fn unknown(
    table: Seq<char>,
    rules: Seq<DeriveRule>,
    columns: Seq<Seq<char>>,
    i: int,
    m: Seq<char>,
) -> bool {
    let tree = parser::parsed_text(rules[i].expr@)->Ok_0;
    &&& 0 <= i < rules.len()
    &&& all_parse(rules, rules.len() as int)
    &&& forall|j: int| 0 <= j < i ==> #[trigger] rule_known(rules, columns, j)
    &&& input_missing(table, rules[i].column@, tree, columns, m) || ((forall|n: Seq<char>| #[trigger]
        expr::mentions(tree, n) ==> columns.contains(n)) && !columns.contains(rules[i].column@)
        && m == heading(table, rules[i].column@) + "unknown target column"@)
}

pub open spec fn input_missing(
    table: Seq<char>,
    target: Seq<char>,
    tree: Ast,
    columns: Seq<Seq<char>>,
    m: Seq<char>,
) -> bool {
    exists|n: Seq<char>| #[trigger]
        missing_first(tree, columns, n) && m == heading(table, target) + "unknown column '"@ + n
            + "'"@
}

pub open spec fn some_unknown(
    table: Seq<char>,
    rules: Seq<DeriveRule>,
    columns: Seq<Seq<char>>,
    m: Seq<char>,
) -> bool {
    exists|i: int| #[trigger] unknown(table, rules, columns, i, m)
}

/// The first column, in the order of names, that is read and missing.
pub open spec fn missing_first(tree: Ast, columns: Seq<Seq<char>>, n: Seq<char>) -> bool {
    &&& expr::mentions(tree, n)
    &&& !columns.contains(n)
    &&& forall|o: Seq<char>| #[trigger]
        expr::mentions(tree, o) && text::before(o, n) ==> columns.contains(o)
}

/// The computed columns of a table in an order in which they can be computed.
pub struct DerivePlan {
    table_name: String,
    columns: Vec<String>,
    steps: Vec<DeriveStep>,
}

impl DerivePlan {
    pub closed spec fn table(&self) -> Seq<char> {
        self.table_name@
    }

    pub closed spec fn columns(&self) -> Seq<Seq<char>> {
        self.columns.deep_view()
    }

    pub closed spec fn steps(&self) -> Seq<Step> {
        self.steps.deep_view()
    }

    /// Every step writes a column of the table.
    pub open spec fn wf(&self) -> bool {
        forall|i: int|
            0 <= i < self.steps().len() ==> 0 <= (#[trigger] self.steps()[i]).index
                < self.columns().len()
    }
}

/// The names of the steps.
pub open spec fn step_names(steps: Seq<Step>) -> Seq<Seq<char>> {
    Seq::new(steps.len(), |i: int| steps[i].column)
}

/// A plan follows its rules.
pub open spec fn follows(
    plan: DerivePlan,
    table: Seq<char>,
    rules: Seq<DeriveRule>,
    table_model: TableModel,
    columns: Seq<Seq<char>>,
) -> bool {
    &&& plan.wf()
    &&& plan.table() == table
    &&& plan.columns() == columns
    &&& all_parse(rules, rules.len() as int)
    &&& plan.steps().len() == rules.len()
    &&& plan_order(rules, step_names(plan.steps()))
    &&& step_names(plan.steps()) == rule_order(rules)
    &&& forall|j: int|
        0 <= j < plan.steps().len() ==> (#[trigger] plan.steps()[j]) == step_of(
            rules,
            table_model,
            columns,
            plan.steps()[j].column,
        )
    &&& forall|i: int| 0 <= i < rules.len() ==> #[trigger] rule_known(rules, columns, i)
}

/// Parses the expressions.
fn parse_all(table: &str, rules: &[DeriveRule]) -> (r: Result<Vec<Expr>, String>)
    ensures
        match r {
            Ok(exprs) => {
                &&& exprs@.len() == rules@.len()
                &&& all_parse(rules@, rules@.len() as int)
                &&& forall|i: int|
                    0 <= i < rules@.len() ==> (#[trigger] exprs@[i]).tree() == parser::parsed_text(
                        rules@[i].expr@,
                    )->Ok_0
            },
            Err(m) => some_rejected(table@, rules@, m@),
        },
{
    let mut exprs: Vec<Expr> = Vec::new();
    let mut i: usize = 0;
    while i < rules.len()
        invariant
            i <= rules@.len(),
            exprs@.len() == i,
            all_parse(rules@, i as int),
            forall|k: int|
                0 <= k < i ==> (#[trigger] exprs@[k]).tree() == parser::parsed_text(
                    rules@[k].expr@,
                )->Ok_0,
        decreases rules@.len() - i,
    {
        match Expr::parse(rules[i].expr.as_str()) {
            Ok(e) => {
                exprs.push(e);
            },
            Err(e) => {
                let mut m = text::around("table '", table, "' derive '");
                text::push_text(&mut m, rules[i].column.as_str());
                text::push_text(&mut m, "': expression '");
                text::push_text(&mut m, rules[i].expr.as_str());
                text::push_text(&mut m, "' rejected: ");
                let t = e.to_string();
                text::push_text(&mut m, t.as_str());
                proof {
                    assert(rejected(table@, rules@, i as int, m@));
                    assert(some_rejected(table@, rules@, m@));
                }
                return Err(m);
            },
        }
        i = i + 1;
    }
    Ok(exprs)
}

/// The columns of the rules.
fn target_names(rules: &[DeriveRule]) -> (r: Vec<String>)
    ensures
        r.deep_view() == targets(rules@),
{
    let mut out: Vec<String> = Vec::new();
    let mut i: usize = 0;
    while i < rules.len()
        invariant
            i <= rules@.len(),
            out.deep_view() == targets(rules@).take(i as int),
        decreases rules@.len() - i,
    {
        let ghost before = out.deep_view();
        out.push(rules[i].column.clone());
        proof {
            assert(out.deep_view() =~= before.push(rules@[i as int].column@));
            assert(targets(rules@).take(i + 1) =~= targets(rules@).take(i as int).push(
                targets(rules@)[i as int],
            ));
        }
        i = i + 1;
    }
    proof {
        assert(targets(rules@).take(rules@.len() as int) =~= targets(rules@));
    }
    out
}

/// Whether the computed inputs of an expression are done.
fn inputs_done(e: &Expr, targets: &[String], done: &[String]) -> (r: bool)
    ensures
        r == (forall|n: Seq<char>| #[trigger]
            expr::mentions(e.tree(), n) && targets.deep_view().contains(n)
                ==> done.deep_view().contains(n)),
{
    let inputs = e.referenced_columns();
    let ghost all = inputs.deep_view();
    let mut i: usize = 0;
    while i < inputs.len()
        invariant
            i <= inputs@.len(),
            all == inputs.deep_view(),
            forall|n: Seq<char>| #[trigger] all.contains(n) <==> expr::mentions(e.tree(), n),
            forall|j: int|
                0 <= j < i && targets.deep_view().contains(#[trigger] all[j])
                    ==> done.deep_view().contains(all[j]),
        decreases inputs@.len() - i,
    {
        if names::has(targets, inputs[i].as_str()) && !names::has(done, inputs[i].as_str()) {
            proof {
                assert(all.contains(all[i as int]));
                assert(expr::mentions(e.tree(), all[i as int]));
            }
            return false;
        }
        i = i + 1;
    }
    proof {
        assert forall|n: Seq<char>| #[trigger]
            expr::mentions(e.tree(), n) && targets.deep_view().contains(
                n,
            ) implies done.deep_view().contains(n) by {
            assert(all.contains(n));
            assert(all[all.index_of(n)] == n);
        }
    }
    true
}

/// What an order under construction satisfies.
spec fn partial_order(rules: Seq<DeriveRule>, order: Seq<Seq<char>>) -> bool {
    &&& order.no_duplicates()
    &&& forall|j: int|
        0 <= j < order.len() ==> targets(rules).contains(#[trigger] order[j]) && is_ready(
            rules,
            order.take(j),
            order[j],
        )
}

proof fn lemma_partial_push(rules: Seq<DeriveRule>, order: Seq<Seq<char>>, n: Seq<char>)
    requires
        partial_order(rules, order),
        targets(rules).contains(n),
        is_ready(rules, order, n),
        !order.contains(n),
    ensures
        partial_order(rules, order.push(n)),
{
    let next = order.push(n);
    assert forall|j: int| 0 <= j < next.len() implies targets(rules).contains(#[trigger] next[j])
        && is_ready(rules, next.take(j), next[j]) by {
        assert(next.take(j) =~= order.take(j));
        if j == order.len() {
            assert(order.take(j) =~= order);
        } else {
            assert(next[j] == order[j]);
        }
    }
    assert forall|i: int, j: int| 0 <= i < next.len() && 0 <= j < next.len() && i != j implies next[i]
        != next[j] by {
        if i == order.len() {
            assert(order[j] == next[j]);
        } else if j == order.len() {
            assert(order[i] == next[i]);
        }
    }
}

/// Puts the rules in order: again and again takes, in the order of the rules,
/// what has become ready.
fn order_rules(rules: &[DeriveRule], exprs: &Vec<Expr>, names_of: &Vec<String>) -> (order: Vec<
    String,
>)
    requires
        exprs@.len() == rules@.len(),
        names_of.deep_view() == targets(rules@),
        forall|i: int|
            0 <= i < rules@.len() ==> (#[trigger] exprs@[i]).tree() == parser::parsed_text(
                rules@[i].expr@,
            )->Ok_0,
    ensures
        plan_order(rules@, order.deep_view()),
        order.deep_view() == rule_order(rules@),
{
    let ghost all = targets(rules@);
    let mut order: Vec<String> = Vec::new();
    let ghost mut left: nat = rules@.len();
    proof {
        assert(order.deep_view() =~= Seq::empty());
    }
    loop
        invariant
            rules@.len() <= left + order@.len(),
            rule_order(rules@) == passes(rules@, order.deep_view(), left),
            exprs@.len() == rules@.len(),
            all == targets(rules@),
            names_of.deep_view() == all,
            forall|i: int|
                0 <= i < rules@.len() ==> (#[trigger] exprs@[i]).tree() == parser::parsed_text(
                    rules@[i].expr@,
                )->Ok_0,
            partial_order(rules@, order.deep_view()),
            order@.len() <= rules@.len(),
        ensures
            plan_order(rules@, order.deep_view()),
            order.deep_view() == rule_order(rules@),
        decreases rules@.len() - order@.len(),
    {
        let before: usize = order.len();
        let ghost start = order.deep_view();
        let mut i: usize = 0;
        while i < rules.len()
            invariant
                i <= rules@.len(),
                start.len() == before,
                one_pass(rules@, start, 0) == one_pass(rules@, order.deep_view(), i as int),
                exprs@.len() == rules@.len(),
                all == targets(rules@),
                names_of.deep_view() == all,
                forall|i: int|
                    0 <= i < rules@.len() ==> (#[trigger] exprs@[i]).tree() == parser::parsed_text(
                        rules@[i].expr@,
                    )->Ok_0,
                partial_order(rules@, order.deep_view()),
                before <= order@.len() <= rules@.len(),
                order@.len() == before ==> forall|k: int|
                    0 <= k < i ==> order.deep_view().contains(#[trigger] all[k]) || !is_ready(
                        rules@,
                        order.deep_view(),
                        all[k],
                    ),
            decreases rules@.len() - i,
        {
            let ghost n = all[i as int];
            let ghost done = order.deep_view();
            if !names::has(order.as_slice(), rules[i].column.as_str()) {
                proof {
                    value::lemma_last_place(all, n);
                    assert(all.contains(n));
                }
                match value::find_last_name(names_of.as_slice(), rules[i].column.as_str()) {
                    Some(last) => {
                        if inputs_done(&exprs[last], names_of.as_slice(), order.as_slice()) {
                            proof {
                                lemma_partial_push(rules@, done, n);
                            }
                            order.push(rules[i].column.clone());
                            proof {
                                assert(order.deep_view() =~= done.push(n));
                                assert forall|j: int|
                                    0 <= j < order.deep_view().len() implies all.contains(
                                    #[trigger] order.deep_view()[j],
                                ) by {}
                                crate::graph::lemma_fits(order.deep_view(), all);
                            }
                        } else {
                            proof {
                                assert(!is_ready(rules@, done, n));
                            }
                        }
                    },
                    None => {},
                }
            }
            i = i + 1;
        }
        proof {
            lemma_pass_grows(rules@, start, 0);
        }
        if order.len() == before {
            proof {
                assert(order.deep_view() == start);
                assert forall|n: Seq<char>| #[trigger]
                    all.contains(n) && is_ready(
                        rules@,
                        order.deep_view(),
                        n,
                    ) implies order.deep_view().contains(n) by {
                    assert(all[all.index_of(n)] == n);
                }
            }
            break;
        }
        proof {
            if left == 0 {
                assert(false);
            }
            left = (left - 1) as nat;
        }
    }
    order
}

/// The message for rules that cannot be put in order.
fn write_cycle(
    table: &str,
    rules: &[DeriveRule],
    names_of: &Vec<String>,
    order: &Vec<String>,
) -> (m: String)
    requires
        names_of.deep_view() == targets(rules@),
    ensures
        m@ == "table '"@ + table@ + "': derive rules form a cycle involving "@ + text::joined(
            names::sorted(left_over(rules@, order.deep_view())),
            ", "@,
        ),
{
    let ghost all = targets(rules@);
    let ghost outside = |n: Seq<char>| !order.deep_view().contains(n);
    let mut rest: Vec<String> = Vec::new();
    let mut i: usize = 0;
    proof {
        reveal(Seq::filter);
        assert(all.take(0).filter(outside) =~= Seq::empty());
    }
    while i < names_of.len()
        invariant
            i <= names_of@.len(),
            names_of.deep_view() == all,
            outside == (|n: Seq<char>| !order.deep_view().contains(n)),
            rest.deep_view() == all.take(i as int).filter(outside),
        decreases names_of@.len() - i,
    {
        let ghost before = rest.deep_view();
        let ghost n = all[i as int];
        proof {
            assert(all.take(i + 1).drop_last() =~= all.take(i as int));
            assert(all.take(i + 1).last() == n);
            reveal(Seq::filter);
        }
        if !names::has(order.as_slice(), names_of[i].as_str()) {
            rest.push(names_of[i].clone());
            proof {
                assert(rest.deep_view() =~= before.push(n));
            }
        }
        i = i + 1;
    }
    proof {
        assert(all.take(all.len() as int) =~= all);
    }
    let listed = names::sort(rest.as_slice());
    let mut m = text::around("table '", table, "': derive rules form a cycle involving ");
    let t = text::join(listed.as_slice(), ", ");
    text::push_text(&mut m, t.as_str());
    m
}

/// Whether every column that the rules speak of exists.
fn check_known(
    table: &str,
    rules: &[DeriveRule],
    exprs: &Vec<Expr>,
    columns: &[String],
) -> (r: Result<(), String>)
    requires
        exprs@.len() == rules@.len(),
        all_parse(rules@, rules@.len() as int),
        forall|i: int|
            0 <= i < rules@.len() ==> (#[trigger] exprs@[i]).tree() == parser::parsed_text(
                rules@[i].expr@,
            )->Ok_0,
    ensures
        match r {
            Ok(_) => forall|i: int|
                0 <= i < rules@.len() ==> #[trigger] rule_known(rules@, columns.deep_view(), i),
            Err(m) => some_unknown(table@, rules@, columns.deep_view(), m@),
        },
{
    let mut i: usize = 0;
    while i < rules.len()
        invariant
            i <= rules@.len(),
            exprs@.len() == rules@.len(),
            all_parse(rules@, rules@.len() as int),
            forall|i: int|
                0 <= i < rules@.len() ==> (#[trigger] exprs@[i]).tree() == parser::parsed_text(
                    rules@[i].expr@,
                )->Ok_0,
            forall|j: int| 0 <= j < i ==> #[trigger] rule_known(rules@, columns.deep_view(), j),
        decreases rules@.len() - i,
    {
        let mut m = write_heading(table, rules[i].column.as_str());
        let ghost tree = exprs@[i as int].tree();
        match exprs[i].check_columns(columns) {
            Ok(_) => {},
            Err(e) => {
                match e {
                    ExprError::UnknownColumn { name } => {
                        text::push_text(&mut m, "unknown column '");
                        text::push_text(&mut m, name.as_str());
                        text::push_text(&mut m, "'");
                        proof {
                            assert(missing_first(tree, columns.deep_view(), name@));
                            assert(input_missing(
                                table@,
                                rules@[i as int].column@,
                                tree,
                                columns.deep_view(),
                                m@,
                            ));
                        }
                    },
                    _ => {
                        proof {
                            assert(false);
                        }
                    },
                }
                proof {
                    assert(unknown(table@, rules@, columns.deep_view(), i as int, m@));
                }
                return Err(m);
            },
        }
        if !names::has(columns, rules[i].column.as_str()) {
            text::push_text(&mut m, "unknown target column");
            proof {
                assert(unknown(table@, rules@, columns.deep_view(), i as int, m@));
            }
            return Err(m);
        }
        proof {
            assert(rule_known(rules@, columns.deep_view(), i as int));
        }
        i = i + 1;
    }
    Ok(())
}

/// A copy of a list of names.
pub(crate) fn copy_names(v: &[String]) -> (r: Vec<String>)
    ensures
        r.deep_view() == v.deep_view(),
{
    let mut out: Vec<String> = Vec::new();
    let mut i: usize = 0;
    while i < v.len()
        invariant
            i <= v@.len(),
            out.deep_view() == v.deep_view().take(i as int),
        decreases v@.len() - i,
    {
        let ghost before = out.deep_view();
        out.push(v[i].clone());
        proof {
            assert(out.deep_view() =~= before.push(v@[i as int]@));
            assert(v.deep_view().take(i + 1) =~= v.deep_view().take(i as int).push(
                v.deep_view()[i as int],
            ));
        }
        i = i + 1;
    }
    proof {
        assert(v.deep_view().take(v@.len() as int) =~= v.deep_view());
    }
    out
}

impl DerivePlan {
    /// Parses the rules of a table and puts them in order.
    pub fn build(
        table_name: &str,
        rules: &[DeriveRule],
        table_model: &TableModel,
        columns: &[String],
    ) -> (r: Result<DerivePlan, String>)
        ensures
            match r {
                Ok(plan) => follows(
                    plan,
                    table_name@,
                    rules@,
                    *table_model,
                    columns.deep_view(),
                ),
                Err(m) => unplanned(table_name@, rules@, columns.deep_view(), m@),
            },
    {
        let exprs = match parse_all(table_name, rules) {
            Ok(exprs) => exprs,
            Err(m) => {
                return Err(m);
            },
        };
        let names_of = target_names(rules);
        let order = order_rules(rules, &exprs, &names_of);
        let ghost all = targets(rules@);
        let ghost done = order.deep_view();
        if order.len() != rules.len() {
            let m = write_cycle(table_name, rules, &names_of, &order);
            proof {
                assert(cyclic(table_name@, rules@, done, m@));
            }
            return Err(m);
        }
        match check_known(table_name, rules, &exprs, columns) {
            Ok(_) => {},
            Err(m) => {
                return Err(m);
            },
        }
        let mut steps: Vec<DeriveStep> = Vec::new();
        let mut j: usize = 0;
        while j < order.len()
            invariant
                j <= order@.len(),
                all == targets(rules@),
                done == order.deep_view(),
                names_of.deep_view() == all,
                exprs@.len() == rules@.len(),
                forall|i: int|
                    0 <= i < rules@.len() ==> (#[trigger] exprs@[i]).tree() == parser::parsed_text(
                        rules@[i].expr@,
                    )->Ok_0,
                forall|i: int|
                    0 <= i < rules@.len() ==> #[trigger] rule_known(
                        rules@,
                        columns.deep_view(),
                        i,
                    ),
                forall|i: int| 0 <= i < done.len() ==> all.contains(#[trigger] done[i]),
                steps@.len() == j,
                forall|i: int|
                    0 <= i < j ==> (#[trigger] steps@[i])@ == step_of(
                        rules@,
                        *table_model,
                        columns.deep_view(),
                        done[i],
                    ) && 0 <= steps@[i]@.index < columns@.len(),
            decreases order@.len() - j,
        {
            let name = order[j].as_str();
            let ghost n = done[j as int];
            proof {
                assert(all.contains(n));
                value::lemma_last_place(all, n);
                assert(rule_known(rules@, columns.deep_view(), value::last_place(all, n)));
                assert(columns.deep_view().contains(n));
                value::lemma_last_place(columns.deep_view(), n);
            }
            match (
                value::find_last_name(names_of.as_slice(), name),
                value::find_last_name(columns, name),
            ) {
                (Some(rule), Some(index)) => {
                    let (is_integer, scale) = match table_model.column(name) {
                        Some(c) => (c.is_integer(), c.decimal_scale),
                        None => (false, None),
                    };
                    steps.push(
                        DeriveStep {
                            column: order[j].clone(),
                            index,
                            expr: exprs[rule].copy(),
                            is_integer,
                            scale,
                        },
                    );
                },
                _ => {
                    proof {
                        assert(false);
                    }
                },
            }
            j = j + 1;
        }
        let plan = DerivePlan {
            table_name: table_name.to_owned(),
            columns: copy_names(columns),
            steps,
        };
        proof {
            assert(step_names(plan.steps()) =~= done);
        }
        Ok(plan)
    }

    /// Computes the columns of one row.
    pub fn apply_to_row(&self, row: &mut Vec<Value>) -> (r: Result<(), String>)
        requires
            self.wf(),
            old(row)@.len() == self.columns().len(),
        ensures
            final(row)@.len() == old(row)@.len(),
            match r {
                Ok(_) => derive_row(
                    self.table(),
                    self.columns(),
                    self.steps(),
                    old(row).deep_view(),
                ) == Ok::<Seq<Cell>, Seq<char>>(final(row).deep_view()),
                Err(m) => derive_row(
                    self.table(),
                    self.columns(),
                    self.steps(),
                    old(row).deep_view(),
                ) == Err::<Seq<Cell>, Seq<char>>(m@),
            },
    {
        let ghost want = derive_row(
            self.table(),
            self.columns(),
            self.steps(),
            row.deep_view(),
        );
        let mut i: usize = 0;
        proof {
            assert(self.steps().skip(0) =~= self.steps());
        }
        while i < self.steps.len()
            invariant
                i <= self.steps@.len(),
                self.wf(),
                row@.len() == self.columns().len(),
                row@.len() == old(row)@.len(),
                want == derive_row(
                    self.table(),
                    self.columns(),
                    self.steps(),
                    old(row).deep_view(),
                ),
                want == derive_row(
                    self.table(),
                    self.columns(),
                    self.steps().skip(i as int),
                    row.deep_view(),
                ),
            decreases self.steps@.len() - i,
        {
            let ghost before = row.deep_view();
            proof {
                assert(self.steps().skip(i as int)[0] == self.steps()[i as int]);
                assert(self.steps().skip(i as int).skip(1) =~= self.steps().skip(i + 1));
                assert(self.steps()[i as int] == self.steps@[i as int]@);
            }
            match self.steps[i].cell(self.columns.as_slice(), row.as_slice()) {
                Ok(v) => {
                    let ghost c = v@;
                    row.set(self.steps[i].index, v);
                    proof {
                        assert(row.deep_view() =~= before.update(self.steps()[i as int].index, c));
                    }
                },
                Err(e) => {
                    let mut m = write_heading(
                        self.table_name.as_str(),
                        self.steps[i].column.as_str(),
                    );
                    text::push_text(&mut m, e.as_str());
                    return Err(m);
                },
            }
            i = i + 1;
        }
        Ok(())
    }
}

/// The rows keep their lengths.
pub open spec fn all_wide(rows: Seq<Vec<Value>>, width: nat) -> bool {
    forall|i: int| 0 <= i < rows.len() ==> (#[trigger] rows[i])@.len() == width
}

/// The cells of rows.
pub open spec fn rows_cells(rows: Seq<Vec<Value>>) -> Seq<Seq<Cell>> {
    Seq::new(rows.len(), |i: int| rows[i].deep_view())
}

/// Whether `want` is what computing the first rows gave, followed by what
/// computing the rest gives.
spec fn rows_so_far(
    done: Seq<Seq<Cell>>,
    rest: Result<Seq<Seq<Cell>>, Seq<char>>,
    want: Result<Seq<Seq<Cell>>, Seq<char>>,
) -> bool {
    match rest {
        Ok(more) => want == Ok::<Seq<Seq<Cell>>, Seq<char>>(done + more),
        Err(m) => want == Err::<Seq<Seq<Cell>>, Seq<char>>(m),
    }
}

impl DerivePlan {
    /// Computes the columns of every row.
    pub fn apply_to_rows(&self, rows: &mut Vec<Vec<Value>>) -> (r: Result<(), String>)
        requires
            self.wf(),
            all_wide(old(rows)@, self.columns().len()),
        ensures
            final(rows)@.len() == old(rows)@.len(),
            all_wide(final(rows)@, self.columns().len()),
            match r {
                Ok(_) => derive_rows(
                    self.table(),
                    self.columns(),
                    self.steps(),
                    rows_cells(old(rows)@),
                ) == Ok::<Seq<Seq<Cell>>, Seq<char>>(rows_cells(final(rows)@)),
                Err(m) => derive_rows(
                    self.table(),
                    self.columns(),
                    self.steps(),
                    rows_cells(old(rows)@),
                ) == Err::<Seq<Seq<Cell>>, Seq<char>>(m@),
            },
    {
        let ghost first = rows_cells(rows@);
        let ghost want = derive_rows(self.table(), self.columns(), self.steps(), first);
        let mut i: usize = 0;
        proof {
            assert(first.skip(0) =~= first);
            assert(rows_so_far(rows_cells(rows@).take(0), want, want)) by {
                match want {
                    Ok(more) => {
                        assert(rows_cells(rows@).take(0) + more =~= more);
                    },
                    Err(m) => {},
                }
            }
        }
        while i < rows.len()
            invariant
                i <= rows@.len(),
                self.wf(),
                rows@.len() == old(rows)@.len(),
                first == rows_cells(old(rows)@),
                all_wide(rows@, self.columns().len()),
                forall|k: int| i <= k < rows@.len() ==> #[trigger] rows@[k] == old(rows)@[k],
                want == derive_rows(self.table(), self.columns(), self.steps(), first),
                rows_so_far(
                    rows_cells(rows@).take(i as int),
                    derive_rows(
                        self.table(),
                        self.columns(),
                        self.steps(),
                        first.skip(i as int),
                    ),
                    want,
                ),
            decreases rows@.len() - i,
        {
            let ghost before = rows@;
            let ghost here = first[i as int];
            proof {
                assert(here == before[i as int].deep_view());
                assert(first.skip(i as int)[0] == here);
                assert(first.skip(i as int).skip(1) =~= first.skip(i + 1));
            }
            match self.apply_to_row(&mut rows[i]) {
                Ok(_) => {},
                Err(m) => {
                    return Err(m);
                },
            }
            proof {
                let now = rows@[i as int].deep_view();
                assert(rows_cells(rows@).take(i + 1) =~= rows_cells(before).take(i as int).push(
                    now,
                ));
                match derive_rows(
                    self.table(),
                    self.columns(),
                    self.steps(),
                    first.skip(i + 1),
                ) {
                    Ok(more) => {
                        assert(rows_cells(before).take(i as int) + (seq![now] + more)
                            =~= rows_cells(rows@).take(i + 1) + more);
                    },
                    Err(m) => {},
                }
            }
            i = i + 1;
        }
        proof {
            assert(rows_cells(rows@).take(i as int) + Seq::<Seq<Cell>>::empty() =~= rows_cells(
                rows@,
            ));
        }
        Ok(())
    }
}

/// No step reads its own column or that of a later step, and no two write the
/// same column.
pub open spec fn ordered_steps(columns: Seq<Seq<char>>, steps: Seq<Step>) -> bool {
    &&& forall|i: int|
        0 <= i < steps.len() ==> (#[trigger] steps[i]).index == value::last_place(
            columns,
            steps[i].column,
        ) && 0 <= steps[i].index < columns.len()
    &&& forall|i: int, j: int|
        0 <= i < j < steps.len() ==> (#[trigger] steps[i]).column != (#[trigger] steps[j]).column
    &&& forall|i: int, j: int|
        0 <= i <= j < steps.len() ==> !expr::mentions(
            (#[trigger] steps[i]).tree,
            (#[trigger] steps[j]).column,
        )
}

proof fn lemma_plan_ordered(
    plan: DerivePlan,
    table: Seq<char>,
    rules: Seq<DeriveRule>,
    table_model: TableModel,
    columns: Seq<Seq<char>>,
)
    requires
        follows(plan, table, rules, table_model, columns),
    ensures
        ordered_steps(columns, plan.steps()),
{
    let steps = plan.steps();
    let order = step_names(steps);
    assert forall|i: int, j: int| 0 <= i < j < steps.len() implies (#[trigger] steps[i]).column != (
    #[trigger] steps[j]).column by {
        assert(order[i] != order[j]);
    }
    assert forall|i: int, j: int| 0 <= i <= j < steps.len() implies !expr::mentions(
        (#[trigger] steps[i]).tree,
        (#[trigger] steps[j]).column,
    ) by {
        let n = order[j];
        if expr::mentions(steps[i].tree, n) {
            assert(targets(rules).contains(order[j]));
            assert(is_ready(rules, order.take(i), order[i]));
            assert(steps[i].tree == tree_of(rules, order[i]));
            assert(order.take(i).contains(n));
            let k = order.take(i).index_of(n);
            assert(order[k] == order[j]);
        }
    }
}

/// Columns that no step writes stay as they are.
pub proof fn lemma_untouched(
    table: Seq<char>,
    columns: Seq<Seq<char>>,
    steps: Seq<Step>,
    row: Seq<Cell>,
    at: int,
)
    requires
        derive_row(table, columns, steps, row) is Ok,
        0 <= at < row.len(),
        forall|i: int|
            0 <= i < steps.len() ==> (#[trigger] steps[i]).index != at && 0 <= steps[i].index
                < row.len(),
    ensures
        derive_row(table, columns, steps, row)->Ok_0.len() == row.len(),
        derive_row(table, columns, steps, row)->Ok_0[at] == row[at],
    decreases steps.len(),
{
    if steps.len() > 0 {
        let c = step_cell(steps[0], columns, row)->Ok_0;
        let next = row.update(steps[0].index, c);
        assert forall|i: int| 0 <= i < steps.skip(1).len() implies (#[trigger] steps.skip(1)[i]).index
            != at && 0 <= steps.skip(1)[i].index < next.len() by {
            assert(steps.skip(1)[i] == steps[i + 1]);
        }
        lemma_untouched(table, columns, steps.skip(1), next, at);
    }
}

/// Two names that stand in the list do not share a place.
proof fn lemma_places_apart(columns: Seq<Seq<char>>, a: Seq<char>, b: Seq<char>)
    requires
        a != b,
        value::last_place(columns, b) >= 0,
    ensures
        value::last_place(columns, a) != value::last_place(columns, b),
{
    value::lemma_last_place(columns, a);
    value::lemma_last_place(columns, b);
}

/// A step's value does not change when columns that it does not read do.
proof fn lemma_step_reads(
    step: Step,
    columns: Seq<Seq<char>>,
    one: Seq<Cell>,
    other: Seq<Cell>,
)
    requires
        one.len() == other.len(),
        one.len() == columns.len(),
        forall|n: Seq<char>| #[trigger]
            expr::mentions(step.tree, n) && value::last_place(columns, n) >= 0
                ==> one[value::last_place(columns, n)] == other[value::last_place(columns, n)],
    ensures
        step_cell(step, columns, one) == step_cell(step, columns, other),
{
    let a = value::table_cells(columns, one);
    let b = value::table_cells(columns, other);
    assert forall|n: Seq<char>| #[trigger] expr::mentions(step.tree, n) implies a.contains_key(n)
        == b.contains_key(n) && (a.contains_key(n) ==> a[n] == b[n]) by {
        value::lemma_last_place(columns, n);
    }
    expr::lemma_reads_only_mentioned(step.tree, a, b);
}

/// After all steps, every computed column holds what its step gives on the
/// finished row.
proof fn lemma_steps_settle(
    table: Seq<char>,
    columns: Seq<Seq<char>>,
    steps: Seq<Step>,
    row: Seq<Cell>,
    i: int,
)
    requires
        ordered_steps(columns, steps),
        row.len() == columns.len(),
        derive_row(table, columns, steps, row) is Ok,
        0 <= i < steps.len(),
    ensures
        derive_row(table, columns, steps, row)->Ok_0.len() == row.len(),
        step_cell(steps[i], columns, derive_row(table, columns, steps, row)->Ok_0) == Ok::<
            Cell,
            Seq<char>,
        >(derive_row(table, columns, steps, row)->Ok_0[steps[i].index]),
    decreases steps.len(),
{
    let out = derive_row(table, columns, steps, row)->Ok_0;
    let c = step_cell(steps[0], columns, row)->Ok_0;
    let next = row.update(steps[0].index, c);
    let rest = steps.skip(1);
    assert(out == derive_row(table, columns, rest, next)->Ok_0);
    assert forall|k: int| 0 <= k < rest.len() implies (#[trigger] rest[k]) == steps[k + 1] by {}
    assert(ordered_steps(columns, rest)) by {
        assert forall|a: int, b: int| 0 <= a < b < rest.len() implies (#[trigger] rest[a]).column
            != (#[trigger] rest[b]).column by {
            assert(steps[a + 1].column != steps[b + 1].column);
        }
        assert forall|a: int, b: int| 0 <= a <= b < rest.len() implies !expr::mentions(
            (#[trigger] rest[a]).tree,
            (#[trigger] rest[b]).column,
        ) by {
            assert(!expr::mentions(steps[a + 1].tree, steps[b + 1].column));
        }
    }
    if i > 0 {
        lemma_steps_settle(table, columns, rest, next, i - 1);
    } else {
        assert forall|k: int| 0 <= k < rest.len() implies (#[trigger] rest[k]).index
            != steps[0].index && 0 <= rest[k].index < next.len() by {
            assert(steps[k + 1].column != steps[0].column);
            lemma_places_apart(columns, steps[0].column, steps[k + 1].column);
        }
        lemma_untouched(table, columns, rest, next, steps[0].index);
        assert forall|n: Seq<char>| #[trigger]
            expr::mentions(steps[0].tree, n) && value::last_place(
                columns,
                n,
            ) >= 0 implies row[value::last_place(columns, n)] == out[value::last_place(
            columns,
            n,
        )] by {
            let at = value::last_place(columns, n);
            value::lemma_last_place(columns, n);
            assert(!expr::mentions(steps[0].tree, steps[0].column));
            lemma_places_apart(columns, n, steps[0].column);
            assert forall|k: int| 0 <= k < rest.len() implies (#[trigger] rest[k]).index != at && 0
                <= rest[k].index < next.len() by {
                assert(!expr::mentions(steps[0].tree, steps[k + 1].column));
                lemma_places_apart(columns, n, steps[k + 1].column);
            }
            lemma_untouched(table, columns, rest, next, at);
        }
        lemma_step_reads(steps[0], columns, row, out);
    }
}

/// Where every step gives what the row already holds, nothing changes.
proof fn lemma_fixed_point(
    table: Seq<char>,
    columns: Seq<Seq<char>>,
    steps: Seq<Step>,
    row: Seq<Cell>,
)
    requires
        forall|i: int|
            0 <= i < steps.len() ==> 0 <= (#[trigger] steps[i]).index < row.len() && step_cell(
                steps[i],
                columns,
                row,
            ) == Ok::<Cell, Seq<char>>(row[steps[i].index]),
    ensures
        derive_row(table, columns, steps, row) == Ok::<Seq<Cell>, Seq<char>>(row),
    decreases steps.len(),
{
    if steps.len() > 0 {
        assert(steps[0].index < row.len());
        assert(row.update(steps[0].index, row[steps[0].index]) =~= row);
        assert forall|i: int| 0 <= i < steps.skip(1).len() implies 0 <= (#[trigger] steps.skip(
            1,
        )[i]).index < row.len() && step_cell(steps.skip(1)[i], columns, row) == Ok::<
            Cell,
            Seq<char>,
        >(row[steps.skip(1)[i].index]) by {
            assert(steps.skip(1)[i] == steps[i + 1]);
        }
        lemma_fixed_point(table, columns, steps.skip(1), row);
    }
}

/// Computing the columns of a row a second time changes nothing.
pub proof fn lemma_derive_idempotent(
    plan: DerivePlan,
    table: Seq<char>,
    rules: Seq<DeriveRule>,
    table_model: TableModel,
    columns: Seq<Seq<char>>,
    row: Seq<Cell>,
)
    requires
        follows(plan, table, rules, table_model, columns),
        row.len() == columns.len(),
        derive_row(table, columns, plan.steps(), row) is Ok,
    ensures
        derive_row(
            table,
            columns,
            plan.steps(),
            derive_row(table, columns, plan.steps(), row)->Ok_0,
        ) == derive_row(table, columns, plan.steps(), row),
{
    let steps = plan.steps();
    let out = derive_row(table, columns, steps, row)->Ok_0;
    lemma_plan_ordered(plan, table, rules, table_model, columns);
    assert forall|i: int| 0 <= i < steps.len() implies 0 <= (#[trigger] steps[i]).index < out.len()
        && step_cell(steps[i], columns, out) == Ok::<Cell, Seq<char>>(out[steps[i].index]) by {
        lemma_steps_settle(table, columns, steps, row, i);
    }
    lemma_fixed_point(table, columns, steps, out);
}

/// Every computed column of a finished row holds what its expression gives on
/// that row, and every other column is as it was.
pub proof fn lemma_derived_columns_hold(
    plan: DerivePlan,
    table: Seq<char>,
    rules: Seq<DeriveRule>,
    table_model: TableModel,
    columns: Seq<Seq<char>>,
    row: Seq<Cell>,
)
    requires
        follows(plan, table, rules, table_model, columns),
        row.len() == columns.len(),
        derive_row(table, columns, plan.steps(), row) is Ok,
    ensures
        ({
            let out = derive_row(table, columns, plan.steps(), row)->Ok_0;
            &&& out.len() == row.len()
            &&& forall|i: int|
                0 <= i < plan.steps().len() ==> step_cell(
                    #[trigger] plan.steps()[i],
                    columns,
                    out,
                ) == Ok::<Cell, Seq<char>>(out[plan.steps()[i].index])
            &&& forall|at: int|
                0 <= at < row.len() && (forall|i: int|
                    0 <= i < plan.steps().len() ==> (#[trigger] plan.steps()[i]).index != at)
                    ==> #[trigger] out[at] == row[at]
        }),
{
    let steps = plan.steps();
    let out = derive_row(table, columns, steps, row)->Ok_0;
    lemma_plan_ordered(plan, table, rules, table_model, columns);
    assert(out.len() == row.len()) by {
        if steps.len() > 0 {
            lemma_steps_settle(table, columns, steps, row, 0);
        }
    }
    assert forall|i: int| 0 <= i < steps.len() implies step_cell(
        #[trigger] plan.steps()[i],
        columns,
        out,
    ) == Ok::<Cell, Seq<char>>(out[steps[i].index]) by {
        lemma_steps_settle(table, columns, steps, row, i);
    }
    assert forall|at: int|
        0 <= at < row.len() && (forall|i: int|
            0 <= i < plan.steps().len() ==> (#[trigger] plan.steps()[i]).index
                != at) implies #[trigger] out[at] == row[at] by {
        lemma_untouched(table, columns, steps, row, at);
    }
}

/// Which computed columns cannot be put in order does not depend on the order
/// in which the others were taken.
pub proof fn lemma_left_over_agrees(
    rules: Seq<DeriveRule>,
    one: Seq<Seq<char>>,
    other: Seq<Seq<char>>,
)
    requires
        plan_order(rules, one),
        plan_order(rules, other),
    ensures
        forall|n: Seq<char>| one.contains(n) <==> other.contains(n),
{
    lemma_order_within(rules, one, other, one.len() as int);
    lemma_order_within(rules, other, one, other.len() as int);
    assert forall|n: Seq<char>| one.contains(n) <==> other.contains(n) by {
        if one.contains(n) {
            assert(one[one.index_of(n)] == n);
        }
        if other.contains(n) {
            assert(other[other.index_of(n)] == n);
        }
    }
}

#[verifier::spinoff_prover]
#[verifier::rlimit(50)]
proof fn lemma_order_within(
    rules: Seq<DeriveRule>,
    one: Seq<Seq<char>>,
    other: Seq<Seq<char>>,
    j: int,
)
    requires
        plan_order(rules, one),
        plan_order(rules, other),
        0 <= j <= one.len(),
    ensures
        forall|i: int| 0 <= i < j ==> other.contains(#[trigger] one[i]),
    decreases j,
{
    if j > 0 {
        lemma_order_within(rules, one, other, j - 1);
        let n = one[j - 1];
        assert(is_ready(rules, one.take(j - 1), n));
        assert forall|m: Seq<char>| #[trigger]
            expr::mentions(tree_of(rules, n), m) && targets(rules).contains(
                m,
            ) implies other.contains(m) by {
            let k = one.take(j - 1).index_of(m);
            assert(one[k] == m);
        }
        assert(is_ready(rules, other, n));
        assert(targets(rules).contains(n));
    }
}

/// The first `i` computed columns that the `j`-th reads, each with an arc to it.
pub open spec fn inputs_of(rules: Seq<DeriveRule>, j: int, i: nat) -> Seq<
    (Seq<char>, Seq<char>),
>
    decreases i,
{
    if i == 0 {
        Seq::empty()
    } else {
        let before = inputs_of(rules, j, (i - 1) as nat);
        let from = targets(rules)[i - 1];
        let to = targets(rules)[j];
        if expr::mentions(tree_of(rules, to), from) {
            before.push((from, to))
        } else {
            before
        }
    }
}

/// Which of the computed columns the first `n` of them read: an arc from each that is
/// read to the one that reads it.
pub open spec fn dependencies(rules: Seq<DeriveRule>, n: nat) -> Seq<(Seq<char>, Seq<char>)>
    decreases n,
{
    if n == 0 {
        Seq::empty()
    } else {
        dependencies(rules, (n - 1) as nat) + inputs_of(rules, n - 1, rules.len())
    }
}

/// A computed column reads another.
pub open spec fn reads(rules: Seq<DeriveRule>, from: Seq<char>, to: Seq<char>) -> bool {
    &&& targets(rules).contains(from)
    &&& targets(rules).contains(to)
    &&& expr::mentions(tree_of(rules, to), from)
}

proof fn lemma_inputs(rules: Seq<DeriveRule>, j: int, i: nat)
    requires
        0 <= j < rules.len(),
        i <= rules.len(),
    ensures
        forall|a: int|
            0 <= a < inputs_of(rules, j, i).len() ==> reads(
                rules,
                (#[trigger] inputs_of(rules, j, i)[a]).0,
                inputs_of(rules, j, i)[a].1,
            ),
        forall|m: int|
            0 <= m < i && expr::mentions(
                tree_of(rules, targets(rules)[j]),
                #[trigger] targets(rules)[m],
            ) ==> inputs_of(rules, j, i).contains((targets(rules)[m], targets(rules)[j])),
    decreases i,
{
    if i > 0 {
        lemma_inputs(rules, j, (i - 1) as nat);
        let before = inputs_of(rules, j, (i - 1) as nat);
        let now = inputs_of(rules, j, i);
        let all = targets(rules);
        assert(all.contains(all[i - 1]) && all.contains(all[j]));
        assert forall|a: int| 0 <= a < now.len() implies reads(
            rules,
            (#[trigger] now[a]).0,
            now[a].1,
        ) by {
            if a < before.len() {
                assert(now[a] == before[a]);
            }
        }
        assert forall|m: int| 0 <= m < i && expr::mentions(
            tree_of(rules, all[j]),
            #[trigger] all[m],
        ) implies now.contains((all[m], all[j])) by {
            if m < i - 1 {
                let a = before.index_of((all[m], all[j]));
                assert(now[a] == (all[m], all[j]));
            } else {
                assert(now.last() == (all[m], all[j]));
                assert(now[now.len() - 1] == (all[m], all[j]));
            }
        }
    }
}

proof fn lemma_dependencies(rules: Seq<DeriveRule>, n: nat)
    requires
        n <= rules.len(),
    ensures
        forall|a: int|
            0 <= a < dependencies(rules, n).len() ==> reads(
                rules,
                (#[trigger] dependencies(rules, n)[a]).0,
                dependencies(rules, n)[a].1,
            ),
        forall|m: int, j: int|
            #![trigger targets(rules)[m], targets(rules)[j]]
            0 <= m < rules.len() && 0 <= j < n && expr::mentions(
                tree_of(rules, targets(rules)[j]),
                targets(rules)[m],
            ) ==> dependencies(rules, n).contains((targets(rules)[m], targets(rules)[j])),
    decreases n,
{
    if n > 0 {
        lemma_dependencies(rules, (n - 1) as nat);
        lemma_inputs(rules, n - 1, rules.len());
        let before = dependencies(rules, (n - 1) as nat);
        let more = inputs_of(rules, n - 1, rules.len());
        let now = dependencies(rules, n);
        let all = targets(rules);
        assert forall|a: int| 0 <= a < now.len() implies reads(
            rules,
            (#[trigger] now[a]).0,
            now[a].1,
        ) by {
            if a < before.len() {
                assert(now[a] == before[a]);
            } else {
                assert(now[a] == more[a - before.len()]);
            }
        }
        assert forall|m: int, j: int|
            #![trigger all[m], all[j]]
            0 <= m < rules.len() && 0 <= j < n && expr::mentions(
                tree_of(rules, all[j]),
                all[m],
            ) implies now.contains((all[m], all[j])) by {
            if j < n - 1 {
                let a = before.index_of((all[m], all[j]));
                assert(now[a] == (all[m], all[j]));
            } else {
                let a = more.index_of((all[m], all[j]));
                assert(now[before.len() + a] == (all[m], all[j]));
            }
        }
    }
}

/// A column is ready where its arcs come from the order.
proof fn lemma_ready_is_fed(rules: Seq<DeriveRule>, order: Seq<Seq<char>>, name: Seq<char>)
    requires
        targets(rules).contains(name),
    ensures
        is_ready(rules, order, name) <==> graph::fed_by(
            dependencies(rules, rules.len()),
            order,
            name,
        ),
{
    let arcs = dependencies(rules, rules.len());
    let all = targets(rules);
    lemma_dependencies(rules, rules.len());
    if is_ready(rules, order, name) {
        assert forall|k: int| 0 <= k < arcs.len() && (#[trigger] arcs[k]).1
            == name implies order.contains(arcs[k].0) by {
            assert(reads(rules, arcs[k].0, arcs[k].1));
        }
    }
    if graph::fed_by(arcs, order, name) {
        assert forall|n: Seq<char>| #[trigger]
            expr::mentions(tree_of(rules, name), n) && all.contains(n) implies order.contains(n) by {
            let m = all.index_of(n);
            let j = all.index_of(name);
            assert(all[m] == n && all[j] == name);
            let k = arcs.index_of((n, name));
            assert(arcs[k] == (n, name));
        }
    }
}

/// Where no column is computed by two rules, all rules can be put in order exactly when
/// no computed column depends on itself through the others: a plan is refused for a
/// cycle where there is one, and nowhere else.
pub proof fn lemma_plan_iff_acyclic(rules: Seq<DeriveRule>, order: Seq<Seq<char>>)
    requires
        targets(rules).no_duplicates(),
        plan_order(rules, order),
    ensures
        order.len() == rules.len() <==> !exists|p: Seq<Seq<char>>|
            graph::is_cycle(dependencies(rules, rules.len()), p),
{
    let arcs = dependencies(rules, rules.len());
    let all = targets(rules);
    lemma_dependencies(rules, rules.len());
    assert(graph::closed_over(all, arcs)) by {
        assert forall|k: int| 0 <= k < arcs.len() implies all.contains((#[trigger] arcs[k]).0)
            && all.contains(arcs[k].1) by {
            assert(reads(rules, arcs[k].0, arcs[k].1));
        }
    }
    assert forall|v: Seq<char>| #[trigger] graph::is_vertex(all, arcs, v) <==> all.contains(v) by {
        if exists|k: int| 0 <= k < arcs.len() && (#[trigger] arcs[k]).1 == v {
            let k = choose|k: int| 0 <= k < arcs.len() && (#[trigger] arcs[k]).1 == v;
            assert(reads(rules, arcs[k].0, arcs[k].1));
        }
    }
    assert(graph::settles(all, arcs, order)) by {
        assert forall|j: int| 0 <= j < order.len() implies graph::is_vertex(
            all,
            arcs,
            #[trigger] order[j],
        ) && graph::fed_by(arcs, order.take(j), order[j]) by {
            lemma_ready_is_fed(rules, order.take(j), order[j]);
        }
        assert forall|v: Seq<char>| #[trigger]
            graph::is_vertex(all, arcs, v) && graph::fed_by(arcs, order, v) implies order.contains(
            v,
        ) by {
            lemma_ready_is_fed(rules, order, v);
        }
    }
    graph::lemma_order_iff_acyclic(all, arcs, order);
}

} // verus!
