//! Rules that replace a column's values: fixed ones, pools, and ranges.
use crate::branch;
use crate::derivation;
use crate::distinct;
use crate::domain;
use crate::draw;
use crate::draw::{Hold, Pinned, Sampler};
use crate::literal;
use crate::model;
use crate::model::{LogicalType, TableModel};
use crate::rules;
use crate::rules::{ColumnMode, ColumnRule, TableRule, ValuePool};
use crate::text;
use crate::value::{Cell, Value};
use vstd::prelude::*;

verus! {

/// The column's values are drawn given another column's.
pub open spec fn is_conditional(rule: TableRule, column: Seq<char>) -> bool {
    match rules::column_rule(rule.columns@, column) {
        Some(c) => c.mode == ColumnMode::CopulaConditional,
        None => false,
    }
}

pub(crate) fn has_condition(rule: &TableRule, column: &str) -> (r: bool)
    ensures
        r == is_conditional(*rule, column@),
{
    match rule.column(column) {
        Some(said) => matches!(said.mode, ColumnMode::CopulaConditional),
        None => false,
    }
}

/// Why a column cannot be pinned, where that does not depend on its
/// distribution.
pub open spec fn pin_fault(rule: TableRule, table: TableModel, column: Seq<char>) -> Option<
    Seq<char>,
> {
    let name = rule.name@;
    let trained = model::column_model(table.columns@, column);
    if !is_conditional(rule, column) {
        None
    } else if trained is None {
        Some(
            domain::column_heading(name, column)
                + "mode 'copula_conditional' needs a trained column model"@,
        )
    } else if trained->0.levels is Some {
        Some(
            domain::column_heading(name, column)
                + "mode 'copula_conditional' needs an invertible numeric marginal; a categorical column has no CDF"@,
        )
    } else {
        let c = rules::column_rule(rule.columns@, column)->0;
        if c.fixed is Some {
            match domain::literal_mark(
                name,
                column,
                c.fixed->0@,
                literal::double_of(c.fixed->0@) is Some,
                trained,
            ) {
                Ok(_) => None,
                Err(m) => Some(m),
            }
        } else if c.fixed_range is Some {
            let range = c.fixed_range->0;
            match domain::endpoint_mark(name, column, range.0@, trained) {
                Err(m) => Some(m),
                Ok(_) => match domain::endpoint_mark(name, column, range.1@, trained) {
                    Err(m) => Some(m),
                    Ok(_) => None,
                },
            }
        } else {
            Some(
                domain::column_heading(name, column)
                    + "mode 'copula_conditional' needs a 'fixed' value or a 'fixed_range'"@,
            )
        }
    }
}

/// The message for a range in which the trained distribution has no mass.
pub open spec fn no_mass(name: Seq<char>, column: Seq<char>) -> Seq<char> {
    domain::column_heading(name, column)
        + "fixed_range covers no probability mass in the trained marginal; the range lies outside the observed values"@
}

/// A column is pinned to a range, so that its distribution decides.
pub open spec fn pinned_to_range(rule: TableRule, column: Seq<char>) -> bool {
    match rules::column_rule(rule.columns@, column) {
        Some(c) => c.mode == ColumnMode::CopulaConditional && c.fixed is None && c.fixed_range is Some,
        None => false,
    }
}

/// What a column is pinned to, where nothing is wrong with it.
pub open spec fn pin_hold(rule: TableRule, table: TableModel, column: Seq<char>) -> Hold {
    let name = rule.name@;
    let trained = model::column_model(table.columns@, column);
    let c = rules::column_rule(rule.columns@, column)->0;
    if c.fixed is Some {
        Hold::Fixed(
            domain::literal_mark(
                name,
                column,
                c.fixed->0@,
                literal::double_of(c.fixed->0@) is Some,
                trained,
            )->Ok_0,
        )
    } else {
        let range = c.fixed_range->0;
        Hold::Range(
            domain::endpoint_mark(name, column, range.0@, trained)->Ok_0,
            domain::endpoint_mark(name, column, range.1@, trained)->Ok_0,
        )
    }
}

/// Whether one of the first columns is pinned, or why one cannot be, and the sampler
/// that holds them.
pub open spec fn pins_from<S: Sampler>(
    s: S,
    rule: TableRule,
    table: TableModel,
    columns: Seq<Seq<char>>,
    rows: usize,
    streams: Seq<rand::rngs::StdRng>,
    n: nat,
) -> (Result<bool, Seq<char>>, S)
    decreases n,
{
    if n == 0 {
        (Ok(false), s)
    } else {
        let before = pins_from(s, rule, table, columns, rows, streams, (n - 1) as nat);
        let column = columns[n - 1];
        if before.0 is Err || !is_conditional(rule, column) {
            before
        } else {
            match pin_fault(rule, table, column) {
                Some(m) => (Err(m), before.1),
                None => {
                    let d = before.1.pinned(
                        table,
                        (n - 1) as usize,
                        pin_hold(rule, table, column),
                        rows,
                        streams[n - 1],
                    );
                    if pinned_to_range(rule, column) && !d.0 {
                        (Err(no_mass(rule.name@, column)), d.1)
                    } else {
                        (Ok(true), d.1)
                    }
                },
            }
        }
    }
}

/// Where one column cannot be pinned, the further ones are not.
proof fn lemma_pins_stop<S: Sampler>(
    s: S,
    rule: TableRule,
    table: TableModel,
    columns: Seq<Seq<char>>,
    rows: usize,
    streams: Seq<rand::rngs::StdRng>,
    k: nat,
    n: nat,
)
    requires
        k <= n,
        pins_from(s, rule, table, columns, rows, streams, k).0 is Err,
    ensures
        pins_from(s, rule, table, columns, rows, streams, n) == pins_from(
            s,
            rule,
            table,
            columns,
            rows,
            streams,
            k,
        ),
    decreases n,
{
    if k < n {
        lemma_pins_stop(s, rule, table, columns, rows, streams, k, (n - 1) as nat);
    }
}

/// What a column is pinned to.
fn pin_target(rule: &TableRule, table: &TableModel, column: &str, c: &ColumnRule) -> (r: Result<
    Pinned,
    String,
>)
    requires
        rules::column_rule(rule.columns@, column@) == Some(*c),
        c.mode == ColumnMode::CopulaConditional,
    ensures
        match r {
            Ok(p) => pin_fault(*rule, *table, column@) is None && (p is Range
                <==> pinned_to_range(*rule, column@)) && p@ == pin_hold(*rule, *table, column@),
            Err(m) => pin_fault(*rule, *table, column@) == Some(m@),
        },
{
    let name = rule.name.as_str();
    let trained = table.column(column);
    match trained {
        Some(t) => {
            if t.levels.is_some() {
                let mut m = domain::write_column_heading(name, column);
                text::push_text(
                    &mut m,
                    "mode 'copula_conditional' needs an invertible numeric marginal; a categorical column has no CDF",
                );
                return Err(m);
            }
        },
        None => {
            let mut m = domain::write_column_heading(name, column);
            text::push_text(&mut m, "mode 'copula_conditional' needs a trained column model");
            return Err(m);
        },
    }
    match &c.fixed {
        Some(l) => match domain::literal_in_marginal_domain(name, column, l.as_str(), trained) {
            Ok(p) => Ok(Pinned::Fixed(p)),
            Err(m) => Err(m),
        },
        None => match &c.fixed_range {
            Some(range) => {
                let low = match domain::range_endpoint_in_marginal_domain(
                    name,
                    column,
                    &range.0,
                    trained,
                ) {
                    Ok(p) => p,
                    Err(m) => {
                        return Err(m);
                    },
                };
                match domain::range_endpoint_in_marginal_domain(name, column, &range.1, trained) {
                    Ok(high) => Ok(Pinned::Range(low, high)),
                    Err(m) => Err(m),
                }
            },
            None => {
                let mut m = domain::write_column_heading(name, column);
                text::push_text(
                    &mut m,
                    "mode 'copula_conditional' needs a 'fixed' value or a 'fixed_range'",
                );
                Err(m)
            },
        },
    }
}

/// Pins the columns whose rules ask for a conditional draw; says whether there
/// are any.
#[verifier::loop_isolation(false)]
pub fn conditional_pins<S: Sampler>(
    sampler: &mut S,
    rule: &TableRule,
    table: &TableModel,
    columns: &[String],
    rows: usize,
    streams: Vec<rand::rngs::StdRng>,
) -> (r: Result<bool, String>)
    requires
        streams@.len() == columns@.len(),
    ensures
        ({
            let pins = pins_from(
                *old(sampler),
                *rule,
                *table,
                columns.deep_view(),
                rows,
                streams@,
                columns@.len(),
            );
            &&& *final(sampler) == pins.1
            &&& match r {
                Ok(any) => pins.0 == Ok::<bool, Seq<char>>(any),
                Err(m) => pins.0 == Err::<bool, Seq<char>>(m@),
            }
        }),
        r is Ok ==> ({
            &&& forall|c: int|
                0 <= c < columns@.len() ==> pin_fault(
                    *rule,
                    *table,
                    #[trigger] columns.deep_view()[c],
                ) is None
            &&& r->Ok_0 <==> exists|c: int|
                0 <= c < columns@.len() && is_conditional(
                    *rule,
                    #[trigger] columns.deep_view()[c],
                )
        }),
{
    let ghost names = columns.deep_view();
    let ghost all = streams@;
    let mut streams = streams;
    let mut any = false;
    let mut c: usize = 0;
    while c < columns.len()
        invariant
            c <= columns@.len(),
            names == columns.deep_view(),
            forall|k: int|
                0 <= k < c ==> pin_fault(*rule, *table, #[trigger] names[k]) is None,
            any <==> exists|k: int| 0 <= k < c && is_conditional(*rule, #[trigger] names[k]),
            all.len() == columns@.len(),
            streams@.len() == all.len(),
            forall|k: int| c <= k < all.len() ==> #[trigger] streams@[k] == all[k],
            pins_from(*old(sampler), *rule, *table, names, rows, all, c as nat) == (
                Ok::<bool, Seq<char>>(any),
                *sampler,
            ),
        decreases columns@.len() - c,
    {
        let column = columns[c].as_str();
        proof {
            assert(names[c as int] == column@);
        }
        match rule.column(column) {
            Some(said) => {
                if matches!(said.mode, ColumnMode::CopulaConditional) {
                    match pin_target(rule, table, column, said) {
                        Ok(target) => {
                            let ranged = matches!(target, Pinned::Range(_, _));
                            let held = sampler.pin(table, c, target, rows, &mut streams[c]);
                            if ranged && !held {
                                let mut m = domain::write_column_heading(
                                    rule.name.as_str(),
                                    column,
                                );
                                text::push_text(
                                    &mut m,
                                    "fixed_range covers no probability mass in the trained marginal; the range lies outside the observed values",
                                );
                                proof {
                                    lemma_pins_stop(
                                        *old(sampler),
                                        *rule,
                                        *table,
                                        names,
                                        rows,
                                        all,
                                        (c + 1) as nat,
                                        names.len(),
                                    );
                                }
                                return Err(m);
                            }
                        },
                        Err(m) => {
                            proof {
                                lemma_pins_stop(
                                    *old(sampler),
                                    *rule,
                                    *table,
                                    names,
                                    rows,
                                    all,
                                    (c + 1) as nat,
                                    names.len(),
                                );
                            }
                            return Err(m);
                        },
                    }
                    any = true;
                }
            },
            None => {},
        }
        c = c + 1;
    }
    Ok(any)
}

/// What a rule makes of a column.
pub enum Replaced {
    /// The column stays as it was drawn.
    Kept,
    /// Every row has the cell.
    All(Cell),
    /// Every row has one of the cells.
    OneOf(Seq<Cell>),
    /// Every row has a value between two cells, on the axis of a datetime format or
    /// of numbers.
    Ranged(Cell, Cell, Option<Seq<char>>),
}

/// The format of a datetime column, where it has one.
pub open spec fn axis_format(table: TableModel, column: Seq<char>) -> Option<Seq<char>> {
    match model::column_model(table.columns@, column) {
        Some(c) => if c.logical_type == LogicalType::Datetime {
            c.datetime_format.deep_view()
        } else {
            None
        },
        None => None,
    }
}

/// The cells of a pool's values.
pub open spec fn pool_cells(pool: ValuePool, numerical: bool) -> Seq<Cell> {
    Seq::new(
        rules::pool_literals(pool).len(),
        |i: int| literal::literal_cell(rules::pool_literals(pool)[i]@, numerical),
    )
}

/// What the rules make of a column. One that is drawn conditionally keeps its
/// values, but for a fixed one, which is written as it stands.
pub open spec fn replaced(rule: TableRule, table: TableModel, column: Seq<char>) -> Replaced {
    match rules::column_rule(rule.columns@, column) {
        None => Replaced::Kept,
        Some(c) => if c.fixed is Some {
            Replaced::All(literal::literal_cell(c.fixed->0@, table.numerical(column)))
        } else if c.mode == ColumnMode::CopulaConditional {
            Replaced::Kept
        } else if c.values is Some {
            Replaced::OneOf(pool_cells(c.values->0, table.numerical(column)))
        } else if c.fixed_range is Some {
            let range = c.fixed_range->0;
            Replaced::Ranged(range.0@, range.1@, axis_format(table, column))
        } else {
            Replaced::Kept
        },
    }
}

/// A column after its rule.
pub open spec fn replaced_column(before: Seq<Cell>, after: Seq<Cell>, how: Replaced) -> bool {
    &&& after.len() == before.len()
    &&& match how {
        Replaced::Kept => after == before,
        Replaced::All(cell) => forall|r: int| 0 <= r < after.len() ==> #[trigger] after[r] == cell,
        Replaced::OneOf(cells) => forall|r: int|
            0 <= r < after.len() ==> cells.contains(#[trigger] after[r]),
        Replaced::Ranged(low, high, format) => forall|r: int|
            0 <= r < after.len() ==> domain::within(low, high, format, #[trigger] after[r]),
    }
}

/// Why a column's values cannot be replaced, where that is known beforehand.
pub open spec fn override_fault(
    rule: TableRule,
    table: TableModel,
    referenced: Seq<Seq<char>>,
    column: Seq<char>,
) -> Option<Seq<char>> {
    let heading = domain::column_heading(rule.name@, column);
    if !draw::is_overridden(rule, column) {
        None
    } else if referenced.contains(branch::key_of(rule.name@, column)) || rule.is_foreign_key(
        column,
    ) {
        Some(
            heading
                + "fixed/values/fixed_range cannot be applied to a column that participates in a relationship"@,
        )
    } else {
        match replaced(rule, table, column) {
            Replaced::OneOf(cells) => if cells.len() == 0 {
                Some(heading + "'values' pool is empty"@)
            } else {
                None
            },
            Replaced::Ranged(_, _, _) => if distinct::levels_of(table, column) is Some {
                Some(
                    heading
                        + "fixed_range needs an invertible numeric marginal but the column is categorical; use a value pool or a numeric marginal"@,
                )
            } else {
                None
            },
            _ => None,
        }
    }
}

/// How often a value is drawn for one row of a range.
pub const RANGE_DRAWS: usize = 10_000;

/// The values that are drawn from a pool, one for each row.
pub open spec fn picked<S: Sampler>(
    s: S,
    table: Seq<char>,
    column: Seq<char>,
    pool: ValuePool,
    cells: Seq<Cell>,
    rng: rand::rngs::StdRng,
    n: nat,
) -> (Seq<Cell>, rand::rngs::StdRng)
    decreases n,
{
    if n == 0 {
        (Seq::empty(), rng)
    } else {
        let before = picked(s, table, column, pool, cells, rng, (n - 1) as nat);
        let d = s.pool_place(table, column, pool, before.1);
        let i = if d.0 < cells.len() {
            d.0 as int
        } else {
            cells.len() - 1
        };
        (before.0.push(cells[i]), d.1)
    }
}

/// What a search for a value in a range comes to: the value, after so many draws;
/// none, or one that cannot be compared with the ends.
pub enum Hunt {
    Found(Cell, nat, rand::rngs::StdRng),
    Spent,
    Unlike,
}

/// A range, and what its values are drawn by.
pub struct Span {
    pub table: TableModel,
    pub name: Seq<char>,
    pub column: Seq<char>,
    pub place: usize,
    pub low: Cell,
    pub high: Cell,
    pub format: Option<Seq<char>>,
    pub enforce: bool,
}

/// Draws until a value lies in the range.
pub open spec fn hunted<S: Sampler>(
    s: S,
    span: Span,
    rng: rand::rngs::StdRng,
    draws: nat,
    tries: nat,
) -> Hunt
    decreases tries,
{
    if tries == 0 {
        Hunt::Spent
    } else {
        let d = s.redrawn(span.table, span.place, rng);
        let cell = domain::drawn_cell(
            model::column_model(span.table.columns@, span.column),
            d.0,
            span.enforce,
        );
        match domain::in_range(span.low, span.high, span.format, cell) {
            None => Hunt::Unlike,
            Some(true) => Hunt::Found(cell, draws + 1, d.1),
            Some(false) => hunted(s, span, d.1, draws + 1, (tries - 1) as nat),
        }
    }
}

/// The message for a range whose ends are not like the drawn values.
pub open spec fn unlike(name: Seq<char>, column: Seq<char>) -> Seq<char> {
    domain::column_heading(name, column)
        + "fixed_range endpoints are not comparable with the generated values"@
}

/// The message for a range in which no value was found.
pub open spec fn unmet(name: Seq<char>, column: Seq<char>) -> Seq<char> {
    domain::column_heading(name, column) + "fixed_range rejection exceeded "@ + text::digits(
        RANGE_DRAWS as nat,
    ) + " draws for one value; the range is likely empty or nearly degenerate"@
}

/// The message for a range in which too few of the drawn values lie.
pub open spec fn too_scarce(name: Seq<char>, column: Seq<char>, share: Seq<char>) -> Seq<char> {
    domain::column_heading(name, column) + "fixed_range acceptance is "@ + share
        + "% (below 1%); use mode: copula_conditional instead of rejection"@
}

/// The values of the first rows in a range and how many draws they took, or why
/// there are none.
pub open spec fn ranged<S: Sampler>(s: S, span: Span, rng: rand::rngs::StdRng, n: nat) -> Result<
    (Seq<Cell>, nat, rand::rngs::StdRng),
    Seq<char>,
>
    decreases n,
{
    if n == 0 {
        Ok((Seq::empty(), 0, rng))
    } else {
        match ranged(s, span, rng, (n - 1) as nat) {
            Ok((cells, draws, next)) => match hunted(s, span, next, 0, RANGE_DRAWS as nat) {
                Hunt::Found(cell, more, last) => Ok((cells.push(cell), draws + more, last)),
                Hunt::Spent => Err(unmet(span.name, span.column)),
                Hunt::Unlike => Err(unlike(span.name, span.column)),
            },
            Err(m) => Err(m),
        }
    }
}

/// The values of a column in a range, unless fewer than one draw of a hundred lies
/// there.
pub open spec fn ranged_column<S: Sampler>(s: S, span: Span, rng: rand::rngs::StdRng, n: nat) -> Result<
    Seq<Cell>,
    Seq<char>,
> {
    match ranged(s, span, rng, n) {
        Ok((cells, draws, _)) => if n * 100 < draws {
            Err(too_scarce(span.name, span.column, s.share(n as usize, draws as u128)))
        } else {
            Ok(cells)
        },
        Err(m) => Err(m),
    }
}

/// A column after its rule, or why it cannot be replaced.
pub open spec fn column_after<S: Sampler>(
    s: S,
    rule: TableRule,
    table: TableModel,
    referenced: Seq<Seq<char>>,
    column: Seq<char>,
    place: usize,
    enforce: bool,
    cells: Seq<Cell>,
    picks: rand::rngs::StdRng,
    ranges: rand::rngs::StdRng,
) -> Result<Seq<Cell>, Seq<char>> {
    match override_fault(rule, table, referenced, column) {
        Some(m) => Err(m),
        None => match replaced(rule, table, column) {
            Replaced::Kept => Ok(cells),
            Replaced::All(cell) => Ok(Seq::new(cells.len(), |r: int| cell)),
            Replaced::OneOf(values) => Ok(
                picked(
                    s,
                    rule.name@,
                    column,
                    rules::column_rule(rule.columns@, column)->0.values->0,
                    values,
                    picks,
                    cells.len(),
                ).0,
            ),
            Replaced::Ranged(low, high, format) => ranged_column(
                s,
                Span { table, name: rule.name@, column, place, low, high, format, enforce },
                ranges,
                cells.len(),
            ),
        },
    }
}

/// Rows with other cells in one column.
pub open spec fn with_column(rows: Seq<Seq<Cell>>, c: int, cells: Seq<Cell>) -> Seq<Seq<Cell>> {
    Seq::new(rows.len(), |r: int| rows[r].update(c, cells[r]))
}

/// The rows after the rules of the first columns, or why one cannot be replaced.
pub open spec fn rows_after<S: Sampler>(
    s: S,
    rule: TableRule,
    table: TableModel,
    referenced: Seq<Seq<char>>,
    columns: Seq<Seq<char>>,
    enforce: bool,
    rows: Seq<Seq<Cell>>,
    picks: Seq<rand::rngs::StdRng>,
    ranges: Seq<rand::rngs::StdRng>,
    n: nat,
) -> Result<Seq<Seq<Cell>>, Seq<char>>
    decreases n,
{
    if n == 0 {
        Ok(rows)
    } else {
        match rows_after(
            s,
            rule,
            table,
            referenced,
            columns,
            enforce,
            rows,
            picks,
            ranges,
            (n - 1) as nat,
        ) {
            Ok(now) => match column_after(
                s,
                rule,
                table,
                referenced,
                columns[n - 1],
                (n - 1) as usize,
                enforce,
                draw::column_of(now, n - 1),
                picks[n - 1],
                ranges[n - 1],
            ) {
                Ok(cells) => Ok(with_column(now, n - 1, cells)),
                Err(m) => Err(m),
            },
            Err(m) => Err(m),
        }
    }
}

/// Where one column cannot be replaced, the further ones are not.
proof fn lemma_columns_stop<S: Sampler>(
    s: S,
    rule: TableRule,
    table: TableModel,
    referenced: Seq<Seq<char>>,
    columns: Seq<Seq<char>>,
    enforce: bool,
    rows: Seq<Seq<Cell>>,
    picks: Seq<rand::rngs::StdRng>,
    ranges: Seq<rand::rngs::StdRng>,
    k: nat,
    n: nat,
)
    requires
        k <= n,
        rows_after(
            s,
            rule,
            table,
            referenced,
            columns,
            enforce,
            rows,
            picks,
            ranges,
            k,
        ) is Err,
    ensures
        rows_after(s, rule, table, referenced, columns, enforce, rows, picks, ranges, n)
            == rows_after(s, rule, table, referenced, columns, enforce, rows, picks, ranges, k),
    decreases n,
{
    if k < n {
        lemma_columns_stop(
            s,
            rule,
            table,
            referenced,
            columns,
            enforce,
            rows,
            picks,
            ranges,
            k,
            (n - 1) as nat,
        );
    }
}

/// Rows that differ in one column alone.
pub(crate) proof fn lemma_with_column(
    before: Seq<Seq<Cell>>,
    after: Seq<Seq<Cell>>,
    c: int,
    width: nat,
)
    requires
        distinct::only_column(before, after, c),
        0 <= c < width,
        branch::even_rows(after, width),
    ensures
        after == with_column(before, c, draw::column_of(after, c)),
{
    let want = with_column(before, c, draw::column_of(after, c));
    assert forall|r: int| 0 <= r < after.len() implies #[trigger] after[r] == want[r] by {
        assert(after[r].len() == before[r].len());
        assert forall|k: int| 0 <= k < width implies after[r][k] == want[r][k] by {
            if k != c {
                assert(after[r][k] == before[r][k]);
            }
        }
        assert(after[r] =~= want[r]);
    }
    assert(after =~= want);
}

proof fn lemma_ranged_stops<S: Sampler>(
    s: S,
    span: Span,
    rng: rand::rngs::StdRng,
    k: nat,
    n: nat,
)
    requires
        k <= n,
        ranged(s, span, rng, k) is Err,
    ensures
        ranged(s, span, rng, n) == ranged(s, span, rng, k),
    decreases n,
{
    if k < n {
        lemma_ranged_stops(s, span, rng, k, (n - 1) as nat);
    }
}

/// Writes one value into a column of every row.
fn fill_column(rows: &mut Vec<Vec<Value>>, c: usize, v: &Value, Ghost(width): Ghost<nat>)
    requires
        c < width,
        derivation::all_wide(old(rows)@, width),
    ensures
        derivation::all_wide(final(rows)@, width),
        distinct::only_column(
            derivation::rows_cells(old(rows)@),
            derivation::rows_cells(final(rows)@),
            c as int,
        ),
        forall|r: int|
            0 <= r < final(rows)@.len() ==> #[trigger] derivation::rows_cells(
                final(rows)@,
            )[r][c as int] == v@,
{
    let ghost before = derivation::rows_cells(rows@);
    let mut r: usize = 0;
    while r < rows.len()
        invariant
            r <= rows@.len(),
            c < width,
            before == derivation::rows_cells(old(rows)@),
            derivation::all_wide(old(rows)@, width),
            derivation::all_wide(rows@, width),
            distinct::only_column(before, derivation::rows_cells(rows@), c as int),
            forall|k: int|
                0 <= k < r ==> #[trigger] derivation::rows_cells(rows@)[k][c as int] == v@,
        decreases rows@.len() - r,
    {
        distinct::set_cell(rows, r, c, v.copy());
        r = r + 1;
    }
}

/// The value of a pool at a place.
fn pool_value(pool: &ValuePool, i: usize, numerical: bool) -> (r: Value)
    requires
        i < rules::pool_literals(*pool).len(),
    ensures
        r@ == pool_cells(*pool, numerical)[i as int],
{
    match pool {
        ValuePool::Weighted { values, .. } => literal::typed_literal(values[i].as_str(), numerical),
        ValuePool::Uniform(values) => literal::typed_literal(values[i].as_str(), numerical),
    }
}

fn pool_len(pool: &ValuePool) -> (r: usize)
    ensures
        r == rules::pool_literals(*pool).len(),
{
    match pool {
        ValuePool::Weighted { values, .. } => values.len(),
        ValuePool::Uniform(values) => values.len(),
    }
}

/// Draws a column of every row from a pool.
fn draw_from_pool<S: Sampler>(
    sampler: &S,
    rows: &mut Vec<Vec<Value>>,
    c: usize,
    table: &str,
    column: &str,
    pool: &ValuePool,
    numerical: bool,
    rng: &mut rand::rngs::StdRng,
    Ghost(width): Ghost<nat>,
)
    requires
        c < width,
        derivation::all_wide(old(rows)@, width),
        rules::pool_literals(*pool).len() > 0,
    ensures
        derivation::all_wide(final(rows)@, width),
        distinct::only_column(
            derivation::rows_cells(old(rows)@),
            derivation::rows_cells(final(rows)@),
            c as int,
        ),
        forall|r: int|
            0 <= r < final(rows)@.len() ==> pool_cells(*pool, numerical).contains(
                #[trigger] derivation::rows_cells(final(rows)@)[r][c as int],
            ),
        (draw::column_of(derivation::rows_cells(final(rows)@), c as int), *final(rng)) == picked(
            *sampler,
            table@,
            column@,
            *pool,
            pool_cells(*pool, numerical),
            *old(rng),
            old(rows)@.len(),
        ),
{
    let ghost before = derivation::rows_cells(rows@);
    let ghost cells = pool_cells(*pool, numerical);
    let n: usize = pool_len(pool);
    let mut r: usize = 0;
    proof {
        assert(draw::column_of(before, c as int).take(0) =~= Seq::empty());
    }
    while r < rows.len()
        invariant
            r <= rows@.len(),
            c < width,
            n == rules::pool_literals(*pool).len(),
            n > 0,
            cells == pool_cells(*pool, numerical),
            before == derivation::rows_cells(old(rows)@),
            derivation::all_wide(old(rows)@, width),
            derivation::all_wide(rows@, width),
            distinct::only_column(before, derivation::rows_cells(rows@), c as int),
            forall|k: int|
                0 <= k < r ==> cells.contains(
                    #[trigger] derivation::rows_cells(rows@)[k][c as int],
                ),
            (draw::column_of(derivation::rows_cells(rows@), c as int).take(r as int), *rng)
                == picked(*sampler, table@, column@, *pool, cells, *old(rng), r as nat),
        decreases rows@.len() - r,
    {
        let ghost start = draw::column_of(derivation::rows_cells(rows@), c as int);
        let drawn: usize = sampler.pool_index(table, column, pool, rng);
        let i: usize = draw::place_below(drawn, n);
        let v = pool_value(pool, i, numerical);
        proof {
            assert(cells.contains(cells[i as int]));
        }
        distinct::set_cell(rows, r, c, v);
        proof {
            let now = draw::column_of(derivation::rows_cells(rows@), c as int);
            assert(now.take(r + 1) =~= start.take(r as int).push(cells[i as int]));
        }
        r = r + 1;
    }
    proof {
        let now = draw::column_of(derivation::rows_cells(rows@), c as int);
        assert(now.take(now.len() as int) =~= now);
    }
}

/// Whether a value lies between the ends of a range, ends included; `None` where
/// it cannot be compared with them.
pub fn value_in_range(value: &Value, range: &(Value, Value), format: Option<&str>) -> (r:
    Option<bool>)
    ensures
        r == domain::in_range(range.0@, range.1@, format.deep_view(), value@),
{
    let low = domain::axis_point(&range.0, format);
    let high = domain::axis_point(&range.1, format);
    let at = domain::axis_point(value, format);
    match (low, high, at) {
        (Some(a), Some(b), Some(v)) => domain::between(
            domain::place_of(&a, &v),
            domain::place_of(&v, &b),
        ),
        _ => None,
    }
}

/// The values of a column that a rule holds to a range are draws.
pub open spec fn range_drawn(
    rule: TableRule,
    table: TableModel,
    column: Seq<char>,
    enforce: bool,
    cells: Seq<Cell>,
) -> bool {
    replaced(rule, table, column) is Ranged ==> forall|r: int|
        0 <= r < cells.len() ==> domain::is_draw(
            domain::source_of(table, column, enforce),
            #[trigger] cells[r],
        )
}

/// Draws a column of every row until its value lies in a range.
fn apply_fixed_range<S: Sampler>(
    sampler: &S,
    rows: &mut Vec<Vec<Value>>,
    c: usize,
    rule: &TableRule,
    table: &TableModel,
    column: &str,
    range: &(Value, Value),
    enforce: bool,
    rng: &mut rand::rngs::StdRng,
    Ghost(width): Ghost<nat>,
) -> (r: Result<(), String>)
    requires
        c < width,
        derivation::all_wide(old(rows)@, width),
    ensures
        derivation::all_wide(final(rows)@, width),
        distinct::only_column(
            derivation::rows_cells(old(rows)@),
            derivation::rows_cells(final(rows)@),
            c as int,
        ),
        distinct::levels_of(*table, column@) is None ==> ({
            let span = Span {
                table: *table,
                name: rule.name@,
                column: column@,
                place: c,
                low: range.0@,
                high: range.1@,
                format: axis_format(*table, column@),
                enforce,
            };
            match r {
                Ok(_) => ranged_column(*sampler, span, *old(rng), old(rows)@.len()) == Ok::<
                    Seq<Cell>,
                    Seq<char>,
                >(draw::column_of(derivation::rows_cells(final(rows)@), c as int)),
                Err(m) => ranged_column(*sampler, span, *old(rng), old(rows)@.len()) == Err::<
                    Seq<Cell>,
                    Seq<char>,
                >(m@),
            }
        }),
        match r {
            Ok(_) => {
                &&& distinct::levels_of(*table, column@) is None
                &&& forall|k: int|
                    0 <= k < final(rows)@.len() ==> domain::within(
                        range.0@,
                        range.1@,
                        axis_format(*table, column@),
                        #[trigger] derivation::rows_cells(final(rows)@)[k][c as int],
                    )
                &&& forall|k: int|
                    0 <= k < final(rows)@.len() ==> domain::is_draw(
                        domain::source_of(*table, column@, enforce),
                        #[trigger] derivation::rows_cells(final(rows)@)[k][c as int],
                    )
            },
            Err(m) => distinct::levels_of(*table, column@) is Some ==> m@ == domain::column_heading(
                rule.name@,
                column@,
            )
                + "fixed_range needs an invertible numeric marginal but the column is categorical; use a value pool or a numeric marginal"@,
        },
{
    let mut format: Option<&str> = None;
    match table.column(column) {
        Some(t) => {
            if t.logical_type == LogicalType::Datetime {
                format = match &t.datetime_format {
                    Some(f) => Some(f.as_str()),
                    None => None,
                };
            }
            if t.levels.is_some() {
                let mut m = domain::write_column_heading(rule.name.as_str(), column);
                text::push_text(
                    &mut m,
                    "fixed_range needs an invertible numeric marginal but the column is categorical; use a value pool or a numeric marginal",
                );
                return Err(m);
            }
        },
        None => {},
    }
    let ghost before = derivation::rows_cells(rows@);
    let ghost span = Span {
        table: *table,
        name: rule.name@,
        column: column@,
        place: c,
        low: range.0@,
        high: range.1@,
        format: axis_format(*table, column@),
        enforce,
    };
    let mut total: u128 = 0;
    let mut r: usize = 0;
    proof {
        assert(draw::column_of(before, c as int).take(0) =~= Seq::empty());
    }
    while r < rows.len()
        invariant
            r <= rows@.len(),
            c < width,
            total <= r * RANGE_DRAWS,
            span == (Span {
                table: *table,
                name: rule.name@,
                column: column@,
                place: c,
                low: range.0@,
                high: range.1@,
                format: axis_format(*table, column@),
                enforce,
            }),
            ranged(*sampler, span, *old(rng), r as nat) == Ok::<
                (Seq<Cell>, nat, rand::rngs::StdRng),
                Seq<char>,
            >(
                (
                    draw::column_of(derivation::rows_cells(rows@), c as int).take(r as int),
                    total as nat,
                    *rng,
                ),
            ),
            format.deep_view() == axis_format(*table, column@),
            forall|k: int|
                0 <= k < r ==> domain::within(
                    range.0@,
                    range.1@,
                    axis_format(*table, column@),
                    #[trigger] derivation::rows_cells(rows@)[k][c as int],
                ),
            forall|k: int|
                0 <= k < r ==> domain::is_draw(
                    domain::source_of(*table, column@, enforce),
                    #[trigger] derivation::rows_cells(rows@)[k][c as int],
                ),
            distinct::levels_of(*table, column@) is None,
            rows@.len() == old(rows)@.len(),
            before == derivation::rows_cells(old(rows)@),
            derivation::all_wide(old(rows)@, width),
            derivation::all_wide(rows@, width),
            distinct::only_column(before, derivation::rows_cells(rows@), c as int),
        decreases rows@.len() - r,
    {
        let mut accepted = false;
        let mut draws: usize = 0;
        let ghost spent = total;
        let ghost from = *rng;
        let ghost start = draw::column_of(derivation::rows_cells(rows@), c as int);
        while draws < RANGE_DRAWS && !accepted
            invariant
                r < rows@.len(),
                c < width,
                draws <= RANGE_DRAWS,
                spent <= r * RANGE_DRAWS,
                total == spent + draws,
                span == (Span {
                    table: *table,
                    name: rule.name@,
                    column: column@,
                    place: c,
                    low: range.0@,
                    high: range.1@,
                    format: axis_format(*table, column@),
                    enforce,
                }),
                start.len() == rows@.len(),
                ranged(*sampler, span, *old(rng), r as nat) == Ok::<
                    (Seq<Cell>, nat, rand::rngs::StdRng),
                    Seq<char>,
                >((start.take(r as int), spent as nat, from)),
                !accepted ==> draw::column_of(derivation::rows_cells(rows@), c as int) == start,
                !accepted ==> hunted(*sampler, span, from, 0, RANGE_DRAWS as nat) == hunted(
                    *sampler,
                    span,
                    *rng,
                    draws as nat,
                    (RANGE_DRAWS - draws) as nat,
                ),
                accepted ==> ({
                    let now = draw::column_of(derivation::rows_cells(rows@), c as int);
                    &&& now == start.update(r as int, now[r as int])
                    &&& hunted(*sampler, span, from, 0, RANGE_DRAWS as nat) == Hunt::Found(
                        now[r as int],
                        draws as nat,
                        *rng,
                    )
                }),
                format.deep_view() == axis_format(*table, column@),
                forall|k: int|
                    0 <= k < (if accepted {
                        r + 1
                    } else {
                        r as int
                    }) ==> domain::within(
                        range.0@,
                        range.1@,
                        axis_format(*table, column@),
                        #[trigger] derivation::rows_cells(rows@)[k][c as int],
                    ),
                forall|k: int|
                    0 <= k < (if accepted {
                        r + 1
                    } else {
                        r as int
                    }) ==> domain::is_draw(
                        domain::source_of(*table, column@, enforce),
                        #[trigger] derivation::rows_cells(rows@)[k][c as int],
                    ),
                distinct::levels_of(*table, column@) is None,
                rows@.len() == old(rows)@.len(),
                before == derivation::rows_cells(old(rows)@),
                derivation::all_wide(old(rows)@, width),
                derivation::all_wide(rows@, width),
                distinct::only_column(before, derivation::rows_cells(rows@), c as int),
            decreases RANGE_DRAWS - draws,
        {
            draws = draws + 1;
            proof {
                assert(rows@.len() == rows.len());
                assert(r * RANGE_DRAWS <= 0x1_0000_0000_0000_0000 * 10_000) by (nonlinear_arith)
                    requires
                        r <= usize::MAX,
                        RANGE_DRAWS == 10_000,
                ;
            }
            total = total + 1;
            let drawn = sampler.redraw(table, c, rng);
            let v = domain::draw_value(table, column, drawn, enforce);
            match value_in_range(&v, range, format) {
                Some(true) => {
                    let ghost cell = v@;
                    distinct::set_cell(rows, r, c, v);
                    accepted = true;
                    proof {
                        let now = draw::column_of(derivation::rows_cells(rows@), c as int);
                        assert(now =~= start.update(r as int, cell));
                    }
                },
                Some(false) => {},
                None => {
                    let mut m = domain::write_column_heading(rule.name.as_str(), column);
                    text::push_text(
                        &mut m,
                        "fixed_range endpoints are not comparable with the generated values",
                    );
                    proof {
                        lemma_ranged_stops(
                            *sampler,
                            span,
                            *old(rng),
                            (r + 1) as nat,
                            rows@.len(),
                        );
                    }
                    return Err(m);
                },
            }
        }
        if !accepted {
            let mut m = domain::write_column_heading(rule.name.as_str(), column);
            text::push_text(&mut m, "fixed_range rejection exceeded ");
            text::push_text(&mut m, text::number_text(RANGE_DRAWS).as_str());
            text::push_text(
                &mut m,
                " draws for one value; the range is likely empty or nearly degenerate",
            );
            proof {
                lemma_ranged_stops(*sampler, span, *old(rng), (r + 1) as nat, rows@.len());
            }
            return Err(m);
        }
        proof {
            let now = draw::column_of(derivation::rows_cells(rows@), c as int);
            assert(now.take(r + 1) =~= start.take(r as int).push(now[r as int]));
            assert((r + 1) * RANGE_DRAWS == r * RANGE_DRAWS + RANGE_DRAWS) by (nonlinear_arith);
        }
        r = r + 1;
    }
    proof {
        let now = draw::column_of(derivation::rows_cells(rows@), c as int);
        assert(now.take(now.len() as int) =~= now);
    }
    let found: u128 = rows.len() as u128 * 100;
    if found < total {
        let mut m = domain::write_column_heading(rule.name.as_str(), column);
        text::push_text(&mut m, "fixed_range acceptance is ");
        let share = sampler.percent(rows.len(), total);
        text::push_text(&mut m, share.as_str());
        text::push_text(
            &mut m,
            "% (below 1%); use mode: copula_conditional instead of rejection",
        );
        return Err(m);
    }
    Ok(())
}

/// Replaces a column's values by its rule.
fn override_column<S: Sampler>(
    sampler: &S,
    rows: &mut Vec<Vec<Value>>,
    c: usize,
    rule: &TableRule,
    table: &TableModel,
    column: &str,
    referenced: &[String],
    enforce: bool,
    picks: &mut rand::rngs::StdRng,
    ranges: &mut rand::rngs::StdRng,
    Ghost(width): Ghost<nat>,
) -> (r: Result<(), String>)
    requires
        c < width,
        derivation::all_wide(old(rows)@, width),
    ensures
        derivation::all_wide(final(rows)@, width),
        distinct::only_column(
            derivation::rows_cells(old(rows)@),
            derivation::rows_cells(final(rows)@),
            c as int,
        ),
        ({
            let done = column_after(
                *sampler,
                *rule,
                *table,
                referenced.deep_view(),
                column@,
                c,
                enforce,
                draw::column_of(derivation::rows_cells(old(rows)@), c as int),
                *old(picks),
                *old(ranges),
            );
            match r {
                Ok(_) => done == Ok::<Seq<Cell>, Seq<char>>(
                    draw::column_of(derivation::rows_cells(final(rows)@), c as int),
                ),
                Err(m) => done == Err::<Seq<Cell>, Seq<char>>(m@),
            }
        }),
        r is Ok ==> ({
            &&& override_fault(*rule, *table, referenced.deep_view(), column@) is None
            &&& replaced_column(
                draw::column_of(derivation::rows_cells(old(rows)@), c as int),
                draw::column_of(derivation::rows_cells(final(rows)@), c as int),
                replaced(*rule, *table, column@),
            )
            &&& range_drawn(
                *rule,
                *table,
                column@,
                enforce,
                draw::column_of(derivation::rows_cells(final(rows)@), c as int),
            )
        }),
{
    let said: &ColumnRule = match rule.column(column) {
        Some(said) => said,
        None => {
            return Ok(());
        },
    };
    if !said.has_column_override() {
        return Ok(());
    }
    let key = branch::write_key(rule.name.as_str(), column);
    if crate::names::has(referenced, key.as_str()) || rule.has_foreign_key(column) {
        let mut m = domain::write_column_heading(rule.name.as_str(), column);
        text::push_text(
            &mut m,
            "fixed/values/fixed_range cannot be applied to a column that participates in a relationship",
        );
        return Err(m);
    }
    let numerical = table.is_numerical(column);
    match &said.fixed {
        Some(fixed) => {
            let v = literal::typed_literal(fixed.as_str(), numerical);
            fill_column(rows, c, &v, Ghost(width));
            proof {
                let now = draw::column_of(derivation::rows_cells(rows@), c as int);
                assert(now =~= Seq::new(now.len(), |r: int| v@));
            }
            return Ok(());
        },
        None => {},
    }
    if matches!(said.mode, ColumnMode::CopulaConditional) {
        return Ok(());
    }
    match &said.values {
        Some(pool) => {
            if rules::value_pool_is_empty(pool) {
                let mut m = domain::write_column_heading(rule.name.as_str(), column);
                text::push_text(&mut m, "'values' pool is empty");
                return Err(m);
            }
            draw_from_pool(
                sampler,
                rows,
                c,
                rule.name.as_str(),
                column,
                pool,
                numerical,
                picks,
                Ghost(width),
            );
            return Ok(());
        },
        None => {},
    }
    match &said.fixed_range {
        Some(range) => apply_fixed_range(
            sampler,
            rows,
            c,
            rule,
            table,
            column,
            range,
            enforce,
            ranges,
            Ghost(width),
        ),
        None => Ok(()),
    }
}

/// The rows after all rules that replace a column's values.
pub open spec fn overridden(
    rule: TableRule,
    table: TableModel,
    columns: Seq<Seq<char>>,
    enforce: bool,
    before: Seq<Seq<Cell>>,
    after: Seq<Seq<Cell>>,
) -> bool {
    &&& forall|c: int|
        0 <= c < columns.len() ==> replaced_column(
            #[trigger] draw::column_of(before, c),
            draw::column_of(after, c),
            replaced(rule, table, columns[c]),
        )
    &&& forall|c: int|
        0 <= c < columns.len() ==> range_drawn(
            rule,
            table,
            columns[c],
            enforce,
            #[trigger] draw::column_of(after, c),
        )
}

/// Replaces the values of the columns whose rules ask for it. A column that takes
/// part in a relationship is refused.
#[verifier::loop_isolation(false)]
pub fn apply_column_value_overrides<S: Sampler>(
    sampler: &S,
    rows: &mut Vec<Vec<Value>>,
    rule: &TableRule,
    table: &TableModel,
    columns: &[String],
    referenced: &[String],
    enforce: bool,
    picks: Vec<rand::rngs::StdRng>,
    ranges: Vec<rand::rngs::StdRng>,
) -> (r: Result<(), String>)
    requires
        derivation::all_wide(old(rows)@, columns@.len()),
        picks@.len() == columns@.len(),
        ranges@.len() == columns@.len(),
    ensures
        final(rows)@.len() == old(rows)@.len(),
        derivation::all_wide(final(rows)@, columns@.len()),
        ({
            let done = rows_after(
                *sampler,
                *rule,
                *table,
                referenced.deep_view(),
                columns.deep_view(),
                enforce,
                derivation::rows_cells(old(rows)@),
                picks@,
                ranges@,
                columns@.len(),
            );
            match r {
                Ok(_) => done == Ok::<Seq<Seq<Cell>>, Seq<char>>(
                    derivation::rows_cells(final(rows)@),
                ),
                Err(m) => done == Err::<Seq<Seq<Cell>>, Seq<char>>(m@),
            }
        }),
        r is Ok ==> ({
            &&& forall|c: int|
                0 <= c < columns@.len() ==> override_fault(
                    *rule,
                    *table,
                    referenced.deep_view(),
                    #[trigger] columns.deep_view()[c],
                ) is None
            &&& overridden(
                *rule,
                *table,
                columns.deep_view(),
                enforce,
                derivation::rows_cells(old(rows)@),
                derivation::rows_cells(final(rows)@),
            )
        }),
{
    let ghost before = derivation::rows_cells(rows@);
    let ghost names = columns.deep_view();
    let ghost width = columns@.len();
    let ghost all_picks = picks@;
    let ghost all_ranges = ranges@;
    let mut picks = picks;
    let mut ranges = ranges;
    let mut c: usize = 0;
    while c < columns.len()
        invariant
            c <= columns@.len(),
            width == columns@.len(),
            names == columns.deep_view(),
            before == derivation::rows_cells(old(rows)@),
            rows@.len() == old(rows)@.len(),
            all_picks.len() == width,
            all_ranges.len() == width,
            picks@.len() == width,
            ranges@.len() == width,
            forall|k: int| c <= k < width ==> #[trigger] picks@[k] == all_picks[k],
            forall|k: int| c <= k < width ==> #[trigger] ranges@[k] == all_ranges[k],
            rows_after(
                *sampler,
                *rule,
                *table,
                referenced.deep_view(),
                names,
                enforce,
                before,
                all_picks,
                all_ranges,
                c as nat,
            ) == Ok::<Seq<Seq<Cell>>, Seq<char>>(derivation::rows_cells(rows@)),
            derivation::all_wide(rows@, width),
            forall|k: int|
                0 <= k < c ==> override_fault(
                    *rule,
                    *table,
                    referenced.deep_view(),
                    #[trigger] names[k],
                ) is None,
            forall|k: int|
                0 <= k < c ==> replaced_column(
                    #[trigger] draw::column_of(before, k),
                    draw::column_of(derivation::rows_cells(rows@), k),
                    replaced(*rule, *table, names[k]),
                ),
            forall|k: int|
                0 <= k < c ==> range_drawn(
                    *rule,
                    *table,
                    names[k],
                    enforce,
                    #[trigger] draw::column_of(derivation::rows_cells(rows@), k),
                ),
            forall|k: int|
                c <= k < width ==> #[trigger] draw::column_of(before, k) == draw::column_of(
                    derivation::rows_cells(rows@),
                    k,
                ),
        decreases columns@.len() - c,
    {
        let ghost start = derivation::rows_cells(rows@);
        proof {
            assert(names[c as int] == columns@[c as int]@);
            assert(draw::column_of(before, c as int) == draw::column_of(start, c as int));
        }
        match override_column(
            sampler,
            rows,
            c,
            rule,
            table,
            columns[c].as_str(),
            referenced,
            enforce,
            &mut picks[c],
            &mut ranges[c],
            Ghost(width),
        ) {
            Ok(_) => {},
            Err(m) => {
                proof {
                    lemma_columns_stop(
                        *sampler,
                        *rule,
                        *table,
                        referenced.deep_view(),
                        names,
                        enforce,
                        before,
                        all_picks,
                        all_ranges,
                        (c + 1) as nat,
                        width,
                    );
                }
                return Err(m);
            },
        }
        proof {
            let now = derivation::rows_cells(rows@);
            assert(branch::even_rows(now, width)) by {
                assert forall|r: int| 0 <= r < now.len() implies (#[trigger] now[r]).len()
                    == width by {
                    assert(rows@[r]@.len() == width);
                }
            }
            lemma_with_column(start, now, c as int, width);
            assert forall|k: int| 0 <= k < width && k != c implies #[trigger] draw::column_of(
                now,
                k,
            ) == draw::column_of(start, k) by {
                assert forall|r: int| 0 <= r < now.len() implies now[r][k] == start[r][k] by {
                    assert(now[r].len() == width);
                }
                assert(draw::column_of(now, k) =~= draw::column_of(start, k));
            }
            assert forall|k: int| 0 <= k < c + 1 implies replaced_column(
                #[trigger] draw::column_of(before, k),
                draw::column_of(now, k),
                replaced(*rule, *table, names[k]),
            ) by {
                if k < c {
                    assert(draw::column_of(now, k) == draw::column_of(start, k));
                }
            }
            assert forall|k: int| 0 <= k < c + 1 implies range_drawn(
                *rule,
                *table,
                names[k],
                enforce,
                #[trigger] draw::column_of(now, k),
            ) by {
                if k < c {
                    assert(draw::column_of(now, k) == draw::column_of(start, k));
                }
            }
            assert forall|k: int| c + 1 <= k < width implies #[trigger] draw::column_of(before, k)
                == draw::column_of(now, k) by {
                assert(draw::column_of(now, k) == draw::column_of(start, k));
            }
        }
        c = c + 1;
    }
    Ok(())
}

} // verus!
