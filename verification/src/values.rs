//! What the cells of generated columns hold.
use crate::candidates::how_many;
use crate::datetime;
use crate::decimal;
use crate::decimal::Rounding;
use crate::domain;
use crate::domain::{Draw, Mark, Point, Rank};
use crate::draw;
use crate::draw::{Drawing, Sampler, Sheet};
use crate::fk_pool::SelectionStrategy;
use crate::generator;
use crate::generator::{GeneratedTable, GeneratorConfig, Job, Stages};
use crate::grid;
use crate::integrity;
use crate::literal;
use crate::model;
use crate::model::{ColumnModel, LogicalType, TableModel};
use crate::overrides;
use crate::pools::Keys;
use crate::rules;
use crate::rules::{ColumnMode, ColumnRule, TableRule};
use crate::text;
use crate::value;
use crate::value::Cell;
use vstd::prelude::*;

verus! {

pub(crate) proof fn lemma_digits(n: nat)
    ensures
        decimal::numeral(text::digits(n)) == n,
        text::digits(n).len() > 0,
        forall|i: int| 0 <= i < text::digits(n).len() ==> '0' <= #[trigger] text::digits(n)[i] <= '9',
    decreases n,
{
    let s = text::digits(n);
    if n < 10 {
        assert(s == seq![text::digit(n)]);
        assert(s.drop_last() =~= Seq::empty());
        assert(decimal::numeral(s.drop_last()) == 0);
    } else {
        lemma_digits(n / 10);
        let before = text::digits(n / 10);
        assert(s == before.push(text::digit(n % 10)));
        assert(s.drop_last() =~= before);
        assert forall|i: int| 0 <= i < s.len() implies '0' <= #[trigger] s[i] <= '9' by {
            if i < before.len() {
                assert(s[i] == before[i]);
            }
        }
    }
}

/// A whole number that is written out is read back as it was.
pub proof fn lemma_whole_numbers_read_back(n: int)
    ensures
        literal::integer_of(text::integer_text(n)) == Some(n),
{
    reveal_strlit("-");
    if n < 0 {
        lemma_digits((-n) as nat);
        let s = text::integer_text(n);
        assert(s[0] == '-');
        assert(s.skip(1) =~= text::digits((-n) as nat));
    } else {
        lemma_digits(n as nat);
        assert(text::digits(n as nat)[0] <= '9');
        assert(text::integer_text(n)[0] >= '0');
    }
}

/// A literal stays as it is written: as a text in a column that holds no numbers, and as
/// a number in one that does where it is a whole one of 64 bits.
pub proof fn lemma_literals_stay_as_they_are(s: Seq<char>, n: int)
    ensures
        literal::literal_cell(s, false) == Cell::Text(s),
        i64::MIN <= n <= i64::MAX ==> literal::literal_cell(text::integer_text(n), true)
            == Cell::Number(text::integer_text(n)),
        literal::integer_of(s) == Some(n) && i64::MIN <= n <= i64::MAX ==> literal::literal_cell(
            s,
            true,
        ) == Cell::Number(text::integer_text(n)),
        literal::integer_of(s) is None && literal::double_of(s) is None ==> literal::literal_cell(
            s,
            true,
        ) == Cell::Text(s),
        literal::integer_of(s) is None && literal::double_of(s) is Some && literal::double_of(
            s,
        )->0 is Some ==> literal::literal_cell(s, true) == Cell::Number(
            literal::double_of(s)->0->0,
        ),
{
    lemma_whole_numbers_read_back(n);
}

/// What is written for a level is the level: its text in a column of texts or of instants,
/// and the number that it writes in one of numbers.
pub proof fn lemma_levels_are_written_as_they_are(
    c: ColumnModel,
    level: Seq<char>,
    n: int,
    enforce: bool,
)
    requires
        c.null_rate is None || domain::number_rank(c.null_rate->0.text@, "1"@) == Some(Rank::Below),
    ensures
        c.logical_type != LogicalType::Numerical ==> domain::drawn_cell(
            Some(c),
            Draw::Level(level),
            enforce,
        ) == Cell::Text(level),
        c.logical_type == LogicalType::Numerical && level == text::integer_text(n) && i64::MIN <= n
            <= i64::MAX ==> domain::drawn_cell(Some(c), Draw::Level(level), enforce)
            == Cell::Number(level),
{
    lemma_literals_stay_as_they_are(level, n);
}

/// A column that no model knows stays NULL, and so does one in which every value that was
/// seen was NULL.
pub proof fn lemma_unfilled_columns_stay_null(c: ColumnModel, drawn: Draw, enforce: bool)
    ensures
        domain::drawn_cell(None, drawn, enforce) == Cell::Null,
        c.null_rate is Some && (domain::number_rank(c.null_rate->0.text@, "1"@) == Some(Rank::Same)
            || domain::number_rank(c.null_rate->0.text@, "1"@) == Some(Rank::Above))
            ==> domain::drawn_cell(Some(c), drawn, enforce) == Cell::Null,
{
}

/// An instant that is drawn for a column with a format is written in that format. Where
/// bounds are enforced, one before the first that was seen counts as the first, and one
/// behind the last as the last.
pub proof fn lemma_instants_are_clipped(
    c: ColumnModel,
    n: i64,
    low: i64,
    high: i64,
    enforce: bool,
)
    requires
        c.null_rate is None || domain::number_rank(c.null_rate->0.text@, "1"@) == Some(Rank::Below),
        c.logical_type == LogicalType::Datetime,
        c.datetime_format is Some,
        c.min == Some(Point::Instant(low)),
        c.max == Some(Point::Instant(high)),
        low <= high,
    ensures
        ({
            let at = if !enforce {
                n
            } else if n < low {
                low
            } else if high < n {
                high
            } else {
                n
            };
            domain::drawn_cell(Some(c), Draw::Real(Mark::Instant(n)), enforce) == (
            match datetime::instant_text(at, c.datetime_format->0@) {
                Some(s) => Cell::Text(s),
                None => Cell::Null,
            })
        }),
{
}

/// A number that is drawn for a column without a fixed number of digits is written as the
/// double that it is. Where bounds are enforced, one below the smallest that was seen
/// counts as the smallest, and one above the largest as the largest.
pub proof fn lemma_numbers_are_clipped(c: ColumnModel, s: Seq<char>, enforce: bool)
    requires
        c.null_rate is None || domain::number_rank(c.null_rate->0.text@, "1"@) == Some(Rank::Below),
        c.logical_type == LogicalType::Numerical,
        c.rounding is None,
        c.decimal_scale is None,
        c.min is Some,
        c.min->0 is Number,
        c.max is Some,
        c.max->0 is Number,
    ensures
        ({
            let low = c.min->0->Number_0@;
            let high = c.max->0->Number_0@;
            let cell = domain::drawn_cell(Some(c), Draw::Real(Mark::Number(s)), enforce);
            let writes = |x: Seq<char>|
                match literal::finite_double(x) {
                    Some(t) => cell == Cell::Number(t),
                    None => cell == Cell::Null,
                };
            &&& !enforce ==> writes(s)
            &&& enforce && domain::number_rank(s, low) == Some(Rank::Below) && (domain::number_rank(
                low,
                high,
            ) == Some(Rank::Below) || domain::number_rank(low, high) == Some(Rank::Same)) ==> writes(
                low,
            )
            &&& enforce && (domain::number_rank(s, low) == Some(Rank::Same) || domain::number_rank(
                s,
                low,
            ) == Some(Rank::Above)) && domain::number_rank(s, high) == Some(Rank::Above) ==> writes(
                high,
            )
            &&& enforce && (domain::number_rank(s, low) == Some(Rank::Same) || domain::number_rank(
                s,
                low,
            ) == Some(Rank::Above)) && (domain::number_rank(s, high) == Some(Rank::Same)
                || domain::number_rank(s, high) == Some(Rank::Below)) ==> writes(s)
        }),
{
}

/// A number that is drawn for a column of whole numbers is written as the whole number
/// nearest to it; one for a column with so many digits as the nearest point with these.
pub proof fn lemma_numbers_are_rounded(c: ColumnModel, s: Seq<char>, n: int, enforce: bool)
    requires
        c.null_rate is None || domain::number_rank(c.null_rate->0.text@, "1"@) == Some(Rank::Below),
        c.logical_type == LogicalType::Numerical,
        !enforce || (c.min is None && c.max is None),
    ensures
        c.rounding == Some(0u32) && domain::nearest_whole(s) == Some(text::integer_text(n))
            && domain::nearest_whole(text::integer_text(n)) == Some(text::integer_text(n))
            && i64::MIN <= n <= i64::MAX ==> domain::drawn_cell(
            Some(c),
            Draw::Real(Mark::Number(s)),
            enforce,
        ) == Cell::Number(text::integer_text(n)),
        c.rounding is None && c.decimal_scale is Some ==> domain::drawn_cell(
            Some(c),
            Draw::Real(Mark::Number(s)),
            enforce,
        ) == match literal::finite_double(
            grid::on_grid(s, c.decimal_scale->0, Rounding::HalfAway),
        ) {
            Some(t) => Cell::Number(t),
            None => Cell::Null,
        },
{
    lemma_whole_numbers_read_back(n);
}

/// A cell lies in a range exactly where it lies neither before its low end nor behind its
/// high end: by instants in a column with a format, else by numbers.
pub proof fn lemma_ranges_include_their_ends(
    low: Seq<char>,
    high: Seq<char>,
    s: Seq<char>,
    format: Seq<char>,
    a: i64,
    b: i64,
    v: i64,
)
    ensures
        datetime::instant_of(low, format) == Some(a) && datetime::instant_of(high, format) == Some(
            b,
        ) && datetime::instant_of(s, format) == Some(v) ==> (domain::within(
            Cell::Text(low),
            Cell::Text(high),
            Some(format),
            Cell::Text(s),
        ) <==> a <= v <= b),
        domain::number_rank(low, s) is Some && domain::number_rank(s, high) is Some ==> (
        domain::within(Cell::Number(low), Cell::Number(high), None, Cell::Number(s)) <==> (
        domain::number_rank(low, s) == Some(Rank::Below) || domain::number_rank(low, s) == Some(
            Rank::Same,
        )) && (domain::number_rank(s, high) == Some(Rank::Below) || domain::number_rank(s, high)
            == Some(Rank::Same))),
        domain::number_rank(low, s) is None || domain::number_rank(s, high) is None
            ==> !domain::within(Cell::Number(low), Cell::Number(high), None, Cell::Number(s)),
        !domain::within(Cell::Number(low), Cell::Number(high), None, Cell::Null),
{
}

/// The rule of a name is the first that has it.
pub proof fn lemma_rule_of(list: Seq<(String, ColumnRule)>, name: Seq<char>, k: int)
    requires
        0 <= k <= list.len(),
        k < list.len() ==> list[k].0@ == name,
        forall|j: int| 0 <= j < k ==> (#[trigger] list[j]).0@ != name,
    ensures
        rules::column_rule(list, name) == (if k < list.len() {
            Some(list[k].1)
        } else {
            None
        }),
    decreases list.len(),
{
    if list.len() > 0 && k > 0 {
        assert(list[0].0@ != name);
        let rest = list.skip(1);
        assert forall|j: int| 0 <= j < k - 1 implies (#[trigger] rest[j]).0@ != name by {
            assert(rest[j] == list[j + 1]);
        }
        lemma_rule_of(rest, name, k - 1);
    }
}

/// The model of a name is the first that has it.
pub proof fn lemma_model_of(list: Seq<(String, ColumnModel)>, name: Seq<char>, k: int)
    requires
        0 <= k <= list.len(),
        k < list.len() ==> list[k].0@ == name,
        forall|j: int| 0 <= j < k ==> (#[trigger] list[j]).0@ != name,
    ensures
        model::column_model(list, name) == (if k < list.len() {
            Some(list[k].1)
        } else {
            None
        }),
    decreases list.len(),
{
    if list.len() > 0 && k > 0 {
        assert(list[0].0@ != name);
        let rest = list.skip(1);
        assert forall|j: int| 0 <= j < k - 1 implies (#[trigger] rest[j]).0@ != name by {
            assert(rest[j] == list[j + 1]);
        }
        lemma_model_of(rest, name, k - 1);
    }
}

/// In a generated table, a column with a fixed value holds it in every row, one with a pool
/// of values holds one of these in every row, and one with a range a value in that range.
pub proof fn lemma_ruled_columns_hold_their_values(
    job: Job,
    t: GeneratedTable,
    r: int,
    c: int,
    k: int,
    m: int,
)
    requires
        generator::made(job, t),
        job.rows <= usize::MAX,
        0 <= r < job.rows,
        0 <= c < job.columns().len(),
        !job.rule.is_derived(job.columns()[c]),
        0 <= k < job.rule.columns@.len(),
        job.rule.columns@[k].0@ == job.columns()[c],
        forall|j: int| 0 <= j < k ==> (#[trigger] job.rule.columns@[j]).0@ != job.columns()[c],
        0 <= m < job.table.columns@.len(),
        job.table.columns@[m].0@ == job.columns()[c],
        forall|j: int| 0 <= j < m ==> (#[trigger] job.table.columns@[j]).0@ != job.columns()[c],
    ensures
        ({
            let rule = job.rule.columns@[k].1;
            let trained = job.table.columns@[m].1;
            let cell = t.cells()[r][c];
            let range = rule.fixed_range->0;
            let numbers = trained.logical_type == LogicalType::Numerical;
            &&& rule.fixed is Some && !numbers ==> cell == Cell::Text(rule.fixed->0@)
            &&& rule.fixed is Some && numbers ==> forall|n: int|
                rule.fixed->0@ == #[trigger] text::integer_text(n) && i64::MIN <= n <= i64::MAX
                    ==> cell == Cell::Number(rule.fixed->0@)
            &&& rule.fixed is None && rule.mode == ColumnMode::Rejection && rule.values is Some
                && !numbers ==> exists|i: int|
                #![trigger rules::pool_literals(rule.values->0)[i]]
                0 <= i < rules::pool_literals(rule.values->0).len() && cell == Cell::Text(
                    rules::pool_literals(rule.values->0)[i]@,
                )
            &&& rule.fixed is None && rule.mode == ColumnMode::Rejection && rule.values is None
                && rule.fixed_range is Some && numbers && range.0 is Number
                && range.1 is Number ==> {
                &&& cell is Number || cell is Text
                &&& ({
                    let v = if cell is Number {
                        cell->Number_0
                    } else {
                        cell->Text_0
                    };
                    let low = domain::number_rank(range.0->Number_0@, v);
                    let high = domain::number_rank(v, range.1->Number_0@);
                    &&& low == Some(Rank::Below) || low == Some(Rank::Same)
                    &&& high == Some(Rank::Below) || high == Some(Rank::Same)
                })
            }
        }),
{
    let name = job.columns()[c];
    let rule = job.rule.columns@[k].1;
    let trained = job.table.columns@[m].1;
    let cell = t.cells()[r][c];
    lemma_rule_of(job.rule.columns@, name, k);
    lemma_model_of(job.table.columns@, name, m);
    integrity::lemma_replaced_values_hold(job, t, r, c);
    let numbers = trained.logical_type == LogicalType::Numerical;
    assert(job.table.numerical(name) == numbers);
    if rule.fixed is Some {
        assert forall|n: int|
            rule.fixed->0@ == #[trigger] text::integer_text(n) && i64::MIN <= n
                <= i64::MAX implies literal::literal_cell(rule.fixed->0@, true) == Cell::Number(
            rule.fixed->0@,
        ) by {
            lemma_literals_stay_as_they_are(rule.fixed->0@, n);
        }
    } else if rule.mode == ColumnMode::Rejection && rule.values is Some {
        let cells = overrides::pool_cells(rule.values->0, numbers);
        assert(cells.contains(cell));
        let i = cells.index_of(cell);
        assert(cells[i] == literal::literal_cell(
            rules::pool_literals(rule.values->0)[i]@,
            numbers,
        ));
    }
}

/// A column that other tables refer to is never made NULL, nor one whose values a rule
/// replaces. Of the other columns, the rate of the rule counts where it has one, else the
/// one that was learned; and a rate that is not positive makes nothing NULL.
pub proof fn lemma_rates_of_nulls(
    rule: TableRule,
    table: TableModel,
    column: Seq<char>,
    referenced: bool,
    k: int,
    m: int,
)
    requires
        0 <= k <= rule.columns@.len(),
        k < rule.columns@.len() ==> rule.columns@[k].0@ == column,
        forall|j: int| 0 <= j < k ==> (#[trigger] rule.columns@[j]).0@ != column,
        0 <= m <= table.columns@.len(),
        m < table.columns@.len() ==> table.columns@[m].0@ == column,
        forall|j: int| 0 <= j < m ==> (#[trigger] table.columns@[j]).0@ != column,
    ensures
        ({
            let found = draw::null_rate_of(rule, table, column, referenced);
            let said = if k < rule.columns@.len() {
                rule.columns@[k].1.null_rate
            } else {
                None
            };
            let seen = if m < table.columns@.len() {
                table.columns@[m].1.null_rate
            } else {
                None
            };
            let replaced = k < rule.columns@.len() && (rule.columns@[k].1.fixed is Some
                || rule.columns@[k].1.values is Some || rule.columns@[k].1.fixed_range is Some);
            &&& referenced || replaced ==> found is None
            &&& !referenced && !replaced && said is Some && said->0.positive ==> found == said
            &&& said is Some && !said->0.positive ==> found is None
            &&& !referenced && !replaced && said is None && seen is Some && seen->0.positive
                ==> found == seen
            &&& said is None && (seen is None || !seen->0.positive) ==> found is None
        }),
{
    lemma_rule_of(rule.columns@, column, k);
    lemma_model_of(table.columns@, column, m);
}

/// A row grows by one cell at a time, and the finished rows stay. The cell is NULL where
/// the column's own stream says so; where it does not, and the column has no keys to take
/// from, it is what was drawn.
pub proof fn lemma_rows_grow_cell_by_cell<S: Sampler>(s: S, sheet: Sheet, d: Drawing)
    ensures
        ({
            let c = d.row.len() as int;
            let after = draw::cell_from(s, sheet, d);
            let free = forall|j: int|
                0 <= j < d.keys.len() ==> (#[trigger] d.keys[j]).column != sheet.columns[c];
            &&& after is Ok ==> {
                &&& after->Ok_0.rows == d.rows
                &&& after->Ok_0.row.len() == c + 1
                &&& after->Ok_0.row.take(c) == d.row
            }
            &&& sheet.rates[c] is Some && s.nulled(sheet.rates[c]->0, d.nulls[c]).0 ==> {
                &&& after is Ok
                &&& after->Ok_0.row[c] is Null
                &&& after->Ok_0.keys == d.keys
            }
            &&& (sheet.rates[c] is None || !s.nulled(sheet.rates[c]->0, d.nulls[c]).0) && free
                ==> {
                &&& after is Ok
                &&& after->Ok_0.keys == d.keys
                &&& after->Ok_0.row[c] == domain::drawn_cell(
                    model::column_model(sheet.table.columns@, sheet.columns[c]),
                    s.drawn(sheet.table, c as usize, d.rows.len() as usize),
                    sheet.enforce[c],
                )
            }
        }),
{
    let c = d.row.len() as int;
    let names = Seq::new(d.keys.len(), |j: int| d.keys[j].column);
    value::lemma_first_place(names, sheet.columns[c]);
    let after = draw::cell_from(s, sheet, d);
    if after is Ok {
        assert(after->Ok_0.row.take(c) =~= d.row);
    }
    if forall|j: int| 0 <= j < d.keys.len() ==> (#[trigger] d.keys[j]).column != sheet.columns[c] {
        assert forall|j: int| 0 <= j < names.len() implies #[trigger] names[j]
            != sheet.columns[c] by {
            assert(names[j] == d.keys[j].column);
        }
        assert(!names.contains(sheet.columns[c]));
    }
}

/// A table has as many rows as the configuration asks for, else as many as its rule asks
/// for, else a hundred.
pub proof fn lemma_rows_asked_for(config: GeneratorConfig, rule: TableRule, k: int)
    requires
        0 <= k <= config.rows_per_table@.len(),
        k < config.rows_per_table@.len() ==> config.rows_per_table@[k].0@ == rule.name@,
        forall|j: int| 0 <= j < k ==> (#[trigger] config.rows_per_table@[j]).0@ != rule.name@,
    ensures
        k < config.rows_per_table@.len() ==> generator::rows_wanted(config, rule)
            == config.rows_per_table@[k].1,
        k == config.rows_per_table@.len() && rule.rows is Some ==> generator::rows_wanted(
            config,
            rule,
        ) == rule.rows->0,
        k == config.rows_per_table@.len() && rule.rows is None ==> generator::rows_wanted(
            config,
            rule,
        ) == 100,
{
    lemma_rows_at(config.rows_per_table@, rule.name@, k);
}

proof fn lemma_rows_at(pairs: Seq<(String, usize)>, name: Seq<char>, k: int)
    requires
        0 <= k <= pairs.len(),
        k < pairs.len() ==> pairs[k].0@ == name,
        forall|j: int| 0 <= j < k ==> (#[trigger] pairs[j]).0@ != name,
    ensures
        generator::rows_at(pairs, name) == (if k < pairs.len() {
            Some(pairs[k].1)
        } else {
            None
        }),
    decreases pairs.len(),
{
    if pairs.len() > 0 && k > 0 {
        assert(pairs[0].0@ != name);
        let rest = pairs.skip(1);
        assert forall|j: int| 0 <= j < k - 1 implies (#[trigger] rest[j]).0@ != name by {
            assert(rest[j] == pairs[j + 1]);
        }
        lemma_rows_at(rest, name, k - 1);
    }
}

proof fn lemma_hits(column: Seq<Cell>, cell: Cell, p: spec_fn(int) -> bool)
    requires
        forall|r: int| 0 <= r < column.len() ==> #[trigger] p(r) == value::equal_cells(
            column[r],
            cell,
        ),
    ensures
        generator::cell_hits(column, cell) == how_many(column.len(), p),
    decreases column.len(),
{
    if column.len() > 0 {
        let rest = column.drop_last();
        assert forall|r: int| 0 <= r < rest.len() implies #[trigger] p(r) == value::equal_cells(
            rest[r],
            cell,
        ) by {
            assert(rest[r] == column[r]);
        }
        lemma_hits(rest, cell, p);
        assert(p(column.len() - 1) == value::equal_cells(column[column.len() - 1], cell));
    }
}

/// What is reported of a pool is how many rows of the finished table hold each of its
/// values, in the order of the pool, where no branches rewrite the table.
pub proof fn lemma_pools_are_counted(job: Job, t: GeneratedTable, o: int, i: int)
    requires
        generator::made(job, t),
        job.rule.branches@.len() == 0,
        job.rows > 0,
        0 <= o < t.value_pools@.len(),
        0 <= i < t.value_pools@[o].hits@.len(),
    ensures
        exists|c: int|
            #![trigger job.columns()[c]]
            {
                &&& 0 <= c < job.columns().len()
                &&& t.value_pools@[o].column@ == job.columns()[c]
                &&& rules::column_rule(job.rule.columns@, job.columns()[c]) is Some
                &&& ({
                    let pool = rules::column_rule(job.rule.columns@, job.columns()[c])->0.values;
                    let said = t.value_pools@[o].hits@[i];
                    &&& pool is Some
                    &&& t.value_pools@[o].hits@.len() == rules::pool_literals(pool->0).len()
                    &&& said.0@ == rules::pool_literals(pool->0)[i]@
                    &&& said.1 == how_many(
                        t.cells().len(),
                        |r: int|
                            value::equal_cells(
                                t.cells()[r][c],
                                literal::literal_cell(
                                    said.0@,
                                    job.table.numerical(job.columns()[c]),
                                ),
                            ),
                    )
                })
            },
{
    reveal(generator::made);
    let st = choose|st: Stages| #[trigger] generator::made_in(job, st, t);
    let at = generator::pooled_columns(job.rule, job.columns());
    lemma_pooled(job.rule, job.columns());
    let c = at[o];
    assert(st.computed == t.cells());
    let pool = rules::column_rule(job.rule.columns@, job.columns()[c])->0.values->0;
    assert(generator::pool_report(
        t.value_pools@[o],
        pool,
        job.table.numerical(job.columns()[c]),
        job.columns()[c],
        draw::column_of(st.computed, c),
    ));
    let said = t.value_pools@[o].hits@[i];
    let cell = literal::literal_cell(said.0@, job.table.numerical(job.columns()[c]));
    let p = |r: int| value::equal_cells(t.cells()[r][c], cell);
    let column = draw::column_of(t.cells(), c);
    assert forall|r: int| 0 <= r < column.len() implies #[trigger] p(r) == value::equal_cells(
        column[r],
        cell,
    ) by {
        assert(column[r] == t.cells()[r][c]);
    }
    lemma_hits(column, cell, p);
    assert(p =~= |r: int|
        value::equal_cells(
            t.cells()[r][c],
            literal::literal_cell(said.0@, job.table.numerical(job.columns()[c])),
        ));
}

proof fn lemma_pooled(rule: TableRule, columns: Seq<Seq<char>>)
    ensures
        forall|o: int|
            0 <= o < generator::pooled_columns(rule, columns).len() ==> 0
                <= #[trigger] generator::pooled_columns(rule, columns)[o] < columns.len()
                && rules::column_rule(
                rule.columns@,
                columns[generator::pooled_columns(rule, columns)[o]],
            ) is Some && rules::column_rule(
                rule.columns@,
                columns[generator::pooled_columns(rule, columns)[o]],
            )->0.values is Some,
    decreases columns.len(),
{
    if columns.len() > 0 {
        let rest = columns.drop_last();
        lemma_pooled(rule, rest);
        let before = generator::pooled_columns(rule, rest);
        let at = generator::pooled_columns(rule, columns);
        assert forall|o: int| 0 <= o < at.len() implies 0 <= #[trigger] at[o] < columns.len()
            && rules::column_rule(rule.columns@, columns[at[o]]) is Some && rules::column_rule(
            rule.columns@,
            columns[at[o]],
        )->0.values is Some by {
            if o < before.len() {
                assert(at[o] == before[o]);
                assert(columns[at[o]] == rest[before[o]]);
            }
        }
    }
}

/// Where bounds are enforced, a number on a grid that lies outside of the points between
/// them counts as the nearest of these.
pub proof fn lemma_grid_points_stay_in_bounds(c: ColumnModel, s: Seq<char>)
    requires
        c.null_rate is None || domain::number_rank(c.null_rate->0.text@, "1"@) == Some(Rank::Below),
        c.logical_type == LogicalType::Numerical,
        c.rounding is None,
        c.decimal_scale is Some,
        c.min is Some,
        c.min->0 is Number,
        c.max is Some,
        c.max->0 is Number,
        domain::number_rank(s, c.min->0->Number_0@) is Some,
        domain::number_rank(s, c.min->0->Number_0@) != Some(Rank::Below),
        domain::number_rank(s, c.max->0->Number_0@) is Some,
        domain::number_rank(s, c.max->0->Number_0@) != Some(Rank::Above),
    ensures
        ({
            let scale = c.decimal_scale->0;
            let low = grid::on_grid(c.min->0->Number_0@, scale, Rounding::Up);
            let high = grid::on_grid(c.max->0->Number_0@, scale, Rounding::Down);
            let near = grid::on_grid(s, scale, Rounding::HalfAway);
            let cell = domain::drawn_cell(Some(c), Draw::Real(Mark::Number(s)), true);
            let writes = |x: Seq<char>|
                match literal::finite_double(x) {
                    Some(t) => cell == Cell::Number(t),
                    None => cell == Cell::Null,
                };
            let proper = domain::number_rank(low, high) == Some(Rank::Below) || domain::number_rank(
                low,
                high,
            ) == Some(Rank::Same);
            &&& proper && domain::number_rank(near, low) == Some(Rank::Below) ==> writes(low)
            &&& proper && domain::number_rank(near, low) != Some(Rank::Below)
                && domain::number_rank(near, high) == Some(Rank::Above) ==> writes(high)
            &&& proper && domain::number_rank(near, low) != Some(Rank::Below)
                && domain::number_rank(near, high) != Some(Rank::Above) ==> writes(near)
            &&& !proper ==> writes(near)
        }),
{
}

/// A whole number beyond 64 bits counts as the nearest that they hold.
pub proof fn lemma_numbers_saturate(s: Seq<char>, n: int)
    requires
        domain::nearest_whole(s) == Some(text::integer_text(n)),
    ensures
        i64::MIN <= n <= i64::MAX ==> domain::saturated(s) == n,
        n > i64::MAX && domain::number_rank(text::integer_text(n), "0"@) == Some(Rank::Above)
            ==> domain::saturated(s) == i64::MAX,
        n < i64::MIN && domain::number_rank(text::integer_text(n), "0"@) == Some(Rank::Below)
            ==> domain::saturated(s) == i64::MIN,
{
    lemma_whole_numbers_read_back(n);
}

/// A key that may be used again stays in its pool. One that may be used once leaves it: the
/// last of a pool that was put in order.
pub proof fn lemma_keys_leave_their_pool<S: Sampler>(s: S, k: Keys, rng: rand::rngs::StdRng)
    requires
        k.entries.len() > 0,
    ensures
        ({
            let found = draw::own_key(s, k, rng);
            let taken = found->0;
            let place = s.parent_place(k, rng);
            &&& !k.unique ==> found is Some && taken.1 == k
            &&& k.unique && k.prepared ==> found is Some && taken.0 == k.entries.last()
                && taken.1.entries == k.entries.drop_last()
            &&& !k.unique && k.strategy != SelectionStrategy::Uniform && place.0 < k.entries.len()
                ==> taken.0 == k.entries[place.0 as int]
        }),
{
}

/// Two cells are equal where they are the same; a number and a text never are, and texts
/// are only where they have the same characters.
pub proof fn lemma_equal_cells(a: Seq<char>, b: Seq<char>, x: Cell)
    ensures
        value::equal_cells(Cell::Text(a), Cell::Text(b)) <==> a == b,
        !value::equal_cells(Cell::Text(a), Cell::Number(b)),
        !value::equal_cells(Cell::Number(a), Cell::Text(b)),
        !value::equal_cells(Cell::Null, Cell::Text(b)),
        !(x is Number) ==> value::equal_cells(x, x),
        value::same_number(a, b) is Some ==> (value::equal_cells(Cell::Number(a), Cell::Number(b))
            <==> value::same_number(a, b) == Some(true)),
{
}

/// A range of a datetime column goes by instants: what the column holds lies between those
/// of its ends, in the format of the column.
pub proof fn lemma_ranges_of_instants_hold(
    job: Job,
    t: GeneratedTable,
    r: int,
    c: int,
    k: int,
    m: int,
    a: i64,
    b: i64,
    v: i64,
)
    requires
        generator::made(job, t),
        job.rows <= usize::MAX,
        0 <= r < job.rows,
        0 <= c < job.columns().len(),
        !job.rule.is_derived(job.columns()[c]),
        0 <= k < job.rule.columns@.len(),
        job.rule.columns@[k].0@ == job.columns()[c],
        forall|j: int| 0 <= j < k ==> (#[trigger] job.rule.columns@[j]).0@ != job.columns()[c],
        0 <= m < job.table.columns@.len(),
        job.table.columns@[m].0@ == job.columns()[c],
        forall|j: int| 0 <= j < m ==> (#[trigger] job.table.columns@[j]).0@ != job.columns()[c],
        ({
            let rule = job.rule.columns@[k].1;
            let trained = job.table.columns@[m].1;
            let range = rule.fixed_range->0;
            let cell = t.cells()[r][c];
            &&& rule.fixed is None
            &&& rule.values is None
            &&& rule.mode == ColumnMode::Rejection
            &&& rule.fixed_range is Some
            &&& trained.logical_type == LogicalType::Datetime
            &&& trained.datetime_format is Some
            &&& range.0@ is Text
            &&& range.1@ is Text
            &&& cell is Text
            &&& datetime::instant_of(range.0@->Text_0, trained.datetime_format->0@) == Some(a)
            &&& datetime::instant_of(range.1@->Text_0, trained.datetime_format->0@) == Some(b)
            &&& datetime::instant_of(cell->Text_0, trained.datetime_format->0@) == Some(v)
        }),
    ensures
        a <= v <= b,
{
    let name = job.columns()[c];
    let rule = job.rule.columns@[k].1;
    let trained = job.table.columns@[m].1;
    let range = rule.fixed_range->0;
    lemma_rule_of(job.rule.columns@, name, k);
    lemma_model_of(job.table.columns@, name, m);
    integrity::lemma_replaced_values_hold(job, t, r, c);
    lemma_ranges_include_their_ends(
        range.0@->Text_0,
        range.1@->Text_0,
        t.cells()[r][c]->Text_0,
        trained.datetime_format->0@,
        a,
        b,
        v,
    );
}

/// A literal of a datetime column is read by the format of the column, and by any other
/// where that does not read it. A number stands for itself; anything else is no instant, nor
/// is it an end of a range.
pub proof fn lemma_instants_of_literals(
    s: Seq<char>,
    format: Seq<char>,
    n: i64,
    table: Seq<char>,
    column: Seq<char>,
    trained: Option<ColumnModel>,
)
    ensures
        datetime::instant_of(s, format) == Some(n) ==> domain::literal_instant(
            Cell::Text(s),
            Some(format),
        ) == Some(Mark::Instant(n)),
        datetime::instant_of(s, format) is None && datetime::cell_instant(Cell::Text(s), None)
            == Some(n) ==> domain::literal_instant(Cell::Text(s), Some(format)) == Some(
            Mark::Instant(n),
        ),
        domain::literal_instant(Cell::Number(s), Some(format)) == Some(Mark::Number(s)),
        domain::literal_instant(Cell::Null, Some(format)) is None,
        domain::endpoint_mark(table, column, Cell::Null, trained) is Err,
        domain::endpoint_mark(table, column, Cell::Bool(true), trained) is Err,
        domain::endpoint_mark(table, column, Cell::Number(s), trained) == Ok::<Mark, Seq<char>>(
            Mark::Number(s),
        ),
        trained is None ==> domain::endpoint_mark(table, column, Cell::Text(s), trained) is Err,
{
}

/// A number that is drawn for a datetime column counts seconds: it is written as the instant
/// of its microseconds.
pub proof fn lemma_seconds_are_instants(
    c: ColumnModel,
    s: Seq<char>,
    x: Seq<char>,
    p: Seq<char>,
    n: i64,
)
    requires
        c.null_rate is None || domain::number_rank(c.null_rate->0.text@, "1"@) == Some(Rank::Below),
        c.logical_type == LogicalType::Datetime,
        c.datetime_format is Some,
        literal::finite_double(s) == Some(x),
        domain::double_product(x, "1000000"@) == Some(p),
        domain::nearest_whole(p) == Some(text::integer_text(n as int)),
    ensures
        domain::drawn_cell(Some(c), Draw::Real(Mark::Number(s)), false) == (
        match datetime::instant_text(n, c.datetime_format->0@) {
            Some(t) => Cell::Text(t),
            None => Cell::Null,
        }),
{
    lemma_whole_numbers_read_back(n as int);
}

} // verus!
