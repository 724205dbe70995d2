//! What training and generating come to, from end to end.
use crate::cardinality;
use crate::datetime;
use crate::domain;
use crate::domain::Mark;
use crate::draw::{Hold, Sampler};
use crate::fitting;
use crate::fk_pool::SelectionStrategy;
use crate::fitting::{BuiltModel, Fit, Fitter, Kept, Next, Sample};
use crate::generator;
use crate::generator::{GeneratedData, GeneratorConfig, Job, Mid, Post, Stages};
use crate::graph;
use crate::learning;
use crate::literal;
use crate::model;
use crate::model::{LogicalType, TableModel};
use crate::overrides;
use crate::overrides::{Hunt, Span};
use crate::pools;
use crate::report;
use crate::rules;
use crate::rules::{ColumnMode, ColumnRule, SynthRules, TableRule, TableStrategy};
use crate::seed;
use crate::train_run;
use crate::training;
use crate::training::{LearnedKey, Link, Plan, ProfileColumn, TableSample};
use crate::value;
use crate::value::{Cell, Value};
use crate::values;
use crate::writing;
use vstd::prelude::*;

verus! {

/// Every table that has a rule is generated, once.
pub proof fn lemma_every_table_is_generated(
    models: Seq<TableModel>,
    rules: SynthRules,
    config: GeneratorConfig,
    limit: nat,
    order: Seq<Seq<char>>,
    data: GeneratedData,
    i: int,
    j: int,
)
    requires
        generator::generated(models, rules, config, limit, order, data),
        0 <= i < j < data.tables@.len(),
    ensures
        data.tables@.len() == rules.tables@.len(),
        data.tables@[i].name@ != data.tables@[j].name@,
{
    assert(data.tables@[i].name@ == order[i]);
    assert(data.tables@[j].name@ == order[j]);
}

/// A table comes after every other that one of its relationships refers to.
pub proof fn lemma_parents_come_first(
    models: Seq<TableModel>,
    rules: SynthRules,
    config: GeneratorConfig,
    limit: nat,
    order: Seq<Seq<char>>,
    data: GeneratedData,
    j: int,
    t: int,
    r: int,
    k: int,
    p: Seq<char>,
    c: Seq<char>,
)
    requires
        generator::generated(models, rules, config, limit, order, data),
        0 <= j < data.tables@.len(),
        0 <= t < rules.tables@.len(),
        rules.tables@[t].name@ == data.tables@[j].name@,
        0 <= r < rules.tables@[t].relationships@.len(),
        0 <= k < rules.tables@[t].relationships@[r].references@.len(),
        rules.tables@[t].relationships@[r].references@[k]@ == p + seq!['.'] + c,
        !p.contains('.'),
        !c.contains('.'),
        exists|u: int| 0 <= u < rules.tables@.len() && (#[trigger] rules.tables@[u]).name@ == p,
    ensures
        exists|i: int| 0 <= i < j && (#[trigger] data.tables@[i]).name@ == p,
{
    let tables = rules.tables@;
    let names = pools::table_names(tables);
    let u = choose|u: int| 0 <= u < tables.len() && (#[trigger] tables[u]).name@ == p;
    assert(names[u] == p);
    writing::lemma_references_order_the_tables(tables, t, r, k, p, c);
    let edges = pools::table_edges(tables, names, true);
    let e = edges.index_of((p, tables[t].name@));
    assert(edges[e].1 == order[j]);
    assert(graph::fed_by(edges, order.take(j), order[j]));
    assert(order.take(j).contains(p));
    let i = order.take(j).index_of(p);
    assert(order[i] == p);
    assert(data.tables@[i].name@ == order[i]);
}

/// The dialect is that of the last table whose model has one other than `test`, and MySQL's
/// where there is none.
pub proof fn lemma_dialects(models: Seq<TableModel>, order: Seq<Seq<char>>, i: int)
    requires
        0 <= i <= order.len(),
        forall|j: int|
            i <= j < order.len() ==> pools::model_at(models, #[trigger] order[j])->0.dialect@
                == "test"@,
    ensures
        i == 0 ==> generator::dialect_of(models, order) == "mysql"@,
        i > 0 && pools::model_at(models, order[i - 1])->0.dialect@ != "test"@
            ==> generator::dialect_of(models, order) == pools::model_at(
            models,
            order[i - 1],
        )->0.dialect@,
    decreases order.len(),
{
    if order.len() > 0 && i < order.len() {
        assert(order[order.len() - 1] == order.last());
        let rest = order.drop_last();
        assert forall|j: int| i <= j < rest.len() implies pools::model_at(
            models,
            #[trigger] rest[j],
        )->0.dialect@ == "test"@ by {
            assert(rest[j] == order[j]);
        }
        lemma_dialects(models, rest, i);
    }
}

/// The model of a table is the first that has its name.
pub proof fn lemma_model_of_a_table(models: Seq<TableModel>, name: Seq<char>, k: int)
    requires
        0 <= k <= models.len(),
        k < models.len() ==> models[k].table@ == name,
        forall|j: int| 0 <= j < k ==> (#[trigger] models[j]).table@ != name,
    ensures
        pools::model_at(models, name) == (if k < models.len() {
            Some(models[k])
        } else {
            None
        }),
    decreases models.len(),
{
    if models.len() > 0 && k > 0 {
        assert(models[0].table@ != name);
        let rest = models.skip(1);
        assert forall|j: int| 0 <= j < k - 1 implies (#[trigger] rest[j]).table@ != name by {
            assert(rest[j] == models[j + 1]);
        }
        lemma_model_of_a_table(rest, name, k - 1);
    }
}

/// The rule of a table is the first that has its name.
pub proof fn lemma_rule_of_a_table(tables: Seq<TableRule>, name: Seq<char>, k: int)
    requires
        0 <= k <= tables.len(),
        k < tables.len() ==> tables[k].name@ == name,
        forall|j: int| 0 <= j < k ==> (#[trigger] tables[j]).name@ != name,
    ensures
        generator::rule_at(tables, name) == (if k < tables.len() {
            Some(tables[k])
        } else {
            None
        }),
    decreases tables.len(),
{
    if tables.len() > 0 && k > 0 {
        assert(tables[0].name@ != name);
        let rest = tables.skip(1);
        assert forall|j: int| 0 <= j < k - 1 implies (#[trigger] rest[j]).name@ != name by {
            assert(rest[j] == tables[j + 1]);
        }
        lemma_rule_of_a_table(rest, name, k - 1);
    }
}

/// A schema that is empty is none.
pub proof fn lemma_empty_schemas(table: TableModel)
    ensures
        table.schema is None ==> generator::schema_of(table) is None,
        table.schema is Some && table.schema->0@.len() == 0 ==> generator::schema_of(table) is None,
        table.schema is Some && table.schema->0@.len() > 0 ==> generator::schema_of(table) == Some(
            table.schema->0@,
        ),
{
}

/// A forced family is kept where it can be used. Where it cannot, the instants keep their
/// plain distribution, and other columns get the family that fits best; one for which the
/// forced family failed is left out.
pub proof fn lemma_trials(
    column: &str,
    family: &str,
    tried: Result<bool, String>,
    instants: bool,
    r: (Next, Option<String>),
)
    requires
        call_ensures(fitting::after_trial, (column, family, tried, instants), r),
    ensures
        tried == Ok::<bool, String>(true) ==> r.0 == Next::Done && r.1 is None,
        tried == Ok::<bool, String>(false) && !instants ==> r.0 == Next::Select && r.1 is Some,
        tried == Ok::<bool, String>(false) && instants ==> r.0 == Next::Instants && r.1 is Some,
        tried is Err && instants ==> r.0 == Next::Instants && r.1 is Some,
        tried is Err && !instants ==> r.0 == Next::LeftOut && r.1 is None,
{
}

/// Which columns are modelled: all with a dictionary, all by their instants and all that
/// nothing was seen of; of the others those that a usable family is forced on, and those
/// that some family describes.
pub proof fn lemma_columns_that_are_modelled(
    c: ProfileColumn,
    forced: Option<Seq<char>>,
    fit: Fit,
)
    ensures
        ({
            let plan = training::plan_of(c, forced);
            let chosen = fitting::is_modelled(plan, fit);
            let kind = c.logical_type@;
            let instants = kind == "datetime"@ && c.datetime_format is Some;
            &&& instants ==> chosen
            &&& forced is None && c.levels is Some && (kind == "numerical"@ || kind
                == "categorical"@) ==> chosen
            &&& forced is None && c.levels is None && kind == "categorical"@ ==> !chosen
            &&& forced is None && c.levels is None && kind == "numerical"@ ==> (chosen <==> fit.selected)
            &&& !instants && forced is Some && forced->0 != "categorical"@ ==> (chosen <==> (
            fit.forced is Usable || (fit.forced is Unusable && fit.selected)))
        }),
{
    learning::lemma_plans_follow_the_profile(c, forced);
    reveal_strlit("categorical");
    reveal_strlit("datetime");
    reveal_strlit("numerical");
    assert("categorical"@.len() != "datetime"@.len());
    assert("categorical"@.len() != "numerical"@.len());
    assert("datetime"@.len() != "numerical"@.len());
}

/// A built model is of the table that was sampled, of the dialect and the schema that it
/// was sampled in, and of as many rows; its key has those columns of the table's that were
/// modelled; correlations are learned from two rows on.
pub proof fn lemma_models_are_of_their_sample(
    s: Sample,
    fits: Seq<Fit>,
    b: BuiltModel,
    n: Seq<char>,
)
    requires
        fitting::built(s, fits, b),
        s.rows.len() <= usize::MAX,
    ensures
        b.model.table@ == s.table,
        b.model.dialect@ == s.dialect,
        b.model.schema.deep_view() == s.schema,
        b.model.version == 1,
        b.model.provenance.trained_rows is Some,
        b.model.provenance.trained_rows->0 == s.rows.len(),
        b.model.columns@.len() > 0,
        b.model.columns@.len() + b.skipped@.len() == s.profile.len(),
        b.samples is Some <==> s.rows.len() >= 2,
        b.model.pk.deep_view().contains(n) <==> s.pk.contains(n) && exists|k: int|
            0 <= k < b.model.columns@.len() && (#[trigger] b.model.columns@[k]).0@ == n,
        s.order.contains(n) && (exists|k: int|
            0 <= k < b.model.columns@.len() && (#[trigger] b.model.columns@[k]).0@ == n)
            ==> b.model.column_order.deep_view().contains(n),
{
    let places = fitting::modelled(s.profile, s.forced, fits);
    let fitted = fitting::names_at(s.profile, places);
    fitting::lemma_columns_are_accounted_for(s.profile, s.forced, fits);
    assert(b.skipped.deep_view().len() == b.skipped@.len());
    learning::lemma_names_are_kept(s.pk, fitted, n);
    learning::lemma_names_are_kept(s.order, fitted, n);
    if fitted.contains(n) {
        let k = fitted.index_of(n);
        assert(b.model.columns@[k].0@ == n);
    }
    if exists|k: int| 0 <= k < b.model.columns@.len() && (#[trigger] b.model.columns@[k]).0@ == n {
        let k = choose|k: int|
            0 <= k < b.model.columns@.len() && (#[trigger] b.model.columns@[k]).0@ == n;
        assert(fitted[k] == n);
        assert(fitted.contains(n));
    }
    let kept = training::kept(s.order, fitted);
    if kept.contains(n) {
        assert(kept.len() > 0);
    }
}

/// A foreign key is learned exactly where its values were sampled and one of them is not
/// NULL.
pub proof fn lemma_keys_that_are_learned(samples: Seq<TableSample>, keys: Seq<Link>, key: Link)
    ensures
        training::learned_keys(samples, keys).contains(key) <==> keys.contains(key) && ({
            let cells = training::key_values(samples, key.from_table, key.from_column);
            cells is Some && exists|i: int|
                0 <= i < cells->0.len() && !((#[trigger] cells->0[i]) is Null)
        }),
    decreases keys.len(),
{
    let cells = training::key_values(samples, key.from_table, key.from_column);
    if cells is Some {
        learning::lemma_parents_are_the_values(cells->0);
        let parents = cardinality::referenced(cells->0);
        if parents.len() > 0 {
            assert(parents.contains(parents[0]));
            let i = cells->0.index_of(parents[0]);
            assert(!(cells->0[i] is Null));
        }
        if exists|i: int| 0 <= i < cells->0.len() && !((#[trigger] cells->0[i]) is Null) {
            let i = choose|i: int| 0 <= i < cells->0.len() && !((#[trigger] cells->0[i]) is Null);
            assert(cells->0.contains(cells->0[i]));
            assert(parents.contains(cells->0[i]));
        }
    }
    if keys.len() > 0 {
        let rest = keys.drop_last();
        lemma_keys_that_are_learned(samples, rest, key);
        let before = training::learned_keys(samples, rest);
        let after = training::learned_keys(samples, keys);
        if keys.contains(key) {
            let i = keys.index_of(key);
            if i < rest.len() {
                assert(rest[i] == key);
            }
        }
        if rest.contains(key) {
            let i = rest.index_of(key);
            assert(keys[i] == key);
        }
        if before.contains(key) {
            let i = before.index_of(key);
            assert(after[i] == key);
        }
        if after.contains(key) && !before.contains(key) {
            let i = after.index_of(key);
            if i < before.len() {
                assert(before[i] == key);
            }
            assert(keys[keys.len() - 1] == key);
        }
        if key == keys.last() && training::is_learned(samples, key) {
            assert(after[after.len() - 1] == key);
        }
    }
}

/// The values of a foreign key are those of the last sample of its table that has them.
pub proof fn lemma_values_of_the_last_sample(
    samples: Seq<TableSample>,
    table: Seq<char>,
    column: Seq<char>,
    i: int,
)
    requires
        0 <= i < samples.len(),
        samples[i].table@ == table,
        training::link_values(samples[i].links@, column) is Some,
        forall|j: int|
            i < j < samples.len() ==> (#[trigger] samples[j]).table@ != table
                || training::link_values(samples[j].links@, column) is None,
    ensures
        training::key_values(samples, table, column) == training::link_values(
            samples[i].links@,
            column,
        ),
    decreases samples.len(),
{
    assert(samples[samples.len() - 1] == samples.last());
    if i < samples.len() - 1 {
        let rest = samples.drop_last();
        assert(rest[i] == samples[i]);
        assert forall|j: int| i < j < rest.len() implies (#[trigger] rest[j]).table@ != table
            || training::link_values(rest[j].links@, column) is None by {
            assert(rest[j] == samples[j]);
        }
        lemma_values_of_the_last_sample(rest, table, column, i);
    }
}

/// A key that is put has its value, and every other key what it had.
pub proof fn lemma_values_are_put<V>(
    list: Seq<(Seq<char>, V)>,
    key: Seq<char>,
    v: V,
    i: int,
)
    ensures
        train_run::put(list, key, v).contains((key, v)),
        0 <= i < list.len() && list[i].0 != key ==> train_run::put(list, key, v).contains(list[i]),
{
    let keys = train_run::keys_of(list);
    let after = train_run::put(list, key, v);
    value::lemma_first_place(keys, key);
    let at = value::first_place(keys, key);
    if keys.contains(key) {
        assert(after[at] == (key, v));
        if 0 <= i < list.len() && list[i].0 != key {
            assert(keys[at] == key);
            assert(keys[i] == list[i].0);
            assert(after[i] == list[i]);
        }
    } else {
        assert(after[list.len() as int] == (key, v));
        if 0 <= i < list.len() {
            assert(after[i] == list[i]);
        }
    }
}

/// A family that a rule forces is forced, whatever rules before it say; a rule that forces
/// none changes nothing.
pub proof fn lemma_families_are_forced(
    list: Seq<(Seq<char>, Seq<char>)>,
    columns: Seq<(String, ColumnRule)>,
    last: (String, ColumnRule),
)
    ensures
        last.1.marginal is Some ==> train_run::forced_in(list, columns.push(last)).contains(
            (last.0@, last.1.marginal->0@),
        ),
        last.1.marginal is None ==> train_run::forced_in(list, columns.push(last))
            == train_run::forced_in(list, columns),
{
    assert(columns.push(last).drop_last() =~= columns);
    if last.1.marginal is Some {
        lemma_values_are_put(
            train_run::forced_in(list, columns),
            last.0@,
            last.1.marginal->0@,
            0,
        );
    }
}

/// What is learned of a foreign key is kept by the model of its table, where that has the
/// column, and by no other.
pub proof fn lemma_learned_keys_are_attached(m: TableModel, learned: Seq<LearnedKey>, l: LearnedKey)
    ensures
        l.table@ == m.table@ && model::column_model(m.columns@, l.column@) is Some
            ==> train_run::attached(m, learned.push(l)).contains(
            (l.column@, cardinality::numbers_of(l.cardinality)),
        ),
        l.table@ != m.table@ || model::column_model(m.columns@, l.column@) is None
            ==> train_run::attached(m, learned.push(l)) == train_run::attached(m, learned),
{
    assert(learned.push(l).drop_last() =~= learned);
    lemma_values_are_put(
        train_run::attached(m, learned),
        l.column@,
        cardinality::numbers_of(l.cardinality),
        0,
    );
}

/// The instants of a column are those of its texts that the format reads.
pub proof fn lemma_instants_are_read(rows: Seq<Vec<Value>>, c: int, format: Seq<char>, n: i64)
    ensures
        train_run::instants(rows, c, format).contains(n) <==> exists|r: int|
            #![trigger rows[r]]
            0 <= r < rows.len() && 0 <= c < rows[r]@.len() && rows[r]@[c]@ is Text
                && datetime::instant_of(rows[r]@[c]@->Text_0, format) == Some(n),
    decreases rows.len(),
{
    if rows.len() > 0 {
        let rest = rows.drop_last();
        lemma_instants_are_read(rest, c, format, n);
        let before = train_run::instants(rest, c, format);
        let after = train_run::instants(rows, c, format);
        assert(rows[rows.len() - 1] == rows.last());
        if before.contains(n) {
            let i = before.index_of(n);
            assert(after[i] == n);
            let r = choose|r: int|
                #![trigger rest[r]]
                0 <= r < rest.len() && 0 <= c < rest[r]@.len() && rest[r]@[c]@ is Text
                    && datetime::instant_of(rest[r]@[c]@->Text_0, format) == Some(n);
            assert(rows[r] == rest[r]);
        }
        if after.contains(n) && !before.contains(n) {
            let i = after.index_of(n);
            if i < before.len() {
                assert(before[i] == n);
            }
        }
        if exists|r: int|
            #![trigger rows[r]]
            0 <= r < rows.len() && 0 <= c < rows[r]@.len() && rows[r]@[c]@ is Text
                && datetime::instant_of(rows[r]@[c]@->Text_0, format) == Some(n) {
            let r = choose|r: int|
                #![trigger rows[r]]
                0 <= r < rows.len() && 0 <= c < rows[r]@.len() && rows[r]@[c]@ is Text
                    && datetime::instant_of(rows[r]@[c]@->Text_0, format) == Some(n);
            if r < rest.len() {
                assert(rest[r] == rows[r]);
            } else {
                assert(after[after.len() - 1] == n);
            }
        }
    }
}

/// The keys of a pool are the first cells of its rows, NULLs aside, in order.
pub proof fn lemma_first_cells_are_keys(rows: Seq<Vec<Value>>, row: Vec<Value>)
    ensures
        row@.len() > 0 && row@[0]@ is Text ==> report::first_keys(rows.push(row))
            == report::first_keys(rows).push(row@[0]@->Text_0),
        row@.len() > 0 && row@[0]@ is Number ==> report::first_keys(rows.push(row))
            == report::first_keys(rows).push(row@[0]@->Number_0),
        row@.len() == 0 || row@[0]@ is Null ==> report::first_keys(rows.push(row))
            == report::first_keys(rows),
{
    assert(rows.push(row).drop_last() =~= rows);
}

/// What a column that is drawn conditionally is held to: its fixed number or instant, else
/// the two ends of its range.
pub proof fn lemma_columns_are_held(
    rule: TableRule,
    table: TableModel,
    column: Seq<char>,
    k: int,
    m: int,
)
    requires
        0 <= k < rule.columns@.len(),
        rule.columns@[k].0@ == column,
        forall|j: int| 0 <= j < k ==> (#[trigger] rule.columns@[j]).0@ != column,
        0 <= m < table.columns@.len(),
        table.columns@[m].0@ == column,
        forall|j: int| 0 <= j < m ==> (#[trigger] table.columns@[j]).0@ != column,
        rule.columns@[k].1.mode == ColumnMode::CopulaConditional,
    ensures
        ({
            let c = rule.columns@[k].1;
            let trained = table.columns@[m].1;
            let fault = overrides::pin_fault(rule, table, column);
            let hold = overrides::pin_hold(rule, table, column);
            let range = c.fixed_range->0;
            &&& trained.levels is Some ==> fault is Some
            &&& c.fixed is None && c.fixed_range is None ==> fault is Some
            &&& trained.levels is None && c.fixed is Some && trained.logical_type
                == LogicalType::Numerical ==> (fault is None <==> literal::double_of(
                c.fixed->0@,
            ) is Some)
            &&& trained.levels is None && c.fixed is Some && trained.logical_type
                == LogicalType::Numerical && fault is None ==> hold == Hold::Fixed(
                Mark::Number(c.fixed->0@),
            )
            &&& trained.levels is None && c.fixed is None && c.fixed_range is Some
                && range.0@ is Number && range.1@ is Number ==> fault is None && hold
                == Hold::Range(
                Mark::Number(range.0@->Number_0),
                Mark::Number(range.1@->Number_0),
            )
        }),
{
    values::lemma_rule_of(rule.columns@, column, k);
    values::lemma_model_of(table.columns@, column, m);
}

/// A column without a conditional rule is not held, and has nothing wrong with it.
pub proof fn lemma_columns_that_are_not_held(
    rule: TableRule,
    table: TableModel,
    column: Seq<char>,
    k: int,
)
    requires
        0 <= k <= rule.columns@.len(),
        k < rule.columns@.len() ==> rule.columns@[k].0@ == column && rule.columns@[k].1.mode
            == ColumnMode::Rejection,
        forall|j: int| 0 <= j < k ==> (#[trigger] rule.columns@[j]).0@ != column,
    ensures
        !overrides::is_conditional(rule, column),
        overrides::pin_fault(rule, table, column) is None,
{
    values::lemma_rule_of(rule.columns@, column, k);
}

proof fn lemma_hunted<S: Sampler>(
    s: S,
    span: Span,
    rng: rand::rngs::StdRng,
    draws: nat,
    tries: nat,
)
    ensures
        overrides::hunted(s, span, rng, draws, tries) matches Hunt::Found(cell, more, _)
            ==> domain::within(span.low, span.high, span.format, cell) && draws < more <= draws
            + tries,
    decreases tries,
{
    if tries > 0 {
        let d = s.redrawn(span.table, span.place, rng);
        lemma_hunted(s, span, d.1, draws + 1, (tries - 1) as nat);
    }
}

/// Values that are drawn for a range lie in it, one for each row, and at least every
/// hundredth draw gave one.
pub proof fn lemma_ranged_values<S: Sampler>(
    s: S,
    span: Span,
    rng: rand::rngs::StdRng,
    n: nat,
    r: int,
)
    ensures
        overrides::ranged_column(s, span, rng, n) matches Ok(cells) ==> {
            &&& cells.len() == n
            &&& 0 <= r < n ==> domain::within(span.low, span.high, span.format, cells[r])
        },
        overrides::ranged(s, span, rng, n) matches Ok(all) ==> n <= all.1 <= n * 10_000,
        overrides::ranged(s, span, rng, n) matches Ok(all) ==> (overrides::ranged_column(
            s,
            span,
            rng,
            n,
        ) is Ok <==> all.1 <= 100 * n),
{
    lemma_ranged(s, span, rng, n, r);
}

proof fn lemma_ranged<S: Sampler>(s: S, span: Span, rng: rand::rngs::StdRng, n: nat, r: int)
    ensures
        overrides::ranged(s, span, rng, n) matches Ok(all) ==> {
            &&& all.0.len() == n
            &&& n <= all.1 <= n * 10_000
            &&& 0 <= r < n ==> domain::within(span.low, span.high, span.format, all.0[r])
        },
    decreases n,
{
    if n > 0 {
        lemma_ranged(s, span, rng, (n - 1) as nat, r);
        if let Ok(before) = overrides::ranged(s, span, rng, (n - 1) as nat) {
            lemma_hunted(s, span, before.2, 0, overrides::RANGE_DRAWS as nat);
        }
    }
}

/// Values that are picked from a pool are of the pool, one for each row.
pub proof fn lemma_picked_values<S: Sampler>(
    s: S,
    table: Seq<char>,
    column: Seq<char>,
    pool: rules::ValuePool,
    cells: Seq<Cell>,
    rng: rand::rngs::StdRng,
    n: nat,
    r: int,
)
    requires
        cells.len() > 0,
    ensures
        overrides::picked(s, table, column, pool, cells, rng, n).0.len() == n,
        0 <= r < n ==> cells.contains(
            overrides::picked(s, table, column, pool, cells, rng, n).0[r],
        ),
        0 <= r < n ==> ({
            let before = overrides::picked(s, table, column, pool, cells, rng, r as nat);
            let place = s.pool_place(table, column, pool, before.1).0;
            place < cells.len() ==> overrides::picked(
                s,
                table,
                column,
                pool,
                cells,
                rng,
                n,
            ).0[r] == cells[place as int]
        }),
    decreases n,
{
    if n > 0 {
        lemma_picked_values(s, table, column, pool, cells, rng, (n - 1) as nat, r);
        let before = overrides::picked(s, table, column, pool, cells, rng, (n - 1) as nat);
        let d = s.pool_place(table, column, pool, before.1);
        let i = if d.0 < cells.len() {
            d.0 as int
        } else {
            cells.len() - 1
        };
        assert(cells.contains(cells[i]));
    }
}

/// The columns that are skipped are those of the profile that could not be modelled.
pub proof fn lemma_skipped_columns(s: Sample, fits: Seq<Fit>, b: BuiltModel, n: Seq<char>)
    requires
        fitting::built(s, fits, b),
    ensures
        b.skipped.deep_view().contains(n) <==> exists|i: int|
            0 <= i < s.profile.len() && (#[trigger] s.profile[i]).name@ == n
                && !fitting::is_modelled(fitting::plan_for(s.profile[i], s.forced), fits[i]),
{
    lemma_left_out(s.profile, s.forced, fits, n);
}

proof fn lemma_left_out(
    profile: Seq<ProfileColumn>,
    forced: Seq<(String, String)>,
    fits: Seq<Fit>,
    n: Seq<char>,
)
    ensures
        fitting::left_out(profile, forced, fits).contains(n) <==> exists|i: int|
            0 <= i < profile.len() && (#[trigger] profile[i]).name@ == n && !fitting::is_modelled(
                fitting::plan_for(profile[i], forced),
                fits[i],
            ),
    decreases profile.len(),
{
    if profile.len() > 0 {
        let rest = profile.drop_last();
        lemma_left_out(rest, forced, fits, n);
        let before = fitting::left_out(rest, forced, fits);
        let after = fitting::left_out(profile, forced, fits);
        let last = profile.len() - 1;
        if before.contains(n) {
            let i = before.index_of(n);
            assert(after[i] == n);
            let k = choose|k: int|
                0 <= k < rest.len() && (#[trigger] rest[k]).name@ == n && !fitting::is_modelled(
                    fitting::plan_for(rest[k], forced),
                    fits[k],
                );
            assert(profile[k] == rest[k]);
        }
        if after.contains(n) && !before.contains(n) {
            let i = after.index_of(n);
            if i < before.len() {
                assert(before[i] == n);
            }
            assert(profile[last].name@ == n);
        }
        if exists|i: int|
            0 <= i < profile.len() && (#[trigger] profile[i]).name@ == n && !fitting::is_modelled(
                fitting::plan_for(profile[i], forced),
                fits[i],
            ) {
            let i = choose|i: int|
                0 <= i < profile.len() && (#[trigger] profile[i]).name@ == n
                    && !fitting::is_modelled(fitting::plan_for(profile[i], forced), fits[i]);
            if i < rest.len() {
                assert(rest[i] == profile[i]);
            } else {
                assert(after[after.len() - 1] == n);
            }
        }
    }
}

/// Draws stay between the bounds that were seen where that is enforced, but for columns
/// that are held by their rule.
pub proof fn lemma_columns_that_are_clipped(job: Job, c: int, k: int)
    requires
        0 <= c < job.columns().len(),
        0 <= k <= job.rule.columns@.len(),
        k < job.rule.columns@.len() ==> job.rule.columns@[k].0@ == job.columns()[c],
        forall|j: int| 0 <= j < k ==> (#[trigger] job.rule.columns@[j]).0@ != job.columns()[c],
    ensures
        job.clipped().len() == job.columns().len(),
        job.clipped()[c] <==> job.enforce && (k < job.rule.columns@.len()
            ==> job.rule.columns@[k].1.mode == ColumnMode::Rejection),
        job.is_key(c) <==> job.referenced.contains(job.rule.name@ + "."@ + job.columns()[c]),
{
    values::lemma_rule_of(job.rule.columns@, job.columns()[c], k);
}

/// Parents are selected as the rule of the table asks.
pub proof fn lemma_selection_follows_the_rule(strategy: TableStrategy, r: SelectionStrategy)
    requires
        call_ensures(pools::selection, (strategy,), r),
    ensures
        strategy == TableStrategy::Uniform ==> r == SelectionStrategy::Uniform,
        strategy == TableStrategy::Zipf ==> r == SelectionStrategy::Zipf,
        strategy == TableStrategy::Weighted ==> r == SelectionStrategy::Weighted,
        pools::chosen(strategy) == r,
{
}

/// A datetime whose format could not be told is warned of, where it has values.
pub proof fn lemma_formats_that_could_not_be_told(c: &ProfileColumn, r: Option<String>)
    requires
        call_ensures(training::format_warning, (c,), r),
    ensures
        r is Some <==> c.logical_type@ == "datetime"@ && c.datetime_format is None && !c.all_null
            && !c.has_mean,
{
}

/// The foreign keys of a table are sampled: each that is one of its columns, with the cells
/// of that column.
pub proof fn lemma_foreign_keys_are_sampled(
    keys: Seq<Link>,
    table: Seq<char>,
    columns: Seq<Seq<char>>,
    rows: Seq<Vec<Value>>,
    i: int,
)
    requires
        0 <= i < keys.len(),
        keys[i].from_table == table,
        columns.contains(keys[i].from_column),
    ensures
        train_run::sampled_links(keys, table, columns, rows).contains(
            (
                keys[i].from_column,
                training::sampled(rows, value::first_place(columns, keys[i].from_column)),
            ),
        ),
    decreases keys.len(),
{
    let rest = keys.drop_last();
    let before = train_run::sampled_links(rest, table, columns, rows);
    let after = train_run::sampled_links(keys, table, columns, rows);
    let link = (
        keys[i].from_column,
        training::sampled(rows, value::first_place(columns, keys[i].from_column)),
    );
    if i < rest.len() {
        assert(rest[i] == keys[i]);
        lemma_foreign_keys_are_sampled(rest, table, columns, rows, i);
        let k = before.index_of(link);
        assert(after[k] == link);
    } else {
        assert(after[after.len() - 1] == link);
    }
}

/// A format asks for an offset where `%:z` stands in it.
pub proof fn lemma_formats_with_offsets(format: Seq<char>, a: Seq<char>, b: Seq<char>)
    ensures
        format == a + seq!['%', ':', 'z'] + b ==> datetime::asks_offset(format),
        !format.contains('z') ==> !datetime::asks_offset(format),
{
    if format == a + seq!['%', ':', 'z'] + b {
        let i = a.len() as int;
        assert(format[i] == '%' && format[i + 1] == ':' && format[i + 2] == 'z');
        assert(datetime::offset_at(format, i));
    }
    if datetime::asks_offset(format) {
        let i = choose|i: int| #[trigger] datetime::offset_at(format, i);
        assert(format.contains(format[i + 2]));
    }
}

/// Columns are held one after the other: one without a conditional rule is passed over, one
/// that cannot be held stops the draw, and so does a range that the column never falls into.
pub proof fn lemma_columns_are_held_in_turn<S: Sampler>(
    s: S,
    rule: TableRule,
    table: TableModel,
    columns: Seq<Seq<char>>,
    rows: usize,
    streams: Seq<rand::rngs::StdRng>,
    n: nat,
)
    requires
        n < columns.len(),
    ensures
        ({
            let before = overrides::pins_from(s, rule, table, columns, rows, streams, n);
            let after = overrides::pins_from(
                s,
                rule,
                table,
                columns,
                rows,
                streams,
                (n + 1) as nat,
            );
            let column = columns[n as int];
            let c = rules::column_rule(rule.columns@, column);
            let held = c is Some && c->0.mode == ColumnMode::CopulaConditional;
            let fault = overrides::pin_fault(rule, table, column);
            let done = before.1.pinned(
                table,
                n as usize,
                overrides::pin_hold(rule, table, column),
                rows,
                streams[n as int],
            );
            &&& overrides::pins_from(s, rule, table, columns, rows, streams, 0) == (
                Ok::<bool, Seq<char>>(false),
                s,
            )
            &&& before.0 is Err ==> after == before
            &&& before.0 is Ok && !held ==> after == before
            &&& before.0 is Ok && held && fault is Some ==> after.0 == Err::<bool, Seq<char>>(
                fault->0,
            )
            &&& before.0 is Ok && held && fault is None && (c->0.fixed is Some || done.0)
                ==> after == (Ok::<bool, Seq<char>>(true), done.1)
            &&& before.0 is Ok && held && fault is None && c->0.fixed is None
                && c->0.fixed_range is Some && !done.0 ==> after.0 is Err
        }),
{
}

/// Of two cells with one name, the first counts where cells come in pairs with their names.
pub proof fn lemma_first_pairs_count(columns: Seq<Seq<char>>, row: Seq<Cell>, c: int)
    requires
        columns.len() == row.len(),
        0 <= c < columns.len(),
        forall|j: int| 0 <= j < c ==> #[trigger] columns[j] != columns[c],
    ensures
        value::row_cells(columns, row).contains_key(columns[c]),
        value::row_cells(columns, row)[columns[c]] == row[c],
{
    value::lemma_first_place(columns, columns[c]);
    let at = value::first_place(columns, columns[c]);
    assert(columns.contains(columns[c]));
    assert(at == c);
}

/// What is learned of foreign keys is gathered from all models.
pub proof fn lemma_learned_keys_are_gathered(models: Seq<TableModel>, m: int, i: int)
    requires
        0 <= m < models.len(),
        0 <= i < models[m].fk_cardinality@.len(),
    ensures
        ({
            let known = models[m].fk_cardinality@[i];
            report::learned_of(models).contains(
                (models[m].table@, known.0@, cardinality::numbers_of(known.1)),
            )
        }),
    decreases models.len(),
{
    let rest = models.drop_last();
    let before = report::learned_of(rest);
    let last = models.last();
    let own = Seq::new(
        last.fk_cardinality@.len(),
        |j: int|
            (
                last.table@,
                last.fk_cardinality@[j].0@,
                cardinality::numbers_of(last.fk_cardinality@[j].1),
            ),
    );
    let known = models[m].fk_cardinality@[i];
    let entry = (models[m].table@, known.0@, cardinality::numbers_of(known.1));
    assert(report::learned_of(models) =~= before + own);
    if m < rest.len() {
        assert(rest[m] == models[m]);
        lemma_learned_keys_are_gathered(rest, m, i);
        let k = before.index_of(entry);
        assert((before + own)[k] == entry);
    } else {
        assert(own[i] == entry);
        assert((before + own)[before.len() + i] == entry);
    }
}

/// What is asked of a fitter: to keep the levels of a dictionary, the instants of a
/// datetime or the point of a column of which nothing was seen; to try a forced family; and
/// to find a family where none is forced, or where the forced one cannot be used.
pub proof fn lemma_fitters_are_asked<F: Fitter>(f: F, c: ProfileColumn, family: Seq<char>)
    ensures
        ({
            let found = fitting::fit_from(f, c, Plan::Dictionary);
            found.1 == f.keeping(c, Kept::Levels)
        }),
        ({
            let found = fitting::fit_from(f, c, Plan::Point);
            found.1 == f.keeping(c, Kept::Point)
        }),
        ({
            let found = fitting::fit_from(f, c, Plan::Epoch(None));
            found.1 == f.keeping(c, Kept::Instants)
        }),
        ({
            let found = fitting::fit_from(f, c, Plan::Auto);
            let asked = f.selected(c);
            found.0.selected == asked.0 && found.1 == asked.1
        }),
        ({
            let found = fitting::fit_from(f, c, Plan::Forced(family));
            let tried = f.forced(c, family, false);
            &&& found.0.forced == tried.0
            &&& tried.0 is Usable || tried.0 is Failed ==> found.1 == tried.1
            &&& tried.0 is Unusable ==> found.0.selected == tried.1.selected(c).0 && found.1
                == tried.1.selected(c).1
        }),
        ({
            let found = fitting::fit_from(f, c, Plan::Epoch(Some(family)));
            let tried = f.forced(c, family, true);
            &&& found.0.forced == tried.0
            &&& tried.0 is Usable ==> found.1 == tried.1
            &&& !(tried.0 is Usable) ==> found.1 == tried.1.keeping(c, Kept::Instants)
        }),
{
}

/// Every column has streams of its own, by its name and by what they are for: for its NULLs,
/// for the values of its pool, and for its range.
pub proof fn lemma_columns_have_their_own_streams<S: Sampler>(
    job: Job,
    base: Option<u64>,
    from: Post<S>,
    st: Stages,
    mid: Mid<S>,
    c: int,
)
    requires
        generator::ran_by(job, base, from, st, mid),
        0 <= c < job.columns().len(),
        base is Some,
    ensures
        ({
            let head = job.rule.name@ + ":"@ + job.columns()[c] + ":"@;
            let stream = |purpose: Seq<char>|
                seed::seeded_stream(seed::seed_of(base, head + purpose)->0);
            &&& mid.nulls[c] == stream("null"@)
            &&& mid.picks[c] == stream("values"@)
            &&& mid.ranges[c] == stream("range"@)
            &&& mid.pins[c] == stream("range"@)
        }),
{
    assert(seed::fits(
        seed::seed_of(base, seed::stream_label(job.rule.name@, job.columns()[c], "null"@)),
        mid.nulls[c],
    ));
    assert(seed::fits(
        seed::seed_of(base, seed::stream_label(job.rule.name@, job.columns()[c], "values"@)),
        mid.picks[c],
    ));
    assert(seed::fits(
        seed::seed_of(base, seed::stream_label(job.rule.name@, job.columns()[c], "range"@)),
        mid.ranges[c],
    ));
    assert(seed::fits(
        seed::seed_of(base, seed::stream_label(job.rule.name@, job.columns()[c], "range"@)),
        mid.pins[c],
    ));
}

/// What is learned of a foreign key is learned of all its sampled values.
pub proof fn lemma_keys_are_learned_whole(
    samples: Seq<TableSample>,
    key: Link,
    l: LearnedKey,
)
    requires
        training::learned_as(samples, key, l),
        training::key_values(samples, key.from_table, key.from_column) is Some,
    ensures
        ({
            let cells = training::key_values(samples, key.from_table, key.from_column)->0;
            &&& l.table@ == key.from_table
            &&& l.column@ == key.from_column
            &&& l.cardinality.rows == cells.len()
            &&& l.cardinality.null_rows == learning::standing(cells, Cell::Null)
        }),
{
    let cells = training::key_values(samples, key.from_table, key.from_column)->0;
    learning::lemma_occurrences(cells, Cell::Null);
}

} // verus!
