//! What holds of every table that is generated.
use crate::branch;
use crate::branch::Ground;
use crate::derivation;
use crate::derivation::DerivePlan;
use crate::domain;
use crate::draw;
use crate::fk_pool;
use crate::fk_pool::SelectionStrategy;
use crate::generator;
use crate::generator::{GeneratedData, GeneratedTable, GeneratorConfig, Job, Stages};
use crate::graph;
use crate::model::TableModel;
use crate::overrides;
use crate::overrides::Replaced;
use crate::pools;
use crate::pools::RelPool;
use crate::rules;
use crate::rules::{Relationship, SynthRules, TableRule};
use crate::value;
use crate::value::Cell;
use vstd::prelude::*;

verus! {

/// No branch writes a column.
pub open spec fn unbranched(rule: TableRule, column: Seq<char>) -> bool {
    forall|b: int, j: int|
        0 <= b < rule.branches@.len() && 0 <= j < rule.branches@[b].set@.len() ==> (
        #[trigger] rule.branches@[b].set@[j]).0@ != column
}

/// A plan's steps write no column that is not computed.
proof fn lemma_steps_elsewhere(
    plan: DerivePlan,
    rule: TableRule,
    table: TableModel,
    columns: Seq<Seq<char>>,
    c: int,
)
    requires
        derivation::follows(plan, rule.name@, rule.derive@, table, columns),
        0 <= c < columns.len(),
        !rule.is_derived(columns[c]),
    ensures
        forall|i: int|
            0 <= i < plan.steps().len() ==> 0 <= (#[trigger] plan.steps()[i]).index < columns.len()
                && plan.steps()[i].index != c,
{
    let order = derivation::step_names(plan.steps());
    assert forall|i: int| 0 <= i < plan.steps().len() implies 0 <= (
    #[trigger] plan.steps()[i]).index < columns.len() && plan.steps()[i].index != c by {
        let step = plan.steps()[i];
        assert(step == derivation::step_of(rule.derive@, table, columns, step.column));
        assert(derivation::targets(rule.derive@).contains(order[i]));
        let k = derivation::targets(rule.derive@).index_of(step.column);
        assert(rule.derive@[k].column@ == step.column);
        value::lemma_last_place(columns, step.column);
    }
}

/// Computing columns and repairing branches leave alone what neither writes.
pub(crate) proof fn lemma_column_kept(job: Job, st: Stages, t: GeneratedTable, c: int)
    requires
        generator::made_in(job, st, t),
        job.rows <= usize::MAX,
        0 <= c < job.columns().len(),
        !job.rule.is_derived(job.columns()[c]),
        unbranched(job.rule, job.columns()[c]),
    ensures
        draw::column_of(t.cells(), c) == draw::column_of(st.replaced, c),
{
    let columns = job.columns();
    let width = columns.len();
    if job.rule.derive@.len() > 0 {
        let plan = choose|plan: DerivePlan| #[trigger]
            generator::derived_by(
                plan,
                job.rule,
                job.table,
                columns,
                st.replaced,
                Ok(st.computed),
            );
        lemma_steps_elsewhere(plan, job.rule, job.table, columns, c);
        let g = Ground {
            table: job.rule.name@,
            columns,
            steps: plan.steps(),
            barred: None,
            branches: Seq::empty(),
        };
        branch::lemma_derive_rows_alone(g, st.replaced, c, width);
    }
    assert(draw::column_of(st.computed, c) =~= draw::column_of(st.replaced, c)) by {
        assert forall|r: int| 0 <= r < st.replaced.len() implies #[trigger] st.computed[r][c]
            == st.replaced[r][c] by {
            assert(st.replaced[r].len() == width);
        }
    }
    if job.rule.branches@.len() > 0 {
        let plan = choose|plan: DerivePlan| #[trigger]
            branch::repaired(
                plan,
                job.rule,
                job.table,
                columns,
                job.referenced,
                st.targets,
                job.limit,
                st.computed,
                t.cells(),
                t.branches@,
            );
        let g = branch::ground_of(plan, job.rule, job.table, columns, job.referenced, st.targets);
        lemma_steps_elsewhere(plan, job.rule, job.table, columns, c);
        lemma_writes_within(job, g, plan, st);
        assert forall|b: int, j: int|
            0 <= b < g.branches.len() && 0 <= j < g.branches[b].set.len() implies (
        #[trigger] g.branches[b].set[j]).0 != c by {
            let said = job.rule.branches@[b].set@[j].0@;
            value::lemma_last_place(columns, said);
            branch::lemma_repair_spares_keys(job.rule, job.referenced, columns, b, j);
        }
        branch::lemma_repair_leaves_other_columns(g, st.computed, job.limit, c, width);
        assert forall|r: int| 0 <= r < st.computed.len() implies #[trigger] t.cells()[r][c]
            == st.computed[r][c] by {
            assert(st.computed[r].len() == width);
        }
        assert(draw::column_of(t.cells(), c) =~= draw::column_of(st.computed, c));
    }
}

/// What a repair writes lies within the rows.
proof fn lemma_writes_within(job: Job, g: Ground, plan: DerivePlan, st: Stages)
    requires
        generator::was_computed(job, st),
        derivation::follows(
            plan,
            job.rule.name@,
            job.rule.derive@,
            job.table,
            job.columns(),
        ),
        g == branch::ground_of(
            plan,
            job.rule,
            job.table,
            job.columns(),
            job.referenced,
            st.targets,
        ),
        forall|i: int|
            0 <= i < job.rule.branches@.len() ==> #[trigger] branch::branch_fine(
                job.rule,
                job.referenced,
                job.columns(),
                i,
            ),
    ensures
        branch::writes_within(g, job.columns().len()),
{
    let columns = job.columns();
    assert forall|b: int, j: int|
        0 <= b < g.branches.len() && 0 <= j < g.branches[b].set.len() implies 0 <= (
    #[trigger] g.branches[b].set[j]).0 < columns.len() by {
        let said = job.rule.branches@[b].set@[j].0@;
        value::lemma_last_place(columns, said);
        branch::lemma_repair_spares_keys(job.rule, job.referenced, columns, b, j);
    }
    assert forall|i: int| 0 <= i < g.steps.len() implies 0 <= (#[trigger] g.steps[i]).index
        < columns.len() by {
        assert(plan.steps()[i].index < plan.columns().len());
    }
}

/// A column that other tables refer to, or that refers to others, is written by
/// no branch.
proof fn lemma_keys_unbranched(job: Job, st: Stages, t: GeneratedTable, c: int)
    requires
        generator::made_in(job, st, t),
        0 <= c < job.columns().len(),
        job.is_key(c) || job.rule.is_foreign_key(job.columns()[c]) || draw::is_overridden(
            job.rule,
            job.columns()[c],
        ),
    ensures
        unbranched(job.rule, job.columns()[c]),
{
    assert forall|b: int, j: int|
        0 <= b < job.rule.branches@.len() && 0 <= j < job.rule.branches@[b].set@.len() implies (
    #[trigger] job.rule.branches@[b].set@[j]).0@ != job.columns()[c] by {
        branch::lemma_repair_spares_keys(job.rule, job.referenced, job.columns(), b, j);
    }
}

/// A column that takes part in a relationship keeps what the draw and the
/// settling gave it.
proof fn lemma_key_column_kept(job: Job, st: Stages, t: GeneratedTable, c: int)
    requires
        generator::made_in(job, st, t),
        job.rows <= usize::MAX,
        0 <= c < job.columns().len(),
        job.is_key(c) || job.rule.is_foreign_key(job.columns()[c]),
        !job.rule.is_derived(job.columns()[c]),
    ensures
        draw::column_of(t.cells(), c) == draw::column_of(st.settled, c),
{
    lemma_keys_unbranched(job, st, t, c);
    lemma_column_kept(job, st, t, c);
    let column = job.columns()[c];
    assert(overrides::override_fault(job.rule, job.table, job.referenced, column) is None);
    assert(overrides::replaced(job.rule, job.table, column) is Kept);
    assert(overrides::replaced_column(
        draw::column_of(st.settled, c),
        draw::column_of(st.replaced, c),
        overrides::replaced(job.rule, job.table, column),
    ));
}

/// In a generated table no value of a column that other tables refer to repeats:
/// it can be loaded as a key.
pub proof fn lemma_parent_keys_are_distinct(job: Job, t: GeneratedTable, c: int)
    requires
        generator::made(job, t),
        job.rows <= usize::MAX,
        0 <= c < job.columns().len(),
        job.is_key(c),
    ensures
        draw::column_of(t.cells(), c).no_duplicates(),
{
    reveal(generator::made);
    let st = choose|st: Stages| #[trigger] generator::made_in(job, st, t);
    let column = job.columns()[c];
    assert(!job.rule.is_derived(column)) by {
        if job.rule.is_derived(column) {
            let i = choose|i: int|
                0 <= i < job.rule.derive@.len() && (#[trigger] job.rule.derive@[i]).column@
                    == column;
            assert(!job.referenced.contains(
                branch::key_of(job.rule.name@, job.rule.derive@[i].column@),
            ));
        }
    }
    lemma_key_column_kept(job, st, t, c);
    assert(generator::settled_column(
        job,
        st.left,
        c,
        draw::column_of(st.drawn, c),
        draw::column_of(st.settled, c),
    ));
}

/// The columns of relationships.
pub open spec fn key_names(rels: Seq<Relationship>) -> Seq<Seq<char>> {
    Seq::new(rels.len(), |i: int| rels[i].pk@)
}

/// The relationship that a column belongs to: the first with its name.
pub open spec fn relation_of(rule: TableRule, column: Seq<char>) -> int {
    value::first_place(key_names(rule.relationships@), column)
}

proof fn lemma_relation(job: Job, full: Seq<RelPool>, column: Seq<char>)
    requires
        generator::pools_ready(job, full),
    ensures
        draw::rel_of(full, column) == relation_of(job.rule, column),
        0 <= relation_of(job.rule, column) <= full.len(),
        relation_of(job.rule, column) < full.len() <==> job.rule.is_foreign_key(column),
{
    let names = key_names(job.rule.relationships@);
    assert forall|i: int| 0 <= i < full.len() implies draw::rel_names(full)[i] == names[i] by {
        assert(full[i].column@ == job.rule.relationships@[i].pk@);
    }
    assert(draw::rel_names(full) =~= names);
    value::lemma_first_place(names, column);
    if job.rule.is_foreign_key(column) {
        let i = choose|i: int|
            0 <= i < job.rule.relationships@.len() && (
            #[trigger] job.rule.relationships@[i]).pk@ == column;
        assert(names[i] == column);
    }
    if value::first_place(names, column) < names.len() {
        let i = value::first_place(names, column);
        assert(names[i] == column);
        assert(job.rule.relationships@[i].pk@ == column);
    }
}

/// What is left of a pool was in it.
proof fn lemma_left_within(a: Seq<Cell>, b: Seq<Cell>, v: Cell)
    requires
        a.to_multiset().subset_of(b.to_multiset()),
        a.contains(v),
    ensures
        b.contains(v),
{
    a.to_multiset_ensures();
    b.to_multiset_ensures();
    assert(a.to_multiset().count(v) > 0);
    assert(b.to_multiset().count(v) > 0);
}

/// The entry of a weighted pool is one of the values.
proof fn lemma_firsts_within(cells: Seq<Cell>, v: Cell)
    requires
        fk_pool::firsts(cells).contains(v),
    ensures
        cells.contains(v),
    decreases cells.len(),
{
    if cells.len() > 0 {
        let rest = cells.drop_last();
        let more = fk_pool::firsts(rest);
        let all = fk_pool::firsts(cells);
        let i = all.index_of(v);
        if fk_pool::key_count(rest, fk_pool::cell_key(cells.last())) == 0 && i == more.len() {
            assert(cells[cells.len() - 1] == v);
        } else {
            assert(more[i] == v);
            lemma_firsts_within(rest, v);
            assert(cells[rest.index_of(v)] == v);
        }
    }
}

/// Every foreign key of a generated table that is not computed is NULL, where its
/// column may be, or one of the values that its relationship draws from.
pub proof fn lemma_foreign_keys_have_parents(job: Job, t: GeneratedTable, r: int, c: int)
    requires
        generator::made(job, t),
        job.rows <= usize::MAX,
        0 <= r < job.rows,
        0 <= c < job.columns().len(),
        job.rule.is_foreign_key(job.columns()[c]),
        !job.rule.is_derived(job.columns()[c]),
    ensures
        ({
            let cell = t.cells()[r][c];
            let rel = job.rule.relationships@[relation_of(job.rule, job.columns()[c])];
            ||| job.nullable()[c] && cell is Null
            ||| pools::source_of(rel, job.pools)->0.contains(cell)
        }),
{
    reveal(generator::made);
    let st = choose|st: Stages| #[trigger] generator::made_in(job, st, t);
    let column = job.columns()[c];
    let j = relation_of(job.rule, column);
    lemma_key_column_kept(job, st, t, c);
    lemma_relation(job, st.full, column);
    draw::lemma_same_names(st.full, st.left);
    let cell = t.cells()[r][c];
    let before = draw::column_of(st.drawn, c);
    let after = draw::column_of(st.settled, c);
    assert(draw::column_of(t.cells(), c)[r] == cell);
    assert(after[r] == cell);
    assert(generator::settled_column(job, st.left, c, before, after));
    assert(draw::drawn_cell(st.drawn[r][c], column, job.nullable()[c], st.full));
    assert(before[r] == st.drawn[r][c]);
    let rel = job.rule.relationships@[j];
    let source = pools::source_of(rel, job.pools)->0;
    assert(pools::pool_of(
        st.full[j],
        rel,
        job.pools,
        job.models,
        pools::chosen(job.rule.strategy),
    ));
    let entries = st.full[j].pool.entries();
    if !(job.nullable()[c] && cell is Null) {
        assert(entries.contains(cell)) by {
            if cell != before[r] {
                assert(job.is_key(c));
                assert(st.left[j].pool.entries().contains(after[r]));
                lemma_left_within(st.left[j].pool.entries(), entries, cell);
            }
        }
        if pools::chosen(job.rule.strategy) == SelectionStrategy::Weighted {
            lemma_firsts_within(source, cell);
        }
    }
}

/// A list whose values repeat no more often than in a pool: drawing again what
/// repeats keeps it so.
proof fn lemma_distinct_taken(column: Seq<Cell>, pool: Seq<Cell>)
    requires
        column.no_duplicates(),
        forall|r: int|
            0 <= r < column.len() ==> (#[trigger] column[r]) is Null || pool.contains(column[r]),
    ensures
        draw::taken_from(column, pool),
{
    assert forall|v: Cell| !(v is Null) implies #[trigger] column.to_multiset().count(v)
        <= pool.to_multiset().count(v) by {
        column.to_multiset_ensures();
        pool.to_multiset_ensures();
        if column.to_multiset().count(v) > 0 {
            assert(column.contains(v));
            let r = column.index_of(v);
            assert(pool.contains(column[r]));
            column.lemma_multiset_has_no_duplicates();
            assert(column.to_multiset().contains(v));
        }
    }
}

/// A foreign key that uses each parent at most once, and is not computed, has no
/// value more often than the pool of its parents.
pub proof fn lemma_unique_keys_used_once(job: Job, t: GeneratedTable, c: int)
    requires
        generator::made(job, t),
        job.rows <= usize::MAX,
        0 <= c < job.columns().len(),
        job.rule.is_foreign_key(job.columns()[c]),
        !job.rule.is_derived(job.columns()[c]),
        pools::is_unique(job.rule.relationships@[relation_of(job.rule, job.columns()[c])]),
    ensures
        ({
            let rel = job.rule.relationships@[relation_of(job.rule, job.columns()[c])];
            draw::taken_from(
                draw::column_of(t.cells(), c),
                pools::entries_of(
                    pools::source_of(rel, job.pools)->0,
                    pools::chosen(job.rule.strategy),
                ),
            )
        }),
{
    reveal(generator::made);
    let st = choose|st: Stages| #[trigger] generator::made_in(job, st, t);
    let column = job.columns()[c];
    let j = relation_of(job.rule, column);
    lemma_key_column_kept(job, st, t, c);
    lemma_relation(job, st.full, column);
    draw::lemma_same_names(st.full, st.left);
    let before = draw::column_of(st.drawn, c);
    let after = draw::column_of(st.settled, c);
    assert(generator::settled_column(job, st.left, c, before, after));
    assert(pools::pool_of(
        st.full[j],
        job.rule.relationships@[j],
        job.pools,
        job.models,
        pools::chosen(job.rule.strategy),
    ));
    let entries = st.full[j].pool.entries();
    if job.is_key(c) {
        assert forall|r: int| 0 <= r < after.len() implies (#[trigger] after[r]) is Null
            || entries.contains(after[r]) by {
            assert(draw::drawn_cell(st.drawn[r][c], column, job.nullable()[c], st.full));
            assert(before[r] == st.drawn[r][c]);
            if after[r] != before[r] {
                assert(st.left[j].pool.entries().contains(after[r]));
                lemma_left_within(st.left[j].pool.entries(), entries, after[r]);
            }
        }
        lemma_distinct_taken(after, entries);
    } else {
        assert(draw::taken_from(before, entries));
    }
}

/// A column whose values a rule replaces, and that is not computed, holds what
/// the rule says: the fixed value, values of the pool, or values in the range.
pub proof fn lemma_replaced_values_hold(job: Job, t: GeneratedTable, r: int, c: int)
    requires
        generator::made(job, t),
        job.rows <= usize::MAX,
        0 <= r < job.rows,
        0 <= c < job.columns().len(),
        !job.rule.is_derived(job.columns()[c]),
    ensures
        match overrides::replaced(job.rule, job.table, job.columns()[c]) {
            Replaced::All(cell) => t.cells()[r][c] == cell,
            Replaced::OneOf(cells) => cells.contains(t.cells()[r][c]),
            Replaced::Ranged(low, high, format) => domain::within(
                low,
                high,
                format,
                t.cells()[r][c],
            ),
            Replaced::Kept => true,
        },
{
    reveal(generator::made);
    let st = choose|st: Stages| #[trigger] generator::made_in(job, st, t);
    let column = job.columns()[c];
    let how = overrides::replaced(job.rule, job.table, column);
    if !(how is Kept) {
        lemma_keys_unbranched(job, st, t, c);
        lemma_column_kept(job, st, t, c);
        assert(overrides::replaced_column(
            draw::column_of(st.settled, c),
            draw::column_of(st.replaced, c),
            how,
        ));
        assert(draw::column_of(t.cells(), c)[r] == t.cells()[r][c]);
        assert(draw::column_of(st.replaced, c)[r] == t.cells()[r][c]);
    }
}

/// A column that takes no key from another table, and that no rule writes, holds
/// draws of its own model, and NULLs where it may. The draws are clipped to what was
/// seen where the configuration asks for it and no rule holds the column.
pub proof fn lemma_plain_values_are_draws(job: Job, t: GeneratedTable, r: int, c: int)
    requires
        generator::made(job, t),
        job.rows <= usize::MAX,
        0 <= r < job.rows,
        0 <= c < job.columns().len(),
        !job.rule.is_foreign_key(job.columns()[c]),
        !job.rule.is_derived(job.columns()[c]),
        unbranched(job.rule, job.columns()[c]),
        overrides::replaced(job.rule, job.table, job.columns()[c]) is Kept,
    ensures
        ({
            let cell = t.cells()[r][c];
            let column = job.columns()[c];
            ||| job.nullable()[c] && cell is Null
            ||| domain::is_draw(domain::source_of(job.table, column, job.clipped()[c]), cell)
            ||| job.is_key(c) && domain::is_draw(
                domain::source_of(job.table, column, job.enforce),
                cell,
            )
        }),
{
    reveal(generator::made);
    let st = choose|st: Stages| #[trigger] generator::made_in(job, st, t);
    let column = job.columns()[c];
    lemma_column_kept(job, st, t, c);
    lemma_relation(job, st.full, column);
    draw::lemma_same_names(st.full, st.left);
    let before = draw::column_of(st.drawn, c);
    let after = draw::column_of(st.settled, c);
    assert(overrides::replaced_column(
        after,
        draw::column_of(st.replaced, c),
        overrides::replaced(job.rule, job.table, column),
    ));
    assert(generator::settled_column(job, st.left, c, before, after));
    assert(draw::column_of(t.cells(), c)[r] == t.cells()[r][c]);
    assert(after[r] == t.cells()[r][c]);
    assert(before[r] == st.drawn[r][c]);
    assert(draw::plain_cell(
        st.drawn[r][c],
        job.table,
        column,
        job.nullable()[c],
        st.full,
        job.clipped()[c],
    ));
}

/// A computed column of a row holds what its expression gives on that row.
pub open spec fn computed_holds(job: Job, row: Seq<Cell>, i: int) -> bool {
    let step = derivation::step_of(
        job.rule.derive@,
        job.table,
        job.columns(),
        job.rule.derive@[i].column@,
    );
    derivation::step_cell(step, job.columns(), row) == Ok::<Cell, Seq<char>>(row[step.index])
}

/// A plan has a step for every computed column.
proof fn lemma_every_rule_has_a_step(
    plan: DerivePlan,
    rule: TableRule,
    table: TableModel,
    columns: Seq<Seq<char>>,
    i: int,
) -> (k: int)
    requires
        derivation::follows(plan, rule.name@, rule.derive@, table, columns),
        0 <= i < rule.derive@.len(),
    ensures
        0 <= k < plan.steps().len(),
        plan.steps()[k] == derivation::step_of(
            rule.derive@,
            table,
            columns,
            rule.derive@[i].column@,
        ),
{
    let order = derivation::step_names(plan.steps());
    let all = derivation::targets(rule.derive@);
    let n = rule.derive@[i].column@;
    assert(all[i] == n);
    if !order.contains(n) {
        let more = order.push(n);
        assert forall|j: int| 0 <= j < more.len() implies all.contains(#[trigger] more[j]) by {
            if j < order.len() {
                assert(all.contains(order[j]));
                assert(more[j] == order[j]);
            }
        }
        assert(more.no_duplicates()) by {
            assert forall|x: int, y: int|
                0 <= x < more.len() && 0 <= y < more.len() && x != y implies #[trigger] more[x]
                != #[trigger] more[y] by {
                if x < order.len() && y < order.len() {
                    assert(order[x] != order[y]);
                } else if x < order.len() {
                    assert(order.contains(order[x]));
                } else {
                    assert(order.contains(order[y]));
                }
            }
        }
        graph::lemma_fits(more, all);
    }
    let k = order.index_of(n);
    assert(plan.steps()[k].column == n);
    k
}

proof fn lemma_rows_hold(job: Job, plan: DerivePlan, g: Ground, rows: Seq<Seq<Cell>>, r: int, i: int)
    requires
        derivation::follows(
            plan,
            job.rule.name@,
            job.rule.derive@,
            job.table,
            job.columns(),
        ),
        g.columns == job.columns(),
        g.steps == plan.steps(),
        branch::all_up_to_date(g, rows),
        0 <= r < rows.len(),
        0 <= i < job.rule.derive@.len(),
    ensures
        computed_holds(job, rows[r], i),
{
    let k = lemma_every_rule_has_a_step(plan, job.rule, job.table, job.columns(), i);
    assert(branch::up_to_date(g, rows[r]));
    assert(g.steps[k] == plan.steps()[k]);
}

/// Every computed column of every generated row holds what its expression gives
/// on that row, after repairs too.
pub proof fn lemma_computed_columns_hold(job: Job, t: GeneratedTable, r: int, i: int)
    requires
        generator::made(job, t),
        job.rows <= usize::MAX,
        0 <= r < job.rows,
        0 <= i < job.rule.derive@.len(),
    ensures
        computed_holds(job, t.cells()[r], i),
{
    reveal(generator::made);
    let st = choose|st: Stages| #[trigger] generator::made_in(job, st, t);
    let columns = job.columns();
    let plan = choose|plan: DerivePlan| #[trigger]
        generator::derived_by(plan, job.rule, job.table, columns, st.replaced, Ok(st.computed));
    let g = Ground {
        table: job.rule.name@,
        columns,
        steps: plan.steps(),
        barred: None,
        branches: Seq::empty(),
    };
    branch::lemma_computed_rows_hold(plan, job.rule, job.table, columns, g, st.replaced);
    if job.rule.branches@.len() == 0 {
        lemma_rows_hold(job, plan, g, st.computed, r, i);
    } else {
        let other = choose|other: DerivePlan| #[trigger]
            branch::repaired(
                other,
                job.rule,
                job.table,
                columns,
                job.referenced,
                st.targets,
                job.limit,
                st.computed,
                t.cells(),
                t.branches@,
            );
        let h = branch::ground_of(other, job.rule, job.table, columns, job.referenced, st.targets);
        lemma_writes_within(job, h, other, st);
        assert(branch::all_up_to_date(h, st.computed)) by {
            assert forall|q: int| 0 <= q < st.computed.len() implies branch::up_to_date(
                h,
                #[trigger] st.computed[q],
            ) by {
                assert forall|k: int| 0 <= k < h.steps.len() implies derivation::step_cell(
                    #[trigger] h.steps[k],
                    columns,
                    st.computed[q],
                ) == Ok::<Cell, Seq<char>>(st.computed[q][h.steps[k].index]) by {
                    let names = derivation::step_names(other.steps());
                    assert(derivation::targets(job.rule.derive@).contains(names[k]));
                    let x = derivation::targets(job.rule.derive@).index_of(names[k]);
                    lemma_rows_hold(job, plan, g, st.computed, q, x);
                    assert(other.steps()[k] == derivation::step_of(
                        job.rule.derive@,
                        job.table,
                        columns,
                        other.steps()[k].column,
                    ));
                }
            }
        }
        branch::lemma_repair_keeps_computed(
            other,
            job.rule,
            job.table,
            columns,
            h,
            branch::fresh(st.computed, h.branches.len()),
            0,
            job.limit,
        );
        lemma_rows_hold(job, other, h, t.cells(), r, i);
    }
}

/// A column of one of the tables: its key and its cells.
pub open spec fn is_column(
    tables: Seq<GeneratedTable>,
    k: int,
    d: int,
    key: Seq<char>,
    cells: Seq<Cell>,
) -> bool {
    &&& 0 <= k < tables.len()
    &&& 0 <= d < tables[k].columns@.len()
    &&& key == branch::key_of(tables[k].name@, tables[k].columns@[d]@)
    &&& cells == draw::column_of(tables[k].cells(), d)
}

/// Every pool is a column of a generated table.
proof fn lemma_pool_origin(tables: Seq<GeneratedTable>, i: int)
    requires
        0 <= i < generator::pools_of(tables).len(),
    ensures
        exists|k: int, d: int| #[trigger]
            is_column(
                tables,
                k,
                d,
                generator::pools_of(tables)[i].0,
                generator::pools_of(tables)[i].1,
            ),
    decreases tables.len(),
{
    let rest = tables.drop_last();
    let before = generator::pools_of(rest);
    let all = generator::pools_of(tables);
    let last = tables.len() - 1;
    if i < before.len() {
        lemma_pool_origin(rest, i);
        let (k, d) = choose|k: int, d: int| #[trigger]
            is_column(rest, k, d, before[i].0, before[i].1);
        assert(all[i] == before[i]);
        assert(tables[k] == rest[k]);
        assert(is_column(tables, k, d, all[i].0, all[i].1));
    } else {
        let d = i - before.len();
        assert(all[i] == generator::table_pools(tables.last())[d]);
        assert(is_column(tables, last, d, all[i].0, all[i].1));
    }
}

/// The job of a generated table.
pub open spec fn job_of(
    models: Seq<TableModel>,
    rules: SynthRules,
    config: GeneratorConfig,
    limit: nat,
    order: Seq<Seq<char>>,
    data: GeneratedData,
    i: int,
) -> Job {
    generator::job_for(models, rules, config, limit, data.tables@.take(i), order[i])
}

/// Every generated table has the rows that are asked for, each with a cell for
/// every column of its model.
pub proof fn lemma_tables_have_their_rows(
    models: Seq<TableModel>,
    rules: SynthRules,
    config: GeneratorConfig,
    limit: nat,
    order: Seq<Seq<char>>,
    data: GeneratedData,
    i: int,
)
    requires
        generator::generated(models, rules, config, limit, order, data),
        0 <= i < data.tables@.len(),
    ensures
        ({
            let t = data.tables@[i];
            let job = job_of(models, rules, config, limit, order, data, i);
            &&& generator::made(job, t)
            &&& t.name@ == order[i]
            &&& t.columns.deep_view() == job.columns()
            &&& t.rows@.len() == generator::rows_wanted(config, job.rule)
            &&& branch::even_rows(t.cells(), job.columns().len())
        }),
{
    let t = data.tables@[i];
    let job = job_of(models, rules, config, limit, order, data, i);
    assert(t.name@ == order[i]);
    assert(generator::made(job, t));
    reveal(generator::made);
    let st = choose|st: Stages| #[trigger] generator::made_in(job, st, t);
    assert(generator::shaped(job, t.cells()));
}

/// Every foreign key that is not computed and that draws from a generated column
/// is NULL, where its column may be, or a value of that column in a table that
/// was generated before.
pub proof fn lemma_referential_integrity(
    models: Seq<TableModel>,
    rules: SynthRules,
    config: GeneratorConfig,
    limit: nat,
    order: Seq<Seq<char>>,
    data: GeneratedData,
    i: int,
    r: int,
    c: int,
)
    requires
        generator::generated(models, rules, config, limit, order, data),
        0 <= i < data.tables@.len(),
        0 <= r < data.tables@[i].rows@.len(),
        ({
            let job = job_of(models, rules, config, limit, order, data, i);
            &&& 0 <= c < job.columns().len()
            &&& job.rule.is_foreign_key(job.columns()[c])
            &&& !job.rule.is_derived(job.columns()[c])
            &&& !(job.rule.relationships@[relation_of(
                job.rule,
                job.columns()[c],
            )].pool_strategy is Fixed)
        }),
    ensures
        ({
            let job = job_of(models, rules, config, limit, order, data, i);
            let rel = job.rule.relationships@[relation_of(job.rule, job.columns()[c])];
            let cell = data.tables@[i].cells()[r][c];
            ||| job.nullable()[c] && cell is Null
            ||| exists|k: int, d: int|
                k < i && #[trigger] is_column(
                    data.tables@,
                    k,
                    d,
                    rel.references@[0]@,
                    draw::column_of(data.tables@[k].cells(), d),
                ) && draw::column_of(data.tables@[k].cells(), d).contains(cell)
        }),
{
    let job = job_of(models, rules, config, limit, order, data, i);
    let t = data.tables@[i];
    lemma_tables_have_their_rows(models, rules, config, limit, order, data, i);
    lemma_foreign_keys_have_parents(job, t, r, c);
    let rel = job.rule.relationships@[relation_of(job.rule, job.columns()[c])];
    let cell = t.cells()[r][c];
    if !(job.nullable()[c] && cell is Null) {
        let earlier = data.tables@.take(i);
        reveal(generator::made);
        let st = choose|st: Stages| #[trigger] generator::made_in(job, st, t);
        lemma_relation(job, st.full, job.columns()[c]);
        assert(pools::has_source(rel, job.pools));
        let key = rel.references@[0]@;
        let cells = pools::source_of(rel, job.pools)->0;
        pools::lemma_pool_at(job.pools, key);
        let p = choose|p: int| 0 <= p < job.pools.len() && #[trigger] job.pools[p] == (key, cells);
        lemma_pool_origin(earlier, p);
        let (k, d) = choose|k: int, d: int| #[trigger]
            is_column(earlier, k, d, job.pools[p].0, job.pools[p].1);
        assert(earlier[k] == data.tables@[k]);
        assert(is_column(
            data.tables@,
            k,
            d,
            key,
            draw::column_of(data.tables@[k].cells(), d),
        ));
    }
}

} // verus!
