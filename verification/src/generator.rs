//! Generating tables: parents first, each by its model and its rule.
use crate::branch;
use crate::branch::{BranchOutcome, BranchTarget};
use crate::derivation;
use crate::derivation::DerivePlan;
use crate::distinct;
use crate::distinct::Again;
use crate::domain;
use crate::draw;
use crate::draw::{Drawing, Sampler, Sheet};
use crate::graph;
use crate::literal;
use crate::model::{Rate, TableModel};
use crate::names;
use crate::overrides;
use crate::pools;
use crate::pools::{ColumnPool, Keys, Pool, RelPool};
use crate::rules;
use crate::rules::{SynthRules, TableRule, ValuePool};
use crate::seed;
use crate::text;
use crate::value;
use crate::value::{Cell, Value};
use vstd::prelude::*;

verus! {

/// Rows whose columns were computed by a plan.
pub open spec fn derived_by(
    plan: DerivePlan,
    rule: TableRule,
    table: TableModel,
    columns: Seq<Seq<char>>,
    before: Seq<Seq<Cell>>,
    after: Result<Seq<Seq<Cell>>, Seq<char>>,
) -> bool {
    &&& derivation::follows(plan, rule.name@, rule.derive@, table, columns)
    &&& derivation::derive_rows(rule.name@, columns, plan.steps(), before) == after
}

/// Rows whose columns were computed by the rules.
pub open spec fn derived(
    rule: TableRule,
    table: TableModel,
    columns: Seq<Seq<char>>,
    before: Seq<Seq<Cell>>,
    after: Seq<Seq<Cell>>,
) -> bool {
    if rule.derive@.len() == 0 {
        after == before
    } else {
        exists|plan: DerivePlan| #[trigger] derived_by(plan, rule, table, columns, before, Ok(after))
    }
}

/// Why columns cannot be computed.
pub open spec fn underived(
    rule: TableRule,
    table: TableModel,
    referenced: Seq<Seq<char>>,
    columns: Seq<Seq<char>>,
    before: Seq<Seq<Cell>>,
    m: Seq<char>,
) -> bool {
    rule.derive@.len() > 0 && {
        ||| branch::barred_from(rule, referenced, 0) == Some(m)
        ||| branch::derives_no_parent_key(rule, referenced) && derivation::unplanned(
            rule.name@,
            rule.derive@,
            columns,
            m,
        )
        ||| branch::derives_no_parent_key(rule, referenced) && exists|plan: DerivePlan| #[trigger]
            derived_by(plan, rule, table, columns, before, Err(m))
    }
}

/// Computes the columns that a rule derives from others. A column that other
/// tables refer to is refused.
pub fn apply_derive_rules(
    rows: &mut Vec<Vec<Value>>,
    rule: &TableRule,
    table: &TableModel,
    columns: &[String],
    referenced: &[String],
) -> (r: Result<(), String>)
    requires
        derivation::all_wide(old(rows)@, columns@.len()),
    ensures
        final(rows)@.len() == old(rows)@.len(),
        derivation::all_wide(final(rows)@, columns@.len()),
        match r {
            Ok(_) => {
                &&& branch::derives_no_parent_key(*rule, referenced.deep_view())
                &&& derived(
                    *rule,
                    *table,
                    columns.deep_view(),
                    derivation::rows_cells(old(rows)@),
                    derivation::rows_cells(final(rows)@),
                )
            },
            Err(m) => underived(
                *rule,
                *table,
                referenced.deep_view(),
                columns.deep_view(),
                derivation::rows_cells(old(rows)@),
                m@,
            ),
        },
{
    if rule.derive.len() == 0 {
        return Ok(());
    }
    if let Some(m) = branch::find_barred(rule, referenced) {
        return Err(m);
    }
    match DerivePlan::build(rule.name.as_str(), rule.derive.as_slice(), table, columns) {
        Ok(plan) => {
            let ghost before = derivation::rows_cells(rows@);
            proof {
                assert(plan.columns().len() == columns@.len());
            }
            match plan.apply_to_rows(rows) {
                Ok(_) => {
                    proof {
                        assert(derived_by(
                            plan,
                            *rule,
                            *table,
                            columns.deep_view(),
                            before,
                            Ok(derivation::rows_cells(rows@)),
                        ));
                    }
                    Ok(())
                },
                Err(m) => {
                    proof {
                        assert(derived_by(
                            plan,
                            *rule,
                            *table,
                            columns.deep_view(),
                            before,
                            Err(m@),
                        ));
                    }
                    Err(m)
                },
            }
        },
        Err(m) => Err(m),
    }
}

/// How often the values of a pool were generated.
#[derive(Debug)]
pub struct ValuePoolOutcome {
    pub column: String,
    /// The values, each with the number of rows that have it.
    pub hits: Vec<(String, usize)>,
}

/// How many cells of a column are equal to a given one.
pub open spec fn cell_hits(column: Seq<Cell>, cell: Cell) -> nat
    decreases column.len(),
{
    if column.len() == 0 {
        0
    } else {
        cell_hits(column.drop_last(), cell) + if value::equal_cells(column.last(), cell) {
            1nat
        } else {
            0
        }
    }
}

/// What is reported of the pool of a column.
pub open spec fn pool_report(
    o: ValuePoolOutcome,
    pool: ValuePool,
    numerical: bool,
    name: Seq<char>,
    column: Seq<Cell>,
) -> bool {
    let literals = rules::pool_literals(pool);
    &&& o.column@ == name
    &&& o.hits@.len() == literals.len()
    &&& forall|i: int|
        0 <= i < literals.len() ==> (#[trigger] o.hits@[i]).0@ == literals[i]@
            && o.hits@[i].1 == cell_hits(column, literal::literal_cell(literals[i]@, numerical))
}

/// The columns that have a pool of which something can be expected, in order.
pub open spec fn pooled_columns(rule: TableRule, columns: Seq<Seq<char>>) -> Seq<int>
    decreases columns.len(),
{
    if columns.len() == 0 {
        Seq::empty()
    } else {
        let rest = pooled_columns(rule, columns.drop_last());
        if has_pool(rule, columns.last()) {
            rest.push(columns.len() - 1)
        } else {
            rest
        }
    }
}

pub open spec fn has_pool(rule: TableRule, column: Seq<char>) -> bool {
    match rules::column_rule(rule.columns@, column) {
        Some(c) => c.values is Some && rules::pool_weighs(c.values->0),
        None => false,
    }
}

/// What is reported of the pools of a table: each in the order of the columns,
/// and nothing where there are no rows.
pub open spec fn pool_reports(
    outcomes: Seq<ValuePoolOutcome>,
    rule: TableRule,
    table: TableModel,
    columns: Seq<Seq<char>>,
    rows: Seq<Seq<Cell>>,
) -> bool {
    let at = pooled_columns(rule, columns);
    &&& rows.len() == 0 ==> outcomes.len() == 0
    &&& rows.len() > 0 ==> outcomes.len() == at.len() && forall|i: int|
        0 <= i < at.len() ==> pool_report(
            #[trigger] outcomes[i],
            rules::column_rule(rule.columns@, columns[at[i]])->0.values->0,
            table.numerical(columns[at[i]]),
            columns[at[i]],
            draw::column_of(rows, at[i]),
        )
}

/// How many rows have a value in a column.
fn count_hits(rows: &Vec<Vec<Value>>, c: usize, v: &Value) -> (r: usize)
    requires
        forall|i: int| 0 <= i < rows@.len() ==> c < (#[trigger] rows@[i])@.len(),
    ensures
        r == cell_hits(draw::column_of(derivation::rows_cells(rows@), c as int), v@),
{
    let ghost all = draw::column_of(derivation::rows_cells(rows@), c as int);
    let mut n: usize = 0;
    let mut i: usize = 0;
    proof {
        assert(all.take(0) =~= Seq::empty());
    }
    while i < rows.len()
        invariant
            i <= rows@.len(),
            all == draw::column_of(derivation::rows_cells(rows@), c as int),
            forall|k: int| 0 <= k < rows@.len() ==> c < (#[trigger] rows@[k])@.len(),
            n <= i,
            n == cell_hits(all.take(i as int), v@),
        decreases rows@.len() - i,
    {
        proof {
            assert(all.take(i + 1).drop_last() =~= all.take(i as int));
            assert(all.take(i + 1).last() == rows@[i as int]@[c as int]@);
        }
        if rows[i][c].equals(v) {
            n = n + 1;
        }
        i = i + 1;
    }
    proof {
        assert(all.take(all.len() as int) =~= all);
    }
    n
}

fn count_pool(
    rows: &Vec<Vec<Value>>,
    c: usize,
    column: &str,
    pool: &ValuePool,
    numerical: bool,
) -> (o: ValuePoolOutcome)
    requires
        forall|i: int| 0 <= i < rows@.len() ==> c < (#[trigger] rows@[i])@.len(),
    ensures
        pool_report(
            o,
            *pool,
            numerical,
            column@,
            draw::column_of(derivation::rows_cells(rows@), c as int),
        ),
{
    let literals = match pool {
        ValuePool::Weighted { values, .. } => values,
        ValuePool::Uniform(values) => values,
    };
    let ghost cells = draw::column_of(derivation::rows_cells(rows@), c as int);
    let mut hits: Vec<(String, usize)> = Vec::new();
    let mut i: usize = 0;
    while i < literals.len()
        invariant
            i <= literals@.len(),
            literals@ == rules::pool_literals(*pool),
            cells == draw::column_of(derivation::rows_cells(rows@), c as int),
            forall|k: int| 0 <= k < rows@.len() ==> c < (#[trigger] rows@[k])@.len(),
            hits@.len() == i,
            forall|k: int|
                0 <= k < i ==> (#[trigger] hits@[k]).0@ == literals@[k]@ && hits@[k].1
                    == cell_hits(cells, literal::literal_cell(literals@[k]@, numerical)),
        decreases literals@.len() - i,
    {
        let v = literal::typed_literal(literals[i].as_str(), numerical);
        let n: usize = count_hits(rows, c, &v);
        hits.push((literals[i].clone(), n));
        i = i + 1;
    }
    ValuePoolOutcome { column: column.to_owned(), hits }
}

/// Counts how often each value of a pool was generated.
pub fn check_value_pools(
    rows: &Vec<Vec<Value>>,
    rule: &TableRule,
    table: &TableModel,
    columns: &[String],
) -> (r: Vec<ValuePoolOutcome>)
    requires
        derivation::all_wide(rows@, columns@.len()),
    ensures
        pool_reports(
            r@,
            *rule,
            *table,
            columns.deep_view(),
            derivation::rows_cells(rows@),
        ),
{
    let mut out: Vec<ValuePoolOutcome> = Vec::new();
    if rows.len() == 0 {
        return out;
    }
    let ghost names = columns.deep_view();
    let ghost cells = derivation::rows_cells(rows@);
    let mut c: usize = 0;
    proof {
        assert(names.take(0) =~= Seq::empty());
    }
    while c < columns.len()
        invariant
            c <= columns@.len(),
            names == columns.deep_view(),
            cells == derivation::rows_cells(rows@),
            derivation::all_wide(rows@, columns@.len()),
            ({
                let at = pooled_columns(*rule, names.take(c as int));
                &&& out@.len() == at.len()
                &&& forall|i: int|
                    0 <= i < at.len() ==> 0 <= #[trigger] at[i] < c && pool_report(
                        out@[i],
                        rules::column_rule(rule.columns@, names[at[i]])->0.values->0,
                        table.numerical(names[at[i]]),
                        names[at[i]],
                        draw::column_of(cells, at[i]),
                    )
            }),
        decreases columns@.len() - c,
    {
        proof {
            assert(names.take(c + 1).drop_last() =~= names.take(c as int));
            assert(names.take(c + 1).last() == columns@[c as int]@);
        }
        let column = columns[c].as_str();
        match rule.column(column) {
            Some(said) => match &said.values {
                Some(pool) => {
                    if rules::value_pool_weighs(pool) {
                        out.push(count_pool(rows, c, column, pool, table.is_numerical(column)));
                    }
                },
                None => {},
            },
            None => {},
        }
        c = c + 1;
    }
    proof {
        assert(names.take(names.len() as int) =~= names);
        let at = pooled_columns(*rule, names);
        assert forall|i: int| 0 <= i < at.len() implies pool_report(
            #[trigger] out@[i],
            rules::column_rule(rule.columns@, names[at[i]])->0.values->0,
            table.numerical(names[at[i]]),
            names[at[i]],
            draw::column_of(cells, at[i]),
        ) by {
            assert(0 <= at[i]);
        }
    }
    out
}

/// What a table is generated from.
pub struct Job {
    pub models: Seq<TableModel>,
    pub rule: TableRule,
    pub table: TableModel,
    pub pools: Seq<Pool>,
    pub referenced: Seq<Seq<char>>,
    pub rows: nat,
    pub limit: nat,
    /// Values stay between the smallest and the largest that were seen.
    pub enforce: bool,
}

impl Job {
    pub open spec fn columns(self) -> Seq<Seq<char>> {
        self.table.column_order.deep_view()
    }

    /// The columns whose draws stay between the smallest and the largest value that
    /// were seen. One that is drawn conditionally is held by its rule instead.
    pub open spec fn clipped(self) -> Seq<bool> {
        Seq::new(
            self.columns().len(),
            |c: int| self.enforce && !overrides::is_conditional(self.rule, self.columns()[c]),
        )
    }

    /// Other tables refer to a column.
    pub open spec fn is_key(self, c: int) -> bool {
        self.referenced.contains(branch::key_of(self.rule.name@, self.columns()[c]))
    }

    /// Which columns may be NULL.
    pub open spec fn nullable(self) -> Seq<bool> {
        Seq::new(
            self.columns().len(),
            |c: int|
                draw::null_rate_of(
                    self.rule,
                    self.table,
                    self.columns()[c],
                    self.is_key(c),
                ) is Some,
        )
    }

    /// The rates of the columns that may be NULL.
    pub open spec fn rates(self) -> Seq<Option<Seq<char>>> {
        Seq::new(
            self.columns().len(),
            |c: int|
                match draw::null_rate_of(
                    self.rule,
                    self.table,
                    self.columns()[c],
                    self.is_key(c),
                ) {
                    Some(rate) => Some(rate.text@),
                    None => None,
                },
        )
    }

    /// What the rows are drawn by.
    pub open spec fn sheet(self) -> Sheet {
        Sheet {
            table: self.table,
            name: self.rule.name@,
            columns: self.columns(),
            rates: self.rates(),
            enforce: self.clipped(),
        }
    }

    /// What another value of a column is drawn by.
    pub open spec fn again(self, keys: Seq<Keys>, c: int) -> Again {
        Again {
            table: self.table,
            name: self.rule.name@,
            column: self.columns()[c],
            place: c as usize,
            keys,
            enforce: self.enforce,
        }
    }

    /// The warnings about rates of NULLs that are not used.
    pub open spec fn warnings(self, n: nat) -> Seq<Seq<char>>
        decreases n,
    {
        if n == 0 {
            Seq::empty()
        } else {
            self.warnings((n - 1) as nat) + draw::null_rate_warnings(
                self.rule,
                self.table,
                self.rule.name@,
                self.columns()[n - 1],
                self.is_key(n - 1),
            )
        }
    }

    /// Some column is drawn conditionally.
    pub open spec fn pinned(self) -> bool {
        exists|c: int|
            0 <= c < self.columns().len() && overrides::is_conditional(
                self.rule,
                #[trigger] self.columns()[c],
            )
    }
}

/// The rows of a table after each phase. `full` are the pools of its foreign keys
/// before the draw, `left` what the draw leaves of them.
pub struct Stages {
    pub full: Seq<RelPool>,
    pub left: Seq<RelPool>,
    pub drawn: Seq<Seq<Cell>>,
    pub settled: Seq<Seq<Cell>>,
    pub replaced: Seq<Seq<Cell>>,
    pub computed: Seq<Seq<Cell>>,
    pub targets: Seq<BranchTarget>,
}

/// The pools of the foreign keys.
pub open spec fn pools_ready(job: Job, full: Seq<RelPool>) -> bool {
    &&& full.len() == job.rule.relationships@.len()
    &&& forall|i: int|
        0 <= i < full.len() ==> pools::has_source(
            #[trigger] job.rule.relationships@[i],
            job.pools,
        )
    &&& forall|i: int|
        0 <= i < full.len() ==> pools::pool_of(
            #[trigger] full[i],
            job.rule.relationships@[i],
            job.pools,
            job.models,
            pools::chosen(job.rule.strategy),
        )
}

/// The columns can be pinned as their rules ask.
pub open spec fn pins_fine(job: Job) -> bool {
    forall|c: int|
        0 <= c < job.columns().len() ==> overrides::pin_fault(
            job.rule,
            job.table,
            #[trigger] job.columns()[c],
        ) is None
}

/// What is left of the pools of the foreign keys.
pub open spec fn pools_left(full: Seq<RelPool>, left: Seq<RelPool>) -> bool {
    &&& draw::same_rels(full, left)
    &&& forall|j: int|
        0 <= j < full.len() ==> (#[trigger] left[j]).pool.entries().to_multiset().subset_of(
            full[j].pool.entries().to_multiset(),
        )
}

/// Rows of a given number and width.
pub open spec fn shaped(job: Job, rows: Seq<Seq<Cell>>) -> bool {
    rows.len() == job.rows && branch::even_rows(rows, job.columns().len())
}

/// A column that other tables refer to holds every value once; any other is as
/// it was.
pub open spec fn settled_column(
    job: Job,
    left: Seq<RelPool>,
    c: int,
    before: Seq<Cell>,
    after: Seq<Cell>,
) -> bool {
    let j = draw::rel_of(left, job.columns()[c]);
    if job.is_key(c) {
        &&& distinct::too_few(
            job.table,
            job.rule.name@,
            job.columns()[c],
            pools::all_keys(left),
            job.rows,
        ) is None
        &&& distinct::redrawn(before, after)
        &&& j < left.len() ==> distinct::from_pool(before, after, left[j].pool.entries())
        &&& j >= left.len() ==> distinct::from_draws(
            before,
            after,
            domain::source_of(job.table, job.columns()[c], job.enforce),
        )
    } else {
        after == before
    }
}

pub open spec fn settled(job: Job, st: Stages) -> bool {
    forall|c: int|
        0 <= c < job.columns().len() ==> settled_column(
            job,
            st.left,
            c,
            #[trigger] draw::column_of(st.drawn, c),
            draw::column_of(st.settled, c),
        )
}

/// The draw was made.
pub open spec fn was_drawn(job: Job, st: Stages) -> bool {
    &&& pools_ready(job, st.full)
    &&& pins_fine(job)
    &&& pools_left(st.full, st.left)
    &&& shaped(job, st.drawn)
    &&& draw::drawn_rows(st.drawn, job.columns(), job.nullable(), st.full)
    &&& draw::plain_rows(
        st.drawn,
        job.table,
        job.columns(),
        job.nullable(),
        st.full,
        job.clipped(),
    )
}

/// The columns that other tables refer to were settled.
pub open spec fn was_settled(job: Job, st: Stages) -> bool {
    &&& was_drawn(job, st)
    &&& shaped(job, st.settled)
    &&& settled(job, st)
}

/// Values were replaced by the rules.
pub open spec fn was_replaced(job: Job, st: Stages) -> bool {
    &&& was_settled(job, st)
    &&& shaped(job, st.replaced)
    &&& forall|c: int|
        0 <= c < job.columns().len() ==> overrides::override_fault(
            job.rule,
            job.table,
            job.referenced,
            #[trigger] job.columns()[c],
        ) is None
    &&& overrides::overridden(
        job.rule,
        job.table,
        job.columns(),
        job.enforce,
        st.settled,
        st.replaced,
    )
}

/// Columns were computed.
pub open spec fn was_computed(job: Job, st: Stages) -> bool {
    &&& was_replaced(job, st)
    &&& shaped(job, st.computed)
    &&& branch::derives_no_parent_key(job.rule, job.referenced)
    &&& derived(job.rule, job.table, job.columns(), st.replaced, st.computed)
    &&& st.targets.len() == job.rule.branches@.len()
}

/// Branches were repaired.
pub open spec fn was_repaired(
    job: Job,
    st: Stages,
    rows: Seq<Seq<Cell>>,
    outcomes: Seq<BranchOutcome>,
) -> bool {
    &&& was_computed(job, st)
    &&& shaped(job, rows)
    &&& if job.rule.branches@.len() == 0 {
        rows == st.computed && outcomes.len() == 0
    } else {
        &&& forall|i: int|
            0 <= i < job.rule.branches@.len() ==> #[trigger] branch::branch_fine(
                job.rule,
                job.referenced,
                job.columns(),
                i,
            )
        &&& branch::some_repair(
            job.rule,
            job.table,
            job.columns(),
            job.referenced,
            st.targets,
            job.limit,
            st.computed,
            rows,
            outcomes,
        )
    }
}

/// A generated table.
#[derive(Debug)]
pub struct GeneratedTable {
    pub name: String,
    pub columns: Vec<String>,
    pub rows: Vec<Vec<Value>>,
    pub schema: Option<String>,
    /// Branch coverage after repair, one entry for each branch.
    pub branches: Vec<BranchOutcome>,
    /// How often the values of each pool came out.
    pub value_pools: Vec<ValuePoolOutcome>,
    pub warnings: Vec<String>,
}

impl GeneratedTable {
    /// The cells of the rows.
    pub open spec fn cells(&self) -> Seq<Seq<Cell>> {
        derivation::rows_cells(self.rows@)
    }
}

/// The schema of a table, unless it is empty.
pub open spec fn schema_of(table: TableModel) -> Option<Seq<char>> {
    match table.schema {
        Some(s) => if s@.len() == 0 {
            None
        } else {
            Some(s@)
        },
        None => None,
    }
}

/// A table that was generated in the given phases.
pub open spec fn made_in(job: Job, st: Stages, t: GeneratedTable) -> bool {
    &&& t.name@ == job.rule.name@
    &&& t.columns.deep_view() == job.columns()
    &&& t.schema.deep_view() == schema_of(job.table)
    &&& t.warnings.deep_view() == job.warnings(job.columns().len())
    &&& was_repaired(job, st, t.cells(), t.branches@)
    &&& pool_reports(t.value_pools@, job.rule, job.table, job.columns(), st.computed)
}

#[verifier::opaque]
pub open spec fn made(job: Job, t: GeneratedTable) -> bool {
    exists|st: Stages| #[trigger] made_in(job, st, t)
}

/// The message of a draw that the numeric side refused.
pub open spec fn sample_fault(table: Seq<char>, e: Seq<char>) -> Seq<char> {
    "table '"@ + table + "': "@ + e
}

/// The rows once the first columns that other tables refer to were settled, or why
/// one cannot be.
pub open spec fn settled_from<S: Sampler>(
    s: S,
    job: Job,
    keys: Seq<Keys>,
    rows: Seq<Seq<Cell>>,
    rng: rand::rngs::StdRng,
    n: nat,
) -> Result<(Seq<Seq<Cell>>, rand::rngs::StdRng), Seq<char>>
    decreases n,
{
    if n == 0 {
        Ok((rows, rng))
    } else {
        match settled_from(s, job, keys, rows, rng, (n - 1) as nat) {
            Ok((now, next)) => if job.is_key(n - 1) {
                match distinct::distinct_column(
                    s,
                    job.again(keys, n - 1),
                    draw::column_of(now, n - 1),
                    next,
                ) {
                    Ok((cells, last)) => Ok((overrides::with_column(now, n - 1, cells), last)),
                    Err(m) => Err(m),
                }
            } else {
                Ok((now, next))
            },
            Err(m) => Err(m),
        }
    }
}

/// Where one column cannot be settled, the further ones are not.
proof fn lemma_settling_stops<S: Sampler>(
    s: S,
    job: Job,
    keys: Seq<Keys>,
    rows: Seq<Seq<Cell>>,
    rng: rand::rngs::StdRng,
    k: nat,
    n: nat,
)
    requires
        k <= n,
        settled_from(s, job, keys, rows, rng, k) is Err,
    ensures
        settled_from(s, job, keys, rows, rng, n) == settled_from(s, job, keys, rows, rng, k),
    decreases n,
{
    if k < n {
        lemma_settling_stops(s, job, keys, rows, rng, k, (n - 1) as nat);
    }
}

/// Where generation stands between two tables: what draws, and the stream that the
/// tables share.
pub struct Post<S> {
    pub sampler: S,
    pub rng: rand::rngs::StdRng,
}

/// What a table's phases go through besides its rows: the streams of its columns,
/// the sampler with its pins and after its sample, the finished draw, and the shared
/// stream once the columns were settled.
pub struct Mid<S> {
    pub pins: Seq<rand::rngs::StdRng>,
    pub nulls: Seq<rand::rngs::StdRng>,
    pub picks: Seq<rand::rngs::StdRng>,
    pub ranges: Seq<rand::rngs::StdRng>,
    pub pinned: S,
    pub sampled: S,
    pub drawing: Drawing,
    pub rng: rand::rngs::StdRng,
}

/// What pinning the columns comes to.
pub open spec fn pinning<S: Sampler>(job: Job, from: Post<S>, mid: Mid<S>) -> (
    Result<bool, Seq<char>>,
    S,
) {
    overrides::pins_from(
        from.sampler,
        job.rule,
        job.table,
        job.columns(),
        job.rows as usize,
        mid.pins,
        job.columns().len(),
    )
}

/// The columns were pinned.
pub open spec fn pinned_by<S: Sampler>(
    job: Job,
    base: Option<u64>,
    from: Post<S>,
    mid: Mid<S>,
) -> bool {
    &&& seed::all_fit(base, job.rule.name@, job.columns(), "range"@, mid.pins)
    &&& pinning(job, from, mid) == (Ok::<bool, Seq<char>>(job.pinned()), mid.pinned)
}

/// The seed of a table's sample.
pub open spec fn sample_seed(job: Job, base: Option<u64>) -> Option<u64> {
    seed::seed_of(base, job.rule.name@)
}

/// The table was sampled.
pub open spec fn sampled_by<S: Sampler>(
    job: Job,
    base: Option<u64>,
    from: Post<S>,
    mid: Mid<S>,
) -> bool {
    let at = sample_seed(job, base);
    &&& pinned_by(job, base, from, mid)
    &&& at is Some ==> if job.pinned() {
        let sample = mid.pinned.sampled_pinned(job.table, job.rows as usize, at->0);
        sample.0 is Ok && sample.1 == mid.sampled
    } else {
        mid.pinned.sampled(job.table, job.rows as usize, at->0) == mid.sampled
    }
}

/// What drawing the rows comes to.
pub open spec fn draw_of<S: Sampler>(
    job: Job,
    from: Post<S>,
    keys: Seq<Keys>,
    mid: Mid<S>,
) -> Result<Drawing, Seq<char>> {
    draw::rows_from(
        mid.sampled,
        job.sheet(),
        Drawing {
            rows: Seq::empty(),
            row: Seq::empty(),
            keys,
            nulls: mid.nulls,
            rng: from.rng,
        },
        job.rows,
    )
}

/// The rows were drawn.
pub open spec fn drawn_by<S: Sampler>(
    job: Job,
    base: Option<u64>,
    from: Post<S>,
    st: Stages,
    mid: Mid<S>,
) -> bool {
    &&& sampled_by(job, base, from, mid)
    &&& seed::all_fit(base, job.rule.name@, job.columns(), "null"@, mid.nulls)
    &&& draw_of(job, from, pools::all_keys(st.full), mid) == Ok::<Drawing, Seq<char>>(mid.drawing)
    &&& mid.drawing.rows == st.drawn
    &&& mid.drawing.keys == pools::all_keys(st.left)
}

/// What settling the columns comes to.
pub open spec fn settling<S: Sampler>(job: Job, mid: Mid<S>) -> Result<
    (Seq<Seq<Cell>>, rand::rngs::StdRng),
    Seq<char>,
> {
    settled_from(
        mid.sampled,
        job,
        mid.drawing.keys,
        mid.drawing.rows,
        mid.drawing.rng,
        job.columns().len(),
    )
}

/// The columns that other tables refer to were settled, and this is how.
pub open spec fn settled_by<S: Sampler>(
    job: Job,
    base: Option<u64>,
    from: Post<S>,
    st: Stages,
    mid: Mid<S>,
) -> bool {
    &&& drawn_by(job, base, from, st, mid)
    &&& settling(job, mid) == Ok::<(Seq<Seq<Cell>>, rand::rngs::StdRng), Seq<char>>(
        (st.settled, mid.rng),
    )
}

/// What replacing values comes to.
pub open spec fn replacing<S: Sampler>(job: Job, st: Stages, mid: Mid<S>) -> Result<
    Seq<Seq<Cell>>,
    Seq<char>,
> {
    overrides::rows_after(
        mid.sampled,
        job.rule,
        job.table,
        job.referenced,
        job.columns(),
        job.enforce,
        st.settled,
        mid.picks,
        mid.ranges,
        job.columns().len(),
    )
}

/// The streams of replaced values.
pub open spec fn replacing_fits<S: Sampler>(job: Job, base: Option<u64>, mid: Mid<S>) -> bool {
    &&& seed::all_fit(base, job.rule.name@, job.columns(), "values"@, mid.picks)
    &&& seed::all_fit(base, job.rule.name@, job.columns(), "range"@, mid.ranges)
}

/// Values were replaced by the rules, and this is how.
pub open spec fn replaced_by<S: Sampler>(
    job: Job,
    base: Option<u64>,
    from: Post<S>,
    st: Stages,
    mid: Mid<S>,
) -> bool {
    &&& settled_by(job, base, from, st, mid)
    &&& replacing_fits(job, base, mid)
    &&& replacing(job, st, mid) == Ok::<Seq<Seq<Cell>>, Seq<char>>(st.replaced)
}

/// Everything that a table draws was drawn so.
pub open spec fn ran_by<S: Sampler>(
    job: Job,
    base: Option<u64>,
    from: Post<S>,
    st: Stages,
    mid: Mid<S>,
) -> bool {
    &&& replaced_by(job, base, from, st, mid)
    &&& st.targets == targets_of(mid.sampled, job.rule, job.rows as usize)
}

/// A table was made from where generation stood, and left it elsewhere.
pub open spec fn ran_in<S: Sampler>(
    job: Job,
    base: Option<u64>,
    from: Post<S>,
    st: Stages,
    mid: Mid<S>,
    t: GeneratedTable,
    to: Post<S>,
) -> bool {
    &&& made_in(job, st, t)
    &&& ran_by(job, base, from, st, mid)
    &&& to == (Post { sampler: mid.sampled, rng: mid.rng })
}

#[verifier::opaque]
pub open spec fn ran<S: Sampler>(
    job: Job,
    base: Option<u64>,
    from: Post<S>,
    t: GeneratedTable,
    to: Post<S>,
) -> bool {
    exists|st: Stages, mid: Mid<S>| #[trigger] ran_in(job, base, from, st, mid, t, to)
}

/// A sample was refused.
pub open spec fn sample_stopped<S: Sampler>(
    job: Job,
    base: Option<u64>,
    mid: Mid<S>,
    e: Seq<char>,
    m: Seq<char>,
) -> bool {
    let at = sample_seed(job, base);
    &&& m == sample_fault(job.rule.name@, e)
    &&& at is Some ==> mid.pinned.sampled_pinned(job.table, job.rows as usize, at->0).0 == Err::<
        (),
        Seq<char>,
    >(e)
}

/// The phase at which a table came to a halt, and why.
pub open spec fn stopped_in<S: Sampler>(
    job: Job,
    base: Option<u64>,
    from: Post<S>,
    st: Stages,
    mid: Mid<S>,
    m: Seq<char>,
) -> bool {
    let name = job.rule.name@;
    ||| pools::sourceless(name, job.rule.relationships@, job.pools, m)
    ||| pools_ready(job, st.full) && {
        ||| {
            &&& seed::all_fit(base, name, job.columns(), "range"@, mid.pins)
            &&& pinning(job, from, mid).0 == Err::<bool, Seq<char>>(m)
        }
        ||| {
            &&& pinned_by(job, base, from, mid)
            &&& job.pinned()
            &&& exists|e: Seq<char>| #[trigger] sample_stopped(job, base, mid, e, m)
        }
        ||| {
            &&& sampled_by(job, base, from, mid)
            &&& seed::all_fit(base, name, job.columns(), "null"@, mid.nulls)
            &&& draw_of(job, from, pools::all_keys(st.full), mid) == Err::<Drawing, Seq<char>>(m)
        }
        ||| {
            &&& drawn_by(job, base, from, st, mid)
            &&& settling(job, mid) == Err::<(Seq<Seq<Cell>>, rand::rngs::StdRng), Seq<char>>(m)
        }
        ||| {
            &&& settled_by(job, base, from, st, mid)
            &&& replacing_fits(job, base, mid)
            &&& replacing(job, st, mid) == Err::<Seq<Seq<Cell>>, Seq<char>>(m)
        }
        ||| replaced_by(job, base, from, st, mid) && underived(
            job.rule,
            job.table,
            job.referenced,
            job.columns(),
            st.replaced,
            m,
        )
        ||| {
            &&& ran_by(job, base, from, st, mid)
            &&& was_computed(job, st)
            &&& job.rule.branches@.len() > 0
            &&& if branch::all_fine(job.rule, job.referenced, job.columns()) {
                branch::unrepaired(
                    job.rule,
                    job.table,
                    job.columns(),
                    job.referenced,
                    st.targets,
                    job.limit,
                    st.computed,
                    m,
                )
            } else {
                branch::some_refused(job.rule, job.referenced, job.columns(), m)
            }
        }
    }
}

#[verifier::opaque]
pub open spec fn stopped<S: Sampler>(
    job: Job,
    base: Option<u64>,
    from: Post<S>,
    m: Seq<char>,
) -> bool {
    exists|st: Stages, mid: Mid<S>| #[trigger] stopped_in(job, base, from, st, mid, m)
}

/// Settles the columns that other tables refer to.
fn settle_columns<S: Sampler>(
    sampler: &S,
    rule: &TableRule,
    table: &TableModel,
    columns: &[String],
    referenced: &[String],
    rels: &Vec<RelPool>,
    rows: &mut Vec<Vec<Value>>,
    enforce: bool,
    rng: &mut rand::rngs::StdRng,
    Ghost(job): Ghost<Job>,
    Ghost(st): Ghost<Stages>,
) -> (r: Result<(), String>)
    requires
        derivation::all_wide(old(rows)@, columns@.len()),
        job.rule == *rule,
        job.table == *table,
        job.columns() == columns.deep_view(),
        job.referenced == referenced.deep_view(),
        job.rows == old(rows)@.len(),
        job.enforce == enforce,
        st.left == rels@,
        st.drawn == derivation::rows_cells(old(rows)@),
    ensures
        final(rows)@.len() == old(rows)@.len(),
        derivation::all_wide(final(rows)@, columns@.len()),
        ({
            let done = settled_from(
                *sampler,
                job,
                pools::all_keys(rels@),
                st.drawn,
                *old(rng),
                columns@.len(),
            );
            match r {
                Ok(_) => done == Ok::<(Seq<Seq<Cell>>, rand::rngs::StdRng), Seq<char>>(
                    (derivation::rows_cells(final(rows)@), *final(rng)),
                ),
                Err(m) => done == Err::<(Seq<Seq<Cell>>, rand::rngs::StdRng), Seq<char>>(m@),
            }
        }),
        r is Ok ==> forall|c: int|
            0 <= c < columns@.len() ==> settled_column(
                job,
                rels@,
                c,
                #[trigger] draw::column_of(st.drawn, c),
                draw::column_of(derivation::rows_cells(final(rows)@), c),
            ),
{
    let ghost width = columns@.len();
    let mut c: usize = 0;
    while c < columns.len()
        invariant
            c <= columns@.len(),
            width == columns@.len(),
            job.rule == *rule,
            job.table == *table,
            job.columns() == columns.deep_view(),
            job.referenced == referenced.deep_view(),
            job.rows == rows@.len(),
            job.enforce == enforce,
            rows@.len() == old(rows)@.len(),
            st.left == rels@,
            st.drawn.len() == rows@.len(),
            derivation::all_wide(rows@, width),
            settled_from(
                *sampler,
                job,
                pools::all_keys(rels@),
                st.drawn,
                *old(rng),
                c as nat,
            ) == Ok::<(Seq<Seq<Cell>>, rand::rngs::StdRng), Seq<char>>(
                (derivation::rows_cells(rows@), *rng),
            ),
            forall|k: int|
                0 <= k < c ==> settled_column(
                    job,
                    rels@,
                    k,
                    #[trigger] draw::column_of(st.drawn, k),
                    draw::column_of(derivation::rows_cells(rows@), k),
                ),
            forall|k: int|
                c <= k < width ==> #[trigger] draw::column_of(st.drawn, k) == draw::column_of(
                    derivation::rows_cells(rows@),
                    k,
                ),
        decreases columns@.len() - c,
    {
        let ghost start = derivation::rows_cells(rows@);
        let key = branch::write_key(rule.name.as_str(), columns[c].as_str());
        proof {
            assert(job.columns()[c as int] == columns@[c as int]@);
            assert(draw::column_of(st.drawn, c as int) == draw::column_of(start, c as int));
        }
        let ghost was = *rng;
        if names::has(referenced, key.as_str()) {
            match distinct::make_distinct(
                sampler,
                table,
                rule.name.as_str(),
                columns,
                c,
                rows,
                rels,
                enforce,
                rng,
            ) {
                Ok(_) => {},
                Err(m) => {
                    proof {
                        lemma_settling_stops(
                            *sampler,
                            job,
                            pools::all_keys(rels@),
                            st.drawn,
                            *old(rng),
                            (c + 1) as nat,
                            width,
                        );
                    }
                    return Err(m);
                },
            }
        }
        proof {
            let now = derivation::rows_cells(rows@);
            assert forall|k: int| 0 <= k < width && k != c implies #[trigger] draw::column_of(
                now,
                k,
            ) == draw::column_of(start, k) by {
                assert forall|r: int| 0 <= r < now.len() implies now[r][k] == start[r][k] by {
                    assert(now[r].len() == width);
                }
                assert(draw::column_of(now, k) =~= draw::column_of(start, k));
            }
            if job.is_key(c as int) {
                assert(branch::even_rows(now, width)) by {
                    assert forall|r: int| 0 <= r < now.len() implies (#[trigger] now[r]).len()
                        == width by {
                        assert(rows@[r]@.len() == width);
                    }
                }
                overrides::lemma_with_column(start, now, c as int, width);
            }
            assert forall|k: int| 0 <= k < c + 1 implies settled_column(
                job,
                rels@,
                k,
                #[trigger] draw::column_of(st.drawn, k),
                draw::column_of(now, k),
            ) by {
                if k < c {
                    assert(draw::column_of(now, k) == draw::column_of(start, k));
                }
            }
            assert forall|k: int| c + 1 <= k < width implies #[trigger] draw::column_of(
                st.drawn,
                k,
            ) == draw::column_of(now, k) by {
                assert(draw::column_of(now, k) == draw::column_of(start, k));
            }
        }
        c = c + 1;
    }
    Ok(())
}

/// The rates of NULLs of the columns.
fn null_rates<'a>(
    rule: &'a TableRule,
    table: &'a TableModel,
    columns: &[String],
    referenced: &[String],
    Ghost(job): Ghost<Job>,
) -> (r: (Vec<Option<&'a Rate>>, Vec<String>))
    requires
        job.rule == *rule,
        job.table == *table,
        job.columns() == columns.deep_view(),
        job.referenced == referenced.deep_view(),
    ensures
        r.0@.len() == columns@.len(),
        draw::nullable_of(r.0@) == job.nullable(),
        draw::rate_texts(r.0@) == job.rates(),
        r.1.deep_view() == job.warnings(columns@.len()),
{
    let mut rates: Vec<Option<&'a Rate>> = Vec::new();
    let mut warnings: Vec<String> = Vec::new();
    let mut c: usize = 0;
    proof {
        assert(warnings.deep_view() =~= Seq::empty());
    }
    while c < columns.len()
        invariant
            c <= columns@.len(),
            job.rule == *rule,
            job.table == *table,
            job.columns() == columns.deep_view(),
            job.referenced == referenced.deep_view(),
            rates@.len() == c,
            forall|k: int| 0 <= k < c ==> ((#[trigger] rates@[k]) is Some <==> job.nullable()[k]),
            forall|k: int|
                0 <= k < c ==> job.rates()[k] == (match #[trigger] rates@[k] {
                    Some(rate) => Some(rate.text@),
                    None => None,
                }),
            warnings.deep_view() == job.warnings(c as nat),
        decreases columns@.len() - c,
    {
        let column = columns[c].as_str();
        proof {
            assert(job.columns()[c as int] == column@);
        }
        let key = branch::write_key(rule.name.as_str(), column);
        let is_key = names::has(referenced, key.as_str());
        let rate = draw::effective_null_rate(
            rule,
            table,
            rule.name.as_str(),
            column,
            is_key,
            &mut warnings,
        );
        rates.push(rate);
        c = c + 1;
    }
    proof {
        assert(draw::nullable_of(rates@) =~= job.nullable());
        assert(draw::rate_texts(rates@) =~= job.rates());
    }
    (rates, warnings)
}

/// The columns whose draws stay between the smallest and the largest value that were
/// seen.
fn clipped_columns(rule: &TableRule, columns: &[String], enforce: bool, Ghost(job): Ghost<Job>) -> (r:
    Vec<bool>)
    requires
        job.rule == *rule,
        job.columns() == columns.deep_view(),
        job.enforce == enforce,
    ensures
        r@ == job.clipped(),
{
    let mut out: Vec<bool> = Vec::new();
    let mut c: usize = 0;
    while c < columns.len()
        invariant
            c <= columns@.len(),
            job.rule == *rule,
            job.columns() == columns.deep_view(),
            job.enforce == enforce,
            out@ == job.clipped().take(c as int),
        decreases columns@.len() - c,
    {
        proof {
            assert(job.columns()[c as int] == columns@[c as int]@);
            assert(job.clipped().take(c + 1) =~= job.clipped().take(c as int).push(
                job.clipped()[c as int],
            ));
        }
        out.push(enforce && !overrides::has_condition(rule, columns[c].as_str()));
        c = c + 1;
    }
    proof {
        assert(job.clipped().take(columns@.len() as int) =~= job.clipped());
    }
    out
}

/// How many rows each branch is to match.
pub open spec fn targets_of<S: Sampler>(s: S, rule: TableRule, rows: usize) -> Seq<BranchTarget> {
    Seq::new(rule.branches@.len(), |i: int| s.target_of(rule, i as usize, rows))
}

/// How many rows each branch is to match.
fn branch_targets<S: Sampler>(sampler: &S, rule: &TableRule, rows: usize) -> (r: Vec<BranchTarget>)
    ensures
        r@ == targets_of(*sampler, *rule, rows),
{
    let mut out: Vec<BranchTarget> = Vec::new();
    let mut i: usize = 0;
    while i < rule.branches.len()
        invariant
            i <= rule.branches@.len(),
            out@ == targets_of(*sampler, *rule, rows).take(i as int),
        decreases rule.branches@.len() - i,
    {
        proof {
            let all = targets_of(*sampler, *rule, rows);
            assert(all.take(i + 1) =~= all.take(i as int).push(all[i as int]));
        }
        out.push(sampler.branch_target(rule, i, rows));
        i = i + 1;
    }
    proof {
        let all = targets_of(*sampler, *rule, rows);
        assert(all.take(all.len() as int) =~= all);
    }
    out
}

/// The schema of a table, unless it is empty.
fn filled_schema(table: &TableModel) -> (r: Option<String>)
    ensures
        r.deep_view() == schema_of(*table),
{
    match &table.schema {
        Some(s) => {
            if text::same(s.as_str(), "") {
                proof {
                    reveal_strlit("");
                    assert(s@ =~= ""@);
                }
                None
            } else {
                proof {
                    reveal_strlit("");
                    if s@.len() == 0 {
                        assert(s@ =~= ""@);
                    }
                }
                Some(s.clone())
            }
        },
        None => None,
    }
}

proof fn lemma_shaped(job: Job, rows: Seq<Vec<Value>>)
    requires
        rows.len() == job.rows,
        derivation::all_wide(rows, job.columns().len()),
    ensures
        shaped(job, derivation::rows_cells(rows)),
{
    let cells = derivation::rows_cells(rows);
    assert forall|i: int| 0 <= i < cells.len() implies (#[trigger] cells[i]).len()
        == job.columns().len() by {
        assert(rows[i]@.len() == job.columns().len());
    }
}

/// Draws, settles, replaces, computes and repairs the rows of a table.
#[verifier::spinoff_prover]
fn make_table<S: Sampler>(
    sampler: &mut S,
    models: &[TableModel],
    rule: &TableRule,
    table: &TableModel,
    known: &Vec<ColumnPool>,
    referenced: &[String],
    base: Option<u64>,
    count: usize,
    limit: usize,
    enforce: bool,
    rng: &mut rand::rngs::StdRng,
) -> (r: Result<GeneratedTable, String>)
    ensures
        ({
            let job = Job {
                models: models@,
                rule: *rule,
                table: *table,
                pools: known.deep_view(),
                referenced: referenced.deep_view(),
                rows: count as nat,
                limit: limit as nat,
                enforce,
            };
            let from = Post { sampler: *old(sampler), rng: *old(rng) };
            match r {
                Ok(t) => {
                    &&& made(job, t)
                    &&& ran(
                        job,
                        base,
                        from,
                        t,
                        Post { sampler: *final(sampler), rng: *final(rng) },
                    )
                    &&& t.name@ == rule.name@
                    &&& derivation::all_wide(t.rows@, t.columns@.len())
                },
                Err(m) => stopped(job, base, from, m@),
            }
        }),
{
    let name = rule.name.as_str();
    let columns = table.column_order.as_slice();
    let ghost job = Job {
        models: models@,
        rule: *rule,
        table: *table,
        pools: known.deep_view(),
        referenced: referenced.deep_view(),
        rows: count as nat,
        limit: limit as nat,
        enforce,
    };
    let ghost mut st = Stages {
        full: Seq::empty(),
        left: Seq::empty(),
        drawn: Seq::empty(),
        settled: Seq::empty(),
        replaced: Seq::empty(),
        computed: Seq::empty(),
        targets: Seq::empty(),
    };
    let ghost from = Post { sampler: *sampler, rng: *rng };
    let ghost mut mid = Mid {
        pins: Seq::empty(),
        nulls: Seq::empty(),
        picks: Seq::empty(),
        ranges: Seq::empty(),
        pinned: *sampler,
        sampled: *sampler,
        drawing: Drawing {
            rows: Seq::empty(),
            row: Seq::empty(),
            keys: Seq::empty(),
            nulls: Seq::empty(),
            rng: *rng,
        },
        rng: *rng,
    };
    proof {
        reveal(stopped);
        assert(job.columns() =~= columns.deep_view());
    }
    let mut rels = match pools::build_rel_pools(
        name,
        rule,
        known,
        models,
        pools::selection(rule.strategy),
    ) {
        Ok(made) => made,
        Err(m) => {
            proof {
                assert(stopped_in(job, base, from, st, mid, m@));
            }
            return Err(m);
        },
    };
    proof {
        st = Stages { full: rels@, ..st };
        assert(pools_ready(job, st.full));
    }
    let pins = seed::column_streams(base, name, columns, "range");
    proof {
        mid = Mid { pins: pins@, ..mid };
    }
    let pinned = match overrides::conditional_pins(sampler, rule, table, columns, count, pins) {
        Ok(any) => any,
        Err(m) => {
            proof {
                assert(stopped_in(job, base, from, st, mid, m@));
            }
            return Err(m);
        },
    };
    proof {
        assert(pins_fine(job));
        mid = Mid { pinned: *sampler, ..mid };
        assert(pinned == job.pinned());
        assert(pinned_by(job, base, from, mid));
    }
    let at = seed::table_seed(base, name);
    if pinned {
        match sampler.sample_pinned(table, count, at) {
            Ok(_) => {},
            Err(e) => {
                let mut m = text::around("table '", name, "': ");
                text::push_text(&mut m, e.as_str());
                proof {
                    assert(job.pinned());
                    assert(sample_fault(name@, e@) == m@);
                    assert(sample_stopped(job, base, mid, e@, m@));
                assert(stopped_in(job, base, from, st, mid, m@));
                }
                return Err(m);
            },
        }
    } else {
        sampler.sample(table, count, at);
    }
    proof {
        mid = Mid { sampled: *sampler, ..mid };
        assert(sampled_by(job, base, from, mid));
    }
    let (rates, warnings) = null_rates(rule, table, columns, referenced, Ghost(job));
    let clipped = clipped_columns(rule, columns, enforce, Ghost(job));
    let mut nulls = seed::column_streams(base, name, columns, "null");
    proof {
        mid = Mid { nulls: nulls@, ..mid };
    }
    let mut rows = match draw::draw_rows(
        sampler,
        table,
        name,
        columns,
        &mut rels,
        &rates,
        &clipped,
        &mut nulls,
        count,
        rng,
    ) {
        Ok(rows) => rows,
        Err(m) => {
            proof {
                assert(stopped_in(job, base, from, st, mid, m@));
            }
            return Err(m);
        },
    };
    proof {
        lemma_shaped(job, rows@);
        st = Stages { left: rels@, drawn: derivation::rows_cells(rows@), ..st };
        assert(was_drawn(job, st));
        mid = Mid {
            drawing: Drawing {
                rows: st.drawn,
                row: Seq::empty(),
                keys: pools::all_keys(rels@),
                nulls: nulls@,
                rng: *rng,
            },
            ..mid
        };
        assert(drawn_by(job, base, from, st, mid));
    }
    match settle_columns(
        sampler,
        rule,
        table,
        columns,
        referenced,
        &rels,
        &mut rows,
        enforce,
        rng,
        Ghost(job),
        Ghost(st),
    ) {
        Ok(_) => {},
        Err(m) => {
            proof {
                assert(stopped_in(job, base, from, st, mid, m@));
            }
            return Err(m);
        },
    }
    proof {
        lemma_shaped(job, rows@);
        st = Stages { settled: derivation::rows_cells(rows@), ..st };
        assert(was_settled(job, st));
        mid = Mid { rng: *rng, ..mid };
        assert(settled_by(job, base, from, st, mid));
    }
    let picks = seed::column_streams(base, name, columns, "values");
    let ranges = seed::column_streams(base, name, columns, "range");
    proof {
        mid = Mid { picks: picks@, ranges: ranges@, ..mid };
    }
    match overrides::apply_column_value_overrides(
        sampler,
        &mut rows,
        rule,
        table,
        columns,
        referenced,
        enforce,
        picks,
        ranges,
    ) {
        Ok(_) => {},
        Err(m) => {
            proof {
                assert(stopped_in(job, base, from, st, mid, m@));
            }
            return Err(m);
        },
    }
    proof {
        lemma_shaped(job, rows@);
        st = Stages { replaced: derivation::rows_cells(rows@), ..st };
        assert(was_replaced(job, st));
        assert(replaced_by(job, base, from, st, mid));
    }
    match apply_derive_rules(&mut rows, rule, table, columns, referenced) {
        Ok(_) => {},
        Err(m) => {
            proof {
                assert(stopped_in(job, base, from, st, mid, m@));
            }
            return Err(m);
        },
    }
    let value_pools = check_value_pools(&rows, rule, table, columns);
    let targets = branch_targets(sampler, rule, count);
    proof {
        lemma_shaped(job, rows@);
        st = Stages { computed: derivation::rows_cells(rows@), targets: targets@, ..st };
        assert(was_computed(job, st));
        assert(ran_by(job, base, from, st, mid));
    }
    let branches = match branch::apply_branch_repair(
        &mut rows,
        rule,
        table,
        columns,
        referenced,
        targets.as_slice(),
        limit,
    ) {
        Ok(outcomes) => outcomes,
        Err(m) => {
            proof {
                assert(stopped_in(job, base, from, st, mid, m@));
            }
            return Err(m);
        },
    };
    let t = GeneratedTable {
        name: rule.name.clone(),
        columns: derivation::copy_names(columns),
        rows,
        schema: filled_schema(table),
        branches,
        value_pools,
        warnings,
    };
    proof {
        lemma_shaped(job, t.rows@);
        assert(was_repaired(job, st, t.cells(), t.branches@));
        assert(made_in(job, st, t));
        reveal(made);
        reveal(ran);
        assert(ran_in(
            job,
            base,
            from,
            st,
            mid,
            t,
            Post { sampler: *sampler, rng: *rng },
        ));
    }
    Ok(t)
}

/// How tables are generated.
#[derive(Debug)]
pub struct GeneratorConfig {
    /// Rows for tables, before what their rules ask for.
    pub rows_per_table: Vec<(String, usize)>,
    pub seed: Option<u64>,
    /// Generated numbers stay between the smallest and the largest that were seen.
    pub enforce_min_max_values: bool,
}

impl Default for GeneratorConfig {
    fn default() -> (r: GeneratorConfig)
        ensures
            r.rows_per_table@.len() == 0,
            r.seed is None,
            r.enforce_min_max_values,
    {
        GeneratorConfig { rows_per_table: Vec::new(), seed: None, enforce_min_max_values: true }
    }
}

/// All generated tables, in the order in which they were made.
#[derive(Debug)]
pub struct GeneratedData {
    pub tables: Vec<GeneratedTable>,
    pub dialect: String,
}

/// The number that is given for a table.
pub open spec fn rows_at(pairs: Seq<(String, usize)>, name: Seq<char>) -> Option<usize>
    decreases pairs.len(),
{
    if pairs.len() == 0 {
        None
    } else if pairs[0].0@ == name {
        Some(pairs[0].1)
    } else {
        rows_at(pairs.skip(1), name)
    }
}

/// How many rows a table gets: what the configuration says, else its rule, else
/// one hundred.
pub open spec fn rows_wanted(config: GeneratorConfig, rule: TableRule) -> usize {
    match rows_at(config.rows_per_table@, rule.name@) {
        Some(n) => n,
        None => match rule.rows {
            Some(n) => n,
            None => 100,
        },
    }
}

fn row_count(config: &GeneratorConfig, rule: &TableRule) -> (r: usize)
    ensures
        r == rows_wanted(*config, *rule),
{
    let mut i: usize = 0;
    let ghost all = config.rows_per_table@;
    proof {
        assert(all.skip(0) =~= all);
    }
    while i < config.rows_per_table.len()
        invariant
            i <= config.rows_per_table@.len(),
            all == config.rows_per_table@,
            rows_at(all, rule.name@) == rows_at(all.skip(i as int), rule.name@),
        decreases config.rows_per_table@.len() - i,
    {
        proof {
            assert(all.skip(i as int).skip(1) =~= all.skip(i + 1));
        }
        if text::same(config.rows_per_table[i].0.as_str(), rule.name.as_str()) {
            return config.rows_per_table[i].1;
        }
        i = i + 1;
    }
    match rule.rows {
        Some(n) => n,
        None => 100,
    }
}

/// The rule of a table.
pub open spec fn rule_at(tables: Seq<TableRule>, name: Seq<char>) -> Option<TableRule>
    decreases tables.len(),
{
    if tables.len() == 0 {
        None
    } else if tables[0].name@ == name {
        Some(tables[0])
    } else {
        rule_at(tables.skip(1), name)
    }
}

fn find_rule<'a>(rules: &'a SynthRules, name: &str) -> (r: Option<&'a TableRule>)
    ensures
        match r {
            Some(rule) => rule_at(rules.tables@, name@) == Some(*rule) && rule.name@ == name@,
            None => rule_at(rules.tables@, name@) is None,
        },
{
    let mut i: usize = 0;
    let ghost all = rules.tables@;
    proof {
        assert(all.skip(0) =~= all);
    }
    while i < rules.tables.len()
        invariant
            i <= rules.tables@.len(),
            all == rules.tables@,
            rule_at(all, name@) == rule_at(all.skip(i as int), name@),
        decreases rules.tables@.len() - i,
    {
        proof {
            assert(all.skip(i as int).skip(1) =~= all.skip(i + 1));
        }
        if text::same(rules.tables[i].name.as_str(), name) {
            return Some(&rules.tables[i]);
        }
        i = i + 1;
    }
    None
}

/// The keys that relationships refer to, in order.
pub open spec fn referenced_keys(rules: SynthRules) -> Seq<Seq<char>> {
    choose|keys: Seq<Seq<char>>| #[trigger] lists_references(rules, keys)
}

pub open spec fn lists_references(rules: SynthRules, keys: Seq<Seq<char>>) -> bool {
    &&& names::ascending(keys)
    &&& forall|key: Seq<char>| #[trigger]
        keys.contains(key) <==> pools::is_referenced(rules.tables@, key)
}

/// The columns of a generated table by their keys.
pub open spec fn table_pools(t: GeneratedTable) -> Seq<Pool> {
    Seq::new(
        t.columns@.len(),
        |c: int| (branch::key_of(t.name@, t.columns@[c]@), draw::column_of(t.cells(), c)),
    )
}

/// The columns of generated tables by their keys.
pub open spec fn pools_of(tables: Seq<GeneratedTable>) -> Seq<Pool>
    decreases tables.len(),
{
    if tables.len() == 0 {
        Seq::empty()
    } else {
        pools_of(tables.drop_last()) + table_pools(tables.last())
    }
}

/// What a table is generated from, once others were.
pub open spec fn job_for(
    models: Seq<TableModel>,
    rules: SynthRules,
    config: GeneratorConfig,
    limit: nat,
    done: Seq<GeneratedTable>,
    name: Seq<char>,
) -> Job {
    let rule = rule_at(rules.tables@, name)->0;
    Job {
        models,
        rule,
        table: pools::model_at(models, name)->0,
        pools: pools_of(done),
        referenced: referenced_keys(rules),
        rows: rows_wanted(config, rule) as nat,
        limit,
        enforce: config.enforce_min_max_values,
    }
}

/// Tables that were generated one after the other, each from those before it.
pub open spec fn all_made(
    models: Seq<TableModel>,
    rules: SynthRules,
    config: GeneratorConfig,
    limit: nat,
    order: Seq<Seq<char>>,
    tables: Seq<GeneratedTable>,
) -> bool {
    &&& tables.len() <= order.len()
    &&& forall|i: int|
        0 <= i < tables.len() ==> made_at(
            models,
            rules,
            config,
            limit,
            order,
            tables,
            i,
        ) && (#[trigger] tables[i]).name@ == order[i]
}

pub open spec fn made_at(
    models: Seq<TableModel>,
    rules: SynthRules,
    config: GeneratorConfig,
    limit: nat,
    order: Seq<Seq<char>>,
    tables: Seq<GeneratedTable>,
    i: int,
) -> bool {
    &&& pools::model_at(models, order[i]) is Some
    &&& rule_at(rules.tables@, order[i]) is Some
    &&& made(job_for(models, rules, config, limit, tables.take(i), order[i]), tables[i])
}

/// The order in which the tables are generated.
pub open spec fn made_order(rules: SynthRules) -> Seq<Seq<char>> {
    graph::sorted_order(
        pools::table_names(rules.tables@),
        pools::table_edges(rules.tables@, pools::table_names(rules.tables@), true),
    )
}

/// The order of the tables, in which every parent comes before its children.
pub open spec fn table_order(rules: SynthRules, order: Seq<Seq<char>>) -> bool {
    &&& order == made_order(rules)
    &&& graph::settles(
        pools::table_names(rules.tables@),
        pools::table_edges(rules.tables@, pools::table_names(rules.tables@), true),
        order,
    )
}

/// The dialect of the last table that has one other than `test`.
pub open spec fn dialect_of(models: Seq<TableModel>, order: Seq<Seq<char>>) -> Seq<char>
    decreases order.len(),
{
    if order.len() == 0 {
        "mysql"@
    } else {
        let d = pools::model_at(models, order.last())->0.dialect@;
        if d == "test"@ {
            dialect_of(models, order.drop_last())
        } else {
            d
        }
    }
}

/// Everything that was generated.
pub open spec fn generated(
    models: Seq<TableModel>,
    rules: SynthRules,
    config: GeneratorConfig,
    limit: nat,
    order: Seq<Seq<char>>,
    data: GeneratedData,
) -> bool {
    &&& table_order(rules, order)
    &&& lists_references(rules, referenced_keys(rules))
    &&& order.len() == rules.tables@.len()
    &&& data.tables@.len() == order.len()
    &&& all_made(models, rules, config, limit, order, data.tables@)
    &&& data.dialect@ == dialect_of(models, order)
}

/// The tables cannot be put in order.
pub open spec fn circular(rules: SynthRules, m: Seq<char>) -> bool {
    let nodes = pools::table_names(rules.tables@);
    let edges = pools::table_edges(rules.tables@, nodes, true);
    &&& table_order(rules, made_order(rules))
    &&& made_order(rules).len() != nodes.len()
    &&& m == "cycle detected: "@ + ("cycle detected: "@ + graph::cycle_text(
        graph::first_cycle(nodes, edges),
    ))
}

/// Tables were made one after the other, each from where the one before it left
/// off.
pub open spec fn all_ran<S: Sampler>(
    models: Seq<TableModel>,
    rules: SynthRules,
    config: GeneratorConfig,
    limit: nat,
    order: Seq<Seq<char>>,
    tables: Seq<GeneratedTable>,
    posts: Seq<Post<S>>,
) -> bool {
    &&& posts.len() == tables.len() + 1
    &&& forall|i: int|
        0 <= i < tables.len() ==> ran(
            job_for(models, rules, config, limit, tables.take(i), order[i]),
            config.seed,
            posts[i],
            #[trigger] tables[i],
            posts[i + 1],
        )
}

/// Generation begins with a sampler and the stream of the seed.
pub open spec fn begins<S: Sampler>(s: S, config: GeneratorConfig, from: Post<S>) -> bool {
    from.sampler == s && seed::fits(config.seed, from.rng)
}

/// Everything was generated from where generation began.
pub open spec fn run<S: Sampler>(
    s: S,
    models: Seq<TableModel>,
    rules: SynthRules,
    config: GeneratorConfig,
    limit: nat,
    order: Seq<Seq<char>>,
    data: GeneratedData,
    posts: Seq<Post<S>>,
) -> bool {
    &&& generated(models, rules, config, limit, order, data)
    &&& all_ran(models, rules, config, limit, order, data.tables@, posts)
    &&& begins(s, config, posts[0])
}

/// All tables were generated, in some order.
pub open spec fn some_run<S: Sampler>(
    s: S,
    models: Seq<TableModel>,
    rules: SynthRules,
    config: GeneratorConfig,
    limit: nat,
    data: GeneratedData,
    end: S,
) -> bool {
    exists|order: Seq<Seq<char>>, posts: Seq<Post<S>>| #[trigger]
        run(s, models, rules, config, limit, order, data, posts) && posts.last().sampler == end
}

/// Generation came to a halt at the table behind those that were made.
pub open spec fn broken_off<S: Sampler>(
    s: S,
    models: Seq<TableModel>,
    rules: SynthRules,
    config: GeneratorConfig,
    limit: nat,
    order: Seq<Seq<char>>,
    done: Seq<GeneratedTable>,
    posts: Seq<Post<S>>,
    m: Seq<char>,
) -> bool {
    let name = order[done.len() as int];
    &&& table_order(rules, order)
    &&& order.len() == rules.tables@.len()
    &&& done.len() < order.len()
    &&& all_made(models, rules, config, limit, order, done)
    &&& all_ran(models, rules, config, limit, order, done, posts)
    &&& begins(s, config, posts[0])
    &&& if pools::model_at(models, name) is None {
        m == "no model for table '"@ + name + "'"@
    } else if rule_at(rules.tables@, name) is None {
        m == "no rule for table '"@ + name + "'"@
    } else {
        stopped(
            job_for(models, rules, config, limit, done, name),
            config.seed,
            posts.last(),
            m,
        )
    }
}

pub open spec fn some_broken_off<S: Sampler>(
    s: S,
    models: Seq<TableModel>,
    rules: SynthRules,
    config: GeneratorConfig,
    limit: nat,
    m: Seq<char>,
) -> bool {
    exists|order: Seq<Seq<char>>, done: Seq<GeneratedTable>, posts: Seq<Post<S>>| #[trigger]
        broken_off(s, models, rules, config, limit, order, done, posts, m)
}

fn push_pools(known: &mut Vec<ColumnPool>, t: &GeneratedTable)
    requires
        derivation::all_wide(t.rows@, t.columns@.len()),
    ensures
        final(known).deep_view() == old(known).deep_view() + table_pools(*t),
{
    let ghost start = known.deep_view();
    let ghost want = table_pools(*t);
    let mut c: usize = 0;
    proof {
        assert(start + want.take(0) =~= start);
    }
    while c < t.columns.len()
        invariant
            c <= t.columns@.len(),
            derivation::all_wide(t.rows@, t.columns@.len()),
            start == old(known).deep_view(),
            want == table_pools(*t),
            known.deep_view() == start + want.take(c as int),
        decreases t.columns@.len() - c,
    {
        let ghost before = known.deep_view();
        let ghost cells = draw::column_of(t.cells(), c as int);
        let mut values: Vec<Value> = Vec::new();
        let mut r: usize = 0;
        proof {
            assert(values.deep_view() =~= cells.take(0));
        }
        while r < t.rows.len()
            invariant
                r <= t.rows@.len(),
                c < t.columns@.len(),
                derivation::all_wide(t.rows@, t.columns@.len()),
                cells == draw::column_of(t.cells(), c as int),
                values.deep_view() == cells.take(r as int),
            decreases t.rows@.len() - r,
        {
            let ghost so_far = values.deep_view();
            proof {
                assert(t.rows@[r as int]@.len() == t.columns@.len());
            }
            values.push(t.rows[r][c].copy());
            proof {
                assert(cells[r as int] == t.rows@[r as int]@[c as int]@);
                assert(values.deep_view() =~= so_far.push(cells[r as int]));
                assert(cells.take(r + 1) =~= cells.take(r as int).push(cells[r as int]));
            }
            r = r + 1;
        }
        proof {
            assert(cells.take(cells.len() as int) =~= cells);
        }
        let key = branch::write_key(t.name.as_str(), t.columns[c].as_str());
        known.push(ColumnPool { key, values });
        proof {
            assert(known.deep_view() =~= before.push(want[c as int]));
            assert(start + want.take(c + 1) =~= (start + want.take(c as int)).push(
                want[c as int],
            ));
        }
        c = c + 1;
    }
    proof {
        assert(want.take(want.len() as int) =~= want);
    }
}

/// A list of the keys is the one that there is.
proof fn lemma_references(rules: SynthRules, keys: Seq<Seq<char>>)
    requires
        lists_references(rules, keys),
    ensures
        keys == referenced_keys(rules),
        lists_references(rules, referenced_keys(rules)),
{
    let other = referenced_keys(rules);
    assert(lists_references(rules, other));
    assert forall|n: Seq<char>| keys.contains(n) <==> other.contains(n) by {}
    names::lemma_ascending_unique(keys, other);
}

/// A table that was made after the others goes to them.
proof fn lemma_one_more_made(
    models: Seq<TableModel>,
    rules: SynthRules,
    config: GeneratorConfig,
    limit: nat,
    order: Seq<Seq<char>>,
    done: Seq<GeneratedTable>,
    t: GeneratedTable,
)
    requires
        all_made(models, rules, config, limit, order, done),
        done.len() < order.len(),
        pools::model_at(models, order[done.len() as int]) is Some,
        rule_at(rules.tables@, order[done.len() as int]) is Some,
        t.name@ == order[done.len() as int],
        made(job_for(models, rules, config, limit, done, order[done.len() as int]), t),
    ensures
        all_made(models, rules, config, limit, order, done.push(t)),
{
    let all = done.push(t);
    assert forall|k: int| 0 <= k < all.len() implies made_at(
        models,
        rules,
        config,
        limit,
        order,
        all,
        k,
    ) && (#[trigger] all[k]).name@ == order[k] by {
        if k < done.len() {
            assert(all.take(k) =~= done.take(k));
            assert(done[k].name@ == order[k]);
            assert(made_at(models, rules, config, limit, order, done, k));
        } else {
            assert(all.take(k) =~= done);
        }
    }
}

/// A table that was made from where the others left off goes to them.
proof fn lemma_one_more_ran<S: Sampler>(
    models: Seq<TableModel>,
    rules: SynthRules,
    config: GeneratorConfig,
    limit: nat,
    order: Seq<Seq<char>>,
    done: Seq<GeneratedTable>,
    posts: Seq<Post<S>>,
    t: GeneratedTable,
    next: Post<S>,
)
    requires
        all_ran(models, rules, config, limit, order, done, posts),
        ran(
            job_for(models, rules, config, limit, done, order[done.len() as int]),
            config.seed,
            posts.last(),
            t,
            next,
        ),
    ensures
        all_ran(models, rules, config, limit, order, done.push(t), posts.push(next)),
{
    let all = done.push(t);
    let more = posts.push(next);
    assert forall|i: int| 0 <= i < all.len() implies ran(
        job_for(models, rules, config, limit, all.take(i), order[i]),
        config.seed,
        more[i],
        #[trigger] all[i],
        more[i + 1],
    ) by {
        if i < done.len() {
            assert(all.take(i) =~= done.take(i));
            assert(all[i] == done[i]);
            assert(more[i] == posts[i] && more[i + 1] == posts[i + 1]);
        } else {
            assert(all.take(i) =~= done);
        }
    }
}

/// Generates all tables, parents before children. The foreign keys of a table are
/// drawn from what was generated for the tables that they refer to.
pub fn generate<S: Sampler>(
    models: &[TableModel],
    rules: &SynthRules,
    config: &GeneratorConfig,
    sampler: &mut S,
    limit: usize,
) -> (r: Result<GeneratedData, String>)
    ensures
        match r {
            Ok(data) => some_run(
                *old(sampler),
                models@,
                *rules,
                *config,
                limit as nat,
                data,
                *final(sampler),
            ),
            Err(m) => circular(*rules, m@) || some_broken_off(
                *old(sampler),
                models@,
                *rules,
                *config,
                limit as nat,
                m@,
            ),
        },
{
    let mut rng = seed::stream(config.seed);
    let referenced = pools::referenced_targets(rules);
    proof {
        lemma_references(*rules, referenced.deep_view());
    }
    let nodes = pools::name_tables(&rules.tables);
    let edges = pools::fk_edges(rules);
    proof {
        assert(graph::labels(nodes@) =~= nodes.deep_view());
        assert(graph::label_arcs(edges@) =~= pools::edge_texts(edges@));
    }
    let order = match graph::topological_sort(nodes.as_slice(), edges.as_slice()) {
        Ok(order) => order,
        Err(e) => {
            let mut m = "cycle detected: ".to_owned();
            text::push_text(&mut m, e.as_str());
            proof {
                let names = pools::table_names(rules.tables@);
                let arcs = pools::table_edges(rules.tables@, names, true);
                assert(nodes@.len() == names.len());
                assert(graph::sorted_order(names, arcs) == made_order(*rules));
                assert(circular(*rules, m@));
            }
            return Err(m);
        },
    };
    let ghost ordered = order.deep_view();
    proof {
        assert(graph::labels(order@) =~= ordered);
        assert(table_order(*rules, ordered));
        assert(nodes@.len() == rules.tables@.len());
    }
    let mut known: Vec<ColumnPool> = Vec::new();
    let mut tables: Vec<GeneratedTable> = Vec::new();
    let mut dialect = "mysql".to_owned();
    let ghost mut posts: Seq<Post<S>> = seq![Post { sampler: *sampler, rng }];
    let mut i: usize = 0;
    proof {
        assert(known.deep_view() =~= Seq::empty());
        assert(ordered.take(0) =~= Seq::empty());
    }
    while i < order.len()
        invariant
            i <= order@.len(),
            ordered == order.deep_view(),
            table_order(*rules, ordered),
            ordered.len() == rules.tables@.len(),
            referenced.deep_view() == referenced_keys(*rules),
            lists_references(*rules, referenced_keys(*rules)),
            tables@.len() == i,
            known.deep_view() == pools_of(tables@),
            all_made(models@, *rules, *config, limit as nat, ordered, tables@),
            all_ran(models@, *rules, *config, limit as nat, ordered, tables@, posts),
            begins(*old(sampler), *config, posts[0]),
            posts.last() == (Post { sampler: *sampler, rng }),
            dialect@ == dialect_of(models@, ordered.take(i as int)),
        decreases order@.len() - i,
    {
        let name = order[i].as_str();
        proof {
            assert(ordered[i as int] == name@);
        }
        let table = match pools::find_model(models, name) {
            Some(table) => table,
            None => {
                let m = text::around("no model for table '", name, "'");
                proof {
                    assert(broken_off(
                        *old(sampler),
                        models@,
                        *rules,
                        *config,
                        limit as nat,
                        ordered,
                        tables@,
                        posts,
                        m@,
                    ));
                }
                return Err(m);
            },
        };
        let rule = match find_rule(rules, name) {
            Some(rule) => rule,
            None => {
                let m = text::around("no rule for table '", name, "'");
                proof {
                    assert(broken_off(
                        *old(sampler),
                        models@,
                        *rules,
                        *config,
                        limit as nat,
                        ordered,
                        tables@,
                        posts,
                        m@,
                    ));
                }
                return Err(m);
            },
        };
        let made = match make_table(
            sampler,
            models,
            rule,
            table,
            &known,
            referenced.as_slice(),
            config.seed,
            row_count(config, rule),
            limit,
            config.enforce_min_max_values,
            &mut rng,
        ) {
            Ok(made) => made,
            Err(m) => {
                proof {
                    assert(broken_off(
                        *old(sampler),
                        models@,
                        *rules,
                        *config,
                        limit as nat,
                        ordered,
                        tables@,
                        posts,
                        m@,
                    ));
                }
                return Err(m);
            },
        };
        push_pools(&mut known, &made);
        if !text::same(table.dialect.as_str(), "test") {
            dialect = table.dialect.clone();
        }
        let ghost before = tables@;
        let ghost last = made;
        tables.push(made);
        proof {
            assert(tables@ == before.push(last));
            assert(tables@.drop_last() =~= before);
            assert(ordered.take(i + 1).drop_last() =~= ordered.take(i as int));
            assert(ordered.take(i + 1).last() == ordered[i as int]);
            lemma_one_more_made(
                models@,
                *rules,
                *config,
                limit as nat,
                ordered,
                before,
                last,
            );
            let next = Post { sampler: *sampler, rng };
            lemma_one_more_ran(
                models@,
                *rules,
                *config,
                limit as nat,
                ordered,
                before,
                posts,
                last,
                next,
            );
            posts = posts.push(next);
        }
        i = i + 1;
    }
    let data = GeneratedData { tables, dialect };
    proof {
        assert(ordered.take(ordered.len() as int) =~= ordered);
        assert(generated(models@, *rules, *config, limit as nat, ordered, data));
        assert(run(
            *old(sampler),
            models@,
            *rules,
            *config,
            limit as nat,
            ordered,
            data,
            posts,
        ));
    }
    Ok(data)
}

} // verus!
