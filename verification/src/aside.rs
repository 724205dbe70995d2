//! What a rule on one column leaves alone: the other columns.
use crate::branch;
use crate::distinct;
use crate::draw;
use crate::draw::{Drawing, Sampler, Sheet};
use crate::generator;
use crate::generator::{GeneratedData, GeneratedTable, GeneratorConfig, Job, Mid, Post, Stages};
use crate::integrity;
use crate::literal;
use crate::model::TableModel;
use crate::names;
use crate::overrides;
use crate::pools;
use crate::pools::Keys;
use crate::repeat;
use crate::rules;
use crate::rules::{ColumnMode, SynthRules, TableRule};
use crate::value;
use crate::value::Cell;
use vstd::prelude::*;

verus! {

/// Two rules of a table say the same of how its rows are drawn, but for one column.
/// What they compute and repair may differ.
pub open spec fn same_rule_but(a: TableRule, b: TableRule, column: Seq<char>) -> bool {
    &&& a.name@ == b.name@
    &&& a.relationships@ == b.relationships@
    &&& a.strategy == b.strategy
    &&& forall|n: Seq<char>|
        n != column ==> #[trigger] rules::column_rule(a.columns@, n) == rules::column_rule(
            b.columns@,
            n,
        )
}

/// Two tables are generated from the same, but for the rule of one column.
pub open spec fn same_job_but(a: Job, b: Job, column: Seq<char>) -> bool {
    &&& a.models == b.models
    &&& a.table == b.table
    &&& a.pools == b.pools
    &&& a.referenced == b.referenced
    &&& a.rows == b.rows
    &&& a.enforce == b.enforce
    &&& same_rule_but(a.rule, b.rule, column)
}

/// A column takes no part in a relationship, and is not drawn conditionally.
pub open spec fn stands_alone(job: Job, column: Seq<char>) -> bool {
    &&& !job.referenced.contains(branch::key_of(job.rule.name@, column))
    &&& forall|i: int|
        0 <= i < job.rule.relationships@.len() ==> (#[trigger] job.rule.relationships@[i]).pk@
            != column
    &&& !overrides::is_conditional(job.rule, column)
}

/// Rows of a given width agree in all columns but those of a name.
pub open spec fn rows_agree(
    columns: Seq<Seq<char>>,
    column: Seq<char>,
    a: Seq<Seq<Cell>>,
    b: Seq<Seq<Cell>>,
) -> bool {
    &&& a.len() == b.len()
    &&& forall|r: int| 0 <= r < a.len() ==> (#[trigger] a[r]).len() == columns.len()
    &&& forall|r: int| 0 <= r < b.len() ==> (#[trigger] b[r]).len() == columns.len()
    &&& forall|r: int, k: int|
        0 <= r < a.len() && 0 <= k < columns.len() && columns[k] != column ==> #[trigger] a[r][k]
            == b[r][k]
}

/// Two draws agree in everything but the columns of a name.
pub open spec fn draws_agree(
    columns: Seq<Seq<char>>,
    column: Seq<char>,
    a: Drawing,
    b: Drawing,
) -> bool {
    &&& rows_agree(columns, column, a.rows, b.rows)
    &&& a.row.len() == b.row.len()
    &&& forall|k: int|
        0 <= k < a.row.len() && columns[k] != column ==> #[trigger] a.row[k] == b.row[k]
    &&& a.keys == b.keys
    &&& a.nulls.len() == columns.len()
    &&& b.nulls.len() == columns.len()
    &&& forall|k: int|
        0 <= k < columns.len() && columns[k] != column ==> #[trigger] a.nulls[k] == b.nulls[k]
    &&& a.rng == b.rng
}

/// Two tables are drawn by the same, but for the rate of one column.
pub open spec fn same_sheet_but(a: Sheet, b: Sheet, column: Seq<char>) -> bool {
    &&& a.table == b.table
    &&& a.name == b.name
    &&& a.columns == b.columns
    &&& a.enforce == b.enforce
    &&& a.rates.len() == a.columns.len()
    &&& b.rates.len() == a.columns.len()
    &&& forall|k: int|
        0 <= k < a.columns.len() && a.columns[k] != column ==> #[trigger] a.rates[k] == b.rates[k]
}

/// No relationship draws the column.
pub open spec fn unkeyed(keys: Seq<Keys>, column: Seq<char>) -> bool {
    forall|j: int| 0 <= j < keys.len() ==> (#[trigger] keys[j]).column != column
}

proof fn lemma_unkeyed(keys: Seq<Keys>, column: Seq<char>)
    requires
        unkeyed(keys, column),
    ensures
        draw::keys_at(keys, column) >= keys.len(),
{
    let names = Seq::new(keys.len(), |j: int| keys[j].column);
    value::lemma_first_place(names, column);
    let j = value::first_place(names, column);
    if j < keys.len() {
        assert(names[j] == column);
        assert(keys[j].column != column);
    }
}

/// One more cell.
proof fn lemma_cell_agrees<S: Sampler>(
    s: S,
    a: Sheet,
    b: Sheet,
    column: Seq<char>,
    x: Drawing,
    y: Drawing,
)
    requires
        same_sheet_but(a, b, column),
        draws_agree(a.columns, column, x, y),
        x.row.len() < a.columns.len(),
        unkeyed(x.keys, column),
        draw::cell_from(s, a, x) is Ok,
        draw::cell_from(s, b, y) is Ok,
    ensures
        draws_agree(a.columns, column, draw::cell_from(s, a, x)->Ok_0, draw::cell_from(s, b, y)->Ok_0),
        unkeyed(draw::cell_from(s, a, x)->Ok_0.keys, column),
        draw::cell_from(s, a, x)->Ok_0.row.len() == x.row.len() + 1,
{
    let c = x.row.len() as int;
    let p = draw::cell_from(s, a, x)->Ok_0;
    let q = draw::cell_from(s, b, y)->Ok_0;
    lemma_unkeyed(x.keys, column);
    let j = draw::keys_at(x.keys, a.columns[c]);
    if a.columns[c] != column {
        assert(a.rates[c] == b.rates[c]);
        assert(x.nulls[c] == y.nulls[c]);
        if j < x.keys.len() {
            value::lemma_first_place(
                Seq::new(x.keys.len(), |k: int| x.keys[k].column),
                a.columns[c],
            );
            match draw::own_key(s, x.keys[j], x.rng) {
                Some((cell, left, rng)) => {
                    lemma_own_key_column(s, x.keys[j], x.rng);
                    assert forall|k: int| 0 <= k < p.keys.len() implies (
                    #[trigger] p.keys[k]).column != column by {
                        assert(x.keys[k].column != column);
                    }
                },
                None => {},
            }
        }
        assert(p.row.last() == q.row.last());
    }
    assert forall|k: int| 0 <= k < p.row.len() && a.columns[k] != column implies #[trigger] p.row[k]
        == q.row[k] by {
        if k < c {
            assert(x.row[k] == y.row[k]);
        }
    }
    assert forall|k: int|
        0 <= k < a.columns.len() && a.columns[k] != column implies #[trigger] p.nulls[k]
        == q.nulls[k] by {
        assert(x.nulls[k] == y.nulls[k]);
    }
}

/// A key taken from a pool leaves the pool's column as it is.
proof fn lemma_own_key_column<S: Sampler>(s: S, k: Keys, rng: rand::rngs::StdRng)
    ensures
        match draw::own_key(s, k, rng) {
            Some((cell, left, next)) => left.column == k.column,
            None => true,
        },
{
}

/// The first cells of a row.
proof fn lemma_row_agrees<S: Sampler>(
    s: S,
    a: Sheet,
    b: Sheet,
    column: Seq<char>,
    x: Drawing,
    y: Drawing,
    n: nat,
)
    requires
        same_sheet_but(a, b, column),
        draws_agree(a.columns, column, x, y),
        x.row.len() == 0,
        n <= a.columns.len(),
        unkeyed(x.keys, column),
        draw::row_from(s, a, x, n) is Ok,
        draw::row_from(s, b, y, n) is Ok,
    ensures
        draws_agree(
            a.columns,
            column,
            draw::row_from(s, a, x, n)->Ok_0,
            draw::row_from(s, b, y, n)->Ok_0,
        ),
        unkeyed(draw::row_from(s, a, x, n)->Ok_0.keys, column),
        draw::row_from(s, a, x, n)->Ok_0.row.len() == n,
    decreases n,
{
    if n > 0 {
        let k = (n - 1) as nat;
        lemma_row_agrees(s, a, b, column, x, y, k);
        lemma_cell_agrees(
            s,
            a,
            b,
            column,
            draw::row_from(s, a, x, k)->Ok_0,
            draw::row_from(s, b, y, k)->Ok_0,
        );
    }
}

/// The first rows.
proof fn lemma_draws_agree<S: Sampler>(
    s: S,
    a: Sheet,
    b: Sheet,
    column: Seq<char>,
    x: Drawing,
    y: Drawing,
    n: nat,
)
    requires
        same_sheet_but(a, b, column),
        draws_agree(a.columns, column, x, y),
        x.row.len() == 0,
        unkeyed(x.keys, column),
        draw::rows_from(s, a, x, n) is Ok,
        draw::rows_from(s, b, y, n) is Ok,
    ensures
        draws_agree(
            a.columns,
            column,
            draw::rows_from(s, a, x, n)->Ok_0,
            draw::rows_from(s, b, y, n)->Ok_0,
        ),
        unkeyed(draw::rows_from(s, a, x, n)->Ok_0.keys, column),
        draw::rows_from(s, a, x, n)->Ok_0.row.len() == 0,
    decreases n,
{
    if n > 0 {
        let k = (n - 1) as nat;
        lemma_draws_agree(s, a, b, column, x, y, k);
        let e = draw::rows_from(s, a, x, k)->Ok_0;
        let f = draw::rows_from(s, b, y, k)->Ok_0;
        lemma_row_agrees(s, a, b, column, e, f, a.columns.len());
        let p = draw::row_from(s, a, e, a.columns.len())->Ok_0;
        let q = draw::row_from(s, b, f, a.columns.len())->Ok_0;
        let more = p.rows.push(p.row);
        let other = q.rows.push(q.row);
        assert forall|r: int, c: int|
            0 <= r < more.len() && 0 <= c < a.columns.len() && a.columns[c]
                != column implies #[trigger] more[r][c] == other[r][c] by {
            if r < p.rows.len() {
                assert(p.rows[r][c] == q.rows[r][c]);
            } else {
                assert(p.row[c] == q.row[c]);
            }
        }
        assert forall|r: int| 0 <= r < more.len() implies (#[trigger] more[r]).len()
            == a.columns.len() by {
            if r < p.rows.len() {
                assert(p.rows[r].len() == a.columns.len());
            }
        }
        assert forall|r: int| 0 <= r < other.len() implies (#[trigger] other[r]).len()
            == a.columns.len() by {
            if r < q.rows.len() {
                assert(q.rows[r].len() == a.columns.len());
            }
        }
    }
}

/// Other cells in a column: the same ones, or in a column of the name.
proof fn lemma_column_agrees(
    columns: Seq<Seq<char>>,
    column: Seq<char>,
    a: Seq<Seq<Cell>>,
    b: Seq<Seq<Cell>>,
    c: int,
    x: Seq<Cell>,
    y: Seq<Cell>,
)
    requires
        rows_agree(columns, column, a, b),
        0 <= c < columns.len(),
        columns[c] != column ==> x == y,
    ensures
        rows_agree(columns, column, overrides::with_column(a, c, x), overrides::with_column(b, c, y)),
{
    let p = overrides::with_column(a, c, x);
    let q = overrides::with_column(b, c, y);
    assert forall|r: int, k: int|
        0 <= r < p.len() && 0 <= k < columns.len() && columns[k] != column implies #[trigger] p[r][k]
        == q[r][k] by {
        assert(a[r].len() == columns.len() && b[r].len() == columns.len());
        assert(a[r][k] == b[r][k]);
    }
    assert forall|r: int| 0 <= r < p.len() implies (#[trigger] p[r]).len() == columns.len() by {
        assert(a[r].len() == columns.len());
    }
    assert forall|r: int| 0 <= r < q.len() implies (#[trigger] q[r]).len() == columns.len() by {
        assert(b[r].len() == columns.len());
    }
}

/// A column of another name.
proof fn lemma_cells_agree(
    columns: Seq<Seq<char>>,
    column: Seq<char>,
    a: Seq<Seq<Cell>>,
    b: Seq<Seq<Cell>>,
    c: int,
)
    requires
        rows_agree(columns, column, a, b),
        0 <= c < columns.len(),
        columns[c] != column,
    ensures
        draw::column_of(a, c) == draw::column_of(b, c),
{
    assert forall|r: int| 0 <= r < a.len() implies a[r][c] == b[r][c] by {}
    assert(draw::column_of(a, c) =~= draw::column_of(b, c));
}

/// The columns that are settled.
proof fn lemma_settled_agree<S: Sampler>(
    s: S,
    a: Job,
    b: Job,
    column: Seq<char>,
    keys: Seq<Keys>,
    x: Seq<Seq<Cell>>,
    y: Seq<Seq<Cell>>,
    rng: rand::rngs::StdRng,
    n: nat,
)
    requires
        same_job_but(a, b, column),
        stands_alone(a, column),
        rows_agree(a.columns(), column, x, y),
        n <= a.columns().len(),
        generator::settled_from(s, a, keys, x, rng, n) is Ok,
        generator::settled_from(s, b, keys, y, rng, n) is Ok,
    ensures
        ({
            let p = generator::settled_from(s, a, keys, x, rng, n)->Ok_0;
            let q = generator::settled_from(s, b, keys, y, rng, n)->Ok_0;
            rows_agree(a.columns(), column, p.0, q.0) && p.1 == q.1
        }),
    decreases n,
{
    if n > 0 {
        let c = n - 1;
        lemma_settled_agree(s, a, b, column, keys, x, y, rng, c as nat);
        let p = generator::settled_from(s, a, keys, x, rng, c as nat)->Ok_0;
        let q = generator::settled_from(s, b, keys, y, rng, c as nat)->Ok_0;
        assert(a.is_key(c) == b.is_key(c));
        if a.is_key(c) {
            assert(a.columns()[c] != column);
            lemma_cells_agree(a.columns(), column, p.0, q.0, c);
            assert(a.again(keys, c) == b.again(keys, c));
            let cells = distinct::distinct_column(
                s,
                a.again(keys, c),
                draw::column_of(p.0, c),
                p.1,
            )->Ok_0.0;
            lemma_column_agrees(a.columns(), column, p.0, q.0, c, cells, cells);
        }
    }
}

/// What the rules say of a column of another name is the same.
proof fn lemma_said_of_others(
    a: TableRule,
    b: TableRule,
    table: TableModel,
    referenced: Seq<Seq<char>>,
    column: Seq<char>,
    other: Seq<char>,
)
    requires
        same_rule_but(a, b, column),
        other != column,
    ensures
        rules::column_rule(a.columns@, other) == rules::column_rule(b.columns@, other),
        overrides::is_conditional(a, other) == overrides::is_conditional(b, other),
        overrides::pin_fault(a, table, other) == overrides::pin_fault(b, table, other),
        overrides::pin_hold(a, table, other) == overrides::pin_hold(b, table, other),
        overrides::pinned_to_range(a, other) == overrides::pinned_to_range(b, other),
        overrides::override_fault(a, table, referenced, other) == overrides::override_fault(
            b,
            table,
            referenced,
            other,
        ),
        overrides::replaced(a, table, other) == overrides::replaced(b, table, other),
{
    assert(rules::column_rule(a.columns@, other) == rules::column_rule(b.columns@, other));
    assert(a.is_foreign_key(other) == b.is_foreign_key(other));
}

/// The rules that replace values.
proof fn lemma_replaced_agree<S: Sampler>(
    s: S,
    a: Job,
    b: Job,
    column: Seq<char>,
    x: Seq<Seq<Cell>>,
    y: Seq<Seq<Cell>>,
    picks: Seq<rand::rngs::StdRng>,
    ranges: Seq<rand::rngs::StdRng>,
    n: nat,
)
    requires
        same_job_but(a, b, column),
        rows_agree(a.columns(), column, x, y),
        n <= a.columns().len(),
        ({
            let p = overrides::rows_after(
                s,
                a.rule,
                a.table,
                a.referenced,
                a.columns(),
                a.enforce,
                x,
                picks,
                ranges,
                n,
            );
            let q = overrides::rows_after(
                s,
                b.rule,
                b.table,
                b.referenced,
                b.columns(),
                b.enforce,
                y,
                picks,
                ranges,
                n,
            );
            p is Ok && q is Ok
        }),
    ensures
        ({
            let p = overrides::rows_after(
                s,
                a.rule,
                a.table,
                a.referenced,
                a.columns(),
                a.enforce,
                x,
                picks,
                ranges,
                n,
            )->Ok_0;
            let q = overrides::rows_after(
                s,
                b.rule,
                b.table,
                b.referenced,
                b.columns(),
                b.enforce,
                y,
                picks,
                ranges,
                n,
            )->Ok_0;
            rows_agree(a.columns(), column, p, q)
        }),
    decreases n,
{
    if n > 0 {
        let c = n - 1;
        lemma_replaced_agree(s, a, b, column, x, y, picks, ranges, c as nat);
        let p = overrides::rows_after(
            s,
            a.rule,
            a.table,
            a.referenced,
            a.columns(),
            a.enforce,
            x,
            picks,
            ranges,
            c as nat,
        )->Ok_0;
        let q = overrides::rows_after(
            s,
            b.rule,
            b.table,
            b.referenced,
            b.columns(),
            b.enforce,
            y,
            picks,
            ranges,
            c as nat,
        )->Ok_0;
        let name = a.columns()[c];
        let d = overrides::column_after(
            s,
            a.rule,
            a.table,
            a.referenced,
            name,
            c as usize,
            a.enforce,
            draw::column_of(p, c),
            picks[c],
            ranges[c],
        );
        let e = overrides::column_after(
            s,
            b.rule,
            b.table,
            b.referenced,
            name,
            c as usize,
            b.enforce,
            draw::column_of(q, c),
            picks[c],
            ranges[c],
        );
        if name != column {
            lemma_said_of_others(a.rule, b.rule, a.table, a.referenced, column, name);
            lemma_cells_agree(a.columns(), column, p, q, c);
            assert(d == e);
        }
        lemma_column_agrees(a.columns(), column, p, q, c, d->Ok_0, e->Ok_0);
    }
}

/// The pins.
proof fn lemma_pins_agree<S: Sampler>(
    s: S,
    a: Job,
    b: Job,
    column: Seq<char>,
    streams: Seq<rand::rngs::StdRng>,
    n: nat,
)
    requires
        same_job_but(a, b, column),
        stands_alone(a, column),
        stands_alone(b, column),
        n <= a.columns().len(),
    ensures
        overrides::pins_from(
            s,
            a.rule,
            a.table,
            a.columns(),
            a.rows as usize,
            streams,
            n,
        ) == overrides::pins_from(
            s,
            b.rule,
            b.table,
            b.columns(),
            b.rows as usize,
            streams,
            n,
        ),
    decreases n,
{
    if n > 0 {
        lemma_pins_agree(s, a, b, column, streams, (n - 1) as nat);
        let name = a.columns()[n - 1];
        if name != column {
            lemma_said_of_others(a.rule, b.rule, a.table, a.referenced, column, name);
        }
    }
}

/// What the rows are drawn by.
proof fn lemma_sheets_agree(a: Job, b: Job, column: Seq<char>)
    requires
        same_job_but(a, b, column),
        stands_alone(a, column),
        stands_alone(b, column),
    ensures
        same_sheet_but(a.sheet(), b.sheet(), column),
{
    let columns = a.columns();
    assert forall|k: int| 0 <= k < columns.len() && columns[k] != column implies #[trigger] a.rates()[k]
        == b.rates()[k] by {
        lemma_said_of_others(a.rule, b.rule, a.table, a.referenced, column, columns[k]);
        assert(a.is_key(k) == b.is_key(k));
        assert(draw::is_overridden(a.rule, columns[k]) == draw::is_overridden(
            b.rule,
            columns[k],
        ));
    }
    assert forall|k: int| 0 <= k < columns.len() implies a.clipped()[k] == b.clipped()[k] by {
        if columns[k] != column {
            lemma_said_of_others(a.rule, b.rule, a.table, a.referenced, column, columns[k]);
        }
    }
    assert(a.clipped() =~= b.clipped());
}

/// The column is not drawn from a parent.
proof fn lemma_stands_unkeyed(job: Job, st: Stages, column: Seq<char>)
    requires
        generator::pools_ready(job, st.full),
        stands_alone(job, column),
    ensures
        unkeyed(pools::all_keys(st.full), column),
{
    let keys = pools::all_keys(st.full);
    assert forall|j: int| 0 <= j < keys.len() implies (#[trigger] keys[j]).column != column by {
        assert(pools::pool_of(
            st.full[j],
            job.rule.relationships@[j],
            job.pools,
            job.models,
            pools::chosen(job.rule.strategy),
        ));
    }
}

/// A rule on a column that takes no part in a relationship and is not drawn
/// conditionally leaves the other columns alone: with one seed, and from one place,
/// every other column that is neither computed nor written by a branch has the
/// same cells whatever the rule says of the column. Generation goes on from the
/// same place.
pub proof fn lemma_rule_leaves_other_columns<S: Sampler>(
    a: Job,
    b: Job,
    base: Option<u64>,
    from: Post<S>,
    t: GeneratedTable,
    after_t: Post<S>,
    u: GeneratedTable,
    after_u: Post<S>,
    column: Seq<char>,
    c: int,
)
    requires
        base is Some,
        same_job_but(a, b, column),
        stands_alone(a, column),
        stands_alone(b, column),
        generator::ran(a, base, from, t, after_t),
        generator::ran(b, base, from, u, after_u),
        0 <= c < a.columns().len(),
        a.columns()[c] != column,
        a.rows <= usize::MAX,
        !a.rule.is_derived(a.columns()[c]),
        !b.rule.is_derived(a.columns()[c]),
        integrity::unbranched(a.rule, a.columns()[c]),
        integrity::unbranched(b.rule, a.columns()[c]),
    ensures
        after_t == after_u,
        draw::column_of(t.cells(), c) == draw::column_of(u.cells(), c),
{
    reveal(generator::ran);
    let (st, mid) = choose|st: Stages, mid: Mid<S>| #[trigger]
        generator::ran_in(a, base, from, st, mid, t, after_t);
    let (su, nid) = choose|st: Stages, mid: Mid<S>| #[trigger]
        generator::ran_in(b, base, from, st, mid, u, after_u);
    let name = a.rule.name@;
    let columns = a.columns();
    repeat::lemma_same_streams(base, name, columns, "range"@, mid.pins, nid.pins);
    repeat::lemma_same_streams(base, name, columns, "null"@, mid.nulls, nid.nulls);
    repeat::lemma_same_streams(base, name, columns, "values"@, mid.picks, nid.picks);
    repeat::lemma_same_streams(base, name, columns, "range"@, mid.ranges, nid.ranges);
    lemma_pins_agree(from.sampler, a, b, column, mid.pins, columns.len());
    assert(mid.pinned == nid.pinned);
    assert(a.pinned() == b.pinned());
    assert(mid.sampled == nid.sampled);
    assert(generator::pools_ready(a, su.full));
    repeat::lemma_same_keys(a, st.full, su.full);
    lemma_sheets_agree(a, b, column);
    lemma_stands_unkeyed(a, st, column);
    let keys = pools::all_keys(st.full);
    let start = Drawing {
        rows: Seq::empty(),
        row: Seq::empty(),
        keys,
        nulls: mid.nulls,
        rng: from.rng,
    };
    lemma_draws_agree(mid.sampled, a.sheet(), b.sheet(), column, start, start, a.rows);
    assert(draws_agree(columns, column, mid.drawing, nid.drawing));
    lemma_settled_agree(
        mid.sampled,
        a,
        b,
        column,
        mid.drawing.keys,
        mid.drawing.rows,
        nid.drawing.rows,
        mid.drawing.rng,
        columns.len(),
    );
    assert(rows_agree(columns, column, st.settled, su.settled));
    lemma_replaced_agree(
        mid.sampled,
        a,
        b,
        column,
        st.settled,
        su.settled,
        mid.picks,
        mid.ranges,
        columns.len(),
    );
    assert(rows_agree(columns, column, st.replaced, su.replaced));
    lemma_cells_agree(columns, column, st.replaced, su.replaced, c);
    integrity::lemma_column_kept(a, st, t, c);
    integrity::lemma_column_kept(b, su, u, c);
}

/// A table that nothing is computed in and that has no branches.
pub open spec fn is_plain(rule: TableRule) -> bool {
    rule.derive@.len() == 0 && rule.branches@.len() == 0
}

/// Rules for one table that is plain.
pub open spec fn one_plain_table(rules: SynthRules) -> bool {
    rules.tables@.len() == 1 && is_plain(rules.tables@[0])
}

/// A rule fixes a column and says nothing of how it is drawn.
pub open spec fn fixes(rule: TableRule, column: Seq<char>, literal: Seq<char>) -> bool {
    match rules::column_rule(rule.columns@, column) {
        Some(c) => c.fixed is Some && c.fixed->0@ == literal && c.mode
            != ColumnMode::CopulaConditional,
        None => false,
    }
}

/// The only table of a run and what it was made from.
proof fn lemma_only_table<S: Sampler>(
    s: S,
    models: Seq<TableModel>,
    rules: SynthRules,
    config: GeneratorConfig,
    limit: nat,
    order: Seq<Seq<char>>,
    data: GeneratedData,
    posts: Seq<Post<S>>,
)
    requires
        rules.tables@.len() == 1,
        generator::run(s, models, rules, config, limit, order, data, posts),
    ensures
        ({
            let rule = rules.tables@[0];
            let job = Job {
                models,
                rule,
                table: pools::model_at(models, rule.name@)->0,
                pools: Seq::empty(),
                referenced: generator::referenced_keys(rules),
                rows: generator::rows_wanted(config, rule) as nat,
                limit,
                enforce: config.enforce_min_max_values,
            };
            &&& data.tables@.len() == 1
            &&& generator::made(job, data.tables@[0])
            &&& generator::ran(job, config.seed, posts[0], data.tables@[0], posts[1])
        }),
{
    let all = data.tables@;
    let rule = rules.tables@[0];
    assert(all[0].name@ == order[0]);
    assert(generator::made_at(models, rules, config, limit, order, all, 0));
    assert(rules.tables@.skip(1) =~= Seq::empty());
    assert(generator::rule_at(rules.tables@.skip(1), order[0]) is None);
    assert(order[0] == rule.name@);
    assert(all.take(0) =~= Seq::empty());
    assert(generator::pools_of(all.take(0)) =~= Seq::empty());
}

/// Of two sets of rules that refer to the same keys, the lists of these are the same.
proof fn lemma_same_references(a: SynthRules, b: SynthRules)
    requires
        a.tables@.len() == 1,
        b.tables@.len() == 1,
        a.tables@[0].relationships@ == b.tables@[0].relationships@,
        generator::lists_references(a, generator::referenced_keys(a)),
        generator::lists_references(b, generator::referenced_keys(b)),
    ensures
        generator::referenced_keys(a) == generator::referenced_keys(b),
{
    let x = generator::referenced_keys(a);
    let y = generator::referenced_keys(b);
    assert forall|key: Seq<char>| pools::is_referenced(a.tables@, key) == pools::is_referenced(
        b.tables@,
        key,
    ) by {
        lemma_refers_too(a, b, key);
        lemma_refers_too(b, a, key);
    }
    assert forall|n: Seq<char>| x.contains(n) <==> y.contains(n) by {}
    names::lemma_ascending_unique(x, y);
}

proof fn lemma_refers_too(a: SynthRules, b: SynthRules, key: Seq<char>)
    requires
        a.tables@.len() == 1,
        b.tables@.len() == 1,
        a.tables@[0].relationships@ == b.tables@[0].relationships@,
    ensures
        pools::is_referenced(a.tables@, key) ==> pools::is_referenced(b.tables@, key),
{
    if pools::is_referenced(a.tables@, key) {
        let (t, r, k) = choose|t: int, r: int, k: int|
            0 <= t < a.tables@.len() && 0 <= r < a.tables@[t].relationships@.len() && 0 <= k
                < a.tables@[t].relationships@[r].references@.len()
                && #[trigger] a.tables@[t].relationships@[r].references@[k]@ == key;
        assert(b.tables@[t].relationships@[r].references@[k]@ == key);
    }
}

/// Fixing a column leaves the others alone: where one of two sets of rules for one
/// table fixes a column that takes no part in a relationship, and the other says
/// nothing of it, both give the same cells in every other column, row by row, with
/// one seed; and the fixed column holds the typed literal in every row.
pub proof fn lemma_fixed_column_leaves_the_others<S: Sampler>(
    s: S,
    models: Seq<TableModel>,
    free: SynthRules,
    fixed: SynthRules,
    config: GeneratorConfig,
    limit: nat,
    d: GeneratedData,
    end_d: S,
    e: GeneratedData,
    end_e: S,
    column: Seq<char>,
    literal: Seq<char>,
    r: int,
    c: int,
)
    requires
        config.seed is Some,
        one_plain_table(free),
        one_plain_table(fixed),
        same_rule_but(free.tables@[0], fixed.tables@[0], column),
        free.tables@[0].rows == fixed.tables@[0].rows,
        rules::column_rule(free.tables@[0].columns@, column) is None,
        fixes(fixed.tables@[0], column, literal),
        !pools::is_referenced(
            free.tables@,
            branch::key_of(free.tables@[0].name@, column),
        ),
        !free.tables@[0].is_foreign_key(column),
        generator::some_run(s, models, free, config, limit, d, end_d),
        generator::some_run(s, models, fixed, config, limit, e, end_e),
        0 <= r < d.tables@[0].cells().len(),
        0 <= c < d.tables@[0].columns@.len(),
    ensures
        d.tables@.len() == 1,
        e.tables@.len() == 1,
        e.tables@[0].columns.deep_view() == d.tables@[0].columns.deep_view(),
        e.tables@[0].cells().len() == d.tables@[0].cells().len(),
        d.tables@[0].columns@[c]@ != column ==> e.tables@[0].cells()[r][c]
            == d.tables@[0].cells()[r][c],
        d.tables@[0].columns@[c]@ == column ==> e.tables@[0].cells()[r][c]
            == literal::literal_cell(
            literal,
            pools::model_at(models, free.tables@[0].name@)->0.numerical(column),
        ),
{
    let (order, posts) = choose|order: Seq<Seq<char>>, posts: Seq<Post<S>>| #[trigger]
        generator::run(s, models, free, config, limit, order, d, posts) && posts.last().sampler
            == end_d;
    let (other, qosts) = choose|order: Seq<Seq<char>>, posts: Seq<Post<S>>| #[trigger]
        generator::run(s, models, fixed, config, limit, order, e, posts) && posts.last().sampler
            == end_e;
    lemma_only_table(s, models, free, config, limit, order, d, posts);
    lemma_only_table(s, models, fixed, config, limit, other, e, qosts);
    lemma_same_references(free, fixed);
    let one = free.tables@[0];
    let two = fixed.tables@[0];
    let a = Job {
        models,
        rule: one,
        table: pools::model_at(models, one.name@)->0,
        pools: Seq::empty(),
        referenced: generator::referenced_keys(free),
        rows: generator::rows_wanted(config, one) as nat,
        limit,
        enforce: config.enforce_min_max_values,
    };
    let b = Job {
        models,
        rule: two,
        table: pools::model_at(models, two.name@)->0,
        pools: Seq::empty(),
        referenced: generator::referenced_keys(fixed),
        rows: generator::rows_wanted(config, two) as nat,
        limit,
        enforce: config.enforce_min_max_values,
    };
    let t = d.tables@[0];
    let u = e.tables@[0];
    assert(posts[0] == qosts[0]);
    assert(same_job_but(a, b, column));
    assert(stands_alone(a, column));
    assert(stands_alone(b, column));
    lemma_shape(a, t);
    lemma_shape(b, u);
    assert(t.columns.deep_view()[c] == t.columns@[c]@);
    if a.columns()[c] != column {
        lemma_rule_leaves_other_columns(
            a,
            b,
            config.seed,
            posts[0],
            t,
            posts[1],
            u,
            qosts[1],
            column,
            c,
        );
        assert(draw::column_of(t.cells(), c)[r] == draw::column_of(u.cells(), c)[r]);
    } else {
        integrity::lemma_replaced_values_hold(b, u, r, c);
    }
}

/// What a generated table looks like.
proof fn lemma_shape(job: Job, t: GeneratedTable)
    requires
        generator::made(job, t),
    ensures
        t.columns.deep_view() == job.columns(),
        t.cells().len() == job.rows,
{
    reveal(generator::made);
    let st = choose|st: Stages| #[trigger] generator::made_in(job, st, t);
}

} // verus!
