//! What a seed fixes: everything that is generated.
use crate::branch;
use crate::branch::BranchOutcome;
use crate::derivation;
use crate::derivation::DerivePlan;
use crate::draw::Sampler;
use crate::expr;
use crate::generator;
use crate::generator::{
    GeneratedData,
    GeneratedTable,
    GeneratorConfig,
    Job,
    Mid,
    Post,
    Stages,
    ValuePoolOutcome,
};
use crate::model::TableModel;
use crate::parser;
use crate::pools;
use crate::pools::RelPool;
use crate::rules::{DeriveRule, SynthRules, TableRule};
use crate::seed;
use crate::value::Cell;
use vstd::prelude::*;

verus! {

/// Streams of one seed are the same.
pub(crate) proof fn lemma_same_streams(
    base: Option<u64>,
    table: Seq<char>,
    columns: Seq<Seq<char>>,
    purpose: Seq<char>,
    a: Seq<rand::rngs::StdRng>,
    b: Seq<rand::rngs::StdRng>,
)
    requires
        base is Some,
        seed::all_fit(base, table, columns, purpose, a),
        seed::all_fit(base, table, columns, purpose, b),
    ensures
        a == b,
{
    assert forall|c: int| 0 <= c < columns.len() implies a[c] == b[c] by {
        let at = seed::seed_of(base, seed::stream_label(table, columns[c], purpose));
        assert(seed::fits(at, a[c]) && seed::fits(at, b[c]));
    }
    assert(a =~= b);
}

/// The keys that a table's relationships draw from are the same.
pub(crate) proof fn lemma_same_keys(job: Job, a: Seq<RelPool>, b: Seq<RelPool>)
    requires
        generator::pools_ready(job, a),
        generator::pools_ready(job, b),
    ensures
        pools::all_keys(a) == pools::all_keys(b),
{
    let x = pools::all_keys(a);
    let y = pools::all_keys(b);
    assert forall|j: int| 0 <= j < a.len() implies x[j] == y[j] by {
        let strategy = pools::chosen(job.rule.strategy);
        assert(pools::pool_of(
            a[j],
            job.rule.relationships@[j],
            job.pools,
            job.models,
            strategy,
        ));
        assert(pools::pool_of(
            b[j],
            job.rule.relationships@[j],
            job.pools,
            job.models,
            strategy,
        ));
    }
    assert(x =~= y);
}

/// Two runs of a table from one place with one seed go through the same phases, as
/// far as both of them get.
proof fn lemma_same_phases<S: Sampler>(
    job: Job,
    base: Option<u64>,
    from: Post<S>,
    st1: Stages,
    mid1: Mid<S>,
    st2: Stages,
    mid2: Mid<S>,
)
    requires
        base is Some,
        generator::pools_ready(job, st1.full),
        generator::pools_ready(job, st2.full),
    ensures
        pools::all_keys(st1.full) == pools::all_keys(st2.full),
        generator::pinned_by(job, base, from, mid1) && generator::pinned_by(job, base, from, mid2)
            ==> mid1.pinned == mid2.pinned,
        generator::sampled_by(job, base, from, mid1) && generator::sampled_by(
            job,
            base,
            from,
            mid2,
        ) ==> mid1.sampled == mid2.sampled,
        generator::drawn_by(job, base, from, st1, mid1) && generator::drawn_by(
            job,
            base,
            from,
            st2,
            mid2,
        ) ==> mid1.drawing == mid2.drawing,
        generator::settled_by(job, base, from, st1, mid1) && generator::settled_by(
            job,
            base,
            from,
            st2,
            mid2,
        ) ==> st1.settled == st2.settled && mid1.rng == mid2.rng,
        generator::replaced_by(job, base, from, st1, mid1) && generator::replaced_by(
            job,
            base,
            from,
            st2,
            mid2,
        ) ==> st1.replaced == st2.replaced,
        generator::ran_by(job, base, from, st1, mid1) && generator::ran_by(
            job,
            base,
            from,
            st2,
            mid2,
        ) ==> st1.targets == st2.targets,
{
    let name = job.rule.name@;
    let columns = job.columns();
    lemma_same_keys(job, st1.full, st2.full);
    if generator::pinned_by(job, base, from, mid1) && generator::pinned_by(
        job,
        base,
        from,
        mid2,
    ) {
        lemma_same_streams(base, name, columns, "range"@, mid1.pins, mid2.pins);
    }
    if generator::drawn_by(job, base, from, st1, mid1) && generator::drawn_by(
        job,
        base,
        from,
        st2,
        mid2,
    ) {
        lemma_same_streams(base, name, columns, "null"@, mid1.nulls, mid2.nulls);
    }
    if generator::replaced_by(job, base, from, st1, mid1) && generator::replaced_by(
        job,
        base,
        from,
        st2,
        mid2,
    ) {
        lemma_same_streams(base, name, columns, "values"@, mid1.picks, mid2.picks);
        lemma_same_streams(base, name, columns, "range"@, mid1.ranges, mid2.ranges);
    }
}

/// All plans that follow the rules have the same steps.
proof fn lemma_same_steps(
    a: DerivePlan,
    b: DerivePlan,
    table: Seq<char>,
    rules: Seq<DeriveRule>,
    model: TableModel,
    columns: Seq<Seq<char>>,
)
    requires
        derivation::follows(a, table, rules, model, columns),
        derivation::follows(b, table, rules, model, columns),
    ensures
        a.steps() == b.steps(),
{
    let x = a.steps();
    let y = b.steps();
    assert forall|j: int| 0 <= j < x.len() implies x[j] == y[j] by {
        assert(derivation::step_names(x)[j] == derivation::step_names(y)[j]);
        assert(x[j] == derivation::step_of(rules, model, columns, x[j].column));
        assert(y[j] == derivation::step_of(rules, model, columns, y[j].column));
    }
    assert(x =~= y);
}

/// What is computed from the same rows is the same.
proof fn lemma_same_computed(
    rule: TableRule,
    table: TableModel,
    columns: Seq<Seq<char>>,
    before: Seq<Seq<Cell>>,
    a: Seq<Seq<Cell>>,
    b: Seq<Seq<Cell>>,
)
    requires
        generator::derived(rule, table, columns, before, a),
        generator::derived(rule, table, columns, before, b),
    ensures
        a == b,
{
    if rule.derive@.len() > 0 {
        let p = choose|plan: DerivePlan| #[trigger]
            generator::derived_by(plan, rule, table, columns, before, Ok(a));
        let q = choose|plan: DerivePlan| #[trigger]
            generator::derived_by(plan, rule, table, columns, before, Ok(b));
        lemma_same_steps(p, q, rule.name@, rule.derive@, table, columns);
    }
}

/// Two reports on a branch say the same.
pub open spec fn same_outcome(a: BranchOutcome, b: BranchOutcome) -> bool {
    &&& a.id@ == b.id@
    &&& a.matching == b.matching
    &&& a.flips == b.flips
    &&& a.rounds == b.rounds
    &&& a.failed_evaluations == b.failed_evaluations
    &&& a.status == b.status
}

/// Two reports on a pool say the same.
pub open spec fn same_counts(a: ValuePoolOutcome, b: ValuePoolOutcome) -> bool {
    &&& a.column@ == b.column@
    &&& a.hits@.len() == b.hits@.len()
    &&& forall|i: int|
        0 <= i < a.hits@.len() ==> (#[trigger] a.hits@[i]).0@ == b.hits@[i].0@ && a.hits@[i].1
            == b.hits@[i].1
}

/// Two generated tables are the same.
pub open spec fn same_table(a: GeneratedTable, b: GeneratedTable) -> bool {
    &&& a.name@ == b.name@
    &&& a.columns.deep_view() == b.columns.deep_view()
    &&& a.cells() == b.cells()
    &&& a.schema.deep_view() == b.schema.deep_view()
    &&& a.warnings.deep_view() == b.warnings.deep_view()
    &&& a.branches@.len() == b.branches@.len()
    &&& forall|i: int|
        0 <= i < a.branches@.len() ==> same_outcome(#[trigger] a.branches@[i], b.branches@[i])
    &&& a.value_pools@.len() == b.value_pools@.len()
    &&& forall|i: int|
        0 <= i < a.value_pools@.len() ==> same_counts(
            #[trigger] a.value_pools@[i],
            b.value_pools@[i],
        )
}

/// Repairs of the same rows come to the same.
proof fn lemma_same_repair(
    job: Job,
    st1: Stages,
    rows1: Seq<Seq<Cell>>,
    outcomes1: Seq<BranchOutcome>,
    st2: Stages,
    rows2: Seq<Seq<Cell>>,
    outcomes2: Seq<BranchOutcome>,
)
    requires
        generator::was_repaired(job, st1, rows1, outcomes1),
        generator::was_repaired(job, st2, rows2, outcomes2),
        st1.computed == st2.computed,
        st1.targets == st2.targets,
    ensures
        rows1 == rows2,
        outcomes1.len() == outcomes2.len(),
        forall|i: int|
            0 <= i < outcomes1.len() ==> same_outcome(#[trigger] outcomes1[i], outcomes2[i]),
{
    if job.rule.branches@.len() > 0 {
        let p = choose|plan: DerivePlan| #[trigger]
            branch::repaired(
                plan,
                job.rule,
                job.table,
                job.columns(),
                job.referenced,
                st1.targets,
                job.limit,
                st1.computed,
                rows1,
                outcomes1,
            );
        let q = choose|plan: DerivePlan| #[trigger]
            branch::repaired(
                plan,
                job.rule,
                job.table,
                job.columns(),
                job.referenced,
                st2.targets,
                job.limit,
                st2.computed,
                rows2,
                outcomes2,
            );
        lemma_same_steps(p, q, job.rule.name@, job.rule.derive@, job.table, job.columns());
        let g = branch::ground_of(
            p,
            job.rule,
            job.table,
            job.columns(),
            job.referenced,
            st1.targets,
        );
        let ended = branch::rounds(
            g,
            branch::fresh(st1.computed, g.branches.len()),
            0,
            job.limit,
        );
        assert forall|i: int| 0 <= i < outcomes1.len() implies same_outcome(
            #[trigger] outcomes1[i],
            outcomes2[i],
        ) by {
            let rule = job.rule.branches@[i];
            assert(branch::reported(
                g,
                rule,
                i,
                st1.computed,
                ended->Ok_0.0,
                ended->Ok_0.1,
                outcomes1[i],
            ));
            assert(branch::reported(
                g,
                rule,
                i,
                st1.computed,
                ended->Ok_0.0,
                ended->Ok_0.1,
                outcomes2[i],
            ));
        }
    }
}

/// Reports on the pools of the same rows say the same.
proof fn lemma_same_reports(
    rule: TableRule,
    table: TableModel,
    columns: Seq<Seq<char>>,
    rows: Seq<Seq<Cell>>,
    a: Seq<ValuePoolOutcome>,
    b: Seq<ValuePoolOutcome>,
)
    requires
        generator::pool_reports(a, rule, table, columns, rows),
        generator::pool_reports(b, rule, table, columns, rows),
    ensures
        a.len() == b.len(),
        forall|i: int| 0 <= i < a.len() ==> same_counts(#[trigger] a[i], b[i]),
{
}

/// From one place and with one seed a table comes out the same every time, and
/// generation goes on from the same place.
pub proof fn lemma_one_seed_one_table<S: Sampler>(
    job: Job,
    base: Option<u64>,
    from: Post<S>,
    a: GeneratedTable,
    after_a: Post<S>,
    b: GeneratedTable,
    after_b: Post<S>,
)
    requires
        base is Some,
        generator::ran(job, base, from, a, after_a),
        generator::ran(job, base, from, b, after_b),
    ensures
        same_table(a, b),
        after_a == after_b,
{
    reveal(generator::ran);
    let (st1, mid1) = choose|st: Stages, mid: Mid<S>| #[trigger]
        generator::ran_in(job, base, from, st, mid, a, after_a);
    let (st2, mid2) = choose|st: Stages, mid: Mid<S>| #[trigger]
        generator::ran_in(job, base, from, st, mid, b, after_b);
    lemma_same_phases(job, base, from, st1, mid1, st2, mid2);
    lemma_same_computed(
        job.rule,
        job.table,
        job.columns(),
        st1.replaced,
        st1.computed,
        st2.computed,
    );
    lemma_same_repair(job, st1, a.cells(), a.branches@, st2, b.cells(), b.branches@);
    lemma_same_reports(
        job.rule,
        job.table,
        job.columns(),
        st1.computed,
        a.value_pools@,
        b.value_pools@,
    );
}

/// Where no computed column is a parent key, none is barred.
proof fn lemma_not_barred(rule: TableRule, referenced: Seq<Seq<char>>, from: int)
    requires
        branch::derives_no_parent_key(rule, referenced),
        0 <= from,
    ensures
        branch::barred_from(rule, referenced, from) is None,
    decreases rule.derive@.len() - from,
{
    if from < rule.derive@.len() {
        lemma_not_barred(rule, referenced, from + 1);
    }
}

/// Where a plan follows the rules, one can be made.
proof fn lemma_planned(
    plan: DerivePlan,
    table: Seq<char>,
    rules: Seq<DeriveRule>,
    model: TableModel,
    columns: Seq<Seq<char>>,
    m: Seq<char>,
)
    requires
        derivation::follows(plan, table, rules, model, columns),
    ensures
        !derivation::unplanned(table, rules, columns, m),
{
    assert(derivation::rule_order(rules).len() == rules.len());
    if derivation::some_rejected(table, rules, m) {
        let i = choose|i: int| #[trigger] derivation::rejected(table, rules, i, m);
        assert(parser::parsed_text(rules[i].expr@) is Ok);
    }
    if derivation::some_unknown(table, rules, columns, m) {
        let i = choose|i: int| #[trigger] derivation::unknown(table, rules, columns, i, m);
        assert(derivation::rule_known(rules, columns, i));
        let tree = parser::parsed_text(rules[i].expr@)->Ok_0;
        if derivation::input_missing(table, rules[i].column@, tree, columns, m) {
            let n = choose|n: Seq<char>| #[trigger]
                derivation::missing_first(tree, columns, n) && m == derivation::heading(
                    table,
                    rules[i].column@,
                ) + "unknown column '"@ + n + "'"@;
            assert(expr::mentions(tree, n));
        }
    }
}

/// Rows whose columns were computed can be.
proof fn lemma_computable(
    job: Job,
    st: Stages,
    before: Seq<Seq<Cell>>,
    m: Seq<char>,
)
    requires
        generator::was_computed(job, st),
        before == st.replaced,
    ensures
        !generator::underived(job.rule, job.table, job.referenced, job.columns(), before, m),
{
    let rule = job.rule;
    let columns = job.columns();
    lemma_not_barred(rule, job.referenced, 0);
    if generator::underived(rule, job.table, job.referenced, columns, before, m) {
        let p = choose|plan: DerivePlan| #[trigger]
            generator::derived_by(plan, rule, job.table, columns, before, Ok(st.computed));
        lemma_planned(p, rule.name@, rule.derive@, job.table, columns, m);
        let q = choose|plan: DerivePlan| #[trigger]
            generator::derived_by(plan, rule, job.table, columns, before, Err(m));
        lemma_same_steps(p, q, rule.name@, rule.derive@, job.table, columns);
    }
}

/// Rows that were repaired can be.
proof fn lemma_repairable(
    job: Job,
    st: Stages,
    rows: Seq<Seq<Cell>>,
    outcomes: Seq<BranchOutcome>,
    m: Seq<char>,
)
    requires
        generator::was_repaired(job, st, rows, outcomes),
        job.rule.branches@.len() > 0,
    ensures
        branch::all_fine(job.rule, job.referenced, job.columns()),
        !branch::unrepaired(
            job.rule,
            job.table,
            job.columns(),
            job.referenced,
            st.targets,
            job.limit,
            st.computed,
            m,
        ),
{
    let rule = job.rule;
    let columns = job.columns();
    let p = choose|plan: DerivePlan| #[trigger]
        branch::repaired(
            plan,
            rule,
            job.table,
            columns,
            job.referenced,
            st.targets,
            job.limit,
            st.computed,
            rows,
            outcomes,
        );
    lemma_planned(p, rule.name@, rule.derive@, job.table, columns, m);
    if branch::unrepaired(
        rule,
        job.table,
        columns,
        job.referenced,
        st.targets,
        job.limit,
        st.computed,
        m,
    ) {
        let q = choose|plan: DerivePlan| #[trigger]
            derivation::follows(plan, rule.name@, rule.derive@, job.table, columns) && {
                let g = branch::ground_of(
                    plan,
                    rule,
                    job.table,
                    columns,
                    job.referenced,
                    st.targets,
                );
                ||| branch::some_unevaluable(g, rule.branches@, st.computed, m)
                ||| branch::rounds(g, branch::fresh(st.computed, g.branches.len()), 0, job.limit)
                    == Err::<(branch::Repair, nat), Seq<char>>(m)
            };
        lemma_same_steps(p, q, rule.name@, rule.derive@, job.table, columns);
        let g = branch::ground_of(p, rule, job.table, columns, job.referenced, st.targets);
        if branch::some_unevaluable(g, rule.branches@, st.computed, m) {
            let i = choose|i: int| #[trigger]
                branch::unevaluable(g, rule.branches@, st.computed, i, m);
            assert(branch::evaluable(g, st.computed, i));
        }
    }
}

/// From one place and with one seed a table is either made every time or never.
pub proof fn lemma_one_seed_made_or_stopped<S: Sampler>(
    job: Job,
    base: Option<u64>,
    from: Post<S>,
    t: GeneratedTable,
    after: Post<S>,
    m: Seq<char>,
)
    requires
        base is Some,
    ensures
        !(generator::ran(job, base, from, t, after) && generator::stopped(job, base, from, m)),
{
    if generator::ran(job, base, from, t, after) && generator::stopped(job, base, from, m) {
        reveal(generator::ran);
        reveal(generator::stopped);
        let (st1, mid1) = choose|st: Stages, mid: Mid<S>| #[trigger]
            generator::ran_in(job, base, from, st, mid, t, after);
        let (st2, mid2) = choose|st: Stages, mid: Mid<S>| #[trigger]
            generator::stopped_in(job, base, from, st, mid, m);
        let name = job.rule.name@;
        let columns = job.columns();
        if pools::sourceless(name, job.rule.relationships@, job.pools, m) {
            let i = choose|i: int| #[trigger]
                pools::sourceless_at(name, job.rule.relationships@, job.pools, i, m);
            assert(pools::has_source(job.rule.relationships@[i], job.pools));
        }
        assert(generator::pools_ready(job, st2.full));
        lemma_same_phases(job, base, from, st1, mid1, st2, mid2);
        if seed::all_fit(base, name, columns, "range"@, mid2.pins) {
            lemma_same_streams(base, name, columns, "range"@, mid1.pins, mid2.pins);
        }
        if seed::all_fit(base, name, columns, "null"@, mid2.nulls) {
            lemma_same_streams(base, name, columns, "null"@, mid1.nulls, mid2.nulls);
        }
        if generator::replacing_fits(job, base, mid2) {
            lemma_same_streams(base, name, columns, "values"@, mid1.picks, mid2.picks);
            lemma_same_streams(base, name, columns, "range"@, mid1.ranges, mid2.ranges);
        }
        lemma_computable(job, st1, st1.replaced, m);
        if generator::ran_by(job, base, from, st2, mid2) && generator::was_computed(job, st2)
            && job.rule.branches@.len() > 0 {
            lemma_same_computed(
                job.rule,
                job.table,
                columns,
                st1.replaced,
                st1.computed,
                st2.computed,
            );
            lemma_repairable(job, st1, t.cells(), t.branches@, m);
        }
    }
}

/// The columns of the same tables are the same pools.
proof fn lemma_same_pools(a: Seq<GeneratedTable>, b: Seq<GeneratedTable>)
    requires
        a.len() == b.len(),
        forall|i: int| 0 <= i < a.len() ==> same_table(#[trigger] a[i], b[i]),
    ensures
        generator::pools_of(a) == generator::pools_of(b),
    decreases a.len(),
{
    if a.len() > 0 {
        let x = a.last();
        let y = b.last();
        assert(same_table(a[a.len() - 1], b[a.len() - 1]));
        assert forall|i: int| 0 <= i < a.drop_last().len() implies same_table(
            #[trigger] a.drop_last()[i],
            b.drop_last()[i],
        ) by {
            assert(same_table(a[i], b[i]));
        }
        lemma_same_pools(a.drop_last(), b.drop_last());
        let p = generator::table_pools(x);
        let q = generator::table_pools(y);
        assert(x.columns.deep_view().len() == y.columns.deep_view().len());
        assert forall|c: int| 0 <= c < p.len() implies p[c] == q[c] by {
            assert(x.columns.deep_view()[c] == y.columns.deep_view()[c]);
        }
        assert(p =~= q);
    }
}

/// One seed, one result: what is generated twice with the same sampler, models, rules
/// and configuration is the same, table by table and cell by cell.
pub proof fn lemma_one_seed_one_result<S: Sampler>(
    s: S,
    models: Seq<TableModel>,
    rules: SynthRules,
    config: GeneratorConfig,
    limit: nat,
    a: GeneratedData,
    end_a: S,
    b: GeneratedData,
    end_b: S,
)
    requires
        config.seed is Some,
        generator::some_run(s, models, rules, config, limit, a, end_a),
        generator::some_run(s, models, rules, config, limit, b, end_b),
    ensures
        a.dialect@ == b.dialect@,
        a.tables@.len() == b.tables@.len(),
        forall|i: int|
            0 <= i < a.tables@.len() ==> same_table(#[trigger] a.tables@[i], b.tables@[i]),
        end_a == end_b,
{
    let (order, posts_a) = choose|order: Seq<Seq<char>>, posts: Seq<Post<S>>| #[trigger]
        generator::run(s, models, rules, config, limit, order, a, posts) && posts.last().sampler
            == end_a;
    let (other, posts_b) = choose|order: Seq<Seq<char>>, posts: Seq<Post<S>>| #[trigger]
        generator::run(s, models, rules, config, limit, order, b, posts) && posts.last().sampler
            == end_b;
    assert(order == other);
    let n = a.tables@.len();
    lemma_same_begin(
        s,
        models,
        rules,
        config,
        limit,
        order,
        a.tables@,
        posts_a,
        b.tables@,
        posts_b,
        n,
    );
    assert(posts_a[n as int] == posts_b[n as int]);
}

/// One seed, one result: what was generated once does not fail the next time, with the
/// same sampler, models, rules and configuration.
pub proof fn lemma_one_seed_succeeds_again<S: Sampler>(
    s: S,
    models: Seq<TableModel>,
    rules: SynthRules,
    config: GeneratorConfig,
    limit: nat,
    data: GeneratedData,
    end: S,
    m: Seq<char>,
)
    requires
        config.seed is Some,
        generator::some_run(s, models, rules, config, limit, data, end),
    ensures
        !generator::circular(rules, m),
        !generator::some_broken_off(s, models, rules, config, limit, m),
{
    let (order, posts) = choose|order: Seq<Seq<char>>, posts: Seq<Post<S>>| #[trigger]
        generator::run(s, models, rules, config, limit, order, data, posts)
            && posts.last().sampler == end;
    if generator::some_broken_off(s, models, rules, config, limit, m) {
        let (other, done, posts_done) = choose|
            order: Seq<Seq<char>>,
            done: Seq<GeneratedTable>,
            posts: Seq<Post<S>>,
        | #[trigger]
            generator::broken_off(s, models, rules, config, limit, order, done, posts, m);
        assert(order == other);
        lemma_ends_or_halts(
            s,
            models,
            rules,
            config,
            limit,
            order,
            data,
            posts,
            done,
            posts_done,
            m,
        );
    }
}

/// A run with one seed does not come to its end one time and to a halt another.
proof fn lemma_ends_or_halts<S: Sampler>(
    s: S,
    models: Seq<TableModel>,
    rules: SynthRules,
    config: GeneratorConfig,
    limit: nat,
    order: Seq<Seq<char>>,
    data: GeneratedData,
    posts: Seq<Post<S>>,
    done: Seq<GeneratedTable>,
    posts_done: Seq<Post<S>>,
    m: Seq<char>,
)
    requires
        config.seed is Some,
    ensures
        !(generator::run(s, models, rules, config, limit, order, data, posts)
            && generator::broken_off(
            s,
            models,
            rules,
            config,
            limit,
            order,
            done,
            posts_done,
            m,
        )),
{
    if generator::run(s, models, rules, config, limit, order, data, posts)
        && generator::broken_off(
        s,
        models,
        rules,
        config,
        limit,
        order,
        done,
        posts_done,
        m,
    ) {
        let all = data.tables@;
        let k = done.len() as int;
        lemma_same_begin(
            s,
            models,
            rules,
            config,
            limit,
            order,
            all,
            posts,
            done,
            posts_done,
            k as nat,
        );
        assert forall|i: int| 0 <= i < all.take(k).len() implies same_table(
            #[trigger] all.take(k)[i],
            done[i],
        ) by {
            assert(same_table(all[i], done[i]));
        }
        lemma_same_pools(all.take(k), done);
        assert(posts[k] == posts_done[k]);
        assert(all[k].name@ == order[k]);
        lemma_one_seed_made_or_stopped(
            generator::job_for(models, rules, config, limit, done, order[k]),
            config.seed,
            posts[k],
            all[k],
            posts[k + 1],
            m,
        );
    }
}

/// Two runs that begin alike have the same first tables.
#[verifier::spinoff_prover]
#[verifier::rlimit(60)]
proof fn lemma_same_begin<S: Sampler>(
    s: S,
    models: Seq<TableModel>,
    rules: SynthRules,
    config: GeneratorConfig,
    limit: nat,
    order: Seq<Seq<char>>,
    a: Seq<GeneratedTable>,
    posts_a: Seq<Post<S>>,
    b: Seq<GeneratedTable>,
    posts_b: Seq<Post<S>>,
    n: nat,
)
    requires
        config.seed is Some,
        n <= a.len(),
        n <= b.len(),
        generator::all_ran(models, rules, config, limit, order, a, posts_a),
        generator::all_ran(models, rules, config, limit, order, b, posts_b),
        generator::begins(s, config, posts_a[0]),
        generator::begins(s, config, posts_b[0]),
    ensures
        forall|i: int| 0 <= i < n ==> same_table(#[trigger] a[i], b[i]),
        forall|i: int| 0 <= i <= n ==> #[trigger] posts_a[i] == posts_b[i],
    decreases n,
{
    if n > 0 {
        let k = n - 1;
        lemma_same_begin(
            s,
            models,
            rules,
            config,
            limit,
            order,
            a,
            posts_a,
            b,
            posts_b,
            k as nat,
        );
        assert forall|i: int| 0 <= i < a.take(k).len() implies same_table(
            #[trigger] a.take(k)[i],
            b.take(k)[i],
        ) by {
            assert(same_table(a[i], b[i]));
        }
        lemma_same_pools(a.take(k), b.take(k));
        assert(posts_a[k] == posts_b[k]);
        let job = generator::job_for(models, rules, config, limit, a.take(k), order[k]);
        assert(job == generator::job_for(models, rules, config, limit, b.take(k), order[k]));
        assert(generator::ran(job, config.seed, posts_a[k], a[k], posts_a[k + 1]));
        assert(generator::ran(job, config.seed, posts_b[k], b[k], posts_b[k + 1]));
        lemma_one_seed_one_table(
            job,
            config.seed,
            posts_a[k],
            a[k],
            posts_a[k + 1],
            b[k],
            posts_b[k + 1],
        );
    }
}

} // verus!
