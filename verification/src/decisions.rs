//! How decisions come out.
use crate::audit;
use crate::audit::{AuditOutcome, Decision, DraftEvent, RunEnd, SynthCommand};
use crate::branch;
use crate::branch::{BranchOutcome, CoverageStatus};
use crate::candidates::how_many;
use crate::cardinality;
use crate::cardinality::CardinalityDist;
use crate::copula;
use crate::copula::{Pin, Split};
use crate::datetime;
use crate::distinct;
use crate::draft;
use crate::expr;
use crate::fk_pool::FkPool;
use crate::generate_run;
use crate::learning;
use crate::marginal::{CategoricalFitter, LevelCounts};
use crate::mine::MineConfig;
use crate::model::TableModel;
use crate::overrides;
use crate::parser;
use crate::pools;
use crate::pools::Keys;
use crate::report;
use crate::report::TableQuality;
use crate::rules::{ColumnMode, SdType, SynthRules, TableRule, TableStrategy};
use crate::session;
use crate::text;
use crate::train_run;
use crate::training;
use crate::training::{Assembly, ForeignKeyInfo, TableSample};
use crate::value;
use crate::value::{Cell, Value};
use crate::values;
use crate::CategoricalTopK;
use vstd::prelude::*;

verus! {

/// A command that fails is recorded as an error, says why, and ends with 1; one that does
/// not is recorded as allowed, says nothing, and ends with 0. Either is recorded with its
/// name, and with how long it took.
pub proof fn lemma_runs_end_as_they_went(
    command: &SynthCommand,
    result: Result<(), String>,
    duration_ms: u64,
    r: RunEnd,
)
    requires
        call_ensures(audit::finish, (command, result, duration_ms), r),
    ensures
        result is Ok ==> r.exit_code == 0 && r.message is None && r.event.decision
            == Decision::Allow,
        result is Err ==> r.exit_code == 1 && r.message is Some && r.message->0@ == "error: "@
            + result->Err_0@ && r.event.decision == Decision::Error,
        r.event.outcome is Some,
        r.event.outcome->0.ok <==> result is Ok,
        r.event.outcome->0.error_kind is Some <==> result is Err,
        r.event.outcome->0.duration_ms == duration_ms,
        r.event.sql is None,
        r.event.action@ == "synth"@,
        r.event.connection.read_only_session,
        r.event.detail is Some,
        ({
            let name = r.event.detail->0.subcommand@;
            let said = r.event.detail->0.detail@;
            match *command {
                SynthCommand::Train { tables } => name == "train"@ && said == "tables="@ + tables@,
                SynthCommand::RulesDraft { tables, output } => name == "rules-draft"@ && said
                    == "rules="@ + output@ + "; tables="@ + tables@,
                SynthCommand::Generate { models, rules } => name == "generate"@ && said
                    == "models="@ + models@ + "; rules="@ + rules@,
                SynthCommand::Validate { model } => name == "validate"@ && said == "model="@
                    + model@,
                SynthCommand::Report { models, data, output } => {
                    &&& name == "report"@
                    &&& data is Some && output is None ==> said == "models="@ + models@ + "; data="@
                        + data->0@ + ""@
                    &&& data is None && output is None ==> said == "models="@ + models@ + "; data="@
                        + "(generated)"@ + ""@
                    &&& data is Some && output is Some ==> said == "models="@ + models@ + "; data="@
                        + data->0@ + ("; output="@ + output->0@)
                },
            }
        }),
{
}

/// An event is one of an error exactly where its outcome is.
pub proof fn lemma_events_say_what_happened(
    subcommand: &str,
    detail: &str,
    outcome: AuditOutcome,
    r: DraftEvent,
    start: DraftEvent,
)
    requires
        call_ensures(audit::synth_outcome_event, (subcommand, detail, outcome), r),
        call_ensures(audit::synth_start_event, (subcommand, detail), start),
    ensures
        r.decision == Decision::Allow <==> outcome.ok,
        r.decision == Decision::Error <==> !outcome.ok,
        r.outcome == Some(outcome),
        start.decision == Decision::Allow,
        start.outcome is None,
        r.detail is Some,
        start.detail is Some,
        r.detail->0.subcommand@ == subcommand@,
        start.detail->0.subcommand@ == subcommand@,
        r.detail->0.detail@ == detail@,
        start.detail->0.detail@ == detail@,
{
}

/// A schema that is asked for comes before the one of the connection; an empty one is as
/// good as none.
pub proof fn lemma_schemas_that_are_asked_for(
    explicit: Option<&str>,
    default: String,
    configured: Option<&str>,
    r: String,
    p: Option<String>,
)
    requires
        call_ensures(session::resolve_schema, (explicit, default), r),
        call_ensures(session::schema_priority, (explicit, configured), p),
    ensures
        explicit is Some && explicit->0@.len() > 0 ==> r@ == explicit->0@ && p is Some && p->0@
            == explicit->0@,
        explicit is None || explicit->0@.len() == 0 ==> r@ == default@,
        (explicit is None || explicit->0@.len() == 0) && configured is Some && configured->0@.len()
            > 0 ==> p is Some && p->0@ == configured->0@,
        (explicit is None || explicit->0@.len() == 0) && (configured is None
            || configured->0@.len() == 0) ==> p is None,
{
}

/// A sample may have been cut off only by Oracle's driver, at exactly the hundred rows that
/// it fetches, where more were asked for.
pub proof fn lemma_samples_that_were_cut_off(
    scheme: &str,
    rows: usize,
    asked: usize,
    r: bool,
)
    requires
        call_ensures(session::sample_may_be_truncated, (scheme, rows, asked), r),
    ensures
        r <==> text::alike(scheme@, "oracle"@) && rows == 100
            && asked > rows,
{
}

proof fn lemma_scheme_end(s: Seq<char>, scheme: Seq<char>, rest: Seq<char>, i: int)
    requires
        s == scheme + seq![':', '/', '/'] + rest,
        !scheme.contains(':'),
        session::scheme_end(s, i),
    ensures
        i >= scheme.len(),
{
    if i < scheme.len() {
        assert(s[i] == scheme[i]);
        assert(scheme[i] == ':');
    }
}

/// The scheme of an address is what stands before the first `://`.
#[verifier::rlimit(40)]
pub proof fn lemma_schemes_of_addresses(url: &str, scheme: Seq<char>, rest: Seq<char>, r: String)
    requires
        call_ensures(session::url_scheme, (url,), r),
        url@ == scheme + seq![':', '/', '/'] + rest,
        !scheme.contains(':'),
    ensures
        r@ == scheme,
{
    let n = scheme.len() as int;
    let s = url@;
    assert(session::scheme_end(s, n)) by {
        assert(s[n] == ':' && s[n + 1] == '/' && s[n + 2] == '/');
    }
    assert forall|k: int| 0 <= k < n implies !#[trigger] session::scheme_end(s, k) by {
        if session::scheme_end(s, k) {
            lemma_scheme_end(s, scheme, rest, k);
        }
    }
    assert(s.take(n) =~= scheme);
}

/// The connection that is asked for is found by its name, or the default one where none is.
pub proof fn lemma_connections_are_found_by_name(
    name: Option<&str>,
    default: &str,
    connections: &[String],
    r: Result<usize, String>,
)
    requires
        call_ensures(session::resolve_connection, (name, default, connections), r),
    ensures
        r is Ok ==> r->Ok_0 < connections@.len() && connections@[r->Ok_0 as int]@ == (
        match name {
            Some(n) => n@,
            None => default@,
        }),
        r is Err ==> forall|i: int|
            0 <= i < connections@.len() ==> (#[trigger] connections@[i])@ != (match name {
                Some(n) => n@,
                None => default@,
            }),
{
    let target = match name {
        Some(n) => n@,
        None => default@,
    };
    let all = connections.deep_view();
    value::lemma_first_place(all, target);
    if r is Err {
        assert forall|i: int| 0 <= i < connections@.len() implies (#[trigger] connections@[i])@
            != target by {
            assert(all[i] == connections@[i]@);
        }
    }
}

/// The table of a file is its name without the ending, where it has that.
pub proof fn lemma_tables_of_files(
    file: &str,
    ending: &str,
    table: Seq<char>,
    r: Option<String>,
)
    requires
        call_ensures(session::table_of_file, (file, ending), r),
    ensures
        file@ == table + ending@ ==> r is Some && r->0@ == table,
        r is Some ==> file@ == r->0@ + ending@,
{
    if file@ == table + ending@ {
        assert(file@.skip(file@.len() - ending@.len()) =~= ending@);
        assert(file@.take(file@.len() - ending@.len()) =~= table);
    }
    if r is Some {
        assert(file@ =~= file@.take(file@.len() - ending@.len()) + file@.skip(
            file@.len() - ending@.len(),
        ));
    }
}

/// The rows that the command line asks for count for every table; without them, what each
/// rule asks for, else a hundred.
pub proof fn lemma_rows_of_rules(
    rules: &SynthRules,
    asked: Option<usize>,
    r: Vec<(String, usize)>,
    i: int,
)
    requires
        call_ensures(training::rows_map_for_rules, (rules, asked), r),
        0 <= i < rules.tables@.len(),
    ensures
        r@.len() == rules.tables@.len(),
        r@[i].0@ == rules.tables@[i].name@,
        asked is Some ==> r@[i].1 == asked->0,
        asked is None && rules.tables@[i].rows is Some ==> r@[i].1 == rules.tables@[i].rows->0,
        asked is None && rules.tables@[i].rows is None ==> r@[i].1 == 100,
{
}

/// A rule that keeps a column switches its provider off; one that calls it personal data
/// takes the provider that it names, else the recognised one, else any; without a rule the
/// recognised one counts.
pub proof fn lemma_providers_are_chosen<P>(
    sdtype: SdType,
    named: Option<P>,
    guess: Option<P>,
    fallback: P,
    r: Option<P>,
)
    requires
        call_ensures(training::choose_provider::<P>, (sdtype, named, guess, fallback), r),
    ensures
        sdtype == SdType::Keep ==> r is None,
        sdtype == SdType::Auto ==> r == guess,
        sdtype == SdType::Pii ==> r is Some,
        sdtype == SdType::Pii && named is Some ==> r == named,
        sdtype == SdType::Pii && named is None && guess is Some ==> r == guess,
        sdtype == SdType::Pii && named is None && guess is None ==> r == Some(fallback),
{
}

/// A limit on levels is a positive number, or `full` however it is capitalised.
pub proof fn lemma_limits_on_levels(s: &str, n: nat, r: Result<CategoricalTopK, String>)
    requires
        call_ensures(training::parse_categorical_top_k, (s,), r),
    ensures
        text::alike(s@, "full"@) ==> r == Ok::<CategoricalTopK, String>(CategoricalTopK::Full),
        !text::alike(s@, "full"@) && s@ == text::digits(n) && 0 < n <= usize::MAX ==> r == Ok::<
            CategoricalTopK,
            String,
        >(CategoricalTopK::Limit(n as usize)),
        !text::alike(s@, "full"@) && s@ == text::digits(n) && (n == 0 || n > usize::MAX)
            ==> r is Err,
{
    if s@ == text::digits(n) {
        values::lemma_digits(n);
        assert(text::digits(n)[0] != '+');
    }
}

/// The foreign keys of a table are the columns that it refers to others with.
pub proof fn lemma_reserved_columns(
    keys: &Vec<ForeignKeyInfo>,
    table: &str,
    r: Vec<String>,
    column: Seq<char>,
)
    requires
        call_ensures(training::pii_reserved_columns, (keys, table), r),
    ensures
        r.deep_view().contains(column) <==> exists|i: int|
            #![trigger keys@[i]]
            0 <= i < keys@.len() && keys@[i].from_table@ == table@ && keys@[i].from_column@
                == column,
{
    let all = keys.deep_view();
    assert(r.deep_view().contains(column) <==> training::is_reserved(all, table@, column));
    if training::is_reserved(all, table@, column) {
        let i = choose|i: int|
            0 <= i < all.len() && (#[trigger] all[i]).from_table == table@ && all[i].from_column
                == column;
        assert(all[i] == keys@[i]@);
    }
    if exists|i: int|
        #![trigger keys@[i]]
        0 <= i < keys@.len() && keys@[i].from_table@ == table@ && keys@[i].from_column@ == column {
        let i = choose|i: int|
            #![trigger keys@[i]]
            0 <= i < keys@.len() && keys@[i].from_table@ == table@ && keys@[i].from_column@
                == column;
        assert(all[i] == keys@[i]@);
    }
}

/// A model has the keys and the columns that were fitted, and is made where there are any.
pub proof fn lemma_models_have_the_fitted_columns(
    table: &str,
    profiled: usize,
    pk: &[String],
    order: &[String],
    fitted: &[String],
    r: Result<Assembly, String>,
    n: Seq<char>,
)
    requires
        call_ensures(training::assemble, (table, profiled, pk, order, fitted), r),
    ensures
        r is Ok <==> profiled > 0 && fitted@.len() > 0,
        r is Ok ==> (r->Ok_0.pk.deep_view().contains(n) <==> pk.deep_view().contains(n)
            && fitted.deep_view().contains(n)),
        r is Ok && order.deep_view().contains(n) && fitted.deep_view().contains(n)
            ==> r->Ok_0.column_order.deep_view().contains(n),
        r is Ok && r->Ok_0.column_order.deep_view().contains(n) ==> fitted.deep_view().contains(n),
{
    learning::lemma_names_are_kept(pk.deep_view(), fitted.deep_view(), n);
    learning::lemma_names_are_kept(order.deep_view(), fitted.deep_view(), n);
    let kept = training::kept(order.deep_view(), fitted.deep_view());
    if kept.contains(n) {
        assert(kept.len() > 0);
    }
}

/// What is learned of a foreign key tells how many rows there were and how many were NULL;
/// nothing is learned where all were.
pub proof fn lemma_rows_are_accounted_for(
    cells: &[Value],
    distinct: Option<usize>,
    r: Option<CardinalityDist>,
)
    requires
        call_ensures(cardinality::learn_cardinality, (cells, distinct), r),
    ensures
        r is Some <==> exists|i: int| 0 <= i < cells@.len() && !((#[trigger] cells@[i])@ is Null),
        r is Some ==> r->0.rows == cells@.len() && r->0.null_rows == learning::standing(
            cells.deep_view(),
            Cell::Null,
        ),
        r is Some && distinct is Some && distinct->0 >= cardinality::referenced(
            cells.deep_view(),
        ).len() ==> r->0.parents == distinct->0,
        r is Some && distinct is None ==> r->0.parents == cardinality::referenced(
            cells.deep_view(),
        ).len(),
{
    let all = cells.deep_view();
    learning::lemma_occurrences(all, Cell::Null);
    learning::lemma_parents_are_the_values(all);
    let parents = cardinality::referenced(all);
    if exists|i: int| 0 <= i < cells@.len() && !((#[trigger] cells@[i])@ is Null) {
        let i = choose|i: int| 0 <= i < cells@.len() && !((#[trigger] cells@[i])@ is Null);
        assert(all[i] == cells@[i]@);
        assert(all.contains(all[i]));
        assert(parents.contains(all[i]));
    }
    if parents.len() > 0 {
        assert(parents.contains(parents[0]));
        assert(all.contains(parents[0]));
        let i = all.index_of(parents[0]);
        assert(all[i] == cells@[i]@);
    }
}

/// Levels are the different samples in order, each with the number of samples that are it.
pub proof fn lemma_levels_are_the_samples(
    fitter: &CategoricalFitter,
    samples: &[String],
    r: Result<LevelCounts, String>,
    i: int,
)
    requires
        call_ensures(CategoricalFitter::fit_strings, (fitter, samples), r),
    ensures
        r is Ok <==> samples@.len() > 0,
        r is Ok && 0 <= i < r->Ok_0.values@.len() ==> r->Ok_0.counts@[i] == how_many(
            samples.deep_view().len(),
            |j: int| samples.deep_view()[j] == r->Ok_0.values@[i]@,
        ),
        r is Ok ==> r->Ok_0.total == samples@.len(),
{
    if r is Ok && 0 <= i < r->Ok_0.values@.len() {
        let all = samples.deep_view();
        let name = r->Ok_0.values@[i]@;
        learning::lemma_levels_are_counted(all, name);
        learning::lemma_how_many_same(
            all.len(),
            |j: int| all[j] == name,
            |j: int| samples.deep_view()[j] == r->Ok_0.values@[i]@,
        );
    }
}

/// With `--strict`, a missing baseline is an error; without it, there is a warning for each.
pub proof fn lemma_missing_baselines(
    strict: bool,
    missing: &[String],
    r: Result<Vec<String>, String>,
)
    requires
        call_ensures(report::check_baselines, (strict, missing), r),
    ensures
        r is Err <==> strict && missing@.len() > 0,
        r is Ok ==> r->Ok_0@.len() == missing@.len(),
{
}

/// With `--strict`, a model without generated data is an error.
pub proof fn lemma_missing_data(
    strict: bool,
    models: &[String],
    generated: &[String],
    r: Result<(), String>,
)
    requires
        call_ensures(report::check_data, (strict, models, generated), r),
    ensures
        r is Err <==> strict && exists|i: int|
            0 <= i < models@.len() && !generated.deep_view().contains((#[trigger] models@[i])@),
{
    let all = models.deep_view();
    lemma_absent(all, generated.deep_view());
    if exists|i: int|
        0 <= i < models@.len() && !generated.deep_view().contains((#[trigger] models@[i])@) {
        let i = choose|i: int|
            0 <= i < models@.len() && !generated.deep_view().contains((#[trigger] models@[i])@);
        assert(all[i] == models@[i]@);
    }
    if report::absent(all, generated.deep_view()).len() > 0 {
        let i = choose|i: int|
            0 <= i < all.len() && !generated.deep_view().contains(#[trigger] all[i]);
        assert(all[i] == models@[i]@);
    }
}

proof fn lemma_absent(all: Seq<Seq<char>>, list: Seq<Seq<char>>)
    ensures
        report::absent(all, list).len() > 0 <==> exists|i: int|
            0 <= i < all.len() && !list.contains(#[trigger] all[i]),
    decreases all.len(),
{
    if all.len() > 0 {
        let rest = all.drop_last();
        lemma_absent(rest, list);
        assert(all[all.len() - 1] == all.last());
        if exists|i: int| 0 <= i < all.len() && !list.contains(#[trigger] all[i]) {
            let i = choose|i: int| 0 <= i < all.len() && !list.contains(#[trigger] all[i]);
            if i < rest.len() {
                assert(rest[i] == all[i]);
            }
        }
        if report::absent(rest, list).len() > 0 {
            let i = choose|i: int| 0 <= i < rest.len() && !list.contains(#[trigger] rest[i]);
            assert(all[i] == rest[i]);
        }
    }
}

/// A minimum score can be held to only where every table has a score, and the whole has.
pub proof fn lemma_scores_are_complete(
    tables: &[TableQuality],
    min_score: &str,
    overall: bool,
    r: Result<(), String>,
)
    requires
        call_ensures(report::check_scored, (tables, min_score, overall), r),
    ensures
        r is Ok <==> overall && forall|i: int|
            0 <= i < tables@.len() ==> (#[trigger] tables@[i]).scored,
{
    lemma_unscored(tables@);
}

proof fn lemma_unscored(tables: Seq<TableQuality>)
    ensures
        report::unscored(tables).len() == 0 <==> forall|i: int|
            0 <= i < tables.len() ==> (#[trigger] tables[i]).scored,
    decreases tables.len(),
{
    if tables.len() > 0 {
        let rest = tables.drop_last();
        lemma_unscored(rest);
        assert(tables[tables.len() - 1] == tables.last());
        assert forall|i: int| 0 <= i < rest.len() implies #[trigger] rest[i] == tables[i] by {}
        if forall|i: int| 0 <= i < tables.len() ==> (#[trigger] tables[i]).scored {
            assert forall|i: int| 0 <= i < rest.len() implies (#[trigger] rest[i]).scored by {
                assert(rest[i] == tables[i]);
            }
        }
        if report::unscored(tables).len() == 0 {
            assert forall|i: int| 0 <= i < tables.len() implies (#[trigger] tables[i]).scored by {
                if i < rest.len() {
                    assert(rest[i] == tables[i]);
                }
            }
        }
    }
}

/// A score below the minimum fails, and no other.
pub proof fn lemma_scores_are_judged(
    below: bool,
    score: &str,
    min_score: &str,
    r: Result<String, String>,
    models: usize,
    dir: &str,
    c: Result<(), String>,
)
    requires
        call_ensures(report::judge_score, (below, score, min_score), r),
        call_ensures(report::check_models, (dir, models), c),
    ensures
        r is Err <==> below,
        c is Err <==> models == 0,
{
}

/// A table without generated data has no rows and no score.
pub proof fn lemma_tables_without_data(
    models: &[String],
    dir: Option<&str>,
    evaluated: &[TableQuality],
    r: Vec<TableQuality>,
    i: int,
)
    requires
        call_ensures(report::report_tables, (models, dir, evaluated), r),
        0 <= i < r@.len(),
    ensures
        r@.len() == models@.len(),
        (forall|k: int| 0 <= k < evaluated@.len() ==> (#[trigger] evaluated@[k]).table@
            != r@[i].table@) ==> r@[i].rows == 0 && !r@[i].scored && r@[i].shapes is Skipped
            && r@[i].pairs is Skipped && r@[i].fk is Skipped,
        forall|k: int|
            0 <= k < evaluated@.len() && (#[trigger] evaluated@[k]).table@ == r@[i].table@ && (
            forall|j: int|
                0 <= j < k ==> (#[trigger] evaluated@[j]).table@ != r@[i].table@) ==> r@[i].rows
                == evaluated@[k].rows && r@[i].scored == evaluated@[k].scored && (
            r@[i].shapes is Skipped <==> evaluated@[k].shapes is Skipped),
{
    let name = r@[i].table@;
    if forall|k: int| 0 <= k < evaluated@.len() ==> (#[trigger] evaluated@[k]).table@ != name {
        lemma_evaluation(evaluated@, name, evaluated@.len() as int);
    }
    assert forall|k: int|
        0 <= k < evaluated@.len() && (#[trigger] evaluated@[k]).table@ == name && (forall|j: int|
            0 <= j < k ==> (#[trigger] evaluated@[j]).table@ != name) implies r@[i].rows
        == evaluated@[k].rows && r@[i].scored == evaluated@[k].scored && (r@[i].shapes is Skipped
        <==> evaluated@[k].shapes is Skipped) by {
        lemma_evaluation(evaluated@, name, k);
    }
}

proof fn lemma_evaluation(list: Seq<TableQuality>, name: Seq<char>, k: int)
    requires
        0 <= k <= list.len(),
        k < list.len() ==> list[k].table@ == name,
        forall|j: int| 0 <= j < k ==> (#[trigger] list[j]).table@ != name,
    ensures
        report::evaluation(list, name) == (if k < list.len() {
            Some(list[k])
        } else {
            None
        }),
    decreases list.len(),
{
    if list.len() > 0 && k > 0 {
        assert(list[0].table@ != name);
        let rest = list.skip(1);
        assert forall|j: int| 0 <= j < k - 1 implies (#[trigger] rest[j]).table@ != name by {
            assert(rest[j] == list[j + 1]);
        }
        lemma_evaluation(rest, name, k - 1);
    }
}

/// A branch that did not pass is a warning.
pub proof fn lemma_branches_that_did_not_pass(
    o: &BranchOutcome,
    target: &str,
    actual: &str,
    r: (bool, String),
)
    requires
        call_ensures(generate_run::branch_line, (o, target, actual), r),
    ensures
        r.0 <==> o.status == CoverageStatus::Warn || o.status == CoverageStatus::Fail,
{
}

/// The dimensions of a copula are split into those that are pinned and those that are free,
/// exactly where each pin is of a dimension that exists, of one that no pin before it is of,
/// has a value for every row, and only finite ones.
pub proof fn lemma_pins_that_fit(
    dimensions: usize,
    rows: usize,
    pins: &[Pin],
    r: Result<Split, String>,
)
    requires
        call_ensures(copula::split_dimensions, (dimensions, rows, pins), r),
    ensures
        r is Ok <==> forall|k: int|
            0 <= k < pins@.len() ==> {
                &&& (#[trigger] pins@[k]).dimension < dimensions
                &&& pins@[k].values == rows
                &&& pins@[k].finite
                &&& !copula::pinned(pins@.take(k), pins@[k].dimension as int)
            },
{
    if r is Err {
        let m = r->Err_0@;
        let i = choose|i: int| #[trigger]
            copula::faulty(dimensions as nat, rows as nat, pins@, m, i);
        assert(pins@[i] == pins@[i]);
    }
}

/// A key that is drawn from a pool is one of its entries; a pool that is not empty gives
/// one.
pub proof fn lemma_pools_give_their_entries(
    pool: &FkPool,
    cells: Vec<Value>,
    made: FkPool,
    n: usize,
    empty: bool,
)
    requires
        call_ensures(FkPool::new, (cells,), made),
        call_ensures(FkPool::len, (pool,), n),
        call_ensures(FkPool::is_empty, (pool,), empty),
    ensures
        made.entries() == cells.deep_view(),
        n == pool.entries().len(),
        empty <==> n == 0,
{
}

/// A text with a time of day that ends in `Z` is the one with an offset of nothing, and one
/// that ends in hours alone the one with no minutes behind them. A text without a time of
/// day stays as it is.
pub proof fn lemma_zones_are_written_out(s: Seq<char>, sign: char, a: char, b: char, z: char)
    requires
        s.contains(':'),
        sign == '+' || sign == '-',
        '0' <= a <= '9',
        '0' <= b <= '9',
        z == 'Z' || z == 'z',
    ensures
        datetime::expanded(s.push(z)) == Some(s + "+00:00"@),
        datetime::expanded(s.push(sign).push(a).push(b)) == Some(
            s.push(sign).push(a).push(b) + ":00"@,
        ),
{
    let i = s.index_of(':');
    assert(s.push(z)[i] == ':');
    assert(s.push(z).take(s.push(z).len() - 1) =~= s);
    let t = s.push(sign).push(a).push(b);
    assert(t[i] == ':');
}

/// A text without a time of day has no zone.
pub proof fn lemma_days_have_no_zone(s: Seq<char>)
    requires
        !s.contains(':'),
    ensures
        datetime::expanded(s) is None,
{
}

/// With a format, only that format reads a cell; and only texts are read.
pub proof fn lemma_cells_are_read_by_their_format(cell: Cell, format: Seq<char>, n: i64)
    ensures
        !(cell is Text) ==> datetime::cell_instant(cell, Some(format)) is None
            && datetime::cell_instant(cell, None) is None,
        cell is Text && !datetime::asks_offset(format) ==> datetime::cell_instant(
            cell,
            Some(format),
        ) == (if datetime::zoned_instant(cell->Text_0, format) is Some {
            datetime::zoned_instant(cell->Text_0, format)
        } else if datetime::local_instant(cell->Text_0, format) is Some {
            datetime::local_instant(cell->Text_0, format)
        } else {
            datetime::day_instant(cell->Text_0, format)
        }),
        cell is Text && (forall|i: int|
            0 <= i < datetime::candidate_formats().len() ==> datetime::instant_of(
                cell->Text_0,
                #[trigger] datetime::candidate_formats()[i],
            ) is None) ==> datetime::cell_instant(cell, None) == datetime::standard_instant(
            cell->Text_0,
        ),
        cell is Text ==> forall|i: int|
            0 <= i < datetime::candidate_formats().len() && datetime::instant_of(
                cell->Text_0,
                #[trigger] datetime::candidate_formats()[i],
            ) == Some(n) && (forall|j: int|
                0 <= j < i ==> datetime::instant_of(
                    cell->Text_0,
                    #[trigger] datetime::candidate_formats()[j],
                ) is None) ==> datetime::cell_instant(cell, None) == Some(n),
{
    if cell is Text {
        let s = cell->Text_0;
        let all = datetime::candidate_formats();
        lemma_first_instant(s, all, all.len() as int);
        assert forall|i: int|
            0 <= i < all.len() && datetime::instant_of(s, #[trigger] all[i]) == Some(n) && (forall|
                j: int,
            |
                0 <= j < i ==> datetime::instant_of(
                    s,
                    #[trigger] all[j],
                ) is None) implies datetime::cell_instant(cell, None) == Some(n) by {
            lemma_first_instant(s, all, i);
        }
    }
}

proof fn lemma_first_instant(s: Seq<char>, formats: Seq<Seq<char>>, i: int)
    requires
        0 <= i <= formats.len(),
    ensures
        (forall|j: int| 0 <= j < i ==> datetime::instant_of(s, #[trigger] formats[j]) is None)
            && (i < formats.len() ==> datetime::instant_of(s, formats[i]) is Some)
            ==> datetime::first_instant(s, formats) == (if i < formats.len() {
            datetime::instant_of(s, formats[i])
        } else {
            None
        }),
    decreases formats.len(),
{
    if formats.len() > 0 && i > 0 {
        let rest = formats.skip(1);
        lemma_first_instant(s, rest, i - 1);
        if (forall|j: int| 0 <= j < i ==> datetime::instant_of(s, #[trigger] formats[j]) is None)
            && (i < formats.len() ==> datetime::instant_of(s, formats[i]) is Some) {
            assert(datetime::instant_of(s, formats[0]) is None);
            assert forall|j: int| 0 <= j < i - 1 implies datetime::instant_of(
                s,
                #[trigger] rest[j],
            ) is None by {
                assert(rest[j] == formats[j + 1]);
            }
        }
    }
}

/// A format is inferred only where every text is read by it, and written back by it where
/// it has no offset; NULLs aside there must be texts only.
pub proof fn lemma_formats_describe_every_sample(samples: &[Value], r: Option<String>, i: int)
    requires
        call_ensures(datetime::infer_format, (samples,), r),
        0 <= i < samples@.len(),
    ensures
        r is Some ==> samples@[i]@ is Null || samples@[i]@ is Text,
        r is Some && samples@[i]@ is Text ==> {
            let s = samples@[i]@->Text_0;
            let at = datetime::instant_of(s, r->0@);
            &&& at is Some
            &&& datetime::asks_offset(r->0@) || datetime::instant_text(at->0, r->0@) == Some(s)
        },
        r is Some ==> datetime::candidate_formats().contains(r->0@),
{
    let all = samples.deep_view();
    assert(all[i] == samples@[i]@);
    if r is Some {
        assert(datetime::describes_all(r->0@, all));
        let k = choose|k: int| #[trigger] datetime::first_describing(all, k, r->0@);
        assert(datetime::candidate_formats()[k] == r->0@);
    }
}

/// A column cannot hold different values in every row where it has fewer levels than there
/// are rows.
pub proof fn lemma_too_few_levels(
    table: TableModel,
    name: Seq<char>,
    column: Seq<char>,
    rows: nat,
    m: int,
)
    requires
        0 <= m < table.columns@.len(),
        table.columns@[m].0@ == column,
        forall|j: int| 0 <= j < m ==> (#[trigger] table.columns@[j]).0@ != column,
    ensures
        ({
            let levels = table.columns@[m].1.levels;
            distinct::too_few(table, name, column, Seq::empty(), rows) is Some
                <==> levels is Some && levels->0@.len() < rows
        }),
{
    values::lemma_model_of(table.columns@, column, m);
}

/// Values cannot be replaced in a column that takes part in a relationship, by an empty
/// pool, or by a range where the column has levels.
pub proof fn lemma_replacements_that_are_refused(
    rule: TableRule,
    table: TableModel,
    referenced: Seq<Seq<char>>,
    column: Seq<char>,
    k: int,
    m: int,
)
    requires
        0 <= k < rule.columns@.len(),
        rule.columns@[k].0@ == column,
        forall|j: int| 0 <= j < k ==> (#[trigger] rule.columns@[j]).0@ != column,
        0 <= m < table.columns@.len(),
        table.columns@[m].0@ == column,
        forall|j: int| 0 <= j < m ==> (#[trigger] table.columns@[j]).0@ != column,
    ensures
        ({
            let c = rule.columns@[k].1;
            let refused = overrides::override_fault(rule, table, referenced, column) is Some;
            let replaces = c.fixed is Some || c.values is Some || c.fixed_range is Some;
            let related = referenced.contains(rule.name@ + "."@ + column) || exists|i: int|
                0 <= i < rule.relationships@.len() && (#[trigger] rule.relationships@[i]).pk@
                    == column;
            &&& !replaces ==> !refused
            &&& replaces && related ==> refused
            &&& c.fixed is Some && !related ==> !refused
            &&& c.fixed is None && c.mode == ColumnMode::CopulaConditional && !related ==> !refused
            &&& c.fixed is None && c.mode == ColumnMode::Rejection && c.values is Some && !related
                ==> (refused <==> crate::rules::pool_literals(c.values->0).len() == 0)
            &&& c.fixed is None && c.mode == ColumnMode::Rejection && c.values is None
                && c.fixed_range is Some && !related ==> (refused
                <==> table.columns@[m].1.levels is Some)
        }),
{
    values::lemma_rule_of(rule.columns@, column, k);
    values::lemma_model_of(table.columns@, column, m);
}

/// Drafted rules ask for the given number of rows of every model, and for nothing else.
pub proof fn lemma_drafted_rules_are_bare(
    models: &[TableModel],
    rows: usize,
    r: SynthRules,
    i: int,
)
    requires
        call_ensures(draft::rules_from_models, (models, rows), r),
        0 <= i < r.tables@.len(),
    ensures
        r.tables@.len() == models@.len(),
        r.tables@[i].rows == Some(rows),
        r.tables@[i].strategy == TableStrategy::Uniform,
        r.tables@[i].relationships@.len() == 0,
        r.tables@[i].columns@.len() == 0,
        r.tables@[i].derive@.len() == 0,
        r.tables@[i].branches@.len() == 0,
{
}

/// A sample's key is the first column of the table's, and counts its different values.
pub proof fn lemma_samples_know_their_key(
    table: &str,
    columns: &[String],
    rows: &Vec<Vec<Value>>,
    pk: &[String],
    keys: &Vec<ForeignKeyInfo>,
    r: TableSample,
)
    requires
        call_ensures(train_run::sample_of, (table, columns, rows, pk, keys), r),
    ensures
        r.table@ == table@,
        r.key is Some <==> pk@.len() > 0 && columns.deep_view().contains(pk@[0]@),
        r.key is Some ==> ({
            let key = r.key->0;
            key.0@ == pk@[0]@
        }),
{
}

/// A branch may write exactly those columns of its table that are no foreign key, that no
/// other table refers to, that are not computed, and whose values no rule replaces.
pub proof fn lemma_columns_that_branches_write(
    rule: TableRule,
    referenced: Seq<Seq<char>>,
    columns: Seq<Seq<char>>,
    column: Seq<char>,
    k: int,
)
    requires
        0 <= k <= rule.columns@.len(),
        k < rule.columns@.len() ==> rule.columns@[k].0@ == column,
        forall|j: int| 0 <= j < k ==> (#[trigger] rule.columns@[j]).0@ != column,
    ensures
        branch::set_fault(rule, referenced, columns, column) is None <==> {
            &&& columns.contains(column)
            &&& forall|i: int|
                0 <= i < rule.relationships@.len() ==> (#[trigger] rule.relationships@[i]).pk@
                    != column
            &&& !referenced.contains(rule.name@ + "."@ + column)
            &&& forall|i: int|
                0 <= i < rule.derive@.len() ==> (#[trigger] rule.derive@[i]).column@ != column
            &&& k < rule.columns@.len() ==> rule.columns@[k].1.fixed is None
                && rule.columns@[k].1.values is None && rule.columns@[k].1.fixed_range is None
        },
{
    values::lemma_rule_of(rule.columns@, column, k);
}

/// A branch is repaired only where its predicate can be read, reads only columns of the
/// table, and every column that it writes may be written.
pub proof fn lemma_branches_that_are_repaired(
    rule: TableRule,
    referenced: Seq<Seq<char>>,
    columns: Seq<Seq<char>>,
    i: int,
    j: int,
    n: Seq<char>,
)
    requires
        branch::branch_fine(rule, referenced, columns, i),
        0 <= i < rule.branches@.len(),
    ensures
        parser::parsed_text(rule.branches@[i].predicate@) is Ok,
        expr::mentions(parser::parsed_text(rule.branches@[i].predicate@)->Ok_0, n)
            ==> columns.contains(n),
        0 <= j < rule.branches@[i].set@.len() ==> branch::set_fault(
            rule,
            referenced,
            columns,
            rule.branches@[i].set@[j].0@,
        ) is None,
{
}

/// A column that other tables refer to cannot be computed.
pub proof fn lemma_computed_keys_are_barred(
    rule: &TableRule,
    referenced: &[String],
    r: Option<String>,
)
    requires
        call_ensures(branch::find_barred, (rule, referenced), r),
    ensures
        r is Some <==> exists|i: int|
            0 <= i < rule.derive@.len() && referenced.deep_view().contains(
                rule.name@ + "."@ + (#[trigger] rule.derive@[i]).column@,
            ),
{
}

/// The columns whose distributions take more than 16 KiB are named.
pub proof fn lemma_large_columns(sizes: &Vec<(String, usize)>, r: Vec<(String, usize)>, i: int)
    requires
        call_ensures(train_run::oversized_marginal_columns, (sizes,), r),
        0 <= i < sizes@.len(),
    ensures
        sizes@[i].1 > 16_384 <==> train_run::sizes_of(r@).contains((sizes@[i].0@, sizes@[i].1)),
{
    train_run::lemma_oversized_in_order(sizes@);
    let all = train_run::sizes_of(sizes@);
    assert(all[i] == (sizes@[i].0@, sizes@[i].1));
    assert(all.contains(all[i]));
}

/// A model of more than 10 MiB is warned of where all levels are kept; a pool of keys where
/// it holds a hundred thousand.
pub proof fn lemma_large_files(
    path: &str,
    size: u64,
    mebibytes: &str,
    kept: CategoricalTopK,
    r: Option<String>,
    table: &str,
    column: &str,
    rows: &Vec<Vec<Value>>,
    pool: (Vec<String>, Option<String>),
)
    requires
        call_ensures(train_run::large_model_warning, (path, size, mebibytes, kept), r),
        call_ensures(report::read_key_pool, (table, column, rows), pool),
    ensures
        r is Some <==> kept == CategoricalTopK::Full && size > 10_485_760,
        pool.1 is Some <==> pool.0@.len() >= 100_000,
{
    assert(pool.0.deep_view().len() == pool.0@.len());
}

/// The key of a table is the first column of its primary key.
pub proof fn lemma_keys_of_tables(models: &[TableModel], r: Vec<(String, String)>, i: int)
    requires
        call_ensures(draft::load_primary_keys, (models,), r),
        0 <= i < models@.len(),
        models@[i].pk@.len() > 0,
    ensures
        pools::edge_texts(r@).contains((models@[i].table@, models@[i].pk@[0]@)),
{
    lemma_keys_of(models@, i);
}

proof fn lemma_keys_of(models: Seq<TableModel>, i: int)
    requires
        0 <= i < models.len(),
        models[i].pk@.len() > 0,
    ensures
        draft::keys_of(models).contains((models[i].table@, models[i].pk@[0]@)),
    decreases models.len(),
{
    let rest = models.drop_last();
    let key = (models[i].table@, models[i].pk@[0]@);
    let before = draft::keys_of(rest);
    let after = draft::keys_of(models);
    if i < rest.len() {
        assert(rest[i] == models[i]);
        lemma_keys_of(rest, i);
        let k = before.index_of(key);
        assert(after[k] == key);
    } else {
        assert(after[after.len() - 1] == key);
    }
}

/// Unless it is told otherwise, mining asks for a confidence of 95 in a hundred and for a
/// support of 5 in a hundred, and takes columns of up to 50 values, two thousand pairs of them
/// at most.
pub proof fn lemma_mining_by_default(r: MineConfig)
    requires
        call_ensures(MineConfig::default, (), r),
    ensures
        r.confidence.part * 100 == r.confidence.whole * 95,
        r.support.part * 100 == r.support.whole * 5,
        r.max_levels == 50,
        r.max_pairs == 2000,
{
}

/// A column whose values are keys of a relationship cannot hold different ones in every row
/// where there are fewer keys than rows.
pub proof fn lemma_too_few_keys(
    table: TableModel,
    name: Seq<char>,
    column: Seq<char>,
    keys: Seq<Keys>,
    rows: nat,
    j: int,
)
    requires
        0 <= j < keys.len(),
        keys[j].column == column,
        forall|i: int| 0 <= i < j ==> (#[trigger] keys[i]).column != column,
    ensures
        distinct::too_few(table, name, column, keys, rows) is Some <==> keys[j].entries.to_set().len()
            < rows,
{
    let names = Seq::new(keys.len(), |i: int| keys[i].column);
    value::lemma_first_place(names, column);
    assert(names[j] == column);
    assert(names.contains(column));
    let at = value::first_place(names, column);
    assert(at == j) by {
        if at < j {
            assert(names[at] == keys[at].column);
        }
    }
}

/// The formats that are tried, from the plainest on.
pub proof fn lemma_formats_that_are_tried(r: Vec<String>)
    requires
        call_ensures(datetime::list_formats, (), r),
    ensures
        r@.len() == 15,
        r@[0]@ == "%Y-%m-%d"@,
        r@[1]@ == "%Y-%m-%d %H:%M:%S"@,
        r@[2]@ == "%Y-%m-%d %H:%M:%S%.f"@,
        r@[3]@ == "%Y-%m-%d %H:%M:%S%.3f"@,
        r@[4]@ == "%Y-%m-%d %H:%M:%S%.6f"@,
        r@[5]@ == "%Y-%m-%d %H:%M:%S%.9f"@,
        r@[6]@ == "%Y-%m-%dT%H:%M:%S"@,
        r@[7]@ == "%Y-%m-%dT%H:%M:%S%.f"@,
        r@[8]@ == "%Y-%m-%dT%H:%M:%S%.3f"@,
        r@[9]@ == "%Y-%m-%dT%H:%M:%S%.6f"@,
        r@[10]@ == "%Y/%m/%d"@,
        r@[11]@ == "%Y-%m-%dT%H:%M:%S%.f%:z"@,
        r@[12]@ == "%Y-%m-%d %H:%M:%S%.f%:z"@,
        r@[13]@ == "%Y-%m-%dT%H:%M:%S%:z"@,
        r@[14]@ == "%Y-%m-%d %H:%M:%S%:z"@,
{
    let all = datetime::candidate_formats();
    assert(r.deep_view().len() == r@.len());
    assert forall|i: int| 0 <= i < r@.len() implies (#[trigger] r@[i])@ == all[i] by {
        assert(r.deep_view()[i] == r@[i]@);
    }
}

} // verus!
