//! What training learns.
use crate::candidates::how_many;
use crate::cardinality;
use crate::fk_pool;
use crate::fk_pool::SelectionStrategy;
use crate::generated;
use crate::marginal;
use crate::model::TableModel;
use crate::pools;
use crate::pools::{Pool, RelPool};
use crate::rules;
use crate::rules::{PoolStrategy, Relationship, SdType, TableRule};
use crate::text;
use crate::train_run;
use crate::train_run::Clue;
use crate::training;
use crate::training::{Link, Plan, ProfileColumn};
use crate::value;
use crate::value::{Cell, Value};
use crate::values;
use crate::writing;
use vstd::prelude::*;

verus! {

pub(crate) proof fn lemma_how_many_same(n: nat, p: spec_fn(int) -> bool, q: spec_fn(int) -> bool)
    requires
        forall|i: int| 0 <= i < n ==> #[trigger] p(i) == q(i),
    ensures
        how_many(n, p) == how_many(n, q),
    decreases n,
{
    if n > 0 {
        lemma_how_many_same((n - 1) as nat, p, q);
        assert(p(n - 1) == q(n - 1));
    }
}

/// A place holds a cell.
pub open spec fn holding(cells: Seq<Cell>, cell: Cell) -> spec_fn(int) -> bool {
    |i: int| cells[i] == cell
}

/// How often a cell stands among others.
pub open spec fn standing(cells: Seq<Cell>, cell: Cell) -> nat {
    how_many(cells.len(), holding(cells, cell))
}

pub(crate) proof fn lemma_occurrences(cells: Seq<Cell>, cell: Cell)
    ensures
        cardinality::occurrences(cells, cell) == standing(cells, cell),
    decreases cells.len(),
{
    if cells.len() > 0 {
        let rest = cells.drop_last();
        lemma_occurrences(rest, cell);
        lemma_how_many_same(rest.len(), holding(rest, cell), holding(cells, cell));
        assert(holding(cells, cell)(cells.len() - 1) == (cells.last() == cell));
    }
}

/// The parents that are referred to are the values other than NULL, each once.
pub proof fn lemma_parents_are_the_values(cells: Seq<Cell>)
    ensures
        cardinality::referenced(cells).no_duplicates(),
        forall|v: Cell| #[trigger]
            cardinality::referenced(cells).contains(v) <==> cells.contains(v) && !(v is Null),
    decreases cells.len(),
{
    if cells.len() > 0 {
        let rest = cells.drop_last();
        lemma_parents_are_the_values(rest);
        let before = cardinality::referenced(rest);
        let all = cardinality::referenced(cells);
        assert forall|v: Cell| #[trigger] all.contains(v) <==> cells.contains(v) && !(v is Null) by {
            if cells.contains(v) {
                let i = cells.index_of(v);
                if i < rest.len() {
                    assert(rest[i] == v);
                    assert(rest.contains(v));
                }
            }
            if rest.contains(v) {
                let i = rest.index_of(v);
                assert(cells[i] == v);
            }
            if before.contains(v) {
                let i = before.index_of(v);
                assert(all[i] == v);
            }
            if all.contains(v) && !before.contains(v) {
                let i = all.index_of(v);
                if i < before.len() {
                    assert(before[i] == v);
                }
                assert(v == cells.last());
                assert(cells[cells.len() - 1] == v);
            }
            if v == cells.last() && !(v is Null) && !before.contains(v) {
                assert(all[all.len() - 1] == v);
            }
        }
    }
}

/// The parents that have so many children; the last bucket takes all that have more.
pub open spec fn parents_with(cells: Seq<Cell>, b: nat) -> nat {
    let parents = cardinality::referenced(cells);
    how_many(
        parents.len(),
        |i: int|
            if b < 50 {
                standing(cells, parents[i]) == b
            } else {
                b == 50 && standing(cells, parents[i]) >= 50
            },
    )
}

proof fn lemma_with_bucket(cells: Seq<Cell>, parents: Seq<Cell>, b: nat, p: spec_fn(int) -> bool)
    requires
        forall|i: int|
            0 <= i < parents.len() ==> #[trigger] p(i) == (if b < 50 {
                standing(cells, parents[i]) == b
            } else {
                b == 50 && standing(cells, parents[i]) >= 50
            }),
    ensures
        cardinality::with_bucket(cells, parents, b) == how_many(parents.len(), p),
    decreases parents.len(),
{
    if parents.len() > 0 {
        let rest = parents.drop_last();
        assert forall|i: int| 0 <= i < rest.len() implies #[trigger] p(i) == (if b < 50 {
            standing(cells, rest[i]) == b
        } else {
            b == 50 && standing(cells, rest[i]) >= 50
        }) by {
            assert(rest[i] == parents[i]);
        }
        lemma_with_bucket(cells, rest, b, p);
        lemma_occurrences(cells, parents.last());
        assert(p(parents.len() - 1) == (if b < 50 {
            standing(cells, parents[parents.len() - 1]) == b
        } else {
            b == 50 && standing(cells, parents[parents.len() - 1]) >= 50
        }));
    }
}

proof fn lemma_buckets(cells: Seq<Cell>, distinct: Option<usize>, n: nat)
    ensures
        ({
            let list = cardinality::buckets_below(cells, distinct, n);
            &&& forall|k: int|
                0 <= k < list.len() ==> (#[trigger] list[k]).0 < n && list[k].1 > 0 && list[k].1
                    == cardinality::parents_in(cells, distinct, list[k].0)
            &&& forall|j: int, k: int|
                0 <= j < k < list.len() ==> (#[trigger] list[j]).0 < (#[trigger] list[k]).0
            &&& forall|b: nat|
                b < n && #[trigger] cardinality::parents_in(cells, distinct, b) > 0
                    ==> list.contains((b, cardinality::parents_in(cells, distinct, b)))
        }),
    decreases n,
{
    if n > 0 {
        let m = (n - 1) as nat;
        lemma_buckets(cells, distinct, m);
        let before = cardinality::buckets_below(cells, distinct, m);
        let list = cardinality::buckets_below(cells, distinct, n);
        let p = cardinality::parents_in(cells, distinct, m);
        assert forall|b: nat|
            b < n && #[trigger] cardinality::parents_in(cells, distinct, b) > 0 implies list.contains(
            (b, cardinality::parents_in(cells, distinct, b)),
        ) by {
            let pair = (b, cardinality::parents_in(cells, distinct, b));
            if b < m {
                let i = before.index_of(pair);
                assert(list[i] == pair);
            } else {
                assert(list[list.len() - 1] == pair);
            }
        }
    }
}

/// What is learned of a foreign key: how many of the parents have no child, one child, two
/// and so on, where the last number takes all that have more; each number once, in order,
/// and none that no parent has.
pub proof fn lemma_children_are_counted(cells: Seq<Cell>, distinct: Option<usize>, k: int, b: nat)
    ensures
        ({
            let list = cardinality::buckets_below(
                cells,
                distinct,
                (cardinality::MAX_COUNT_BUCKET + 1) as nat,
            );
            let parents = cardinality::referenced(cells).len();
            &&& 0 <= k < list.len() ==> {
                &&& list[k].1 > 0
                &&& list[k].0 <= 50
                &&& list[k].0 > 0 ==> list[k].1 == parents_with(cells, list[k].0)
                &&& list[k].0 == 0 ==> distinct is Some && list[k].1 == distinct->0 - parents
                &&& forall|j: int| 0 <= j < k ==> (#[trigger] list[j]).0 < list[k].0
            }
            &&& 0 < b <= 50 && parents_with(cells, b) > 0 ==> list.contains(
                (b, parents_with(cells, b)),
            )
            &&& distinct is Some && distinct->0 > parents ==> list.contains(
                (0, (distinct->0 - parents) as nat),
            )
        }),
{
    let n = (cardinality::MAX_COUNT_BUCKET + 1) as nat;
    let list = cardinality::buckets_below(cells, distinct, n);
    let parents = cardinality::referenced(cells);
    lemma_buckets(cells, distinct, n);
    let p = |b: nat|
        |i: int|
            if b < 50 {
                standing(cells, parents[i]) == b
            } else {
                b == 50 && standing(cells, parents[i]) >= 50
            };
    if 0 <= k < list.len() && list[k].0 > 0 {
        lemma_with_bucket(cells, parents, list[k].0, p(list[k].0));
        lemma_how_many_same(
            parents.len(),
            p(list[k].0),
            |i: int|
                if list[k].0 < 50 {
                    standing(cells, parents[i]) == list[k].0
                } else {
                    list[k].0 == 50 && standing(cells, parents[i]) >= 50
                },
        );
    }
    if 0 < b <= 50 {
        lemma_with_bucket(cells, parents, b, p(b));
        lemma_how_many_same(
            parents.len(),
            p(b),
            |i: int|
                if b < 50 {
                    standing(cells, parents[i]) == b
                } else {
                    b == 50 && standing(cells, parents[i]) >= 50
                },
        );
        assert(cardinality::parents_in(cells, distinct, b) == parents_with(cells, b));
    }
    assert(cardinality::parents_in(cells, distinct, 0) == cardinality::childless(cells, distinct));
}

/// The count of a level is the number of samples that are it.
pub proof fn lemma_levels_are_counted(samples: Seq<Seq<char>>, name: Seq<char>)
    ensures
        marginal::times(samples, name) == how_many(samples.len(), |i: int| samples[i] == name),
    decreases samples.len(),
{
    if samples.len() > 0 {
        let rest = samples.drop_last();
        lemma_levels_are_counted(rest, name);
        lemma_how_many_same(
            rest.len(),
            |i: int| rest[i] == name,
            |i: int| samples[i] == name,
        );
    }
}

proof fn lemma_key_count(cells: Seq<Cell>, key: Seq<char>)
    ensures
        fk_pool::key_count(cells, key) == how_many(
            cells.len(),
            |i: int| fk_pool::cell_key(cells[i]) == key,
        ),
    decreases cells.len(),
{
    if cells.len() > 0 {
        let rest = cells.drop_last();
        lemma_key_count(rest, key);
        lemma_how_many_same(
            rest.len(),
            |i: int| fk_pool::cell_key(rest[i]) == key,
            |i: int| fk_pool::cell_key(cells[i]) == key,
        );
    }
}

/// Some cell has a key.
pub open spec fn has_key(cells: Seq<Cell>, key: Seq<char>) -> bool {
    exists|i: int| 0 <= i < cells.len() && fk_pool::cell_key(#[trigger] cells[i]) == key
}

proof fn lemma_key_found(cells: Seq<Cell>, key: Seq<char>)
    ensures
        fk_pool::key_count(cells, key) > 0 <==> has_key(cells, key),
        cells.len() > 0 ==> (has_key(cells, key) <==> has_key(cells.drop_last(), key)
            || fk_pool::cell_key(cells.last()) == key),
    decreases cells.len(),
{
    if cells.len() > 0 {
        let rest = cells.drop_last();
        lemma_key_found(rest, key);
        assert(cells[cells.len() - 1] == cells.last());
        if has_key(cells, key) {
            let i = choose|i: int|
                0 <= i < cells.len() && fk_pool::cell_key(#[trigger] cells[i]) == key;
            if i < rest.len() {
                assert(rest[i] == cells[i]);
            }
        }
        if has_key(rest, key) {
            let i = choose|i: int|
                0 <= i < rest.len() && fk_pool::cell_key(#[trigger] rest[i]) == key;
            assert(cells[i] == rest[i]);
        }
    }
}

proof fn lemma_first_keys(cells: Seq<Cell>, key: Seq<char>)
    ensures
        has_key(fk_pool::firsts(cells), key) <==> has_key(cells, key),
    decreases cells.len(),
{
    if cells.len() > 0 {
        let rest = cells.drop_last();
        lemma_first_keys(rest, key);
        lemma_key_found(rest, fk_pool::cell_key(cells.last()));
        lemma_key_found(cells, key);
        let before = fk_pool::firsts(rest);
        let firsts = fk_pool::firsts(cells);
        if firsts != before {
            assert(firsts.drop_last() =~= before);
            lemma_key_found(firsts, key);
        }
    }
}

proof fn lemma_firsts(cells: Seq<Cell>)
    ensures
        forall|i: int|
            0 <= i < fk_pool::firsts(cells).len() ==> cells.contains(
                #[trigger] fk_pool::firsts(cells)[i],
            ),
        forall|i: int, j: int|
            0 <= i < j < fk_pool::firsts(cells).len() ==> fk_pool::cell_key(
                #[trigger] fk_pool::firsts(cells)[i],
            ) != fk_pool::cell_key(#[trigger] fk_pool::firsts(cells)[j]),
    decreases cells.len(),
{
    if cells.len() > 0 {
        let rest = cells.drop_last();
        lemma_firsts(rest);
        let last = fk_pool::cell_key(cells.last());
        lemma_key_found(rest, last);
        lemma_first_keys(rest, last);
        let before = fk_pool::firsts(rest);
        let firsts = fk_pool::firsts(cells);
        assert forall|i: int| 0 <= i < firsts.len() implies cells.contains(#[trigger] firsts[i]) by {
            if i < before.len() {
                assert(firsts[i] == before[i]);
                assert(rest.contains(before[i]));
                let k = rest.index_of(before[i]);
                assert(cells[k] == before[i]);
            } else {
                assert(cells[cells.len() - 1] == firsts[i]);
            }
        }
        assert forall|i: int, j: int| 0 <= i < j < firsts.len() implies fk_pool::cell_key(
            #[trigger] firsts[i],
        ) != fk_pool::cell_key(#[trigger] firsts[j]) by {
            assert(firsts[i] == before[i]);
            if j < before.len() {
                assert(firsts[j] == before[j]);
            }
        }
    }
}

/// What a relationship draws from: its fixed values as texts, else the generated values of
/// the column that it refers to. Unless it draws by weight, every value stands there as
/// often as it was generated; where it does, every value stands there once, weighed by its
/// level where the parent's column has that, else by how often it was generated. Parents
/// are used once exactly where the relationship asks for that.
pub proof fn lemma_pools_hold_the_parents(
    p: RelPool,
    rel: Relationship,
    pools: Seq<Pool>,
    models: Seq<TableModel>,
    strategy: SelectionStrategy,
    cells: Seq<Cell>,
    i: int,
)
    requires
        pools::pool_of(p, rel, pools, models, strategy),
        match rel.pool_strategy {
            PoolStrategy::Fixed { values } => {
                &&& cells.len() == values@.len()
                &&& forall|j: int|
                    0 <= j < cells.len() ==> #[trigger] cells[j] == Cell::Text(values@[j]@)
            },
            _ => {
                &&& exists|k: int|
                    0 <= k < pools.len() && #[trigger] pools[k] == (rel.references@[0]@, cells)
                &&& forall|k: int|
                    0 <= k < pools.len() && (#[trigger] pools[k]).0 == rel.references@[0]@
                        ==> pools[k].1 == cells
            },
        },
    ensures
        p.column@ == rel.pk@,
        p.unique == (match rel.pool_strategy {
            PoolStrategy::Fixed { .. } => false,
            PoolStrategy::Projection { unique } => unique,
            PoolStrategy::Generated { unique } => unique,
        }),
        strategy != SelectionStrategy::Weighted ==> p.pool.entries() == cells
            && p.pool.weight_list().len() == 0,
        strategy == SelectionStrategy::Weighted ==> {
            let entries = p.pool.entries();
            &&& p.pool.weight_list().len() == entries.len()
            &&& 0 <= i < entries.len() ==> {
                &&& cells.contains(entries[i])
                &&& forall|j: int|
                    0 <= j < i ==> fk_pool::cell_key(#[trigger] entries[j]) != fk_pool::cell_key(
                        entries[i],
                    )
                &&& p.pool.weight_list()[i] is Count ==> p.pool.weight_list()[i]->Count_0
                    == how_many(
                    cells.len(),
                    |j: int| fk_pool::cell_key(cells[j]) == fk_pool::cell_key(entries[i]),
                ) as usize
                &&& rel.pool_strategy is Fixed ==> p.pool.weight_list()[i] is Count
                &&& !(rel.pool_strategy is Fixed) ==> {
                    let levels = pools::parent_levels(models, rel.references@[0]@);
                    let key = fk_pool::cell_key(entries[i]);
                    &&& levels is Some && levels->0.contains(key) && levels->0.len() <= usize::MAX
                        ==> p.pool.weight_list()[i] is Level
                        && p.pool.weight_list()[i]->Level_0 < levels->0.len()
                        && levels->0[p.pool.weight_list()[i]->Level_0 as int] == key
                    &&& levels is None || !levels->0.contains(key)
                        ==> p.pool.weight_list()[i] is Count
                }
            }
            &&& 0 <= i < cells.len() ==> has_key(entries, fk_pool::cell_key(cells[i]))
        },
{
    let source = pools::source_of(rel, pools)->0;
    match rel.pool_strategy {
        PoolStrategy::Fixed { values } => {
            assert(source =~= cells);
        },
        _ => {
            lemma_last_pool(pools, rel.references@[0]@, cells);
        },
    }
    lemma_firsts(source);
    if 0 <= i < cells.len() {
        lemma_first_keys(source, fk_pool::cell_key(cells[i]));
        assert(has_key(cells, fk_pool::cell_key(cells[i])));
    }
    if strategy == SelectionStrategy::Weighted && 0 <= i < p.pool.entries().len() {
        lemma_key_count(source, fk_pool::cell_key(p.pool.entries()[i]));
        if !(rel.pool_strategy is Fixed) {
            let levels = pools::parent_levels(models, rel.references@[0]@);
            if levels is Some {
                value::lemma_first_place(levels->0, fk_pool::cell_key(p.pool.entries()[i]));
            }
        }
    }
}

proof fn lemma_last_pool(pools: Seq<Pool>, key: Seq<char>, cells: Seq<Cell>)
    requires
        exists|k: int| 0 <= k < pools.len() && #[trigger] pools[k] == (key, cells),
        forall|k: int| 0 <= k < pools.len() && (#[trigger] pools[k]).0 == key ==> pools[k].1 == cells,
    ensures
        pools::pool_at(pools, key) == Some(cells),
    decreases pools.len(),
{
    let k = choose|k: int| 0 <= k < pools.len() && #[trigger] pools[k] == (key, cells);
    assert(pools[pools.len() - 1] == pools.last());
    if pools.last().0 != key {
        let rest = pools.drop_last();
        assert(rest[k] == pools[k]);
        assert forall|j: int| 0 <= j < rest.len() && (#[trigger] rest[j]).0 == key implies rest[j].1
            == cells by {
            assert(rest[j] == pools[j]);
        }
        lemma_last_pool(rest, key, cells);
    }
}

/// How a column is modelled: by its instants where it has a format; else by the family that
/// a rule forces; else by its dictionary where it has one, and a number without one by the
/// family that fits best.
pub proof fn lemma_plans_follow_the_profile(c: ProfileColumn, forced: Option<Seq<char>>)
    ensures
        ({
            let kind = c.logical_type@;
            let plan = training::plan_of(c, forced);
            let instants = kind == "datetime"@ && c.datetime_format is Some;
            &&& instants ==> plan == Plan::Epoch(forced)
            &&& plan is Epoch ==> instants
            &&& !instants && forced is Some && forced->0 != "categorical"@ ==> plan == Plan::Forced(
                forced->0,
            )
            &&& !instants && forced == Some("categorical"@) ==> (plan is Dictionary <==> c.levels is Some)
            &&& !instants && forced is None && kind == "numerical"@ && c.levels is None
                ==> plan is Auto
            &&& !instants && forced is None && (kind == "numerical"@ || kind == "categorical"@)
                && c.levels is Some ==> plan is Dictionary
            &&& forced is None && kind == "categorical"@ && c.levels is None
                ==> plan is Unsupported
            &&& !instants && forced is None && kind == "datetime"@ && c.has_mean ==> plan is Auto
            &&& !instants && forced is None && kind == "datetime"@ && !c.has_mean && c.levels is None
                ==> plan is Point
            &&& !instants && forced is None && kind == "datetime"@ && !c.has_mean && c.levels is Some
                ==> plan is Dictionary
            &&& forced is None && kind != "numerical"@ && kind != "categorical"@ && kind
                != "datetime"@ ==> plan is Unsupported
        }),
{
    reveal_strlit("categorical");
    reveal_strlit("datetime");
    reveal_strlit("numerical");
    assert("categorical"@.len() != "datetime"@.len());
    assert("categorical"@.len() != "numerical"@.len());
    assert("datetime"@.len() != "numerical"@.len());
}

/// A family can be forced on a column exactly where there is such a column, the family is
/// known, and it agrees with the dictionary: `categorical` needs one, and any other family
/// must find none, unless the column goes by its instants, which no dictionary models.
pub proof fn lemma_forced_families(
    table: Seq<char>,
    columns: Seq<ProfileColumn>,
    families: Seq<Seq<char>>,
    allowed: Seq<Seq<char>>,
    name: Seq<char>,
    k: int,
)
    requires
        0 <= k < columns.len(),
        forall|j: int| 0 <= j < k ==> (#[trigger] columns[j]).name@ != columns[k].name@,
    ensures
        ({
            let c = columns[k];
            let instants = c.logical_type@ == "datetime"@ && c.datetime_format is Some;
            training::forced_fault(table, columns, families, allowed, c.name@, name) is None <==> (
            if name == "categorical"@ {
                !instants && c.levels is Some
            } else {
                (families.contains(name) || name == "ecdf"@) && (instants || c.levels is None)
            })
        }),
{
    lemma_profile_of(columns, columns[k].name@, k);
}

proof fn lemma_profile_of(list: Seq<ProfileColumn>, name: Seq<char>, k: int)
    requires
        0 <= k < list.len(),
        list[k].name@ == name,
        forall|j: int| 0 <= j < k ==> (#[trigger] list[j]).name@ != name,
    ensures
        training::profile_at(list, name) == Some(list[k]),
    decreases list.len(),
{
    if k > 0 {
        assert(list[0].name@ != name);
        let rest = list.skip(1);
        assert forall|j: int| 0 <= j < k - 1 implies (#[trigger] rest[j]).name@ != name by {
            assert(rest[j] == list[j + 1]);
        }
        lemma_profile_of(rest, name, k - 1);
    }
}

/// A column is made anonymous where a rule says that it holds personal data, or where it
/// looks so and no rule keeps it: by the provider that the rule names, else by the one that
/// was recognised, else by the one for anything.
pub proof fn lemma_personal_data_is_detected<P>(
    columns: Seq<Seq<char>>,
    clues: Seq<Clue<P>>,
    fallback: P,
    i: int,
    p: P,
)
    requires
        clues.len() == columns.len(),
        0 <= i < columns.len(),
        columns.no_duplicates(),
    ensures
        ({
            let c = clues[i];
            train_run::detected(columns, clues, fallback).contains((columns[i], p)) <==> {
                ||| c.sdtype == SdType::Auto && c.guess == Some(p)
                ||| c.sdtype == SdType::Pii && c.named == Some(p)
                ||| c.sdtype == SdType::Pii && c.named is None && c.guess == Some(p)
                ||| c.sdtype == SdType::Pii && c.named is None && c.guess is None && p == fallback
            }
        }),
{
    lemma_detected(columns, clues, fallback, i, p);
}

proof fn lemma_detected<P>(
    columns: Seq<Seq<char>>,
    clues: Seq<Clue<P>>,
    fallback: P,
    i: int,
    p: P,
)
    requires
        columns.len() <= clues.len(),
        columns.no_duplicates(),
        0 <= i < clues.len(),
    ensures
        ({
            let list = train_run::detected(columns, clues, fallback);
            &&& forall|k: int|
                0 <= k < list.len() ==> exists|j: int|
                    #![trigger columns[j]]
                    0 <= j < columns.len() && (#[trigger] list[k]).0 == columns[j]
                        && train_run::provider_of(clues[j], fallback) == Some(list[k].1)
            &&& i < columns.len() ==> (list.contains((columns[i], p)) <==> train_run::provider_of(
                clues[i],
                fallback,
            ) == Some(p))
        }),
    decreases columns.len(),
{
    if columns.len() > 0 {
        let rest = columns.drop_last();
        lemma_detected(rest, clues, fallback, i, p);
        let before = train_run::detected(rest, clues, fallback);
        let list = train_run::detected(columns, clues, fallback);
        assert forall|k: int| 0 <= k < list.len() implies exists|j: int|
            #![trigger columns[j]]
            0 <= j < columns.len() && (#[trigger] list[k]).0 == columns[j]
                && train_run::provider_of(clues[j], fallback) == Some(list[k].1) by {
            if k < before.len() {
                assert(list[k] == before[k]);
                let j = choose|j: int|
                    #![trigger rest[j]]
                    0 <= j < rest.len() && before[k].0 == rest[j] && train_run::provider_of(
                        clues[j],
                        fallback,
                    ) == Some(before[k].1);
                assert(columns[j] == rest[j]);
            } else {
                assert(list[k].0 == columns[columns.len() - 1]);
            }
        }
        if i < columns.len() {
            let pair = (columns[i], p);
            if list.contains(pair) {
                let k = list.index_of(pair);
                let j = choose|j: int|
                    #![trigger columns[j]]
                    0 <= j < columns.len() && list[k].0 == columns[j] && train_run::provider_of(
                        clues[j],
                        fallback,
                    ) == Some(list[k].1);
                assert(j == i);
            }
            if train_run::provider_of(clues[i], fallback) == Some(p) {
                if i < rest.len() {
                    assert(rest[i] == columns[i]);
                    let k = before.index_of(pair);
                    assert(list[k] == pair);
                } else {
                    assert(list[list.len() - 1] == pair);
                }
            }
        }
    }
}

/// Of the columns with personal data, those that are foreign keys are left as they are, and
/// no others.
pub proof fn lemma_foreign_keys_are_not_anonymous<P>(
    list: Seq<(Seq<char>, P)>,
    reserved: Seq<Seq<char>>,
    e: (Seq<char>, P),
)
    ensures
        train_run::unreserved(list, reserved).contains(e) <==> list.contains(e)
            && !reserved.contains(e.0),
    decreases list.len(),
{
    if list.len() > 0 {
        let rest = list.drop_last();
        lemma_foreign_keys_are_not_anonymous(rest, reserved, e);
        let before = train_run::unreserved(rest, reserved);
        let after = train_run::unreserved(list, reserved);
        if list.contains(e) {
            let i = list.index_of(e);
            if i < rest.len() {
                assert(rest[i] == e);
            }
        }
        if rest.contains(e) {
            let i = rest.index_of(e);
            assert(list[i] == e);
        }
        if before.contains(e) {
            let i = before.index_of(e);
            assert(after[i] == e);
        }
        if after.contains(e) && !before.contains(e) {
            let i = after.index_of(e);
            if i < before.len() {
                assert(before[i] == e);
            }
            assert(list[list.len() - 1] == e);
        }
        if e == list.last() && !reserved.contains(e.0) {
            assert(after[after.len() - 1] == e);
        }
    }
}

/// What the rules say of personal data in a column: the last one that says anything counts.
pub proof fn lemma_the_last_rule_counts(
    tables: Seq<TableRule>,
    table: Seq<char>,
    column: Seq<char>,
    i: int,
)
    requires
        0 <= i <= tables.len(),
        forall|j: int|
            i <= j < tables.len() && (#[trigger] tables[j]).name@ == table ==> {
                let r = rules::column_rule(tables[j].columns@, column);
                r is None || r->0.sdtype == SdType::Auto
            },
    ensures
        i == 0 ==> train_run::sd_rule(tables, table, column) == (
            SdType::Auto,
            None::<Seq<char>>,
        ),
        i > 0 && tables[i - 1].name@ == table && rules::column_rule(
            tables[i - 1].columns@,
            column,
        ) is Some && rules::column_rule(tables[i - 1].columns@, column)->0.sdtype != SdType::Auto
            ==> train_run::sd_rule(tables, table, column) == (
            rules::column_rule(tables[i - 1].columns@, column)->0.sdtype,
            rules::column_rule(tables[i - 1].columns@, column)->0.pii_provider.deep_view(),
        ),
    decreases tables.len(),
{
    if tables.len() > 0 && i < tables.len() {
        assert(tables[tables.len() - 1] == tables.last());
        let rest = tables.drop_last();
        assert forall|j: int| i <= j < rest.len() && (#[trigger] rest[j]).name@ == table implies ({
            let r = rules::column_rule(rest[j].columns@, column);
            r is None || r->0.sdtype == SdType::Auto
        }) by {
            assert(rest[j] == tables[j]);
        }
        lemma_the_last_rule_counts(rest, table, column, i);
    }
}

/// The foreign keys of a database are those of the rows that name all four of their parts.
pub proof fn lemma_foreign_keys_are_read(
    rows: Seq<Vec<Value>>,
    t: int,
    c: int,
    rt: int,
    rc: int,
    link: Link,
)
    ensures
        training::links_of(rows, t, c, rt, rc).contains(link) <==> exists|r: int|
            #![trigger rows[r]]
            0 <= r < rows.len() && names_link(rows[r].deep_view(), t, c, rt, rc, link),
    decreases rows.len(),
{
    if rows.len() > 0 {
        let rest = rows.drop_last();
        lemma_foreign_keys_are_read(rest, t, c, rt, rc, link);
        let before = training::links_of(rest, t, c, rt, rc);
        let after = training::links_of(rows, t, c, rt, rc);
        assert(rows[rows.len() - 1] == rows.last());
        if before.contains(link) {
            let i = before.index_of(link);
            assert(after[i] == link);
            let r = choose|r: int|
                #![trigger rest[r]]
                0 <= r < rest.len() && names_link(rest[r].deep_view(), t, c, rt, rc, link);
            assert(rows[r] == rest[r]);
        }
        if after.contains(link) && !before.contains(link) {
            let i = after.index_of(link);
            if i < before.len() {
                assert(before[i] == link);
            }
            assert(names_link(rows[rows.len() - 1].deep_view(), t, c, rt, rc, link));
        }
        if exists|r: int|
            #![trigger rows[r]]
            0 <= r < rows.len() && names_link(rows[r].deep_view(), t, c, rt, rc, link) {
            let r = choose|r: int|
                #![trigger rows[r]]
                0 <= r < rows.len() && names_link(rows[r].deep_view(), t, c, rt, rc, link);
            if r < rest.len() {
                assert(rest[r] == rows[r]);
            } else {
                assert(after[after.len() - 1] == link);
            }
        }
    }
}

/// A row names the table, the column, and the table and the column that these refer to.
pub open spec fn names_link(row: Seq<Cell>, t: int, c: int, rt: int, rc: int, link: Link) -> bool {
    &&& 0 <= t < row.len() && row[t] == Cell::Text(link.from_table)
    &&& 0 <= c < row.len() && row[c] == Cell::Text(link.from_column)
    &&& 0 <= rt < row.len() && row[rt] == Cell::Text(link.to_table)
    &&& 0 <= rc < row.len() && row[rc] == Cell::Text(link.to_column)
}

/// Two characters are the same, or the capital and the small form of one letter.
pub open spec fn same_letter(a: char, b: char) -> bool {
    ||| a == b
    ||| 'A' <= a <= 'Z' && b as int == a as int + 32
    ||| 'A' <= b <= 'Z' && a as int == b as int + 32
}

/// Texts are alike where they are as long and differ at most in capitals.
pub proof fn lemma_texts_alike(a: Seq<char>, b: Seq<char>)
    ensures
        text::alike(a, b) <==> a.len() == b.len() && forall|i: int|
            0 <= i < a.len() ==> same_letter(#[trigger] a[i], b[i]),
{
    if a.len() == b.len() {
        assert forall|i: int| 0 <= i < a.len() implies (text::small(#[trigger] a[i]) == text::small(
            b[i],
        ) <==> same_letter(a[i], b[i])) by {}
    }
}

/// A key is taken over as the first column that is alike is written.
pub proof fn lemma_keys_are_reconciled(pk: Seq<Seq<char>>, columns: Seq<Seq<char>>, i: int, j: int)
    requires
        0 <= i < pk.len(),
        0 <= j < columns.len(),
        text::alike(columns[j], pk[i]),
        forall|k: int| 0 <= k < j ==> !text::alike(#[trigger] columns[k], pk[i]),
    ensures
        training::reconciled(pk, columns).contains(columns[j]),
    decreases pk.len(),
{
    let rest = pk.drop_last();
    let before = training::reconciled(rest, columns);
    let after = training::reconciled(pk, columns);
    if i < rest.len() {
        assert(rest[i] == pk[i]);
        lemma_keys_are_reconciled(rest, columns, i, j);
        let k = before.index_of(columns[j]);
        assert(after[k] == columns[j]);
    } else {
        lemma_column_alike(columns, pk[i], j);
        assert(after[after.len() - 1] == columns[j]);
    }
}

proof fn lemma_column_alike(columns: Seq<Seq<char>>, key: Seq<char>, j: int)
    requires
        0 <= j < columns.len(),
        text::alike(columns[j], key),
        forall|k: int| 0 <= k < j ==> !text::alike(#[trigger] columns[k], key),
    ensures
        training::column_alike(columns, key) == Some(columns[j]),
    decreases columns.len(),
{
    if j > 0 {
        let rest = columns.skip(1);
        assert(!text::alike(columns[0], key));
        assert forall|k: int| 0 <= k < j - 1 implies !text::alike(#[trigger] rest[k], key) by {
            assert(rest[k] == columns[k + 1]);
        }
        lemma_column_alike(rest, key, j - 1);
    }
}

/// Rows that are wide enough give their cells of a column, in order.
pub proof fn lemma_columns_are_sampled(rows: Seq<Vec<Value>>, c: int)
    requires
        0 <= c,
        forall|r: int| 0 <= r < rows.len() ==> c < (#[trigger] rows[r])@.len(),
    ensures
        training::sampled(rows, c).len() == rows.len(),
        forall|r: int|
            0 <= r < rows.len() ==> #[trigger] training::sampled(rows, c)[r] == rows[r]@[c]@,
    decreases rows.len(),
{
    if rows.len() > 0 {
        let rest = rows.drop_last();
        assert(rows[rows.len() - 1] == rows.last());
        assert forall|r: int| 0 <= r < rest.len() implies c < (#[trigger] rest[r])@.len() by {
            assert(rest[r] == rows[r]);
        }
        lemma_columns_are_sampled(rest, c);
        assert forall|r: int| 0 <= r < rows.len() implies #[trigger] training::sampled(rows, c)[r]
            == rows[r]@[c]@ by {
            if r < rest.len() {
                assert(training::sampled(rest, c)[r] == rest[r]@[c]@);
            }
        }
    }
}

/// A row is projected to the cells of the columns that are named, in the order in which
/// they are named.
pub proof fn lemma_rows_are_projected(
    row: Seq<Cell>,
    order: Seq<Seq<char>>,
    columns: Seq<Seq<char>>,
    j: int,
)
    requires
        row.len() == order.len(),
        order.no_duplicates(),
        forall|i: int| 0 <= i < columns.len() ==> order.contains(#[trigger] columns[i]),
    ensures
        training::projected(row, order, columns).len() == columns.len(),
        forall|k: int|
            0 <= j < columns.len() && 0 <= k < order.len() && #[trigger] order[k] == columns[j]
                ==> training::projected(row, order, columns)[j] == row[k],
    decreases columns.len(),
{
    if columns.len() > 0 {
        let rest = columns.drop_last();
        assert(columns[columns.len() - 1] == columns.last());
        assert forall|i: int| 0 <= i < rest.len() implies order.contains(#[trigger] rest[i]) by {
            assert(rest[i] == columns[i]);
        }
        lemma_rows_are_projected(row, order, rest, j);
        value::lemma_last_place(order, columns.last());
        assert(order.contains(columns[columns.len() - 1]));
    }
}

/// The names that are in a list, and those that are not.
pub proof fn lemma_names_are_kept(all: Seq<Seq<char>>, list: Seq<Seq<char>>, n: Seq<char>)
    ensures
        training::kept(all, list).contains(n) <==> all.contains(n) && list.contains(n),
    decreases all.len(),
{
    if all.len() > 0 {
        let rest = all.drop_last();
        lemma_names_are_kept(rest, list, n);
        let before = training::kept(rest, list);
        let after = training::kept(all, list);
        if all.contains(n) {
            let i = all.index_of(n);
            if i < rest.len() {
                assert(rest[i] == n);
            }
        }
        if rest.contains(n) {
            let i = rest.index_of(n);
            assert(all[i] == n);
        }
        if before.contains(n) {
            let i = before.index_of(n);
            assert(after[i] == n);
        }
        if after.contains(n) && !before.contains(n) {
            let i = after.index_of(n);
            if i < before.len() {
                assert(before[i] == n);
            }
            assert(all[all.len() - 1] == n);
        }
        if n == all.last() && list.contains(n) {
            assert(after[after.len() - 1] == n);
        }
    }
}

/// The levels that parents are weighed by are those of the column that a reference names,
/// in the model of the table that it names.
pub proof fn lemma_levels_of_parents(
    models: Seq<TableModel>,
    table: Seq<char>,
    column: Seq<char>,
    t: int,
    c: int,
)
    requires
        !table.contains('.'),
        0 <= t < models.len(),
        models[t].table@ == table,
        forall|j: int| 0 <= j < t ==> (#[trigger] models[j]).table@ != table,
        0 <= c < models[t].columns@.len(),
        models[t].columns@[c].0@ == column,
        forall|j: int| 0 <= j < c ==> (#[trigger] models[t].columns@[j]).0@ != column,
    ensures
        pools::parent_levels(models, table + seq!['.'] + column)
            == models[t].columns@[c].1.levels.deep_view(),
{
    let s = table + seq!['.'] + column;
    writing::lemma_first_dot(table, column);
    assert(s.take(table.len() as int) =~= table);
    assert(s.skip(table.len() as int + 1) =~= column);
    generated::lemma_model_of_a_table(models, table, t);
    values::lemma_model_of(models[t].columns@, column, c);
}

/// A value is counted to the level that it is written as.
pub proof fn lemma_levels_are_found(levels: &[String], v: &Value, r: Option<usize>, s: Seq<char>)
    requires
        call_ensures(marginal::level_of, (levels, v), r),
        v@ == Cell::Text(s) || v@ == Cell::Number(s),
    ensures
        r is Some ==> r->0 < levels@.len() && levels@[r->0 as int]@ == s,
        r is None ==> forall|i: int| 0 <= i < levels@.len() ==> (#[trigger] levels@[i])@ != s,
{
    let all = levels.deep_view();
    value::lemma_first_place(all, s);
    if r is None {
        assert forall|i: int| 0 <= i < levels@.len() implies (#[trigger] levels@[i])@ != s by {
            assert(all[i] == levels@[i]@);
        }
    }
}

} // verus!
