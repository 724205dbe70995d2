//! Columns that other tables refer to hold every value once.
use crate::branch;
use crate::derivation;
use crate::domain;
use crate::domain::Source;
use crate::draw;
use crate::draw::Sampler;
use crate::model;
use crate::model::TableModel;
use crate::pools;
use crate::pools::{Keys, RelPool};
use crate::text;
use crate::value;
use crate::value::{Cell, Value};
use vstd::prelude::*;

verus! {

/// How often another value is drawn for one that repeats.
pub const REDRAWS: usize = 10_000;

/// A column in which every value that an earlier row already has was drawn
/// again, until none repeats.
pub open spec fn redrawn(before: Seq<Cell>, after: Seq<Cell>) -> bool {
    &&& after.len() == before.len()
    &&& after.no_duplicates()
    &&& forall|r: int|
        0 <= r < after.len() && !after.take(r).contains(before[r]) ==> #[trigger] after[r]
            == before[r]
}

/// Every cell is as it was or an entry of the pool.
pub open spec fn from_pool(before: Seq<Cell>, after: Seq<Cell>, pool: Seq<Cell>) -> bool {
    forall|r: int|
        0 <= r < after.len() ==> #[trigger] after[r] == before[r] || pool.contains(after[r])
}

/// Every cell is as it was or another draw.
pub open spec fn from_draws(before: Seq<Cell>, after: Seq<Cell>, source: Source) -> bool {
    forall|r: int|
        0 <= r < after.len() ==> #[trigger] after[r] == before[r] || domain::is_draw(
            source,
            after[r],
        )
}

/// The levels of a column, where it is categorical.
pub open spec fn levels_of(table: TableModel, column: Seq<char>) -> Option<Seq<Seq<char>>> {
    match model::column_model(table.columns@, column) {
        Some(c) => match c.levels {
            Some(l) => Some(l.deep_view()),
            None => None,
        },
        None => None,
    }
}

/// A column cannot hold as many different values as there are rows: the
/// message.
pub open spec fn too_few(
    table: TableModel,
    name: Seq<char>,
    column: Seq<char>,
    keys: Seq<Keys>,
    rows: nat,
) -> Option<Seq<char>> {
    let j = draw::keys_at(keys, column);
    if j < keys.len() {
        let distinct = keys[j].entries.to_set().len();
        if distinct < rows {
            Some(
                "referenced FK column '"@ + branch::key_of(name, column)
                    + "' draws from a pool of "@ + text::digits(distinct)
                    + " distinct value(s) but "@ + text::digits(rows)
                    + " rows are requested; unique values are impossible"@,
            )
        } else {
            None
        }
    } else {
        match levels_of(table, column) {
            Some(l) => if l.len() < rows {
                Some(
                    "referenced column '"@ + branch::key_of(name, column) + "' has only "@
                        + text::digits(l.len()) + " categorical level(s) but "@ + text::digits(
                        rows,
                    )
                        + " rows are requested; unique values are impossible \u{2014} reduce --rows or drop the table from the rules"@,
                )
            } else {
                None
            },
            None => None,
        }
    }
}

/// The message for a column whose values ran out.
pub open spec fn spent(name: Seq<char>, column: Seq<char>) -> Seq<char> {
    "referenced column '"@ + branch::key_of(name, column) + "' exhausted its value space after "@
        + text::digits(REDRAWS as nat)
        + " redraws (degenerate marginal?); duplicated parent keys cannot satisfy an FK-enforced load"@
}

fn write_too_few(
    table: &TableModel,
    name: &str,
    column: &str,
    rels: &Vec<RelPool>,
    rows: usize,
) -> (r: Option<String>)
    ensures
        match r {
            Some(m) => too_few(*table, name@, column@, pools::all_keys(rels@), rows as nat) == Some(
                m@,
            ),
            None => too_few(*table, name@, column@, pools::all_keys(rels@), rows as nat) is None,
        },
{
    proof {
        draw::lemma_keys_at(rels@, column@);
    }
    match draw::find_rel(rels, column) {
        Some(j) => {
            let distinct: usize = rels[j].pool.distinct_len();
            if distinct < rows {
                let key = branch::write_key(name, column);
                let mut m = text::around(
                    "referenced FK column '",
                    key.as_str(),
                    "' draws from a pool of ",
                );
                text::push_text(&mut m, text::number_text(distinct).as_str());
                text::push_text(&mut m, " distinct value(s) but ");
                text::push_text(&mut m, text::number_text(rows).as_str());
                text::push_text(&mut m, " rows are requested; unique values are impossible");
                Some(m)
            } else {
                None
            }
        },
        None => {
            let levels: usize = match table.column(column) {
                Some(c) => match &c.levels {
                    Some(l) => l.len(),
                    None => {
                        return None;
                    },
                },
                None => {
                    return None;
                },
            };
            if levels < rows {
                let key = branch::write_key(name, column);
                let mut m = text::around("referenced column '", key.as_str(), "' has only ");
                text::push_text(&mut m, text::number_text(levels).as_str());
                text::push_text(&mut m, " categorical level(s) but ");
                text::push_text(&mut m, text::number_text(rows).as_str());
                text::push_text(
                    &mut m,
                    " rows are requested; unique values are impossible \u{2014} reduce --rows or drop the table from the rules",
                );
                Some(m)
            } else {
                None
            }
        },
    }
}

/// Whether one of the first rows has a value in a column.
fn has_above(rows: &Vec<Vec<Value>>, c: usize, n: usize, v: &Value) -> (r: bool)
    requires
        n <= rows@.len(),
        forall|i: int| 0 <= i < rows@.len() ==> c < (#[trigger] rows@[i])@.len(),
    ensures
        r == draw::column_of(derivation::rows_cells(rows@), c as int).take(n as int).contains(v@),
{
    let ghost above = draw::column_of(derivation::rows_cells(rows@), c as int).take(n as int);
    let mut i: usize = 0;
    while i < n
        invariant
            i <= n <= rows@.len(),
            above == draw::column_of(derivation::rows_cells(rows@), c as int).take(n as int),
            forall|k: int| 0 <= k < rows@.len() ==> c < (#[trigger] rows@[k])@.len(),
            forall|k: int| 0 <= k < i ==> #[trigger] above[k] != v@,
        decreases n - i,
    {
        if rows[i][c].same(v) {
            proof {
                assert(above[i as int] == v@);
            }
            return true;
        }
        i = i + 1;
    }
    false
}

/// Puts a value into a cell.
pub(crate) fn set_cell(rows: &mut Vec<Vec<Value>>, r: usize, c: usize, v: Value)
    requires
        r < old(rows)@.len(),
        c < old(rows)@[r as int]@.len(),
    ensures
        final(rows)@.len() == old(rows)@.len(),
        derivation::rows_cells(final(rows)@) == derivation::rows_cells(old(rows)@).update(
            r as int,
            derivation::rows_cells(old(rows)@)[r as int].update(c as int, v@),
        ),
        forall|i: int|
            0 <= i < final(rows)@.len() ==> (#[trigger] final(rows)@[i])@.len()
                == old(rows)@[i]@.len(),
{
    let ghost before = derivation::rows_cells(rows@);
    let ghost cell = v@;
    rows[r][c] = v;
    proof {
        let after = derivation::rows_cells(rows@);
        assert(after[r as int] =~= before[r as int].update(c as int, cell));
        assert(after =~= before.update(r as int, before[r as int].update(c as int, cell)));
    }
}

/// What another value of a column is drawn by.
pub struct Again {
    pub table: TableModel,
    pub name: Seq<char>,
    pub column: Seq<char>,
    pub place: usize,
    pub keys: Seq<Keys>,
    pub enforce: bool,
}

/// Another value for a cell: a key of the column's relationship, which stays there,
/// or another draw.
pub open spec fn another<S: Sampler>(s: S, a: Again, cell: Cell, rng: rand::rngs::StdRng) -> (
    Cell,
    rand::rngs::StdRng,
) {
    let j = draw::keys_at(a.keys, a.column);
    if j < a.keys.len() {
        match draw::shared_key(s, a.keys[j], rng) {
            (Some(key), next) => (key, next),
            (None, next) => (cell, next),
        }
    } else {
        let d = s.redrawn(a.table, a.place, rng);
        (
            domain::drawn_cell(
                model::column_model(a.table.columns@, a.column),
                d.0,
                a.enforce,
            ),
            d.1,
        )
    }
}

/// The first of so many further values that is none of those above; nothing where
/// all of them are.
pub open spec fn first_new<S: Sampler>(
    s: S,
    a: Again,
    above: Seq<Cell>,
    cell: Cell,
    rng: rand::rngs::StdRng,
    tries: nat,
) -> Option<(Cell, rand::rngs::StdRng)>
    decreases tries,
{
    if tries == 0 {
        None
    } else {
        let d = another(s, a, cell, rng);
        if above.contains(d.0) {
            first_new(s, a, above, cell, d.1, (tries - 1) as nat)
        } else {
            Some(d)
        }
    }
}

/// A column whose first rows hold every value once.
pub open spec fn distinct_rows<S: Sampler>(
    s: S,
    a: Again,
    column: Seq<Cell>,
    rng: rand::rngs::StdRng,
    n: nat,
) -> Option<(Seq<Cell>, rand::rngs::StdRng)>
    decreases n,
{
    if n == 0 {
        Some((column, rng))
    } else {
        match distinct_rows(s, a, column, rng, (n - 1) as nat) {
            Some((now, next)) => {
                let above = now.take(n - 1);
                if above.contains(now[n - 1]) {
                    match first_new(s, a, above, now[n - 1], next, REDRAWS as nat) {
                        Some((cell, last)) => Some((now.update(n - 1, cell), last)),
                        None => None,
                    }
                } else {
                    Some((now, next))
                }
            },
            None => None,
        }
    }
}

/// A column that holds every value once, or why it cannot.
pub open spec fn distinct_column<S: Sampler>(
    s: S,
    a: Again,
    column: Seq<Cell>,
    rng: rand::rngs::StdRng,
) -> Result<(Seq<Cell>, rand::rngs::StdRng), Seq<char>> {
    match too_few(a.table, a.name, a.column, a.keys, column.len()) {
        Some(m) => Err(m),
        None => match distinct_rows(s, a, column, rng, column.len()) {
            Some(settled) => Ok(settled),
            None => Err(spent(a.name, a.column)),
        },
    }
}

/// A column that could not be settled so far is not settled further down.
proof fn lemma_rows_stop<S: Sampler>(
    s: S,
    a: Again,
    column: Seq<Cell>,
    rng: rand::rngs::StdRng,
    k: nat,
    n: nat,
)
    requires
        k <= n,
        distinct_rows(s, a, column, rng, k) is None,
    ensures
        distinct_rows(s, a, column, rng, n) is None,
    decreases n,
{
    if k < n {
        lemma_rows_stop(s, a, column, rng, k, (n - 1) as nat);
    }
}

/// The rows agree in every column but one.
pub open spec fn only_column(before: Seq<Seq<Cell>>, after: Seq<Seq<Cell>>, c: int) -> bool {
    &&& after.len() == before.len()
    &&& forall|r: int| 0 <= r < after.len() ==> (#[trigger] after[r]).len() == before[r].len()
    &&& forall|r: int, k: int|
        0 <= r < after.len() && 0 <= k < after[r].len() && k != c ==> #[trigger] after[r][k]
            == before[r][k]
}

/// Draws another value for every row that repeats one, in a column that other
/// tables refer to. A foreign key is drawn from its parents again, so that it
/// stays one of them.
pub fn make_distinct<S: Sampler>(
    sampler: &S,
    table: &TableModel,
    name: &str,
    columns: &[String],
    c: usize,
    rows: &mut Vec<Vec<Value>>,
    rels: &Vec<RelPool>,
    enforce: bool,
    rng: &mut rand::rngs::StdRng,
) -> (r: Result<(), String>)
    requires
        c < columns@.len(),
        derivation::all_wide(old(rows)@, columns@.len()),
    ensures
        final(rows)@.len() == old(rows)@.len(),
        derivation::all_wide(final(rows)@, columns@.len()),
        only_column(
            derivation::rows_cells(old(rows)@),
            derivation::rows_cells(final(rows)@),
            c as int,
        ),
        ({
            let before = draw::column_of(derivation::rows_cells(old(rows)@), c as int);
            let after = draw::column_of(derivation::rows_cells(final(rows)@), c as int);
            let column = columns@[c as int]@;
            let fault = too_few(*table, name@, column, pools::all_keys(rels@), before.len());
            let j = draw::rel_of(rels@, column);
            let again = Again {
                table: *table,
                name: name@,
                column,
                place: c,
                keys: pools::all_keys(rels@),
                enforce,
            };
            &&& match r {
                Ok(_) => distinct_column(*sampler, again, before, *old(rng)) == Ok::<
                    (Seq<Cell>, rand::rngs::StdRng),
                    Seq<char>,
                >((after, *final(rng))),
                Err(m) => distinct_column(*sampler, again, before, *old(rng)) == Err::<
                    (Seq<Cell>, rand::rngs::StdRng),
                    Seq<char>,
                >(m@),
            }
            &&& match r {
                Ok(_) => {
                    &&& fault is None
                    &&& redrawn(before, after)
                    &&& j < rels@.len() ==> from_pool(before, after, rels@[j].pool.entries())
                    &&& j >= rels@.len() ==> from_draws(
                        before,
                        after,
                        domain::source_of(*table, column, enforce),
                    )
                },
                Err(m) => {
                    ||| fault == Some(m@)
                    ||| fault is None && m@ == spent(name@, column) && !before.no_duplicates()
                },
            }
        }),
{
    let ghost first = derivation::rows_cells(rows@);
    let ghost before = draw::column_of(first, c as int);
    let ghost column = columns@[c as int]@;
    let ghost source = domain::source_of(*table, column, enforce);
    match write_too_few(table, name, columns[c].as_str(), rels, rows.len()) {
        Some(m) => {
            return Err(m);
        },
        None => {},
    }
    let rel = draw::find_rel(rels, columns[c].as_str());
    let ghost j = draw::rel_of(rels@, column);
    let ghost again = Again {
        table: *table,
        name: name@,
        column,
        place: c,
        keys: pools::all_keys(rels@),
        enforce,
    };
    proof {
        draw::lemma_keys_at(rels@, column);
    }
    let mut r: usize = 0;
    while r < rows.len()
        invariant
            r <= rows@.len(),
            c < columns@.len(),
            column == columns@[c as int]@,
            source == domain::source_of(*table, column, enforce),
            j == draw::rel_of(rels@, column),
            match rel {
                Some(k) => k == j && k < rels@.len(),
                None => j >= rels@.len(),
            },
            first == derivation::rows_cells(old(rows)@),
            before == draw::column_of(first, c as int),
            too_few(*table, name@, column, pools::all_keys(rels@), before.len()) is None,
            derivation::all_wide(old(rows)@, columns@.len()),
            derivation::all_wide(rows@, columns@.len()),
            only_column(first, derivation::rows_cells(rows@), c as int),
            again == (Again {
                table: *table,
                name: name@,
                column,
                place: c,
                keys: pools::all_keys(rels@),
                enforce,
            }),
            draw::keys_at(again.keys, column) == j,
            ({
                let now = draw::column_of(derivation::rows_cells(rows@), c as int);
                &&& distinct_rows(*sampler, again, before, *old(rng), r as nat) == Some((now, *rng))
                &&& now.take(r as int).no_duplicates()
                &&& forall|k: int|
                    0 <= k < r && !now.take(k).contains(before[k]) ==> #[trigger] now[k]
                        == before[k]
                &&& forall|k: int| r <= k < now.len() ==> #[trigger] now[k] == before[k]
                &&& j < rels@.len() ==> from_pool(before, now, rels@[j].pool.entries())
                &&& j >= rels@.len() ==> from_draws(before, now, source)
            }),
        decreases rows@.len() - r,
    {
        let ghost start = derivation::rows_cells(rows@);
        let ghost now = draw::column_of(start, c as int);
        let repeats = has_above(rows, c, r, &rows[r][c]);
        proof {
            assert(now[r as int] == rows@[r as int]@[c as int]@);
        }
        if repeats {
            proof {
                assert(!before.no_duplicates()) by {
                    // A finished row that was not drawn again is as it was; the
                    // first that was has a double further up.
                    lemma_repeats(before, now, r as int);
                }
            }
            let ghost from = *rng;
            let mut attempts: usize = 0;
            let mut found = false;
            while !found
                invariant
                    r < rows@.len(),
                    attempts <= REDRAWS,
                    c < columns@.len(),
                    column == columns@[c as int]@,
                    source == domain::source_of(*table, column, enforce),
                    j == draw::rel_of(rels@, column),
                    match rel {
                        Some(k) => k == j && k < rels@.len(),
                        None => j >= rels@.len(),
                    },
                    first == derivation::rows_cells(old(rows)@),
                    before == draw::column_of(first, c as int),
                    too_few(*table, name@, column, pools::all_keys(rels@), before.len()) is None,
                    !before.no_duplicates(),
                    derivation::all_wide(old(rows)@, columns@.len()),
                    derivation::all_wide(rows@, columns@.len()),
                    only_column(first, start, c as int),
                    now == draw::column_of(start, c as int),
                    now.take(r as int).contains(now[r as int]),
                    start.len() == rows@.len(),
                    again == (Again {
                        table: *table,
                        name: name@,
                        column,
                        place: c,
                        keys: pools::all_keys(rels@),
                        enforce,
                    }),
                    draw::keys_at(again.keys, column) == j,
                    j < rels@.len() ==> from_pool(before, now, rels@[j].pool.entries()),
                    j >= rels@.len() ==> from_draws(before, now, source),
                    distinct_rows(*sampler, again, before, *old(rng), r as nat) == Some((now, from)),
                    !found ==> derivation::rows_cells(rows@) == start && attempts < REDRAWS,
                    !found ==> first_new(
                        *sampler,
                        again,
                        now.take(r as int),
                        now[r as int],
                        from,
                        REDRAWS as nat,
                    ) == first_new(
                        *sampler,
                        again,
                        now.take(r as int),
                        now[r as int],
                        *rng,
                        (REDRAWS - attempts) as nat,
                    ),
                    found ==> ({
                        let then = draw::column_of(derivation::rows_cells(rows@), c as int);
                        &&& first_new(
                            *sampler,
                            again,
                            now.take(r as int),
                            now[r as int],
                            from,
                            REDRAWS as nat,
                        ) == Some((then[r as int], *rng))
                        &&& only_column(start, derivation::rows_cells(rows@), c as int)
                        &&& then == now.update(r as int, then[r as int])
                        &&& !now.take(r as int).contains(then[r as int])
                        &&& j < rels@.len() ==> rels@[j].pool.entries().contains(then[r as int])
                        &&& j >= rels@.len() ==> domain::is_draw(source, then[r as int])
                    }),
                decreases REDRAWS - attempts,
            {
                attempts = attempts + 1;
                let ghost seen = *rng;
                let candidate = match rel {
                    Some(k) => match draw::draw_shared_key(sampler, &rels[k], rng) {
                        Some(v) => v,
                        None => rows[r][c].copy(),
                    },
                    None => {
                        let drawn = sampler.redraw(table, c, rng);
                        domain::draw_value(table, columns[c].as_str(), drawn, enforce)
                    },
                };
                proof {
                    assert(now[r as int] == rows@[r as int]@[c as int]@);
                    assert((candidate@, *rng) == another(*sampler, again, now[r as int], seen));
                }
                if !has_above(rows, c, r, &candidate) {
                    let ghost cell = candidate@;
                    set_cell(rows, r, c, candidate);
                    found = true;
                    proof {
                        let then = draw::column_of(derivation::rows_cells(rows@), c as int);
                        assert(then =~= now.update(r as int, cell));
                        assert(now[r as int] == start[r as int][c as int]);
                    }
                } else if attempts >= REDRAWS {
                    let key = branch::write_key(name, columns[c].as_str());
                    let mut m = text::around(
                        "referenced column '",
                        key.as_str(),
                        "' exhausted its value space after ",
                    );
                    text::push_text(&mut m, text::number_text(REDRAWS).as_str());
                    text::push_text(
                        &mut m,
                        " redraws (degenerate marginal?); duplicated parent keys cannot satisfy an FK-enforced load",
                    );
                    proof {
                        lemma_rows_stop(
                            *sampler,
                            again,
                            before,
                            *old(rng),
                            (r + 1) as nat,
                            before.len(),
                        );
                    }
                    return Err(m);
                }
            }
        }
        proof {
            let then = draw::column_of(derivation::rows_cells(rows@), c as int);
            let v = then[r as int];
            assert(then.take(r as int) =~= now.take(r as int));
            assert(then.take(r + 1) =~= now.take(r as int).push(v));
            assert(then.take(r + 1).no_duplicates()) by {
                let a = now.take(r as int);
                let b = then.take(r + 1);
                assert forall|x: int, y: int|
                    0 <= x < b.len() && 0 <= y < b.len() && x != y implies #[trigger] b[x]
                    != #[trigger] b[y] by {
                    if x < r && y < r {
                        assert(a[x] != a[y]);
                    } else if x < r {
                        assert(a[x] == b[x]);
                        assert(a.contains(a[x]));
                    } else {
                        assert(a[y] == b[y]);
                        assert(a.contains(a[y]));
                    }
                }
            }
            assert forall|k: int|
                0 <= k < r + 1 && !then.take(k).contains(before[k]) implies #[trigger] then[k]
                == before[k] by {
                assert(then.take(k) =~= now.take(k));
                if k < r {
                    assert(then[k] == now[k]);
                } else {
                    assert(now[r as int] == before[r as int]);
                }
            }
            assert forall|k: int| r + 1 <= k < then.len() implies #[trigger] then[k] == before[k] by {
                assert(then[k] == now[k]);
            }
            if j < rels@.len() {
                assert forall|k: int| 0 <= k < then.len() implies #[trigger] then[k] == before[k]
                    || rels@[j].pool.entries().contains(then[k]) by {
                    if k != r {
                        assert(then[k] == now[k]);
                    }
                }
            } else {
                assert forall|k: int| 0 <= k < then.len() implies #[trigger] then[k] == before[k]
                    || domain::is_draw(source, then[k]) by {
                    if k != r {
                        assert(then[k] == now[k]);
                    }
                }
            }
        }
        r = r + 1;
    }
    proof {
        let now = draw::column_of(derivation::rows_cells(rows@), c as int);
        assert(now.take(now.len() as int) =~= now);
    }
    Ok(())
}

/// Where a finished column has a value again, the column held some value twice
/// before.
proof fn lemma_repeats(before: Seq<Cell>, now: Seq<Cell>, r: int)
    requires
        before.len() == now.len(),
        0 <= r < now.len(),
        now.take(r).contains(now[r]),
        forall|k: int|
            0 <= k < r && !now.take(k).contains(before[k]) ==> #[trigger] now[k] == before[k],
        forall|k: int| r <= k < now.len() ==> #[trigger] now[k] == before[k],
    ensures
        !before.no_duplicates(),
{
    if before.no_duplicates() {
        lemma_unchanged(before, now, r, r);
        let k = now.take(r).index_of(now[r]);
        assert(now[k] == before[k] && now[r] == before[r]);
        assert(before[k] == before[r]);
    }
}

/// Where no value repeats, none is drawn again.
proof fn lemma_unchanged(before: Seq<Cell>, now: Seq<Cell>, r: int, n: int)
    requires
        before.len() == now.len(),
        0 <= n <= r <= now.len(),
        before.no_duplicates(),
        forall|k: int|
            0 <= k < r && !now.take(k).contains(before[k]) ==> #[trigger] now[k] == before[k],
    ensures
        forall|k: int| 0 <= k < n ==> #[trigger] now[k] == before[k],
    decreases n,
{
    if n > 0 {
        lemma_unchanged(before, now, r, n - 1);
        let k = n - 1;
        if now.take(k).contains(before[k]) {
            let i = now.take(k).index_of(before[k]);
            assert(now[i] == before[i]);
            assert(before[i] == before[k]);
        }
    }
}

/// A column in which no value repeats stays as it is.
pub proof fn lemma_distinct_stays(before: Seq<Cell>, after: Seq<Cell>)
    requires
        redrawn(before, after),
        before.no_duplicates(),
    ensures
        after == before,
{
    lemma_unchanged(before, after, after.len() as int, after.len() as int);
    assert(after =~= before);
}

} // verus!
