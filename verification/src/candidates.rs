//! What holds of every mined candidate, and which candidates are mined.
use crate::cardinality;
use crate::decimal;
use crate::evaluation;
use crate::graph;
use crate::mine;
use crate::mine::{MineConfig, MineReport, Rule, TableCandidates};
use crate::text;
use crate::value::{Cell, Value};
use vstd::prelude::*;

verus! {

/// How many of the numbers below `n` have a property.
pub open spec fn how_many(n: nat, p: spec_fn(int) -> bool) -> nat
    decreases n,
{
    if n == 0 {
        0
    } else {
        how_many((n - 1) as nat, p) + if p(n - 1) {
            1nat
        } else {
            0
        }
    }
}

/// What a row of a sample has in a column: nothing where it is too short.
pub open spec fn cell_at(rows: Seq<Vec<Value>>, r: int, c: int) -> Cell {
    if c < rows[r]@.len() {
        rows[r]@[c]@
    } else {
        Cell::Null
    }
}

/// The rows of a sample that have one value in a column and another in another.
pub open spec fn rows_with_both(rows: Seq<Vec<Value>>, a: int, b: int, x: Cell, y: Cell) -> nat {
    how_many(rows.len(), |r: int| cell_at(rows, r, a) == x && cell_at(rows, r, b) == y)
}

/// The rows of a sample that have a value in a column and any in another.
pub open spec fn rows_with_first(rows: Seq<Vec<Value>>, a: int, b: int, x: Cell) -> nat {
    how_many(rows.len(), |r: int| cell_at(rows, r, a) == x && !(cell_at(rows, r, b) is Null))
}

/// The rows of a sample that have values in two columns.
pub open spec fn rows_with_any(rows: Seq<Vec<Value>>, a: int, b: int) -> nat {
    how_many(
        rows.len(),
        |r: int| !(cell_at(rows, r, a) is Null) && !(cell_at(rows, r, b) is Null),
    )
}

/// The rows of a sample that have a value in a column.
pub open spec fn rows_filled(rows: Seq<Vec<Value>>, a: int) -> nat {
    how_many(rows.len(), |r: int| !(cell_at(rows, r, a) is Null))
}

/// The different values of a column, each listed once.
pub open spec fn lists_values(rows: Seq<Vec<Value>>, c: int, levels: Seq<Cell>) -> bool {
    &&& levels.no_duplicates()
    &&& forall|k: int| 0 <= k < levels.len() ==> !((#[trigger] levels[k]) is Null)
    &&& forall|r: int|
        0 <= r < rows.len() && !(cell_at(rows, r, c) is Null) ==> levels.contains(
            #[trigger] cell_at(rows, r, c),
        )
    &&& forall|k: int|
        0 <= k < levels.len() ==> exists|r: int|
            0 <= r < rows.len() && #[trigger] cell_at(rows, r, c) == #[trigger] levels[k]
}

/// How far the shares of the listed values beside `x` are from their shares in all rows,
/// summed, times both wholes. Half of it over both wholes is the distance between the two
/// distributions.
pub open spec fn shift(rows: Seq<Vec<Value>>, a: int, b: int, x: Cell, levels: Seq<Cell>) -> int
    decreases levels.len(),
{
    if levels.len() == 0 {
        0
    } else {
        let y = levels.last();
        shift(rows, a, b, x, levels.drop_last()) + decimal::size_of(
            rows_with_both(rows, a, b, x, y) * rows_with_any(rows, a, b) - rows_with_first(
                rows,
                b,
                a,
                y,
            ) * rows_with_first(rows, a, b, x),
        )
    }
}

/// A value of one column and one of another clear the thresholds: enough of the rows
/// that have values in both columns have the first value; it moves the distribution of
/// the other column far enough; enough of its rows have the second value, and no other
/// value has more of them.
pub open spec fn clears(
    rows: Seq<Vec<Value>>,
    config: MineConfig,
    a: int,
    b: int,
    x: Cell,
    y: Cell,
    levels: Seq<Cell>,
) -> bool {
    let seen = rows_with_first(rows, a, b, x);
    let all = rows_with_any(rows, a, b);
    let hits = rows_with_both(rows, a, b, x, y);
    &&& lists_values(rows, b, levels)
    &&& levels.contains(y)
    &&& seen > 0
    &&& seen * config.support.whole >= config.support.part * all
    &&& shift(rows, a, b, x, levels) * config.support.whole >= 2 * config.support.part * (seen
        * all)
    &&& hits * config.confidence.whole >= config.confidence.part * seen
    &&& forall|z: Cell| levels.contains(z) ==> #[trigger] rows_with_both(rows, a, b, x, z) <= hits
}

/// How the value of a candidate is written: a text in quotes.
pub open spec fn written_as(x: Cell, s: Seq<char>) -> bool {
    s == mine::shown(x) && (x is Text ==> s == "'"@ + x->Text_0 + "'"@)
}

/// A candidate is what the sample shows of two values in two columns.
pub open spec fn shows(
    names: Seq<Seq<char>>,
    rows: Seq<Vec<Value>>,
    a: int,
    b: int,
    x: Cell,
    y: Cell,
    c: Rule,
) -> bool {
    &&& 0 <= a < names.len()
    &&& 0 <= b < names.len()
    &&& a != b
    &&& c.column == names[a]
    &&& c.implies_column == names[b]
    &&& written_as(x, c.value)
    &&& written_as(y, c.implies_value)
    &&& c.hits == rows_with_both(rows, a, b, x, y)
    &&& c.seen == rows_with_first(rows, a, b, x)
    &&& c.rows == rows_with_any(rows, a, b)
}

/// A column takes part in mining: it has at least two different values, no more than the
/// limit, and each of them twice on average.
pub open spec fn is_mined(rows: Seq<Vec<Value>>, c: int, max_levels: nat, levels: Seq<Cell>) -> bool {
    &&& lists_values(rows, c, levels)
    &&& 2 <= levels.len() <= max_levels
    &&& 2 * levels.len() <= rows_filled(rows, c)
}

proof fn lemma_both(a: Seq<Cell>, b: Seq<Cell>, x: Cell, y: Cell, n: nat, p: spec_fn(int) -> bool)
    requires
        n <= a.len(),
        forall|r: int| 0 <= r < n ==> #[trigger] p(r) == (a[r] == x && b[r] == y),
    ensures
        mine::both(a, b, x, y, n) == how_many(n, p),
    decreases n,
{
    if n > 0 {
        lemma_both(a, b, x, y, (n - 1) as nat, p);
        assert(p(n - 1) == (a[n - 1] == x && b[n - 1] == y));
    }
}

proof fn lemma_beside(a: Seq<Cell>, b: Seq<Cell>, x: Cell, n: nat, p: spec_fn(int) -> bool)
    requires
        n <= a.len(),
        forall|r: int| 0 <= r < n ==> #[trigger] p(r) == (a[r] == x && !(b[r] is Null)),
    ensures
        mine::beside(a, b, x, n) == how_many(n, p),
    decreases n,
{
    if n > 0 {
        lemma_beside(a, b, x, (n - 1) as nat, p);
        assert(p(n - 1) == (a[n - 1] == x && !(b[n - 1] is Null)));
    }
}

proof fn lemma_paired(a: Seq<Cell>, b: Seq<Cell>, n: nat, p: spec_fn(int) -> bool)
    requires
        n <= a.len(),
        forall|r: int| 0 <= r < n ==> #[trigger] p(r) == (!(a[r] is Null) && !(b[r] is Null)),
    ensures
        mine::paired(a, b, n) == how_many(n, p),
    decreases n,
{
    if n > 0 {
        lemma_paired(a, b, (n - 1) as nat, p);
        assert(p(n - 1) == (!(a[n - 1] is Null) && !(b[n - 1] is Null)));
    }
}

proof fn lemma_filled(a: Seq<Cell>, p: spec_fn(int) -> bool)
    requires
        forall|r: int| 0 <= r < a.len() ==> #[trigger] p(r) == !(a[r] is Null),
    ensures
        mine::filled(a) == how_many(a.len(), p),
    decreases a.len(),
{
    if a.len() > 0 {
        let rest = a.drop_last();
        assert forall|r: int| 0 <= r < rest.len() implies #[trigger] p(r) == !(rest[r] is Null) by {
            assert(rest[r] == a[r]);
        }
        lemma_filled(rest, p);
        assert(p(a.len() - 1) == !(a[a.len() - 1] is Null));
    }
}

/// The counts of two columns are counts of rows.
proof fn lemma_counts(rows: Seq<Vec<Value>>, a: int, b: int, x: Cell, y: Cell)
    ensures
        ({
            let ca = mine::column_cells(rows, a);
            let cb = mine::column_cells(rows, b);
            &&& mine::both(ca, cb, x, y, rows.len()) == rows_with_both(rows, a, b, x, y)
            &&& mine::beside(ca, cb, x, rows.len()) == rows_with_first(rows, a, b, x)
            &&& mine::paired(ca, cb, rows.len()) == rows_with_any(rows, a, b)
            &&& mine::filled(ca) == rows_filled(rows, a)
        }),
{
    let ca = mine::column_cells(rows, a);
    let cb = mine::column_cells(rows, b);
    lemma_both(
        ca,
        cb,
        x,
        y,
        rows.len(),
        |r: int| cell_at(rows, r, a) == x && cell_at(rows, r, b) == y,
    );
    lemma_beside(
        ca,
        cb,
        x,
        rows.len(),
        |r: int| cell_at(rows, r, a) == x && !(cell_at(rows, r, b) is Null),
    );
    lemma_paired(
        ca,
        cb,
        rows.len(),
        |r: int| !(cell_at(rows, r, a) is Null) && !(cell_at(rows, r, b) is Null),
    );
    lemma_filled(ca, |r: int| !(cell_at(rows, r, a) is Null));
}

proof fn lemma_referenced(cells: Seq<Cell>)
    ensures
        ({
            let levels = cardinality::referenced(cells);
            &&& levels.no_duplicates()
            &&& forall|k: int| 0 <= k < levels.len() ==> !((#[trigger] levels[k]) is Null)
            &&& forall|r: int|
                0 <= r < cells.len() && !((#[trigger] cells[r]) is Null) ==> levels.contains(
                    cells[r],
                )
            &&& forall|k: int|
                0 <= k < levels.len() ==> cells.contains(#[trigger] levels[k])
        }),
    decreases cells.len(),
{
    if cells.len() > 0 {
        let rest = cells.drop_last();
        lemma_referenced(rest);
        let before = cardinality::referenced(rest);
        let all = cardinality::referenced(cells);
        assert forall|i: int, j: int|
            0 <= i < all.len() && 0 <= j < all.len() && i != j implies #[trigger] all[i]
            != #[trigger] all[j] by {
            if i < before.len() && j < before.len() {
                assert(before[i] != before[j]);
            } else if i < before.len() {
                assert(before.contains(before[i]));
            } else if j < before.len() {
                assert(before.contains(before[j]));
            }
        }
        assert forall|r: int| 0 <= r < cells.len() && !((#[trigger] cells[r]) is Null) implies all.contains(
            cells[r],
        ) by {
            if r < rest.len() {
                assert(rest[r] == cells[r]);
                let k = before.index_of(cells[r]);
                assert(all[k] == cells[r]);
            } else if before.contains(cells.last()) {
                let k = before.index_of(cells.last());
                assert(all[k] == cells[r]);
            } else {
                assert(all[before.len() as int] == cells[r]);
            }
        }
        assert forall|k: int| 0 <= k < all.len() implies cells.contains(#[trigger] all[k]) by {
            if k < before.len() {
                assert(rest.contains(before[k]));
                let r = rest.index_of(before[k]);
                assert(cells[r] == all[k]);
            } else {
                assert(cells[cells.len() - 1] == all[k]);
            }
        }
    }
}

/// The numbered values of a column are its values.
proof fn lemma_lists(rows: Seq<Vec<Value>>, c: int)
    ensures
        lists_values(rows, c, cardinality::referenced(mine::column_cells(rows, c))),
{
    let cells = mine::column_cells(rows, c);
    let levels = cardinality::referenced(cells);
    lemma_referenced(cells);
    assert forall|r: int|
        0 <= r < rows.len() && !(cell_at(rows, r, c) is Null) implies levels.contains(
        #[trigger] cell_at(rows, r, c),
    ) by {
        assert(cells[r] == cell_at(rows, r, c));
    }
    assert forall|k: int| 0 <= k < levels.len() implies exists|r: int|
        0 <= r < rows.len() && #[trigger] cell_at(rows, r, c) == #[trigger] levels[k] by {
        assert(cells.contains(levels[k]));
        let r = cells.index_of(levels[k]);
        assert(cell_at(rows, r, c) == levels[k]);
    }
}

proof fn lemma_shift(rows: Seq<Vec<Value>>, a: int, b: int, x: Cell, levels: Seq<Cell>)
    ensures
        mine::distance(mine::column_cells(rows, a), mine::column_cells(rows, b), x, levels)
            == shift(rows, a, b, x, levels),
    decreases levels.len(),
{
    if levels.len() > 0 {
        lemma_shift(rows, a, b, x, levels.drop_last());
        lemma_counts(rows, a, b, x, levels.last());
        lemma_counts(rows, b, a, levels.last(), x);
    }
}

/// Some listed value has the most rows beside `x`, and is the first of those.
proof fn lemma_best_exists(a: Seq<Cell>, b: Seq<Cell>, x: Cell, levels: Seq<Cell>, n: nat) -> (k: int)
    requires
        0 < n <= levels.len(),
    ensures
        0 <= k < n,
        forall|j: int|
            0 <= j < n ==> mine::both(a, b, x, #[trigger] levels[j], a.len()) <= mine::both(
                a,
                b,
                x,
                levels[k],
                a.len(),
            ),
        forall|j: int|
            0 <= j < k ==> mine::both(a, b, x, #[trigger] levels[j], a.len()) < mine::both(
                a,
                b,
                x,
                levels[k],
                a.len(),
            ),
    decreases n,
{
    if n == 1 {
        0
    } else {
        let k = lemma_best_exists(a, b, x, levels, (n - 1) as nat);
        if mine::both(a, b, x, levels[n - 1], a.len()) > mine::both(a, b, x, levels[k], a.len()) {
            n - 1
        } else {
            k
        }
    }
}

proof fn lemma_best_is_best(a: Seq<Cell>, b: Seq<Cell>, x: Cell, levels: Seq<Cell>)
    requires
        levels.len() > 0,
    ensures
        mine::is_best(a, b, x, levels, mine::best(a, b, x, levels)),
{
    let k = lemma_best_exists(a, b, x, levels, levels.len());
    assert(mine::is_best(a, b, x, levels, k));
}

proof fn lemma_some_row(n: nat, p: spec_fn(int) -> bool)
    requires
        how_many(n, p) > 0,
    ensures
        exists|r: int| 0 <= r < n && #[trigger] p(r),
    decreases n,
{
    if p(n - 1) {
    } else {
        lemma_some_row((n - 1) as nat, p);
    }
}

/// The rule of a value is one that clears the thresholds.
proof fn lemma_rule_clears(
    names: Seq<Seq<char>>,
    rows: Seq<Vec<Value>>,
    config: MineConfig,
    a: int,
    b: int,
    x: Cell,
) -> (y: Cell)
    requires
        0 <= a < names.len(),
        0 <= b < names.len(),
        a != b,
        mine::rule_of(
            names[a],
            mine::column_cells(rows, a),
            names[b],
            mine::column_cells(rows, b),
            x,
            config,
        ) is Some,
    ensures
        shows(
            names,
            rows,
            a,
            b,
            x,
            y,
            mine::rule_of(
                names[a],
                mine::column_cells(rows, a),
                names[b],
                mine::column_cells(rows, b),
                x,
                config,
            )->0,
        ),
        clears(
            rows,
            config,
            a,
            b,
            x,
            y,
            cardinality::referenced(mine::column_cells(rows, b)),
        ),
{
    let ca = mine::column_cells(rows, a);
    let cb = mine::column_cells(rows, b);
    let levels = cardinality::referenced(cb);
    lemma_lists(rows, b);
    lemma_counts(rows, a, b, x, x);
    let p = |r: int| cell_at(rows, r, a) == x && !(cell_at(rows, r, b) is Null);
    assert(rows_with_first(rows, a, b, x) == how_many(rows.len(), p));
    lemma_some_row(rows.len(), p);
    let r = choose|r: int| 0 <= r < rows.len() && #[trigger] p(r);
    assert(levels.contains(cell_at(rows, r, b)));
    lemma_best_is_best(ca, cb, x, levels);
    let k = mine::best(ca, cb, x, levels);
    let y = levels[k];
    lemma_counts(rows, a, b, x, y);
    lemma_shift(rows, a, b, x, levels);
    assert forall|z: Cell| levels.contains(z) implies #[trigger] rows_with_both(rows, a, b, x, z)
        <= rows_with_both(rows, a, b, x, y) by {
        lemma_counts(rows, a, b, x, z);
        let j = levels.index_of(z);
        assert(mine::both(ca, cb, x, levels[j], ca.len()) <= mine::both(ca, cb, x, y, ca.len()));
    }
    y
}

proof fn lemma_pair_rules_from(
    names: Seq<Seq<char>>,
    rows: Seq<Vec<Value>>,
    config: MineConfig,
    a: int,
    b: int,
    n: nat,
    c: Rule,
)
    requires
        0 <= a < names.len(),
        0 <= b < names.len(),
        a != b,
        n <= cardinality::referenced(mine::column_cells(rows, a)).len(),
        mine::pair_rules(
            names[a],
            mine::column_cells(rows, a),
            names[b],
            mine::column_cells(rows, b),
            config,
            n,
        ).contains(c),
    ensures
        holds_of(names, rows, config, c),
    decreases n,
{
    let ca = mine::column_cells(rows, a);
    let cb = mine::column_cells(rows, b);
    if n > 0 {
        let before = mine::pair_rules(names[a], ca, names[b], cb, config, (n - 1) as nat);
        if before.contains(c) {
            lemma_pair_rules_from(names, rows, config, a, b, (n - 1) as nat, c);
        } else {
            let x = cardinality::referenced(ca)[n - 1];
            match mine::rule_of(names[a], ca, names[b], cb, x, config) {
                Some(r) => {
                    let all = before.push(r);
                    let k = all.index_of(c);
                    if k < before.len() {
                        assert(before[k] == c);
                    }
                    assert(c == r);
                    let y = lemma_rule_clears(names, rows, config, a, b, x);
                    assert(holds_at(names, rows, config, c, a, b, x, y, cardinality::referenced(cb)));
                },
                None => {},
            }
        }
    }
}

/// A candidate is what the sample shows, and clears the thresholds.
pub open spec fn holds_at(
    names: Seq<Seq<char>>,
    rows: Seq<Vec<Value>>,
    config: MineConfig,
    c: Rule,
    a: int,
    b: int,
    x: Cell,
    y: Cell,
    levels: Seq<Cell>,
) -> bool {
    shows(names, rows, a, b, x, y, c) && clears(rows, config, a, b, x, y, levels)
}

pub open spec fn holds_of(
    names: Seq<Seq<char>>,
    rows: Seq<Vec<Value>>,
    config: MineConfig,
    c: Rule,
) -> bool {
    exists|a: int, b: int, x: Cell, y: Cell, levels: Seq<Cell>| #[trigger]
        holds_at(names, rows, config, c, a, b, x, y, levels)
}

proof fn lemma_parts(rows: Seq<Vec<Value>>, max_levels: nat, n: nat)
    ensures
        forall|k: int|
            0 <= k < mine::parts(rows, max_levels, n).len() ==> 0 <= #[trigger] mine::parts(
                rows,
                max_levels,
                n,
            )[k] < n && mine::participates(
                mine::column_cells(rows, mine::parts(rows, max_levels, n)[k]),
                max_levels,
            ),
        mine::parts(rows, max_levels, n).no_duplicates(),
        forall|c: int|
            0 <= c < n && mine::participates(mine::column_cells(rows, c), max_levels)
                ==> #[trigger] mine::parts(rows, max_levels, n).contains(c),
    decreases n,
{
    if n > 0 {
        lemma_parts(rows, max_levels, (n - 1) as nat);
        let before = mine::parts(rows, max_levels, (n - 1) as nat);
        let all = mine::parts(rows, max_levels, n);
        assert forall|c: int| 0 <= c < n && mine::participates(
            mine::column_cells(rows, c),
            max_levels,
        ) implies #[trigger] all.contains(c) by {
            if c < n - 1 {
                assert(before.contains(c));
                let k = before.index_of(c);
                assert(all[k] == c);
            } else {
                assert(all[all.len() - 1] == c);
            }
        }
    }
}

proof fn lemma_pairs(p: nat, a: nat, b: nat)
    requires
        b <= p,
        a <= p,
        a == p ==> b == 0,
    ensures
        forall|k: int|
            0 <= k < mine::pairs_to(p, a, b).len() ==> {
                let q = #[trigger] mine::pairs_to(p, a, b)[k];
                q.0 < p && q.1 < p && q.0 != q.1
            },
        forall|u: nat, v: nat|
            u < p && v < p && u != v && (u < a || (u == a && v < b)) ==> #[trigger] mine::pairs_to(
                p,
                a,
                b,
            ).contains((u, v)),
    decreases a, b,
{
    if b == 0 {
        if a > 0 {
            lemma_pairs(p, (a - 1) as nat, p);
            let before = mine::pairs_to(p, (a - 1) as nat, p);
            let all = mine::pairs_to(p, a, b);
            assert(all == before);
            assert forall|u: nat, v: nat|
                u < p && v < p && u != v && (u < a || (u == a && v < b)) implies #[trigger] all.contains(
                (u, v),
            ) by {
                assert(before.contains((u, v)));
            }
        }
    } else {
        lemma_pairs(p, a, (b - 1) as nat);
        let before = mine::pairs_to(p, a, (b - 1) as nat);
        let all = mine::pairs_to(p, a, b);
        assert forall|k: int| 0 <= k < all.len() implies {
            let q = #[trigger] all[k];
            q.0 < p && q.1 < p && q.0 != q.1
        } by {
            if k < before.len() {
                assert(all[k] == before[k]);
            }
        }
        assert forall|u: nat, v: nat|
            u < p && v < p && u != v && (u < a || (u == a && v < b)) implies #[trigger] all.contains(
            (u, v),
        ) by {
            if u < a || v < b - 1 {
                assert(before.contains((u, v)));
                let k = before.index_of((u, v));
                assert(all[k] == (u, v));
            } else {
                assert(all[all.len() - 1] == (u, v));
            }
        }
    }
}

proof fn lemma_pairs_rules_from(
    names: Seq<Seq<char>>,
    rows: Seq<Vec<Value>>,
    at: Seq<int>,
    pairs: Seq<(nat, nat)>,
    config: MineConfig,
    c: Rule,
)
    requires
        at.no_duplicates(),
        forall|k: int| 0 <= k < at.len() ==> 0 <= #[trigger] at[k] < names.len(),
        forall|k: int|
            0 <= k < pairs.len() ==> {
                let q = #[trigger] pairs[k];
                q.0 < at.len() && q.1 < at.len() && q.0 != q.1
            },
        mine::pairs_rules(names, rows, at, pairs, config).contains(c),
    ensures
        holds_of(names, rows, config, c),
    decreases pairs.len(),
{
    if pairs.len() > 0 {
        let last = pairs[pairs.len() - 1];
        let a = at[last.0 as int];
        let b = at[last.1 as int];
        let ca = mine::column_cells(rows, a);
        let before = mine::pairs_rules(names, rows, at, pairs.drop_last(), config);
        let more = mine::pair_rules(
            names[a],
            ca,
            names[b],
            mine::column_cells(rows, b),
            config,
            cardinality::referenced(ca).len(),
        );
        let k = (before + more).index_of(c);
        if k < before.len() {
            assert(before[k] == c);
            assert forall|j: int| 0 <= j < pairs.drop_last().len() implies {
                let q = #[trigger] pairs.drop_last()[j];
                q.0 < at.len() && q.1 < at.len() && q.0 != q.1
            } by {
                assert(pairs.drop_last()[j] == pairs[j]);
            }
            lemma_pairs_rules_from(names, rows, at, pairs.drop_last(), config, c);
        } else {
            assert(more[k - before.len()] == c);
            assert(a != b);
            lemma_pair_rules_from(
                names,
                rows,
                config,
                a,
                b,
                cardinality::referenced(ca).len(),
                c,
            );
        }
    }
}

/// Every reported candidate names two values of two columns of the sample, counts the
/// rows that have them, and clears the thresholds: enough of the rows have the first
/// value, it moves the distribution of the other column far enough, and enough of its
/// rows have the second value, which no other value exceeds.
pub proof fn lemma_candidates_clear_the_thresholds(
    names: Seq<Seq<char>>,
    rows: Seq<Vec<Value>>,
    config: MineConfig,
    report: MineReport,
    i: int,
)
    requires
        mine::mined(names, rows, config, report),
        0 <= i < report.candidates@.len(),
    ensures
        holds_of(names, rows, config, report.candidates@[i]@),
        ({
            let c = report.candidates@[i];
            &&& c.seen > 0
            &&& c.seen * config.support.whole >= config.support.part * c.rows
            &&& c.hits * config.confidence.whole >= config.confidence.part * c.seen
        }),
{
    let at = mine::parts(rows, config.max_levels as nat, names.len());
    let pairs = mine::all_pairs(at.len()).take(report.pairs_considered as int);
    let found = mine::pairs_rules(names, rows, at, pairs, config);
    let sorted = report.candidates.deep_view();
    let c = sorted[i];
    assert(c == report.candidates@[i]@);
    lemma_parts(rows, config.max_levels as nat, names.len());
    lemma_pairs(at.len(), at.len(), 0);
    lemma_all_pairs_len(at.len());
    assert forall|k: int| 0 <= k < pairs.len() implies {
        let q = #[trigger] pairs[k];
        q.0 < at.len() && q.1 < at.len() && q.0 != q.1
    } by {
        assert(pairs[k] == mine::all_pairs(at.len())[k]);
    }
    mine::lemma_rules_in_order(found);
    sorted.to_multiset_ensures();
    found.to_multiset_ensures();
    assert(sorted.contains(c));
    assert(sorted.to_multiset().count(c) > 0);
    assert(found.contains(c));
    lemma_pairs_rules_from(names, rows, at, pairs, config, c);
    let (a, b, x, y, levels) = choose|a: int, b: int, x: Cell, y: Cell, levels: Seq<Cell>|
        #[trigger] holds_at(names, rows, config, c, a, b, x, y, levels);
    assert(shows(names, rows, a, b, x, y, c));
    assert(clears(rows, config, a, b, x, y, levels));
}

proof fn lemma_all_pairs_len(p: nat)
    ensures
        mine::all_pairs(p).len() == p * (p - 1),
{
    mine::lemma_pairs_len(p, p, 0);
}

/// Two lists of the values of a column have the same length.
proof fn lemma_lists_agree(rows: Seq<Vec<Value>>, c: int, one: Seq<Cell>, other: Seq<Cell>)
    requires
        lists_values(rows, c, one),
        lists_values(rows, c, other),
    ensures
        one.len() == other.len(),
        forall|z: Cell| one.contains(z) <==> other.contains(z),
{
    assert forall|z: Cell| one.contains(z) implies other.contains(z) by {
        let k = one.index_of(z);
        assert(one[k] == z);
        let r = choose|r: int|
            0 <= r < rows.len() && #[trigger] cell_at(rows, r, c) == #[trigger] one[k];
        assert(other.contains(cell_at(rows, r, c)));
    }
    assert forall|z: Cell| other.contains(z) implies one.contains(z) by {
        let k = other.index_of(z);
        assert(other[k] == z);
        let r = choose|r: int|
            0 <= r < rows.len() && #[trigger] cell_at(rows, r, c) == #[trigger] other[k];
        assert(one.contains(cell_at(rows, r, c)));
    }
    assert forall|j: int| 0 <= j < one.len() implies other.contains(#[trigger] one[j]) by {
        assert(one.contains(one[j]));
    }
    assert forall|j: int| 0 <= j < other.len() implies one.contains(#[trigger] other[j]) by {
        assert(other.contains(other[j]));
    }
    graph::lemma_fits(one, other);
    graph::lemma_fits(other, one);
}

/// How far one value is moved.
spec fn moved(rows: Seq<Vec<Value>>, a: int, b: int, x: Cell, y: Cell) -> int {
    decimal::size_of(
        rows_with_both(rows, a, b, x, y) * rows_with_any(rows, a, b) - rows_with_first(
            rows,
            b,
            a,
            y,
        ) * rows_with_first(rows, a, b, x),
    )
}

proof fn lemma_shift_without(
    rows: Seq<Vec<Value>>,
    a: int,
    b: int,
    x: Cell,
    levels: Seq<Cell>,
    k: int,
)
    requires
        0 <= k < levels.len(),
    ensures
        shift(rows, a, b, x, levels) == shift(rows, a, b, x, levels.remove(k)) + moved(
            rows,
            a,
            b,
            x,
            levels[k],
        ),
    decreases levels.len(),
{
    if k == levels.len() - 1 {
        assert(levels.remove(k) =~= levels.drop_last());
    } else {
        lemma_shift_without(rows, a, b, x, levels.drop_last(), k);
        let rest = levels.remove(k);
        assert(rest.drop_last() =~= levels.drop_last().remove(k));
        assert(rest.last() == levels.last());
    }
}

/// The sum does not depend on the order in which the values are listed.
proof fn lemma_shift_agrees(
    rows: Seq<Vec<Value>>,
    a: int,
    b: int,
    x: Cell,
    one: Seq<Cell>,
    other: Seq<Cell>,
)
    requires
        one.no_duplicates(),
        other.no_duplicates(),
        one.len() == other.len(),
        forall|z: Cell| one.contains(z) <==> other.contains(z),
    ensures
        shift(rows, a, b, x, one) == shift(rows, a, b, x, other),
    decreases one.len(),
{
    if one.len() > 0 {
        let z = one.last();
        assert(one[one.len() - 1] == z);
        assert(one.contains(z));
        let k = other.index_of(z);
        let p = one.drop_last();
        let q = other.remove(k);
        lemma_shift_without(rows, a, b, x, other, k);
        assert forall|i: int, j: int| 0 <= i < q.len() && 0 <= j < q.len() && i != j implies q[i]
            != q[j] by {
            let u = if i < k {
                i
            } else {
                i + 1
            };
            let v = if j < k {
                j
            } else {
                j + 1
            };
            assert(other[u] != other[v]);
        }
        assert forall|y: Cell| p.contains(y) <==> q.contains(y) by {
            if p.contains(y) {
                let i = p.index_of(y);
                assert(one[i] == y && y != z);
                assert(one.contains(y));
                let m = other.index_of(y);
                if m < k {
                    assert(q[m] == y);
                } else {
                    assert(q[m - 1] == y);
                }
            }
            if q.contains(y) {
                let i = q.index_of(y);
                let m = if i < k {
                    i
                } else {
                    i + 1
                };
                assert(other[m] == y);
                assert(other.contains(y));
                assert(y != z);
                let j = one.index_of(y);
                assert(p[j] == y);
            }
        }
        lemma_shift_agrees(rows, a, b, x, p, q);
    }
}

proof fn lemma_pair_rules_hold(
    names: Seq<Seq<char>>,
    rows: Seq<Vec<Value>>,
    config: MineConfig,
    a: int,
    b: int,
    n: nat,
    k: int,
)
    requires
        0 <= k < n <= cardinality::referenced(mine::column_cells(rows, a)).len(),
        mine::rule_of(
            names[a],
            mine::column_cells(rows, a),
            names[b],
            mine::column_cells(rows, b),
            cardinality::referenced(mine::column_cells(rows, a))[k],
            config,
        ) is Some,
    ensures
        mine::pair_rules(
            names[a],
            mine::column_cells(rows, a),
            names[b],
            mine::column_cells(rows, b),
            config,
            n,
        ).contains(
            mine::rule_of(
                names[a],
                mine::column_cells(rows, a),
                names[b],
                mine::column_cells(rows, b),
                cardinality::referenced(mine::column_cells(rows, a))[k],
                config,
            )->0,
        ),
    decreases n,
{
    let ca = mine::column_cells(rows, a);
    let cb = mine::column_cells(rows, b);
    let want = mine::rule_of(
        names[a],
        ca,
        names[b],
        cb,
        cardinality::referenced(ca)[k],
        config,
    )->0;
    let all = mine::pair_rules(names[a], ca, names[b], cb, config, n);
    if k == n - 1 {
        assert(all[all.len() - 1] == want);
    } else {
        lemma_pair_rules_hold(names, rows, config, a, b, (n - 1) as nat, k);
        let before = mine::pair_rules(names[a], ca, names[b], cb, config, (n - 1) as nat);
        let i = before.index_of(want);
        assert(all[i] == want);
    }
}

proof fn lemma_pairs_rules_hold(
    names: Seq<Seq<char>>,
    rows: Seq<Vec<Value>>,
    at: Seq<int>,
    pairs: Seq<(nat, nat)>,
    config: MineConfig,
    k: int,
    c: Rule,
)
    requires
        0 <= k < pairs.len(),
        ({
            let a = at[pairs[k].0 as int];
            let b = at[pairs[k].1 as int];
            let ca = mine::column_cells(rows, a);
            mine::pair_rules(
                names[a],
                ca,
                names[b],
                mine::column_cells(rows, b),
                config,
                cardinality::referenced(ca).len(),
            ).contains(c)
        }),
    ensures
        mine::pairs_rules(names, rows, at, pairs, config).contains(c),
    decreases pairs.len(),
{
    let last = pairs[pairs.len() - 1];
    let a = at[last.0 as int];
    let b = at[last.1 as int];
    let ca = mine::column_cells(rows, a);
    let before = mine::pairs_rules(names, rows, at, pairs.drop_last(), config);
    let more = mine::pair_rules(
        names[a],
        ca,
        names[b],
        mine::column_cells(rows, b),
        config,
        cardinality::referenced(ca).len(),
    );
    let all = before + more;
    if k == pairs.len() - 1 {
        let i = more.index_of(c);
        assert(all[before.len() + i] == c);
    } else {
        assert(pairs.drop_last()[k] == pairs[k]);
        lemma_pairs_rules_hold(names, rows, at, pairs.drop_last(), config, k, c);
        let i = before.index_of(c);
        assert(all[i] == c);
    }
}

/// Nothing that clears the thresholds is left out, where all pairs of columns were
/// scanned: of two columns that take part, a value of the first that clears them is the
/// value of a reported candidate between the two.
pub proof fn lemma_what_clears_is_reported(
    names: Seq<Seq<char>>,
    rows: Seq<Vec<Value>>,
    config: MineConfig,
    report: MineReport,
    a: int,
    b: int,
    x: Cell,
    y: Cell,
    levels_a: Seq<Cell>,
    levels_b: Seq<Cell>,
)
    requires
        mine::mined(names, rows, config, report),
        report.pairs_considered == report.pairs_total,
        report.pairs_total < usize::MAX,
        0 <= a < names.len(),
        0 <= b < names.len(),
        a != b,
        is_mined(rows, a, config.max_levels as nat, levels_a),
        is_mined(rows, b, config.max_levels as nat, levels_b),
        levels_a.contains(x),
        clears(rows, config, a, b, x, y, levels_b),
    ensures
        exists|i: int, z: Cell|
            #![trigger report.candidates@[i], rows_with_both(rows, a, b, x, z)]
            0 <= i < report.candidates@.len() && shows(
                names,
                rows,
                a,
                b,
                x,
                z,
                report.candidates@[i]@,
            ),
{
    let ca = mine::column_cells(rows, a);
    let cb = mine::column_cells(rows, b);
    let la = cardinality::referenced(ca);
    let lb = cardinality::referenced(cb);
    let at = mine::parts(rows, config.max_levels as nat, names.len());
    let pairs = mine::all_pairs(at.len()).take(report.pairs_considered as int);
    lemma_lists(rows, a);
    lemma_lists(rows, b);
    lemma_lists_agree(rows, a, la, levels_a);
    lemma_lists_agree(rows, b, lb, levels_b);
    lemma_counts(rows, a, b, x, y);
    lemma_counts(rows, b, a, x, y);
    lemma_parts(rows, config.max_levels as nat, names.len());
    assert(at.contains(a) && at.contains(b));
    let u = at.index_of(a) as nat;
    let v = at.index_of(b) as nat;
    lemma_pairs(at.len(), at.len(), 0);
    lemma_all_pairs_len(at.len());
    assert(pairs =~= mine::all_pairs(at.len()));
    assert(pairs.contains((u, v)));
    let q = pairs.index_of((u, v));
    // The value that most rows have beside it is at least as frequent.
    lemma_shift(rows, a, b, x, lb);
    lemma_shift_agrees(rows, a, b, x, lb, levels_b);
    assert(lb.contains(y));
    lemma_best_is_best(ca, cb, x, lb);
    let z = lb[mine::best(ca, cb, x, lb)];
    lemma_counts(rows, a, b, x, z);
    let j = lb.index_of(y);
    assert(mine::both(ca, cb, x, lb[j], ca.len()) <= mine::both(ca, cb, x, z, ca.len()));
    let hits = rows_with_both(rows, a, b, x, y);
    let more = rows_with_both(rows, a, b, x, z);
    assert(more * config.confidence.whole >= hits * config.confidence.whole) by (nonlinear_arith)
        requires
            more >= hits,
            config.confidence.whole >= 0,
    ;
    let found = mine::rule_of(names[a], ca, names[b], cb, x, config);
    assert(found is Some);
    let c = found->0;
    let k = la.index_of(x);
    lemma_pair_rules_hold(names, rows, config, a, b, la.len(), k);
    lemma_pairs_rules_hold(names, rows, at, pairs, config, q, c);
    let all = mine::pairs_rules(names, rows, at, pairs, config);
    let sorted = report.candidates.deep_view();
    mine::lemma_rules_in_order(all);
    sorted.to_multiset_ensures();
    all.to_multiset_ensures();
    assert(all.to_multiset().count(c) > 0);
    assert(sorted.contains(c));
    let i = sorted.index_of(c);
    assert(sorted[i] == report.candidates@[i]@);
    assert(shows(names, rows, a, b, x, z, report.candidates@[i]@));
}

proof fn lemma_texts_compare(a: Seq<char>, b: Seq<char>)
    ensures
        text::before(a, b) <==> evaluation::lexical(a, b),
        text::before(a, b) || a == b || text::before(b, a),
{
    evaluation::lemma_before_is_lexical(a, b);
    text::lemma_before_total(a, b);
}

/// Candidates are listed as in a dictionary: by their column, then by their value, then by
/// the column and the value that these imply.
pub proof fn lemma_candidates_are_listed_in_order(
    names: Seq<Seq<char>>,
    rows: Seq<Vec<Value>>,
    config: MineConfig,
    report: MineReport,
    i: int,
    j: int,
)
    requires
        mine::mined(names, rows, config, report),
        0 <= i < j < report.candidates@.len(),
    ensures
        ({
            let x = report.candidates@[i];
            let y = report.candidates@[j];
            &&& x.column@ == y.column@ || evaluation::lexical(x.column@, y.column@)
            &&& x.column@ == y.column@ ==> x.value@ == y.value@ || evaluation::lexical(
                x.value@,
                y.value@,
            )
            &&& x.column@ == y.column@ && x.value@ == y.value@ ==> x.implies_column@
                == y.implies_column@ || evaluation::lexical(x.implies_column@, y.implies_column@)
            &&& x.column@ == y.column@ && x.value@ == y.value@ && x.implies_column@
                == y.implies_column@ ==> x.implies_value@ == y.implies_value@
                || evaluation::lexical(x.implies_value@, y.implies_value@)
        }),
{
    let at = mine::parts(rows, config.max_levels as nat, names.len());
    let rules = mine::pairs_rules(
        names,
        rows,
        at,
        mine::all_pairs(at.len()).take(report.pairs_considered as int),
        config,
    );
    mine::lemma_rules_in_order(rules);
    let all = report.candidates.deep_view();
    let x = report.candidates@[i];
    let y = report.candidates@[j];
    assert(all[i] == x@ && all[j] == y@);
    assert(!mine::comes_before(all[j], all[i]));
    lemma_texts_compare(x.column@, y.column@);
    lemma_texts_compare(x.value@, y.value@);
    lemma_texts_compare(x.implies_column@, y.implies_column@);
    lemma_texts_compare(x.implies_value@, y.implies_value@);
}

/// Every ordered pair of columns that take part is scanned, up to the limit.
pub proof fn lemma_pairs_are_scanned_up_to_the_limit(
    names: Seq<Seq<char>>,
    rows: Seq<Vec<Value>>,
    config: MineConfig,
    report: MineReport,
)
    requires
        mine::mined(names, rows, config, report),
    ensures
        ({
            let k = report.participating_columns as int;
            &&& k * (k - 1) <= usize::MAX ==> report.pairs_total == k * (k - 1)
            &&& report.pairs_total <= config.max_pairs ==> report.pairs_considered
                == report.pairs_total
            &&& report.pairs_total > config.max_pairs ==> report.pairs_considered
                == config.max_pairs
        }),
{
    let k = report.participating_columns as int;
    assert(k * (k - 1) >= 0) by (nonlinear_arith)
        requires
            k >= 0,
    ;
}

/// A draft stands as it was before the candidates that are appended to it.
pub proof fn lemma_drafts_are_only_added_to(yaml: &str, tables: &[TableCandidates], r: String)
    requires
        call_ensures(mine::append_candidate_comments, (yaml, tables), r),
    ensures
        r@.len() >= yaml@.len(),
        r@.take(yaml@.len() as int) == yaml@,
        (forall|i: int| 0 <= i < tables@.len() ==> (#[trigger] tables@[i]).candidates@.len() == 0)
            ==> r@ == yaml@,
{
    assert(r@.take(yaml@.len() as int) =~= yaml@);
}

} // verus!
