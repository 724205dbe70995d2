//! Mining conditional rules: where a value of one column all but fixes the value
//! of another. What is found is only ever written as comments.
use crate::cardinality;
use crate::fk_pool;
use crate::text;
use crate::value::{Cell, Value};
use vstd::prelude::*;

verus! {

/// A column with more different values than this takes no part.
pub const DEFAULT_MAX_LEVELS: usize = 50;

/// A threshold as a fraction.
#[derive(Debug, Clone, Copy, PartialEq, Eq, Structural)]
pub struct Ratio {
    pub part: u32,
    pub whole: u32,
}

/// Thresholds for mining a table.
#[derive(Debug, Clone, Copy, PartialEq, Eq, Structural)]
pub struct MineConfig {
    /// The least share of the rows with the first value that must have the
    /// second.
    pub confidence: Ratio,
    /// The least share of the rows that must have the first value, and how far
    /// it must move the distribution of the other column.
    pub support: Ratio,
    /// How many ordered pairs of columns are scanned at most.
    pub max_pairs: usize,
    pub max_levels: usize,
}

impl Default for MineConfig {
    fn default() -> (r: MineConfig)
        ensures
            r.confidence == (Ratio { part: 95, whole: 100 }),
            r.support == (Ratio { part: 5, whole: 100 }),
            r.max_pairs == 2000,
            r.max_levels == DEFAULT_MAX_LEVELS,
    {
        MineConfig {
            confidence: Ratio { part: 95, whole: 100 },
            support: Ratio { part: 5, whole: 100 },
            max_pairs: 2000,
            max_levels: DEFAULT_MAX_LEVELS,
        }
    }
}

/// One conditional rule: rows with `value` in `column` have `implies_value` in
/// `implies_column`.
#[derive(Debug, PartialEq, Eq)]
pub struct Candidate {
    pub column: String,
    pub value: String,
    pub implies_column: String,
    pub implies_value: String,
    /// Rows that have both values.
    pub hits: u32,
    /// Rows that have the first value, and some second one.
    pub seen: u32,
    /// Rows that have values in both columns.
    pub rows: u32,
}

/// What a candidate is.
pub struct Rule {
    pub column: Seq<char>,
    pub value: Seq<char>,
    pub implies_column: Seq<char>,
    pub implies_value: Seq<char>,
    pub hits: nat,
    pub seen: nat,
    pub rows: nat,
}

impl View for Candidate {
    type V = Rule;

    open spec fn view(&self) -> Rule {
        Rule {
            column: self.column@,
            value: self.value@,
            implies_column: self.implies_column@,
            implies_value: self.implies_value@,
            hits: self.hits as nat,
            seen: self.seen as nat,
            rows: self.rows as nat,
        }
    }
}

impl DeepView for Candidate {
    type V = Rule;

    open spec fn deep_view(&self) -> Rule {
        self@
    }
}

/// How a value is shown: a text in quotes, anything else as JSON.
pub open spec fn shown(c: Cell) -> Seq<char> {
    match c {
        Cell::Text(s) => "'"@ + s + "'"@,
        _ => fk_pool::cell_key(c),
    }
}

fn display_value(v: &Value) -> (r: String)
    ensures
        r@ == shown(v@),
{
    match v {
        Value::Text(s) => text::around("'", s.as_str(), "'"),
        _ => fk_pool::value_key(v),
    }
}

/// The cells of a column; a row that is too short has NULL there.
pub open spec fn column_cells(rows: Seq<Vec<Value>>, c: int) -> Seq<Cell> {
    Seq::new(
        rows.len(),
        |r: int|
            if c < rows[r]@.len() {
                rows[r]@[c]@
            } else {
                Cell::Null
            },
    )
}

/// How many cells are not NULL.
pub open spec fn filled(cells: Seq<Cell>) -> nat
    decreases cells.len(),
{
    if cells.len() == 0 {
        0
    } else {
        filled(cells.drop_last()) + if cells.last() is Null {
            0nat
        } else {
            1
        }
    }
}

/// A column takes part in mining: it has at least two different values, no more
/// than the limit, and each of them twice on average. One with more different
/// values behaves like an identifier.
pub open spec fn participates(cells: Seq<Cell>, max_levels: nat) -> bool {
    let n = cardinality::referenced(cells).len();
    2 <= n <= max_levels && 2 * n <= filled(cells)
}

/// The rows before `n` with two values.
pub open spec fn both(a: Seq<Cell>, b: Seq<Cell>, x: Cell, y: Cell, n: nat) -> nat
    decreases n,
{
    if n == 0 {
        0
    } else {
        both(a, b, x, y, (n - 1) as nat) + if a[n - 1] == x && b[n - 1] == y {
            1nat
        } else {
            0
        }
    }
}

/// The rows before `n` with a value in the first column and some value in the
/// other.
pub open spec fn beside(a: Seq<Cell>, b: Seq<Cell>, x: Cell, n: nat) -> nat
    decreases n,
{
    if n == 0 {
        0
    } else {
        beside(a, b, x, (n - 1) as nat) + if a[n - 1] == x && !(b[n - 1] is Null) {
            1nat
        } else {
            0
        }
    }
}

/// The rows before `n` with values in both columns.
pub open spec fn paired(a: Seq<Cell>, b: Seq<Cell>, n: nat) -> nat
    decreases n,
{
    if n == 0 {
        0
    } else {
        paired(a, b, (n - 1) as nat) + if !(a[n - 1] is Null) && !(b[n - 1] is Null) {
            1nat
        } else {
            0
        }
    }
}

/// A share is at least a threshold.
pub open spec fn at_least(part: nat, whole: nat, limit: Ratio) -> bool {
    part * limit.whole >= limit.part * whole
}

/// The distance of two shares, times both wholes.
pub open spec fn apart(part: nat, whole: nat, other: nat, all: nat) -> nat {
    let x = part * all - other * whole;
    if x < 0 {
        (-x) as nat
    } else {
        x as nat
    }
}

/// The distances between the share of each value beside `x` and its share in
/// all rows, summed, times both wholes.
pub open spec fn distance(a: Seq<Cell>, b: Seq<Cell>, x: Cell, levels: Seq<Cell>) -> nat
    decreases levels.len(),
{
    if levels.len() == 0 {
        0
    } else {
        let y = levels.last();
        let n = a.len();
        distance(a, b, x, levels.drop_last()) + apart(
            both(a, b, x, y, n),
            beside(a, b, x, n),
            beside(b, a, y, n),
            paired(a, b, n),
        )
    }
}

/// The value beside `x` that most rows have, the first of several.
pub open spec fn is_best(a: Seq<Cell>, b: Seq<Cell>, x: Cell, levels: Seq<Cell>, k: int) -> bool {
    let n = a.len();
    &&& 0 <= k < levels.len()
    &&& forall|j: int|
        0 <= j < levels.len() ==> both(a, b, x, #[trigger] levels[j], n) <= both(
            a,
            b,
            x,
            levels[k],
            n,
        )
    &&& forall|j: int|
        0 <= j < k ==> both(a, b, x, #[trigger] levels[j], n) < both(a, b, x, levels[k], n)
}

pub open spec fn best(a: Seq<Cell>, b: Seq<Cell>, x: Cell, levels: Seq<Cell>) -> int {
    choose|k: int| is_best(a, b, x, levels, k)
}

proof fn lemma_best(a: Seq<Cell>, b: Seq<Cell>, x: Cell, levels: Seq<Cell>, k: int)
    requires
        is_best(a, b, x, levels, k),
    ensures
        best(a, b, x, levels) == k,
{
    let j = best(a, b, x, levels);
    assert(is_best(a, b, x, levels, j));
    if j < k {
        assert(both(a, b, x, levels[j], a.len()) < both(a, b, x, levels[k], a.len()));
    } else if k < j {
        assert(both(a, b, x, levels[k], a.len()) < both(a, b, x, levels[j], a.len()));
    }
}

/// The rule of a value, where it clears the thresholds: enough rows have it, it
/// moves the other column's distribution by at least the least share, and enough
/// of its rows agree.
pub open spec fn rule_of(
    a_name: Seq<char>,
    a: Seq<Cell>,
    b_name: Seq<char>,
    b: Seq<Cell>,
    x: Cell,
    config: MineConfig,
) -> Option<Rule> {
    let n = a.len();
    let levels = cardinality::referenced(b);
    let y = levels[best(a, b, x, levels)];
    let seen = beside(a, b, x, n);
    let rows = paired(a, b, n);
    let hits = both(a, b, x, y, n);
    if seen == 0 || !at_least(seen, rows, config.support) || distance(a, b, x, levels)
        * config.support.whole < 2 * config.support.part * (seen * rows) || !at_least(
        hits,
        seen,
        config.confidence,
    ) {
        None
    } else {
        Some(
            Rule {
                column: a_name,
                value: shown(x),
                implies_column: b_name,
                implies_value: shown(y),
                hits,
                seen,
                rows,
            },
        )
    }
}

/// The rules of the first values of a column.
pub open spec fn pair_rules(
    a_name: Seq<char>,
    a: Seq<Cell>,
    b_name: Seq<char>,
    b: Seq<Cell>,
    config: MineConfig,
    n: nat,
) -> Seq<Rule>
    decreases n,
{
    if n == 0 {
        Seq::empty()
    } else {
        let before = pair_rules(a_name, a, b_name, b, config, (n - 1) as nat);
        match rule_of(a_name, a, b_name, b, cardinality::referenced(a)[n - 1], config) {
            Some(r) => before.push(r),
            None => before,
        }
    }
}

/// A column's values by number.
struct Levels {
    values: Vec<Value>,
    /// The number of each row's value; the number of values where it is NULL.
    row_levels: Vec<usize>,
}

impl Levels {
    spec fn numbers(&self, cells: Seq<Cell>) -> bool {
        &&& self.values.deep_view() == cardinality::referenced(cells)
        &&& self.row_levels@.len() == cells.len()
        &&& forall|r: int|
            0 <= r < cells.len() ==> {
                let k = #[trigger] self.row_levels@[r] as int;
                if cells[r] is Null {
                    k == self.values@.len()
                } else {
                    k < self.values@.len() && self.values@[k]@ == cells[r]
                }
            }
    }
}

/// The first of the values that is the given one, or their number.
fn find_value(values: &Vec<Value>, v: &Value) -> (r: usize)
    ensures
        r <= values@.len(),
        r < values@.len() ==> values@[r as int]@ == v@,
        r == values@.len() ==> !values.deep_view().contains(v@),
{
    let mut i: usize = 0;
    while i < values.len()
        invariant
            i <= values@.len(),
            forall|k: int| 0 <= k < i ==> (#[trigger] values.deep_view()[k]) != v@,
        decreases values@.len() - i,
    {
        if values[i].same(v) {
            return i;
        }
        i = i + 1;
    }
    i
}

proof fn lemma_levels_distinct(cells: Seq<Cell>)
    ensures
        cardinality::referenced(cells).no_duplicates(),
        forall|k: int|
            0 <= k < cardinality::referenced(cells).len() ==> !((
            #[trigger] cardinality::referenced(cells)[k]) is Null),
    decreases cells.len(),
{
    if cells.len() > 0 {
        lemma_levels_distinct(cells.drop_last());
        let before = cardinality::referenced(cells.drop_last());
        let all = cardinality::referenced(cells);
        assert forall|x: int, y: int|
            0 <= x < all.len() && 0 <= y < all.len() && x != y implies #[trigger] all[x]
            != #[trigger] all[y] by {
            if x < before.len() && y < before.len() {
                assert(before[x] != before[y]);
            } else if x < before.len() {
                assert(before.contains(before[x]));
            } else if y < before.len() {
                assert(before.contains(before[y]));
            }
        }
    }
}

/// Numbers the values of a column, where it takes part.
fn build_levels(rows: &Vec<Vec<Value>>, c: usize, max_levels: usize) -> (r: Option<Levels>)
    ensures
        match r {
            Some(l) => participates(column_cells(rows@, c as int), max_levels as nat)
                && l.numbers(column_cells(rows@, c as int)),
            None => !participates(column_cells(rows@, c as int), max_levels as nat),
        },
{
    let ghost cells = column_cells(rows@, c as int);
    // The numbers of rows that are NULL stay zero until the values are known.
    let mut values: Vec<Value> = Vec::new();
    let mut places: Vec<Option<usize>> = Vec::new();
    let mut full: usize = 0;
    let mut i: usize = 0;
    proof {
        assert(cells.take(0) =~= Seq::empty());
        assert(values.deep_view() =~= Seq::empty());
    }
    while i < rows.len()
        invariant
            i <= rows@.len(),
            cells == column_cells(rows@, c as int),
            values.deep_view() == cardinality::referenced(cells.take(i as int)),
            values@.len() <= max_levels,
            full <= i,
            full == filled(cells.take(i as int)),
            places@.len() == i,
            forall|r: int|
                0 <= r < i ==> match #[trigger] places@[r] {
                    None => cells[r] is Null,
                    Some(k) => !(cells[r] is Null) && k < values@.len() && values@[k as int]@
                        == cells[r],
                },
        decreases rows@.len() - i,
    {
        let ghost before = values.deep_view();
        proof {
            assert(cells.take(i + 1).drop_last() =~= cells.take(i as int));
            assert(cells.take(i + 1).last() == cells[i as int]);
        }
        if c < rows[i].len() && !rows[i][c].is_null() {
            let v = &rows[i][c];
            full = full + 1;
            let k: usize = find_value(&values, v);
            if k == values.len() {
                if values.len() >= max_levels {
                    proof {
                        lemma_levels_grow(cells, i + 1);
                    }
                    return None;
                }
                values.push(v.copy());
                proof {
                    assert(values.deep_view() =~= before.push(v@));
                    assert(values@[k as int]@ == v@);
                }
            } else {
                proof {
                    assert(before[k as int] == v@);
                    assert(before.contains(v@));
                }
            }
            places.push(Some(k));
            proof {
                assert forall|r: int| 0 <= r < i + 1 implies match #[trigger] places@[r] {
                    None => cells[r] is Null,
                    Some(k) => !(cells[r] is Null) && k < values@.len() && values@[k as int]@
                        == cells[r],
                } by {
                    if r < i {
                        match places@[r] {
                            Some(p) => {
                                assert(before[p as int] == cells[r]);
                                assert(values.deep_view()[p as int] == before[p as int]);
                            },
                            None => {},
                        }
                    }
                }
            }
        } else {
            places.push(None);
        }
        i = i + 1;
    }
    proof {
        assert(cells.take(cells.len() as int) =~= cells);
        assert(values.deep_view().len() == values@.len());
    }
    if values.len() < 2 || values.len() > full / 2 {
        return None;
    }
    let mut row_levels: Vec<usize> = Vec::new();
    let mut r: usize = 0;
    while r < places.len()
        invariant
            r <= places@.len(),
            places@.len() == cells.len(),
            row_levels@.len() == r,
            forall|k: int|
                0 <= k < places@.len() ==> match #[trigger] places@[k] {
                    None => cells[k] is Null,
                    Some(p) => !(cells[k] is Null) && p < values@.len() && values@[p as int]@
                        == cells[k],
                },
            forall|k: int|
                0 <= k < r ==> {
                    let p = #[trigger] row_levels@[k] as int;
                    if cells[k] is Null {
                        p == values@.len()
                    } else {
                        p < values@.len() && values@[p]@ == cells[k]
                    }
                },
        decreases places@.len() - r,
    {
        match places[r] {
            Some(p) => {
                row_levels.push(p);
            },
            None => {
                row_levels.push(values.len());
            },
        }
        r = r + 1;
    }
    Some(Levels { values, row_levels })
}

/// More rows do not have fewer different values.
proof fn lemma_levels_grow(cells: Seq<Cell>, n: int)
    requires
        0 <= n <= cells.len(),
    ensures
        cardinality::referenced(cells.take(n)).len() <= cardinality::referenced(cells).len(),
    decreases cells.len() - n,
{
    if n == cells.len() {
        assert(cells.take(n) =~= cells);
    } else {
        lemma_levels_grow(cells, n + 1);
        assert(cells.take(n + 1).drop_last() =~= cells.take(n));
    }
}

fn zeros(n: usize) -> (r: Vec<u32>)
    ensures
        r@.len() == n,
        forall|k: int| 0 <= k < n ==> #[trigger] r@[k] == 0,
{
    let mut out: Vec<u32> = Vec::new();
    while out.len() < n
        invariant
            out@.len() <= n,
            forall|k: int| 0 <= k < out@.len() ==> #[trigger] out@[k] == 0,
        decreases n - out@.len(),
    {
        out.push(0);
    }
    out
}

/// How often the values of two columns occur together.
struct Tally {
    joint: Vec<Vec<u32>>,
    first: Vec<u32>,
    second: Vec<u32>,
    rows: u32,
}

impl Tally {
    spec fn counts(
        &self,
        a: Seq<Cell>,
        b: Seq<Cell>,
        xs: Seq<Cell>,
        ys: Seq<Cell>,
        n: nat,
    ) -> bool {
        &&& self.joint@.len() == xs.len()
        &&& self.first@.len() == xs.len()
        &&& self.second@.len() == ys.len()
        &&& forall|i: int| 0 <= i < xs.len() ==> (#[trigger] self.joint@[i])@.len() == ys.len()
        &&& forall|i: int, j: int|
            0 <= i < xs.len() && 0 <= j < ys.len() ==> #[trigger] self.joint@[i]@[j] == both(
                a,
                b,
                xs[i],
                ys[j],
                n,
            )
        &&& forall|i: int|
            0 <= i < xs.len() ==> #[trigger] self.first@[i] == beside(a, b, xs[i], n)
        &&& forall|j: int|
            0 <= j < ys.len() ==> #[trigger] self.second@[j] == beside(b, a, ys[j], n)
        &&& self.rows == paired(a, b, n)
    }
}

proof fn lemma_counts_bounded(a: Seq<Cell>, b: Seq<Cell>, x: Cell, y: Cell, n: nat)
    ensures
        both(a, b, x, y, n) <= n,
        beside(a, b, x, n) <= n,
        beside(b, a, y, n) <= n,
        paired(a, b, n) <= n,
    decreases n,
{
    if n > 0 {
        lemma_counts_bounded(a, b, x, y, (n - 1) as nat);
    }
}

/// Counts how often the values of two columns occur together.
fn tally(a: &Levels, b: &Levels, Ghost(ca): Ghost<Seq<Cell>>, Ghost(cb): Ghost<Seq<Cell>>) -> (r:
    Tally)
    requires
        a.numbers(ca),
        b.numbers(cb),
        ca.len() == cb.len(),
        ca.len() <= u32::MAX,
    ensures
        r.counts(
            ca,
            cb,
            cardinality::referenced(ca),
            cardinality::referenced(cb),
            ca.len(),
        ),
{
    let ghost xs = cardinality::referenced(ca);
    let ghost ys = cardinality::referenced(cb);
    proof {
        assert(a.values.deep_view().len() == a.values@.len());
        assert(b.values.deep_view().len() == b.values@.len());
        lemma_levels_distinct(ca);
        lemma_levels_distinct(cb);
    }
    let mut joint: Vec<Vec<u32>> = Vec::new();
    while joint.len() < a.values.len()
        invariant
            joint@.len() <= a.values@.len(),
            forall|i: int|
                0 <= i < joint@.len() ==> (#[trigger] joint@[i])@.len() == b.values@.len(),
            forall|i: int, j: int|
                0 <= i < joint@.len() && 0 <= j < b.values@.len() ==> #[trigger] joint@[i]@[j]
                    == 0,
        decreases a.values@.len() - joint@.len(),
    {
        joint.push(zeros(b.values.len()));
    }
    let mut t = Tally { joint, first: zeros(a.values.len()), second: zeros(b.values.len()), rows: 0 };
    let mut r: usize = 0;
    while r < a.row_levels.len()
        invariant
            r <= ca.len(),
            a.numbers(ca),
            b.numbers(cb),
            ca.len() == cb.len(),
            ca.len() <= u32::MAX,
            a.row_levels@.len() == ca.len(),
            xs == cardinality::referenced(ca),
            ys == cardinality::referenced(cb),
            xs.len() == a.values@.len(),
            ys.len() == b.values@.len(),
            xs.no_duplicates(),
            ys.no_duplicates(),
            forall|k: int| 0 <= k < xs.len() ==> !((#[trigger] xs[k]) is Null),
            forall|k: int| 0 <= k < ys.len() ==> !((#[trigger] ys[k]) is Null),
            t.counts(ca, cb, xs, ys, r as nat),
        decreases ca.len() - r,
    {
        let i: usize = a.row_levels[r];
        let j: usize = b.row_levels[r];
        let ghost was = t;
        proof {
            if i < a.values.len() {
                assert(a.values.deep_view()[i as int] == a.values@[i as int]@);
                assert(xs[i as int] == ca[r as int]);
            }
            if j < b.values.len() {
                assert(b.values.deep_view()[j as int] == b.values@[j as int]@);
                assert(ys[j as int] == cb[r as int]);
            }
        }
        if i < a.values.len() && j < b.values.len() {
            proof {
                lemma_counts_bounded(ca, cb, xs[i as int], ys[j as int], r as nat);
                assert(t.joint@[i as int]@.len() == ys.len());
            }
            let n: u32 = t.joint[i][j];
            t.joint[i][j] = n + 1;
            let f: u32 = t.first[i];
            t.first.set(i, f + 1);
            let s: u32 = t.second[j];
            t.second.set(j, s + 1);
            t.rows = t.rows + 1;
        }
        proof {
            lemma_one_row(was, t, ca, cb, xs, ys, r as nat, i as int, j as int);
        }
        r = r + 1;
    }
    t
}

proof fn lemma_one_row(
    was: Tally,
    t: Tally,
    a: Seq<Cell>,
    b: Seq<Cell>,
    xs: Seq<Cell>,
    ys: Seq<Cell>,
    r: nat,
    i: int,
    j: int,
)
    requires
        was.counts(a, b, xs, ys, r),
        r < a.len(),
        a.len() == b.len(),
        a.len() <= u32::MAX,
        xs.no_duplicates(),
        ys.no_duplicates(),
        forall|k: int| 0 <= k < xs.len() ==> !((#[trigger] xs[k]) is Null),
        forall|k: int| 0 <= k < ys.len() ==> !((#[trigger] ys[k]) is Null),
        0 <= i <= xs.len(),
        0 <= j <= ys.len(),
        a[r as int] is Null <==> i == xs.len(),
        i < xs.len() ==> xs[i] == a[r as int],
        b[r as int] is Null <==> j == ys.len(),
        j < ys.len() ==> ys[j] == b[r as int],
        (i < xs.len() && j < ys.len()) ==> {
            &&& t.joint@.len() == was.joint@.len()
            &&& forall|k: int|
                0 <= k < xs.len() ==> (#[trigger] t.joint@[k])@ == if k == i {
                    was.joint@[k]@.update(j, (was.joint@[k]@[j] + 1) as u32)
                } else {
                    was.joint@[k]@
                }
            &&& t.first@ == was.first@.update(i, (was.first@[i] + 1) as u32)
            &&& t.second@ == was.second@.update(j, (was.second@[j] + 1) as u32)
            &&& t.rows == was.rows + 1
        },
        !(i < xs.len() && j < ys.len()) ==> t == was,
    ensures
        t.counts(a, b, xs, ys, r + 1),
{
    assert forall|k: int| 0 <= k < xs.len() implies (#[trigger] t.joint@[k])@.len() == ys.len() by {
        assert(was.joint@[k]@.len() == ys.len());
    }
    assert forall|p: int, q: int| 0 <= p < xs.len() && 0 <= q < ys.len() implies #[trigger] t.joint@[p]@[q]
        == both(a, b, xs[p], ys[q], r + 1) by {
        assert(was.joint@[p]@.len() == ys.len());
        assert(was.joint@[p]@[q] == both(a, b, xs[p], ys[q], r));
        lemma_counts_bounded(a, b, xs[p], ys[q], r);
        if i < xs.len() && p != i {
            assert(xs[p] != xs[i]);
        }
        if j < ys.len() && q != j {
            assert(ys[q] != ys[j]);
        }
    }
    assert forall|p: int| 0 <= p < xs.len() implies #[trigger] t.first@[p] == beside(
        a,
        b,
        xs[p],
        r + 1,
    ) by {
        assert(was.first@[p] == beside(a, b, xs[p], r));
        lemma_counts_bounded(a, b, xs[p], xs[p], r);
        if i < xs.len() && p != i {
            assert(xs[p] != xs[i]);
        }
    }
    assert forall|q: int| 0 <= q < ys.len() implies #[trigger] t.second@[q] == beside(
        b,
        a,
        ys[q],
        r + 1,
    ) by {
        assert(was.second@[q] == beside(b, a, ys[q], r));
        lemma_counts_bounded(b, a, ys[q], ys[q], r);
        if j < ys.len() && q != j {
            assert(ys[q] != ys[j]);
        }
    }
}

proof fn lemma_product_fits(a: nat, b: nat, x: nat, y: nat)
    requires
        a <= x,
        b <= y,
    ensures
        a * b <= x * y,
{
    assert(a * b <= x * y) by (nonlinear_arith)
        requires
            a <= x,
            b <= y,
    ;
}

fn shares_apart(part: u32, whole: u32, other: u32, all: u32) -> (r: u64)
    ensures
        r == apart(part as nat, whole as nat, other as nat, all as nat),
{
    proof {
        lemma_product_fits(part as nat, all as nat, 0xffff_ffff, 0xffff_ffff);
        lemma_product_fits(other as nat, whole as nat, 0xffff_ffff, 0xffff_ffff);
    }
    let x: u64 = part as u64 * all as u64;
    let y: u64 = other as u64 * whole as u64;
    if x < y {
        y - x
    } else {
        x - y
    }
}

fn reaches(part: u32, whole: u32, limit: Ratio) -> (r: bool)
    ensures
        r == at_least(part as nat, whole as nat, limit),
{
    proof {
        lemma_product_fits(part as nat, limit.whole as nat, 0xffff_ffff, 0xffff_ffff);
        lemma_product_fits(limit.part as nat, whole as nat, 0xffff_ffff, 0xffff_ffff);
    }
    part as u64 * limit.whole as u64 >= limit.part as u64 * whole as u64
}

/// The rule of one value of a column.
fn scan_value(
    a_name: &str,
    a: &Levels,
    b_name: &str,
    b: &Levels,
    t: &Tally,
    i: usize,
    config: &MineConfig,
    Ghost(ca): Ghost<Seq<Cell>>,
    Ghost(cb): Ghost<Seq<Cell>>,
) -> (r: Option<Candidate>)
    requires
        a.numbers(ca),
        b.numbers(cb),
        ca.len() == cb.len(),
        ca.len() <= u32::MAX,
        2 <= cardinality::referenced(cb).len() <= u32::MAX,
        i < cardinality::referenced(ca).len(),
        t.counts(
            ca,
            cb,
            cardinality::referenced(ca),
            cardinality::referenced(cb),
            ca.len(),
        ),
    ensures
        match r {
            Some(c) => rule_of(
                a_name@,
                ca,
                b_name@,
                cb,
                cardinality::referenced(ca)[i as int],
                *config,
            ) == Some(c@),
            None => rule_of(
                a_name@,
                ca,
                b_name@,
                cb,
                cardinality::referenced(ca)[i as int],
                *config,
            ) is None,
        },
{
    let ghost xs = cardinality::referenced(ca);
    let ghost ys = cardinality::referenced(cb);
    let ghost x = xs[i as int];
    let ghost n = ca.len();
    proof {
        assert(a.values.deep_view().len() == a.values@.len());
        assert(b.values.deep_view().len() == b.values@.len());
        assert(t.joint@[i as int]@.len() == ys.len());
    }
    let seen: u32 = t.first[i];
    let mut sum: u128 = 0;
    let mut top: usize = 0;
    let mut j: usize = 0;
    proof {
        assert(ys.take(0) =~= Seq::empty());
    }
    while j < b.values.len()
        invariant
            j <= ys.len(),
            ys.len() == b.values@.len(),
            ys.len() <= u32::MAX,
            xs == cardinality::referenced(ca),
            ys == cardinality::referenced(cb),
            i < xs.len(),
            x == xs[i as int],
            n == ca.len(),
            ca.len() == cb.len(),
            ca.len() <= u32::MAX,
            t.counts(ca, cb, xs, ys, n),
            t.joint@[i as int]@.len() == ys.len(),
            seen == beside(ca, cb, x, n),
            sum == distance(ca, cb, x, ys.take(j as int)),
            sum <= j * 0x1_0000_0000_0000_0000,
            j > 0 ==> top < j,
            j == 0 ==> top == 0,
            forall|k: int|
                0 <= k < j ==> both(ca, cb, x, #[trigger] ys[k], n) <= both(
                    ca,
                    cb,
                    x,
                    ys[top as int],
                    n,
                ),
            forall|k: int|
                0 <= k < top ==> both(ca, cb, x, #[trigger] ys[k], n) < both(
                    ca,
                    cb,
                    x,
                    ys[top as int],
                    n,
                ),
        decreases ys.len() - j,
    {
        let hits: u32 = t.joint[i][j];
        let most: u32 = t.joint[i][top];
        proof {
            assert(ys.take(j + 1).drop_last() =~= ys.take(j as int));
            assert(ys.take(j + 1).last() == ys[j as int]);
            assert(hits == both(ca, cb, x, ys[j as int], n));
            assert(most == both(ca, cb, x, ys[top as int], n));
            assert(t.second@[j as int] == beside(cb, ca, ys[j as int], n));
        }
        let d: u64 = shares_apart(hits, seen, t.second[j], t.rows);
        sum = sum + d as u128;
        if hits > most {
            top = j;
        }
        j = j + 1;
    }
    proof {
        assert(ys.take(ys.len() as int) =~= ys);
        assert(is_best(ca, cb, x, ys, top as int));
        lemma_best(ca, cb, x, ys, top as int);
    }
    if seen == 0 || !reaches(seen, t.rows, config.support) {
        return None;
    }
    proof {
        lemma_product_fits(
            sum as nat,
            config.support.whole as nat,
            0xffff_ffff * 0x1_0000_0000_0000_0000,
            0xffff_ffff,
        );
        lemma_product_fits(seen as nat, t.rows as nat, 0xffff_ffff, 0xffff_ffff);
        lemma_product_fits(
            (2 * config.support.part) as nat,
            (seen * t.rows) as nat,
            2 * 0xffff_ffff,
            0xffff_ffff * 0xffff_ffff,
        );
    }
    let moved: u128 = sum * config.support.whole as u128;
    let needed: u128 = (2 * config.support.part as u128) * (seen as u128 * t.rows as u128);
    if moved < needed {
        return None;
    }
    let hits: u32 = t.joint[i][top];
    proof {
        assert(hits == both(ca, cb, x, ys[top as int], n));
    }
    if !reaches(hits, seen, config.confidence) {
        return None;
    }
    proof {
        assert(a.values.deep_view()[i as int] == a.values@[i as int]@);
        assert(b.values.deep_view()[top as int] == b.values@[top as int]@);
    }
    Some(
        Candidate {
            column: a_name.to_owned(),
            value: display_value(&a.values[i]),
            implies_column: b_name.to_owned(),
            implies_value: display_value(&b.values[top]),
            hits,
            seen,
            rows: t.rows,
        },
    )
}

/// The rules between two columns, in the order of the first one's values.
fn scan_pair(
    a_name: &str,
    a: &Levels,
    b_name: &str,
    b: &Levels,
    config: &MineConfig,
    out: &mut Vec<Candidate>,
    Ghost(ca): Ghost<Seq<Cell>>,
    Ghost(cb): Ghost<Seq<Cell>>,
)
    requires
        a.numbers(ca),
        b.numbers(cb),
        ca.len() == cb.len(),
        ca.len() <= u32::MAX,
        2 <= cardinality::referenced(cb).len() <= u32::MAX,
    ensures
        final(out).deep_view() == old(out).deep_view() + pair_rules(
            a_name@,
            ca,
            b_name@,
            cb,
            *config,
            cardinality::referenced(ca).len(),
        ),
{
    let t = tally(a, b, Ghost(ca), Ghost(cb));
    let ghost start = out.deep_view();
    let ghost xs = cardinality::referenced(ca);
    proof {
        assert(a.values.deep_view().len() == a.values@.len());
        assert(start + Seq::<Rule>::empty() =~= start);
    }
    let mut i: usize = 0;
    while i < a.values.len()
        invariant
            i <= xs.len(),
            xs.len() == a.values@.len(),
            xs == cardinality::referenced(ca),
            a.numbers(ca),
            b.numbers(cb),
            ca.len() == cb.len(),
            ca.len() <= u32::MAX,
            2 <= cardinality::referenced(cb).len() <= u32::MAX,
            t.counts(ca, cb, xs, cardinality::referenced(cb), ca.len()),
            out.deep_view() == start + pair_rules(
                a_name@,
                ca,
                b_name@,
                cb,
                *config,
                i as nat,
            ),
        decreases xs.len() - i,
    {
        let ghost before = out.deep_view();
        let ghost rules = pair_rules(a_name@, ca, b_name@, cb, *config, i as nat);
        match scan_value(a_name, a, b_name, b, &t, i, config, Ghost(ca), Ghost(cb)) {
            Some(c) => {
                let ghost r = c@;
                out.push(c);
                proof {
                    assert(out.deep_view() =~= before.push(r));
                    assert(start + rules.push(r) =~= (start + rules).push(r));
                }
            },
            None => {},
        }
        i = i + 1;
    }
}

/// The columns that take part, in order.
pub open spec fn parts(rows: Seq<Vec<Value>>, max_levels: nat, n: nat) -> Seq<int>
    decreases n,
{
    if n == 0 {
        Seq::empty()
    } else {
        let before = parts(rows, max_levels, (n - 1) as nat);
        if participates(column_cells(rows, n - 1), max_levels) {
            before.push(n - 1)
        } else {
            before
        }
    }
}

/// The ordered pairs of different numbers below `p`, up to the pair of `a` with
/// the numbers below `b`.
pub open spec fn pairs_to(p: nat, a: nat, b: nat) -> Seq<(nat, nat)>
    decreases a, b,
{
    if b == 0 {
        if a == 0 {
            Seq::empty()
        } else {
            pairs_to(p, (a - 1) as nat, p)
        }
    } else {
        let before = pairs_to(p, a, (b - 1) as nat);
        if b - 1 == a {
            before
        } else {
            before.push((a, (b - 1) as nat))
        }
    }
}

/// All ordered pairs of different numbers below `p`.
pub open spec fn all_pairs(p: nat) -> Seq<(nat, nat)> {
    pairs_to(p, p, 0)
}

/// The rules between pairs of columns.
pub open spec fn pairs_rules(
    names: Seq<Seq<char>>,
    rows: Seq<Vec<Value>>,
    at: Seq<int>,
    pairs: Seq<(nat, nat)>,
    config: MineConfig,
) -> Seq<Rule>
    decreases pairs.len(),
{
    if pairs.len() == 0 {
        Seq::empty()
    } else {
        let a = at[pairs.last().0 as int];
        let b = at[pairs.last().1 as int];
        let ca = column_cells(rows, a);
        pairs_rules(names, rows, at, pairs.drop_last(), config) + pair_rules(
            names[a],
            ca,
            names[b],
            column_cells(rows, b),
            config,
            cardinality::referenced(ca).len(),
        )
    }
}

/// One rule comes before another: by its column, its value, the implied column,
/// and the implied value.
pub open spec fn comes_before(x: Rule, y: Rule) -> bool {
    if x.column != y.column {
        text::before(x.column, y.column)
    } else if x.value != y.value {
        text::before(x.value, y.value)
    } else if x.implies_column != y.implies_column {
        text::before(x.implies_column, y.implies_column)
    } else {
        text::before(x.implies_value, y.implies_value)
    }
}

/// A rule goes into a list behind every rule that does not come after it.
pub open spec fn with_rule(list: Seq<Rule>, r: Rule) -> Seq<Rule>
    decreases list.len(),
{
    if list.len() > 0 && comes_before(r, list.last()) {
        with_rule(list.drop_last(), r).push(list.last())
    } else {
        list.push(r)
    }
}

/// The rules in order; of those that are equal in it the first stays first.
pub open spec fn in_order(rules: Seq<Rule>) -> Seq<Rule>
    decreases rules.len(),
{
    if rules.len() == 0 {
        Seq::empty()
    } else {
        with_rule(in_order(rules.drop_last()), rules.last())
    }
}

fn precedes(x: &Candidate, y: &Candidate) -> (r: bool)
    ensures
        r == comes_before(x@, y@),
{
    if !text::same(x.column.as_str(), y.column.as_str()) {
        text::is_before(x.column.as_str(), y.column.as_str())
    } else if !text::same(x.value.as_str(), y.value.as_str()) {
        text::is_before(x.value.as_str(), y.value.as_str())
    } else if !text::same(x.implies_column.as_str(), y.implies_column.as_str()) {
        text::is_before(x.implies_column.as_str(), y.implies_column.as_str())
    } else {
        text::is_before(x.implies_value.as_str(), y.implies_value.as_str())
    }
}

proof fn lemma_with_rule(list: Seq<Rule>, r: Rule, k: int)
    requires
        0 <= k <= list.len(),
        k > 0 ==> !comes_before(r, list[k - 1]),
        forall|i: int| k <= i < list.len() ==> comes_before(r, #[trigger] list[i]),
    ensures
        with_rule(list, r) == list.take(k).push(r) + list.skip(k),
    decreases list.len(),
{
    if k == list.len() {
        assert(list.take(k) =~= list);
        assert(list.take(k).push(r) + list.skip(k) =~= list.push(r));
    } else {
        let rest = list.drop_last();
        assert(comes_before(r, list[list.len() - 1]));
        assert forall|i: int| k <= i < rest.len() implies comes_before(r, #[trigger] rest[i]) by {
            assert(rest[i] == list[i]);
        }
        lemma_with_rule(rest, r, k);
        assert((rest.take(k).push(r) + rest.skip(k)).push(list.last()) =~= list.take(k).push(r)
            + list.skip(k));
    }
}

/// Puts candidates in order.
fn sort_candidates(found: Vec<Candidate>) -> (r: Vec<Candidate>)
    ensures
        r.deep_view() == in_order(found.deep_view()),
{
    let ghost all = found.deep_view();
    let mut left = found;
    let mut out: Vec<Candidate> = Vec::new();
    let ghost mut done: int = 0;
    proof {
        assert(all.take(0) =~= Seq::empty());
        assert(all.skip(0) =~= all);
        assert(out.deep_view() =~= Seq::empty());
    }
    while left.len() > 0
        invariant
            0 <= done <= all.len(),
            left.deep_view() == all.skip(done),
            out.deep_view() == in_order(all.take(done)),
        decreases left@.len(),
    {
        let ghost rest = left.deep_view();
        let ghost list = out.deep_view();
        let c = left.remove(0);
        proof {
            assert(left.deep_view() =~= rest.skip(1));
            assert(rest.skip(1) =~= all.skip(done + 1));
            assert(c@ == rest[0]);
            assert(all.take(done + 1).drop_last() =~= all.take(done));
            assert(all.take(done + 1).last() == c@);
        }
        let mut k: usize = out.len();
        while k > 0 && precedes(&c, &out[k - 1])
            invariant
                k <= out@.len(),
                list == out.deep_view(),
                forall|i: int| k <= i < list.len() ==> comes_before(c@, #[trigger] list[i]),
            decreases k,
        {
            proof {
                assert(list[k - 1] == out@[k - 1]@);
            }
            k = k - 1;
        }
        let ghost r = c@;
        proof {
            if k > 0 {
                assert(list[k - 1] == out@[k - 1]@);
            }
            lemma_with_rule(list, r, k as int);
        }
        out.insert(k, c);
        proof {
            assert(out.deep_view() =~= list.take(k as int).push(r) + list.skip(k as int));
            done = done + 1;
        }
    }
    proof {
        assert(all.take(all.len() as int) =~= all);
        assert(left.deep_view().len() == 0);
        assert(done == all.len());
    }
    out
}

/// What mining a table found.
#[derive(Debug)]
pub struct MineReport {
    pub candidates: Vec<Candidate>,
    pub participating_columns: usize,
    pub pairs_total: usize,
    pub pairs_considered: usize,
}

impl MineReport {
    /// Whether the limit on pairs cut the scan short.
    pub fn pairs_truncated(&self) -> (r: bool)
        ensures
            r == (self.pairs_considered < self.pairs_total),
    {
        self.pairs_considered < self.pairs_total
    }
}

/// How many pairs there are, as far as it can be written.
pub open spec fn pair_count(p: nat) -> nat {
    let n = p * (p - 1);
    if n <= usize::MAX {
        n as nat
    } else {
        usize::MAX as nat
    }
}

pub(crate) proof fn lemma_pairs_len(p: nat, a: nat, b: nat)
    requires
        a <= p,
        b <= p,
        a == p ==> b == 0,
    ensures
        pairs_to(p, a, b).len() == a * (p - 1) + b - (if b > a {
            1int
        } else {
            0int
        }),
    decreases a, b,
{
    if b == 0 {
        if a > 0 {
            lemma_pairs_len(p, (a - 1) as nat, p);
            assert(a * (p - 1) == (a - 1) * (p - 1) + (p - 1)) by (nonlinear_arith)
                requires
                    a > 0,
            ;
        } else {
            assert(a * (p - 1) == 0) by (nonlinear_arith)
                requires
                    a == 0,
            ;
        }
    } else {
        lemma_pairs_len(p, a, (b - 1) as nat);
    }
}

/// Pairs up to a place are the first of all pairs.
proof fn lemma_pairs_prefix(p: nat, a: nat, b: nat)
    requires
        a <= p,
        b <= p,
        a == p ==> b == 0,
    ensures
        pairs_to(p, a, b).len() <= all_pairs(p).len(),
        all_pairs(p).take(pairs_to(p, a, b).len() as int) == pairs_to(p, a, b),
    decreases p - a, p - b,
{
    if a == p {
        assert(all_pairs(p).take(all_pairs(p).len() as int) =~= all_pairs(p));
    } else if b < p {
        lemma_pairs_prefix(p, a, b + 1);
        let here = pairs_to(p, a, b);
        let next = pairs_to(p, a, b + 1);
        assert(all_pairs(p).take(here.len() as int) =~= next.take(here.len() as int));
        assert(next.take(here.len() as int) =~= here);
    } else {
        lemma_pairs_prefix(p, a + 1, 0);
    }
}

/// What mining finds: the rules between the first pairs of the columns that take
/// part, in order.
pub open spec fn mined(
    names: Seq<Seq<char>>,
    rows: Seq<Vec<Value>>,
    config: MineConfig,
    report: MineReport,
) -> bool {
    let at = parts(rows, config.max_levels as nat, names.len());
    let total = pair_count(at.len());
    &&& report.participating_columns == at.len()
    &&& report.pairs_total == total
    &&& report.pairs_considered == if total < config.max_pairs {
        total as int
    } else {
        config.max_pairs as int
    }
    &&& report.candidates.deep_view() == in_order(
        pairs_rules(
            names,
            rows,
            at,
            all_pairs(at.len()).take(report.pairs_considered as int),
            config,
        ),
    )
}

/// A column that takes part.
struct Part {
    column: usize,
    levels: Levels,
}

spec fn part_columns(found: Seq<Part>) -> Seq<int> {
    Seq::new(found.len(), |i: int| found[i].column as int)
}

spec fn parts_fine(found: Seq<Part>, rows: Seq<Vec<Value>>, max_levels: nat, n: nat) -> bool {
    forall|i: int|
        0 <= i < found.len() ==> {
            let p = #[trigger] found[i];
            &&& p.column < n
            &&& participates(column_cells(rows, p.column as int), max_levels)
            &&& p.levels.numbers(column_cells(rows, p.column as int))
        }
}

fn find_parts(columns: usize, rows: &Vec<Vec<Value>>, max_levels: usize) -> (r: Vec<Part>)
    ensures
        part_columns(r@) == parts(rows@, max_levels as nat, columns as nat),
        parts_fine(r@, rows@, max_levels as nat, columns as nat),
        r@.len() <= columns,
{
    let mut out: Vec<Part> = Vec::new();
    let mut c: usize = 0;
    proof {
        assert(part_columns(out@) =~= Seq::empty());
    }
    while c < columns
        invariant
            c <= columns,
            out@.len() <= c,
            part_columns(out@) == parts(rows@, max_levels as nat, c as nat),
            parts_fine(out@, rows@, max_levels as nat, c as nat),
        decreases columns - c,
    {
        let ghost before = part_columns(out@);
        match build_levels(rows, c, max_levels) {
            Some(levels) => {
                out.push(Part { column: c, levels });
                proof {
                    assert(part_columns(out@) =~= before.push(c as int));
                }
            },
            None => {},
        }
        c = c + 1;
    }
    out
}

/// The numbers of a pair of columns.
proof fn lemma_part_levels(cells: Seq<Cell>, max_levels: nat)
    requires
        participates(cells, max_levels),
        cells.len() <= u32::MAX,
    ensures
        2 <= cardinality::referenced(cells).len() <= u32::MAX,
{
    lemma_filled_bound(cells);
}

proof fn lemma_filled_bound(cells: Seq<Cell>)
    ensures
        filled(cells) <= cells.len(),
    decreases cells.len(),
{
    if cells.len() > 0 {
        lemma_filled_bound(cells.drop_last());
    }
}

/// Mines conditional rules from rows.
pub fn mine_candidates(columns: &[String], rows: &Vec<Vec<Value>>, config: &MineConfig) -> (r:
    MineReport)
    requires
        rows@.len() <= u32::MAX,
    ensures
        mined(columns.deep_view(), rows@, *config, r),
{
    let ghost names = columns.deep_view();
    let found = find_parts(columns.len(), rows, config.max_levels);
    let p: usize = found.len();
    let ghost at = part_columns(found@);
    let pairs_total: usize = if p == 0 {
        0
    } else {
        match p.checked_mul(p - 1) {
            Some(n) => n,
            None => usize::MAX,
        }
    };
    proof {
        assert(at.len() == p);
        if p == 0 {
            assert(p * (p - 1) == 0) by (nonlinear_arith)
                requires
                    p == 0,
            ;
        }
        assert(pairs_total == pair_count(at.len()));
        lemma_pairs_len(p as nat, p as nat, 0);
    }
    let pairs_considered: usize = if pairs_total < config.max_pairs {
        pairs_total
    } else {
        config.max_pairs
    };
    let ghost all = all_pairs(p as nat);
    let mut out: Vec<Candidate> = Vec::new();
    let mut considered: usize = 0;
    let mut a: usize = 0;
    proof {
        assert(all.take(0) =~= Seq::empty());
        assert(out.deep_view() =~= Seq::empty());
        assert(pairs_considered <= all.len());
    }
    while a < p
        invariant
            a <= p,
            p == found@.len(),
            p <= columns@.len(),
            names == columns.deep_view(),
            rows@.len() <= u32::MAX,
            at == part_columns(found@),
            parts_fine(found@, rows@, config.max_levels as nat, columns@.len()),
            all == all_pairs(p as nat),
            pairs_considered <= all.len(),
            considered == if pairs_to(p as nat, a as nat, 0).len() < pairs_considered {
                pairs_to(p as nat, a as nat, 0).len() as int
            } else {
                pairs_considered as int
            },
            out.deep_view() == pairs_rules(
                names,
                rows@,
                at,
                all.take(considered as int),
                *config,
            ),
        decreases p - a,
    {
        let mut b: usize = 0;
        while b < p
            invariant
                a < p,
                b <= p,
                p == found@.len(),
                p <= columns@.len(),
                names == columns.deep_view(),
                rows@.len() <= u32::MAX,
                at == part_columns(found@),
                parts_fine(found@, rows@, config.max_levels as nat, columns@.len()),
                all == all_pairs(p as nat),
                pairs_considered <= all.len(),
                considered == if pairs_to(p as nat, a as nat, b as nat).len() < pairs_considered {
                    pairs_to(p as nat, a as nat, b as nat).len() as int
                } else {
                    pairs_considered as int
                },
                out.deep_view() == pairs_rules(
                    names,
                    rows@,
                    at,
                    all.take(considered as int),
                    *config,
                ),
            decreases p - b,
        {
            let ghost here = pairs_to(p as nat, a as nat, b as nat);
            let ghost next = pairs_to(p as nat, a as nat, (b + 1) as nat);
            if a != b && considered < pairs_considered {
                proof {
                    lemma_pairs_prefix(p as nat, a as nat, b as nat);
                    lemma_pairs_prefix(p as nat, a as nat, (b + 1) as nat);
                    let now = all.take(considered + 1);
                    assert(next == here.push((a as nat, b as nat)));
                    assert(all.take(next.len() as int) == next);
                    assert(now =~= next);
                    assert(now.drop_last() =~= all.take(considered as int));
                    assert(now.last() == (a as nat, b as nat));
                    assert(at[a as int] == found@[a as int].column);
                    assert(at[b as int] == found@[b as int].column);
                    lemma_part_levels(
                        column_cells(rows@, found@[b as int].column as int),
                        config.max_levels as nat,
                    );
                }
                let first = &found[a];
                let second = &found[b];
                proof {
                    assert(first.column < columns@.len());
                    assert(second.column < columns@.len());
                    assert(names[first.column as int] == columns@[first.column as int]@);
                    assert(names[second.column as int] == columns@[second.column as int]@);
                }
                scan_pair(
                    columns[first.column].as_str(),
                    &first.levels,
                    columns[second.column].as_str(),
                    &second.levels,
                    config,
                    &mut out,
                    Ghost(column_cells(rows@, found@[a as int].column as int)),
                    Ghost(column_cells(rows@, found@[b as int].column as int)),
                );
                considered = considered + 1;
            }
            b = b + 1;
        }
        a = a + 1;
    }
    let candidates = sort_candidates(out);
    MineReport { candidates, participating_columns: p, pairs_total, pairs_considered }
}

proof fn lemma_comes_before_trans(x: Rule, y: Rule, z: Rule)
    requires
        !comes_before(y, x),
        !comes_before(z, y),
    ensures
        !comes_before(z, x),
{
    text::lemma_before_total(x.column, y.column);
    text::lemma_before_total(y.column, z.column);
    text::lemma_before_total(x.column, z.column);
    text::lemma_before_total(x.value, y.value);
    text::lemma_before_total(y.value, z.value);
    text::lemma_before_total(x.value, z.value);
    text::lemma_before_total(x.implies_column, y.implies_column);
    text::lemma_before_total(y.implies_column, z.implies_column);
    text::lemma_before_total(x.implies_column, z.implies_column);
    text::lemma_before_total(x.implies_value, y.implies_value);
    text::lemma_before_total(y.implies_value, z.implies_value);
    text::lemma_before_total(x.implies_value, z.implies_value);
    if comes_before(z, x) {
        if text::before(x.column, y.column) && text::before(y.column, z.column) {
            text::lemma_before_trans(x.column, y.column, z.column);
        }
        if text::before(x.value, y.value) && text::before(y.value, z.value) {
            text::lemma_before_trans(x.value, y.value, z.value);
        }
        if text::before(x.implies_column, y.implies_column) && text::before(
            y.implies_column,
            z.implies_column,
        ) {
            text::lemma_before_trans(x.implies_column, y.implies_column, z.implies_column);
        }
        if text::before(x.implies_value, y.implies_value) && text::before(
            y.implies_value,
            z.implies_value,
        ) {
            text::lemma_before_trans(x.implies_value, y.implies_value, z.implies_value);
        }
    }
}

/// No rule of the list comes before an earlier one.
pub open spec fn ordered(list: Seq<Rule>) -> bool {
    forall|i: int, j: int|
        0 <= i < j < list.len() ==> !comes_before(#[trigger] list[j], #[trigger] list[i])
}

proof fn lemma_with_rule_ordered(list: Seq<Rule>, r: Rule)
    requires
        ordered(list),
    ensures
        ordered(with_rule(list, r)),
        with_rule(list, r).len() == list.len() + 1,
        with_rule(list, r).to_multiset() == list.to_multiset().insert(r),
        forall|i: int|
            0 <= i < with_rule(list, r).len() ==> #[trigger] with_rule(list, r)[i] == r
                || list.contains(with_rule(list, r)[i]),
    decreases list.len(),
{
    let all = with_rule(list, r);
    if list.len() > 0 && comes_before(r, list.last()) {
        let rest = list.drop_last();
        let last = list.last();
        lemma_with_rule_ordered(rest, r);
        let before = with_rule(rest, r);
        assert(all == before.push(last));
        assert forall|i: int, j: int| 0 <= i < j < all.len() implies !comes_before(
            #[trigger] all[j],
            #[trigger] all[i],
        ) by {
            if j < before.len() {
                assert(!comes_before(before[j], before[i]));
            } else if before[i] == r {
                lemma_not_both(r, last);
            } else {
                let k = rest.index_of(before[i]);
                assert(list[k] == before[i]);
                assert(!comes_before(list[list.len() - 1], list[k]));
            }
        }
        vstd::seq_lib::to_multiset_build(before, last);
        vstd::seq_lib::to_multiset_build(rest, last);
        assert(rest.push(last) =~= list);
        broadcast use vstd::multiset::group_multiset_axioms;

        assert(all.to_multiset() =~= list.to_multiset().insert(r));
        assert forall|i: int| 0 <= i < all.len() implies #[trigger] all[i] == r || list.contains(
            all[i],
        ) by {
            if i < before.len() {
                assert(all[i] == before[i]);
                if before[i] != r {
                    assert(list[rest.index_of(before[i])] == before[i]);
                }
            } else {
                assert(list[list.len() - 1] == all[i]);
            }
        }
    } else {
        vstd::seq_lib::to_multiset_build(list, r);
        assert forall|i: int, j: int| 0 <= i < j < all.len() implies !comes_before(
            #[trigger] all[j],
            #[trigger] all[i],
        ) by {
            if j < list.len() {
                assert(!comes_before(list[j], list[i]));
            } else if i < list.len() - 1 {
                assert(!comes_before(list[list.len() - 1], list[i]));
                lemma_comes_before_trans(list[i], list.last(), r);
            }
        }
        assert forall|i: int| 0 <= i < all.len() implies #[trigger] all[i] == r || list.contains(
            all[i],
        ) by {
            if i < list.len() {
                assert(list[i] == all[i]);
            }
        }
    }
}

proof fn lemma_not_both(x: Rule, y: Rule)
    requires
        comes_before(x, y),
    ensures
        !comes_before(y, x),
{
    text::lemma_before_total(x.column, y.column);
    text::lemma_before_total(x.value, y.value);
    text::lemma_before_total(x.implies_column, y.implies_column);
    text::lemma_before_total(x.implies_value, y.implies_value);
}

/// Putting rules in order loses none, adds none, and leaves none before one that
/// it comes after: the same rows give the same list.
pub proof fn lemma_rules_in_order(rules: Seq<Rule>)
    ensures
        ordered(in_order(rules)),
        in_order(rules).to_multiset() == rules.to_multiset(),
    decreases rules.len(),
{
    if rules.len() == 0 {
        assert(in_order(rules) =~= rules);
    } else {
        let rest = rules.drop_last();
        lemma_rules_in_order(rest);
        lemma_with_rule_ordered(in_order(rest), rules.last());
        vstd::seq_lib::to_multiset_build(rest, rules.last());
        assert(rest.push(rules.last()) =~= rules);
    }
}

/// A candidate as it is written: its shares with four digits.
#[derive(Debug)]
pub struct CandidateLine {
    pub column: String,
    pub value: String,
    pub implies_column: String,
    pub implies_value: String,
    pub confidence: String,
    pub support: String,
}

/// The candidates of a table.
#[derive(Debug)]
pub struct TableCandidates {
    pub table: String,
    pub candidates: Vec<CandidateLine>,
}

/// What stands above the candidates.
pub open spec fn candidate_header() -> Seq<char> {
    "# Mined conditional rule candidates (issue #69) - NOT enabled. Review, then copy the ones you want into the `rules:` section by hand:"@
}

/// A character that ends a line, as YAML reads it.
pub open spec fn is_break(c: char) -> bool {
    c == '\n' || c == '\r' || c == '\u{85}' || c == '\u{2028}' || c == '\u{2029}'
}

/// A character as it stands in a line: one that would end it is spelled out.
pub open spec fn spelled(c: char) -> Seq<char> {
    if c == '\n' {
        "\\n"@
    } else if c == '\r' {
        "\\r"@
    } else if c == '\u{85}' {
        "\\u0085"@
    } else if c == '\u{2028}' {
        "\\u2028"@
    } else if c == '\u{2029}' {
        "\\u2029"@
    } else {
        seq![c]
    }
}

/// A text within a line.
pub open spec fn in_line(s: Seq<char>) -> Seq<char>
    decreases s.len(),
{
    if s.len() == 0 {
        Seq::empty()
    } else {
        in_line(s.drop_last()) + spelled(s.last())
    }
}

fn push_in_line(out: &mut String, s: &str)
    ensures
        final(out)@ == old(out)@ + in_line(s@),
{
    let ghost start = out@;
    let chars = text::to_chars(s);
    let mut i: usize = 0;
    proof {
        assert(s@.take(0) =~= Seq::empty());
        assert(start + Seq::<char>::empty() =~= start);
    }
    while i < chars.len()
        invariant
            i <= chars@.len(),
            chars@ == s@,
            out@ == start + in_line(s@.take(i as int)),
        decreases chars@.len() - i,
    {
        let ghost done = in_line(s@.take(i as int));
        proof {
            assert(s@.take(i + 1).drop_last() =~= s@.take(i as int));
            assert(s@.take(i + 1).last() == s@[i as int]);
        }
        let c: char = chars[i];
        if c == '\n' {
            text::push_text(out, "\\n");
        } else if c == '\r' {
            text::push_text(out, "\\r");
        } else if c == '\u{85}' {
            text::push_text(out, "\\u0085");
        } else if c == '\u{2028}' {
            text::push_text(out, "\\u2028");
        } else if c == '\u{2029}' {
            text::push_text(out, "\\u2029");
        } else {
            out.push(c);
        }
        proof {
            assert(out@ =~= start + (done + spelled(c)));
        }
        i = i + 1;
    }
    proof {
        assert(s@.take(s@.len() as int) =~= s@);
    }
}

/// The rule of a candidate.
pub open spec fn rule_text(table: Seq<char>, c: CandidateLine) -> Seq<char> {
    in_line(table) + "."@ + in_line(c.column@) + "="@ + in_line(c.value@) + " => "@ + in_line(table)
        + "."@ + in_line(c.implies_column@) + "="@ + in_line(c.implies_value@)
}

fn push_rule(out: &mut String, table: &str, c: &CandidateLine)
    ensures
        final(out)@ == old(out)@ + rule_text(table@, *c),
{
    let ghost start = out@;
    push_in_line(out, table);
    text::push_text(out, ".");
    push_in_line(out, c.column.as_str());
    text::push_text(out, "=");
    push_in_line(out, c.value.as_str());
    text::push_text(out, " => ");
    push_in_line(out, table);
    text::push_text(out, ".");
    push_in_line(out, c.implies_column.as_str());
    text::push_text(out, "=");
    push_in_line(out, c.implies_value.as_str());
    proof {
        assert(out@ =~= start + rule_text(table@, *c));
    }
}

/// The comment line of a candidate.
pub open spec fn comment_line(table: Seq<char>, c: CandidateLine) -> Seq<char> {
    "# candidate: "@ + rule_text(table, c) + " (confidence="@ + in_line(c.confidence@)
        + " support="@ + in_line(c.support@) + ")"@
}

fn candidate_line(table: &str, c: &CandidateLine) -> (r: String)
    ensures
        r@ == comment_line(table@, *c),
{
    let mut r = "# candidate: ".to_owned();
    push_rule(&mut r, table, c);
    text::push_text(&mut r, " (confidence=");
    push_in_line(&mut r, c.confidence.as_str());
    text::push_text(&mut r, " support=");
    push_in_line(&mut r, c.support.as_str());
    text::push_text(&mut r, ")");
    r
}

/// The line of a candidate in a list of its own.
pub open spec fn list_line(table: Seq<char>, c: CandidateLine) -> Seq<char> {
    rule_text(table, c) + " confidence="@ + in_line(c.confidence@) + " support="@ + in_line(
        c.support@,
    )
}

fn list_entry(table: &str, c: &CandidateLine) -> (r: String)
    ensures
        r@ == list_line(table@, *c),
{
    let mut r = String::new();
    push_rule(&mut r, table, c);
    text::push_text(&mut r, " confidence=");
    push_in_line(&mut r, c.confidence.as_str());
    text::push_text(&mut r, " support=");
    push_in_line(&mut r, c.support.as_str());
    proof {
        assert(r@ =~= list_line(table@, *c));
    }
    r
}

/// The lines of the first candidates of a table, each ended.
pub open spec fn table_lines(
    table: Seq<char>,
    list: Seq<CandidateLine>,
    comment: bool,
) -> Seq<char>
    decreases list.len(),
{
    if list.len() == 0 {
        Seq::empty()
    } else {
        table_lines(table, list.drop_last(), comment) + (if comment {
            comment_line(table, list.last())
        } else {
            list_line(table, list.last())
        }) + "\n"@
    }
}

/// The lines of all candidates.
pub open spec fn all_lines(tables: Seq<TableCandidates>, comment: bool) -> Seq<char>
    decreases tables.len(),
{
    if tables.len() == 0 {
        Seq::empty()
    } else {
        all_lines(tables.drop_last(), comment) + table_lines(
            tables.last().table@,
            tables.last().candidates@,
            comment,
        )
    }
}

/// There is no candidate.
pub open spec fn no_candidates(tables: Seq<TableCandidates>) -> bool {
    forall|i: int| 0 <= i < tables.len() ==> (#[trigger] tables[i]).candidates@.len() == 0
}

fn push_table_lines(out: &mut String, t: &TableCandidates, comment: bool)
    ensures
        final(out)@ == old(out)@ + table_lines(t.table@, t.candidates@, comment),
{
    let ghost start = out@;
    let mut i: usize = 0;
    proof {
        assert(t.candidates@.take(0) =~= Seq::empty());
        assert(start + Seq::<char>::empty() =~= start);
    }
    while i < t.candidates.len()
        invariant
            i <= t.candidates@.len(),
            out@ == start + table_lines(t.table@, t.candidates@.take(i as int), comment),
        decreases t.candidates@.len() - i,
    {
        let ghost done = table_lines(t.table@, t.candidates@.take(i as int), comment);
        proof {
            assert(t.candidates@.take(i + 1).drop_last() =~= t.candidates@.take(i as int));
            assert(t.candidates@.take(i + 1).last() == t.candidates@[i as int]);
        }
        let line = if comment {
            candidate_line(t.table.as_str(), &t.candidates[i])
        } else {
            list_entry(t.table.as_str(), &t.candidates[i])
        };
        text::push_text(out, line.as_str());
        text::push_text(out, "\n");
        proof {
            assert(start + (done + line@ + "\n"@) =~= ((start + done) + line@) + "\n"@);
        }
        i = i + 1;
    }
    proof {
        assert(t.candidates@.take(t.candidates@.len() as int) =~= t.candidates@);
    }
}

fn push_all_lines(out: &mut String, tables: &[TableCandidates], comment: bool) -> (any: bool)
    ensures
        final(out)@ == old(out)@ + all_lines(tables@, comment),
        any == !no_candidates(tables@),
{
    let ghost start = out@;
    let mut any = false;
    let mut i: usize = 0;
    proof {
        assert(tables@.take(0) =~= Seq::empty());
        assert(start + Seq::<char>::empty() =~= start);
    }
    while i < tables.len()
        invariant
            i <= tables@.len(),
            out@ == start + all_lines(tables@.take(i as int), comment),
            !any <==> forall|k: int|
                0 <= k < i ==> (#[trigger] tables@[k]).candidates@.len() == 0,
        decreases tables@.len() - i,
    {
        let ghost done = all_lines(tables@.take(i as int), comment);
        proof {
            assert(tables@.take(i + 1).drop_last() =~= tables@.take(i as int));
            assert(tables@.take(i + 1).last() == tables@[i as int]);
        }
        push_table_lines(out, &tables[i], comment);
        proof {
            let lines = table_lines(
                tables@[i as int].table@,
                tables@[i as int].candidates@,
                comment,
            );
            assert((start + done) + lines =~= start + (done + lines));
        }
        if tables[i].candidates.len() > 0 {
            any = true;
        }
        i = i + 1;
    }
    proof {
        assert(tables@.take(tables@.len() as int) =~= tables@);
    }
    any
}

/// The comment block of the candidates; nothing where there are none.
pub open spec fn comment_block(tables: Seq<TableCandidates>) -> Seq<char> {
    if no_candidates(tables) {
        Seq::empty()
    } else {
        candidate_header() + "\n"@ + all_lines(tables, true)
    }
}

/// Writes the candidates as comments; nothing where there are none.
pub fn render_candidate_comments(tables: &[TableCandidates]) -> (r: String)
    ensures
        r@ == comment_block(tables@),
{
    let mut out =
        "# Mined conditional rule candidates (issue #69) - NOT enabled. Review, then copy the ones you want into the `rules:` section by hand:".to_owned();
    text::push_text(&mut out, "\n");
    let any = push_all_lines(&mut out, tables, true);
    if any {
        out
    } else {
        let none = String::new();
        proof {
            assert(none@ =~= Seq::empty());
        }
        none
    }
}

/// A draft with the candidates behind it, on lines of their own; unchanged where
/// there are none.
pub open spec fn with_comments(yaml: Seq<char>, tables: Seq<TableCandidates>) -> Seq<char> {
    if no_candidates(tables) {
        yaml
    } else if yaml.len() > 0 && yaml.last() == '\n' {
        yaml + comment_block(tables)
    } else {
        yaml + "\n"@ + comment_block(tables)
    }
}

/// Puts the candidates behind a draft as comments.
pub fn append_candidate_comments(yaml: &str, tables: &[TableCandidates]) -> (r: String)
    ensures
        r@ == with_comments(yaml@, tables@),
{
    let mut lines = String::new();
    let any = push_all_lines(&mut lines, tables, true);
    let mut out = yaml.to_owned();
    if !any {
        return out;
    }
    let block = render_candidate_comments(tables);
    let chars = text::to_chars(yaml);
    if chars.len() == 0 || chars[chars.len() - 1] != '\n' {
        text::push_text(&mut out, "\n");
    }
    text::push_text(&mut out, block.as_str());
    out
}

/// The candidates in a list of their own.
pub open spec fn candidate_list(tables: Seq<TableCandidates>) -> Seq<char> {
    "# hepta-dbcli rules-draft --mine candidate list (NOT enabled)\n"@ + all_lines(tables, false)
        + (if no_candidates(tables) {
        "# no candidates\n"@
    } else {
        Seq::empty()
    })
}

/// Writes the candidates in a list of their own.
pub fn render_candidate_report(tables: &[TableCandidates]) -> (r: String)
    ensures
        r@ == candidate_list(tables@),
{
    let mut out = "# hepta-dbcli rules-draft --mine candidate list (NOT enabled)\n".to_owned();
    let any = push_all_lines(&mut out, tables, false);
    if !any {
        text::push_text(&mut out, "# no candidates\n");
    } else {
        proof {
            assert(out@ + Seq::<char>::empty() =~= out@);
        }
    }
    out
}

/// A draft in which no candidate was found is not changed by them.
pub proof fn lemma_draft_without_candidates_unchanged(
    yaml: Seq<char>,
    tables: Seq<TableCandidates>,
)
    requires
        no_candidates(tables),
    ensures
        with_comments(yaml, tables) == yaml,
{
}

/// Every line of a text begins with the mark of a comment, and the last is ended.
pub open spec fn only_comments(s: Seq<char>) -> bool {
    &&& s.len() > 0 ==> s[0] == '#' && s.last() == '\n'
    &&& forall|i: int| 0 <= i < s.len() && is_break(#[trigger] s[i]) ==> s[i] == '\n'
    &&& forall|i: int| 0 <= i < s.len() - 1 && is_break(#[trigger] s[i]) ==> s[i + 1] == '#'
}

/// A text without a line break.
pub open spec fn one_line(s: Seq<char>) -> bool {
    forall|i: int| 0 <= i < s.len() ==> !is_break(#[trigger] s[i])
}

proof fn lemma_in_line(s: Seq<char>)
    ensures
        one_line(in_line(s)),
    decreases s.len(),
{
    if s.len() > 0 {
        lemma_in_line(s.drop_last());
        reveal_strlit("\\n");
        reveal_strlit("\\r");
        reveal_strlit("\\u0085");
        reveal_strlit("\\u2028");
        reveal_strlit("\\u2029");
        assert(one_line(spelled(s.last())));
    }
}

proof fn lemma_comments_append(a: Seq<char>, line: Seq<char>)
    requires
        only_comments(a),
        line.len() > 0,
        line[0] == '#',
        one_line(line),
    ensures
        only_comments(a + line + "\n"@),
{
    reveal_strlit("\n");
    let s = a + line + "\n"@;
    assert(s.last() == '\n');
    assert forall|i: int| 0 <= i < s.len() && is_break(#[trigger] s[i]) implies s[i] == '\n' by {
        if i < a.len() {
            assert(s[i] == a[i]);
        } else if i < a.len() + line.len() {
            assert(s[i] == line[i - a.len()]);
        }
    }
    assert forall|i: int| 0 <= i < s.len() - 1 && is_break(#[trigger] s[i]) implies s[i + 1]
        == '#' by {
        if i < a.len() - 1 {
            assert(s[i] == a[i]);
            assert(s[i + 1] == a[i + 1]);
        } else if i >= a.len() {
            assert(s[i] == line[i - a.len()]);
        }
    }
}

proof fn lemma_comment_line_whole(table: Seq<char>, c: CandidateLine)
    ensures
        comment_line(table, c).len() > 0,
        comment_line(table, c)[0] == '#',
        one_line(comment_line(table, c)),
{
    reveal_strlit("# candidate: ");
    reveal_strlit(".");
    reveal_strlit("=");
    reveal_strlit(" => ");
    reveal_strlit(" (confidence=");
    reveal_strlit(" support=");
    reveal_strlit(")");
    lemma_in_line(table);
    lemma_in_line(c.column@);
    lemma_in_line(c.value@);
    lemma_in_line(c.implies_column@);
    lemma_in_line(c.implies_value@);
    lemma_in_line(c.confidence@);
    lemma_in_line(c.support@);
    let r1 = in_line(table) + "."@ + in_line(c.column@) + "="@ + in_line(c.value@);
    assert(one_line(r1));
    let r2 = r1 + " => "@ + in_line(table) + "."@ + in_line(c.implies_column@);
    assert(one_line(r2));
    let r3 = r2 + "="@ + in_line(c.implies_value@);
    assert(one_line(r3));
    assert(rule_text(table, c) =~= r3);
    let r4 = "# candidate: "@ + r3 + " (confidence="@ + in_line(c.confidence@);
    assert(one_line(r4));
    assert(one_line(r4 + " support="@ + in_line(c.support@) + ")"@));
}

proof fn lemma_table_comments(a: Seq<char>, table: Seq<char>, list: Seq<CandidateLine>)
    requires
        only_comments(a),
    ensures
        only_comments(a + table_lines(table, list, true)),
    decreases list.len(),
{
    if list.len() == 0 {
        assert(a + Seq::<char>::empty() =~= a);
    } else {
        let rest = list.drop_last();
        lemma_table_comments(a, table, rest);
        lemma_comment_line_whole(table, list.last());
        let before = table_lines(table, rest, true);
        let line = comment_line(table, list.last());
        lemma_comments_append(a + before, line);
        assert(a + (before + line + "\n"@) =~= (a + before) + line + "\n"@);
    }
}

proof fn lemma_all_comments(a: Seq<char>, tables: Seq<TableCandidates>)
    requires
        only_comments(a),
    ensures
        only_comments(a + all_lines(tables, true)),
    decreases tables.len(),
{
    if tables.len() == 0 {
        assert(a + Seq::<char>::empty() =~= a);
    } else {
        let rest = tables.drop_last();
        let last = tables.last();
        lemma_all_comments(a, rest);
        let before = all_lines(rest, true);
        lemma_table_comments(a + before, last.table@, last.candidates@);
        assert(a + (before + table_lines(last.table@, last.candidates@, true)) =~= (a + before)
            + table_lines(last.table@, last.candidates@, true));
    }
}

/// What is found is never enabled: whatever the names and values hold, every line
/// of the block is a comment.
pub proof fn lemma_candidates_are_only_comments(tables: Seq<TableCandidates>)
    ensures
        only_comments(comment_block(tables)),
{
    if !no_candidates(tables) {
        reveal_strlit(
            "# Mined conditional rule candidates (issue #69) - NOT enabled. Review, then copy the ones you want into the `rules:` section by hand:",
        );
        let none = Seq::<char>::empty();
        assert(one_line(candidate_header()));
        lemma_comments_append(none, candidate_header());
        assert(none + candidate_header() + "\n"@ =~= candidate_header() + "\n"@);
        lemma_all_comments(candidate_header() + "\n"@, tables);
    }
}

/// Whether a column is left out of mining: one that was recognised, unless such are
/// kept.
pub open spec fn is_skipped(recognised: Seq<bool>, keep: bool, c: int) -> bool {
    !keep && 0 <= c < recognised.len() && recognised[c]
}

/// The names of the columns that are left out.
pub open spec fn skipped_names(names: Seq<Seq<char>>, recognised: Seq<bool>, keep: bool) -> Seq<
    Seq<char>,
>
    decreases names.len(),
{
    if names.len() == 0 {
        Seq::empty()
    } else {
        let before = skipped_names(names.drop_last(), recognised, keep);
        if is_skipped(recognised, keep, names.len() - 1) {
            before.push(names.last())
        } else {
            before
        }
    }
}

/// A row with NULL in the columns that are left out.
pub open spec fn masked_row(row: Seq<Cell>, recognised: Seq<bool>, keep: bool) -> Seq<Cell> {
    Seq::new(
        row.len(),
        |c: int|
            if is_skipped(recognised, keep, c) {
                Cell::Null
            } else {
                row[c]
            },
    )
}

/// Rows with NULL in the columns that are left out.
pub open spec fn masks(
    rows: Seq<Vec<Value>>,
    masked: Seq<Vec<Value>>,
    recognised: Seq<bool>,
    keep: bool,
) -> bool {
    &&& masked.len() == rows.len()
    &&& forall|i: int|
        0 <= i < rows.len() ==> (#[trigger] masked[i]).deep_view() == masked_row(
            rows[i].deep_view(),
            recognised,
            keep,
        )
}

/// What mining finds without the columns that are left out.
pub open spec fn mined_without(
    names: Seq<Seq<char>>,
    rows: Seq<Vec<Value>>,
    recognised: Seq<bool>,
    keep: bool,
    config: MineConfig,
    report: MineReport,
) -> bool {
    exists|masked: Seq<Vec<Value>>| #[trigger]
        masks(rows, masked, recognised, keep) && mined(names, masked, config, report)
}

fn mask_row(row: &Vec<Value>, recognised: &[bool], keep: bool) -> (r: Vec<Value>)
    ensures
        r.deep_view() == masked_row(row.deep_view(), recognised@, keep),
{
    let mut out: Vec<Value> = Vec::new();
    let mut c: usize = 0;
    while c < row.len()
        invariant
            c <= row@.len(),
            out@.len() == c,
            forall|k: int|
                0 <= k < c ==> (#[trigger] out@[k])@ == masked_row(
                    row.deep_view(),
                    recognised@,
                    keep,
                )[k],
        decreases row@.len() - c,
    {
        if !keep && c < recognised.len() && recognised[c] {
            out.push(Value::Null);
        } else {
            out.push(row[c].copy());
        }
        c = c + 1;
    }
    proof {
        assert(out.deep_view() =~= masked_row(row.deep_view(), recognised@, keep));
    }
    out
}

/// Mines conditional rules from rows, without the columns that were recognised as
/// personal data unless they are kept. Names the columns that are left out.
pub fn mine_without_recognised(
    columns: &[String],
    rows: &Vec<Vec<Value>>,
    recognised: &[bool],
    keep: bool,
    config: &MineConfig,
) -> (r: (MineReport, Vec<String>))
    requires
        rows@.len() <= u32::MAX,
    ensures
        mined_without(columns.deep_view(), rows@, recognised@, keep, *config, r.0),
        r.1.deep_view() == skipped_names(columns.deep_view(), recognised@, keep),
{
    let mut masked: Vec<Vec<Value>> = Vec::new();
    let mut i: usize = 0;
    while i < rows.len()
        invariant
            i <= rows@.len(),
            masks(rows@.take(i as int), masked@, recognised@, keep),
        decreases rows@.len() - i,
    {
        let ghost before = masked@;
        masked.push(mask_row(&rows[i], recognised, keep));
        proof {
            assert forall|k: int| 0 <= k < i + 1 implies (#[trigger] masked@[k]).deep_view()
                == masked_row(rows@.take(i + 1)[k].deep_view(), recognised@, keep) by {
                if k < i {
                    assert(masked@[k] == before[k]);
                    assert(rows@.take(i as int)[k] == rows@[k]);
                }
            }
        }
        i = i + 1;
    }
    proof {
        assert(rows@.take(rows@.len() as int) =~= rows@);
    }
    let ghost names = columns.deep_view();
    let mut skipped: Vec<String> = Vec::new();
    let mut c: usize = 0;
    proof {
        assert(names.take(0) =~= Seq::empty());
        assert(skipped.deep_view() =~= Seq::empty());
    }
    while c < columns.len()
        invariant
            c <= columns@.len(),
            names == columns.deep_view(),
            skipped.deep_view() == skipped_names(names.take(c as int), recognised@, keep),
        decreases columns@.len() - c,
    {
        let ghost before = skipped.deep_view();
        proof {
            assert(names.take(c + 1).drop_last() =~= names.take(c as int));
            assert(names.take(c + 1).last() == columns@[c as int]@);
        }
        if !keep && c < recognised.len() && recognised[c] {
            skipped.push(columns[c].clone());
            proof {
                assert(skipped.deep_view() =~= before.push(columns@[c as int]@));
            }
        }
        c = c + 1;
    }
    proof {
        assert(names.take(names.len() as int) =~= names);
        assert(masks(rows@, masked@, recognised@, keep));
    }
    (mine_candidates(columns, &masked, config), skipped)
}

proof fn lemma_nulls_have_no_levels(cells: Seq<Cell>)
    requires
        forall|i: int| 0 <= i < cells.len() ==> (#[trigger] cells[i]) is Null,
    ensures
        cardinality::referenced(cells).len() == 0,
    decreases cells.len(),
{
    if cells.len() > 0 {
        lemma_nulls_have_no_levels(cells.drop_last());
        assert(cells[cells.len() - 1] is Null);
    }
}

/// No column that is left out takes part in mining, so that none of its values is
/// written down.
pub proof fn lemma_skipped_columns_take_no_part(
    rows: Seq<Vec<Value>>,
    masked: Seq<Vec<Value>>,
    recognised: Seq<bool>,
    keep: bool,
    max_levels: nat,
    n: nat,
    c: int,
)
    requires
        masks(rows, masked, recognised, keep),
        is_skipped(recognised, keep, c),
    ensures
        !parts(masked, max_levels, n).contains(c),
    decreases n,
{
    if n > 0 {
        let before = parts(masked, max_levels, (n - 1) as nat);
        lemma_skipped_columns_take_no_part(
            rows,
            masked,
            recognised,
            keep,
            max_levels,
            (n - 1) as nat,
            c,
        );
        if c == n - 1 {
            let cells = column_cells(masked, c);
            assert forall|i: int| 0 <= i < cells.len() implies (#[trigger] cells[i]) is Null by {
                assert(masked[i].deep_view() == masked_row(rows[i].deep_view(), recognised, keep));
                if c < masked[i]@.len() {
                    assert(masked[i].deep_view()[c] == masked[i]@[c]@);
                }
            }
            lemma_nulls_have_no_levels(cells);
        } else if parts(masked, max_levels, n).contains(c) {
            let k = parts(masked, max_levels, n).index_of(c);
            assert(before[k] == c);
        }
    }
}

} // verus!
