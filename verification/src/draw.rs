//! Drawing the rows of a table: NULLs, foreign keys from their parents' pools,
//! everything else from the sampler.
use crate::branch;
use crate::branch::BranchTarget;
use crate::derivation;
use crate::domain;
use crate::domain::{Draw, Drawn, Mark, Point};
use crate::fk_pool;
use crate::fk_pool::{Pick, SelectionStrategy};
use crate::model;
use crate::model::{Rate, TableModel};
use crate::pools;
use crate::pools::{Keys, RelPool};
use crate::rules;
use crate::rules::{TableRule, ValuePool};
use crate::seed;
use crate::text;
use crate::value;
use crate::value::{Cell, Value};
use vstd::multiset::Multiset;
use vstd::prelude::*;

verus! {

/// What a conditional draw holds a column to.
pub enum Pinned {
    Fixed(Point),
    Range(Point, Point),
}

/// What a column is held to.
pub enum Hold {
    Fixed(Mark),
    Range(Mark, Mark),
}

impl View for Pinned {
    type V = Hold;

    open spec fn view(&self) -> Hold {
        match self {
            Pinned::Fixed(p) => Hold::Fixed(p@),
            Pinned::Range(a, b) => Hold::Range(a@, b@),
        }
    }
}

/// What a sample given pins comes to is what was foreseen.
pub open spec fn sampled_as<S>(want: (Result<(), Seq<char>>, S), r: Result<(), String>, s: S) -> bool {
    &&& s == want.1
    &&& match r {
        Ok(_) => want.0 is Ok,
        Err(e) => want.0 == Err::<(), Seq<char>>(e@),
    }
}

/// The numeric side of generation: everything that is computed from learned
/// distributions. What each call gives is a function of the sampler and of what is
/// handed to it, and named as such; nothing else is relied upon, and whatever comes
/// back is checked where it is used. The names have bodies only so that an
/// implementation in ordinary Rust need not give them: nothing is known of what a
/// sampler's names stand for.
pub trait Sampler: Sized {
    open spec fn pinned(
        self,
        table: TableModel,
        column: usize,
        hold: Hold,
        rows: usize,
        rng: rand::rngs::StdRng,
    ) -> (bool, Self, rand::rngs::StdRng) {
        arbitrary()
    }

    /// Holds a column to a value or a range in the next sample. A range that no
    /// value lies in is refused.
    fn pin(
        &mut self,
        table: &TableModel,
        column: usize,
        target: Pinned,
        rows: usize,
        rng: &mut rand::rngs::StdRng,
    ) -> (r: bool)
        ensures
            (r, *final(self), *final(rng)) == old(self).pinned(
                *table,
                column,
                target@,
                rows,
                *old(rng),
            ),
    ;

    open spec fn sampled(self, table: TableModel, rows: usize, seed: u64) -> Self {
        arbitrary()
    }

    /// Draws the rows of a table. Without a seed nothing is known of them.
    fn sample(&mut self, table: &TableModel, rows: usize, seed: Option<u64>)
        ensures
            seed is Some ==> *final(self) == old(self).sampled(*table, rows, seed->0),
    ;

    open spec fn sampled_pinned(self, table: TableModel, rows: usize, seed: u64) -> (
        Result<(), Seq<char>>,
        Self,
    ) {
        arbitrary()
    }

    /// Draws the rows of a table, given what was pinned. Without a seed nothing is
    /// known of them.
    fn sample_pinned(&mut self, table: &TableModel, rows: usize, seed: Option<u64>) -> (r: Result<
        (),
        String,
    >)
        ensures
            seed is Some ==> sampled_as(
                old(self).sampled_pinned(*table, rows, seed->0),
                r,
                *final(self),
            ),
    ;

    open spec fn drawn(self, table: TableModel, column: usize, row: usize) -> Draw {
        arbitrary()
    }

    /// What the last sample holds for a cell.
    fn value(&self, table: &TableModel, column: usize, row: usize) -> (r: Drawn)
        ensures
            r@ == self.drawn(*table, column, row),
    ;

    open spec fn redrawn(self, table: TableModel, column: usize, rng: rand::rngs::StdRng) -> (
        Draw,
        rand::rngs::StdRng,
    ) {
        arbitrary()
    }

    /// Another draw for a column.
    fn redraw(&self, table: &TableModel, column: usize, rng: &mut rand::rngs::StdRng) -> (r: Drawn)
        ensures
            (r@, *final(rng)) == self.redrawn(*table, column, *old(rng)),
    ;

    open spec fn nulled(self, rate: Seq<char>, rng: rand::rngs::StdRng) -> (bool, rand::rngs::StdRng) {
        arbitrary()
    }

    /// Whether a cell is NULL, at a rate.
    fn is_null(&self, rate: &str, rng: &mut rand::rngs::StdRng) -> (r: bool)
        ensures
            (r, *final(rng)) == self.nulled(rate@, *old(rng)),
    ;

    open spec fn parent_place(self, keys: Keys, rng: rand::rngs::StdRng) -> (usize, rand::rngs::StdRng) {
        arbitrary()
    }

    /// The place of a parent, by rank or weight.
    fn parent_index(&self, rel: &RelPool, rng: &mut rand::rngs::StdRng) -> (r: usize)
        ensures
            (r, *final(rng)) == self.parent_place(rel@, *old(rng)),
    ;

    open spec fn parent_list(self, keys: Keys, rng: rand::rngs::StdRng) -> (
        Seq<usize>,
        rand::rngs::StdRng,
    ) {
        arbitrary()
    }

    /// The order in which parents are taken, by rank or weight; the first to be
    /// taken last.
    fn parent_order(&self, rel: &RelPool, rng: &mut rand::rngs::StdRng) -> (r: Vec<usize>)
        ensures
            (r@, *final(rng)) == self.parent_list(rel@, *old(rng)),
    ;

    open spec fn pool_place(
        self,
        table: Seq<char>,
        column: Seq<char>,
        pool: ValuePool,
        rng: rand::rngs::StdRng,
    ) -> (usize, rand::rngs::StdRng) {
        arbitrary()
    }

    /// The place of a value in a pool.
    fn pool_index(
        &self,
        table: &str,
        column: &str,
        pool: &ValuePool,
        rng: &mut rand::rngs::StdRng,
    ) -> (r: usize)
        ensures
            (r, *final(rng)) == self.pool_place(table@, column@, *pool, *old(rng)),
    ;

    open spec fn target_of(self, rule: TableRule, branch: usize, rows: usize) -> BranchTarget {
        arbitrary()
    }

    /// How many rows a branch of a table is to match.
    fn branch_target(&self, rule: &TableRule, branch: usize, rows: usize) -> (r: BranchTarget)
        ensures
            r == self.target_of(*rule, branch, rows),
    ;

    open spec fn share(self, part: usize, whole: u128) -> Seq<char> {
        arbitrary()
    }

    /// The share of `part` in `whole` in percent, with two digits.
    fn percent(&self, part: usize, whole: u128) -> (r: String)
        ensures
            r@ == self.share(part, whole),
    ;
}

/// The rate of a rule for a column, where it has one.
pub open spec fn ruled_rate(rule: TableRule, column: Seq<char>) -> Option<Rate> {
    match rules::column_rule(rule.columns@, column) {
        Some(c) => c.null_rate,
        None => None,
    }
}

/// The rate that was trained for a column, where there is one.
pub open spec fn trained_rate(table: TableModel, column: Seq<char>) -> Option<Rate> {
    match model::column_model(table.columns@, column) {
        Some(c) => c.null_rate,
        None => None,
    }
}

/// A rule replaces the column's values.
pub open spec fn is_overridden(rule: TableRule, column: Seq<char>) -> bool {
    match rules::column_rule(rule.columns@, column) {
        Some(c) => c.overrides(),
        None => false,
    }
}

pub open spec fn is_positive(rate: Option<Rate>) -> bool {
    match rate {
        Some(r) => r.positive,
        None => false,
    }
}

/// The rate at which a column is NULL, where it is: the rule's before the
/// trained one. A column whose values a rule replaces is never NULL, nor is one
/// that other tables refer to.
pub open spec fn null_rate_of(
    rule: TableRule,
    table: TableModel,
    column: Seq<char>,
    referenced: bool,
) -> Option<Rate> {
    let rate = if ruled_rate(rule, column) is Some {
        ruled_rate(rule, column)
    } else {
        trained_rate(table, column)
    };
    if is_overridden(rule, column) || referenced || !is_positive(rate) {
        None
    } else {
        rate
    }
}

/// A warning about a rate that is not used.
pub open spec fn rate_warning(
    kind: Seq<char>,
    key: Seq<char>,
    why: Seq<char>,
    rate: Option<Rate>,
) -> Seq<Seq<char>> {
    match rate {
        Some(r) => if r.positive {
            seq!["warning: "@ + kind + " '"@ + key + why + r.text@]
        } else {
            Seq::empty()
        },
        None => Seq::empty(),
    }
}

/// The warnings about a column's rates that are not used.
pub open spec fn null_rate_warnings(
    rule: TableRule,
    table: TableModel,
    name: Seq<char>,
    column: Seq<char>,
    referenced: bool,
) -> Seq<Seq<char>> {
    let key = branch::key_of(name, column);
    let rate = if ruled_rate(rule, column) is Some {
        ruled_rate(rule, column)
    } else {
        trained_rate(table, column)
    };
    if is_overridden(rule, column) {
        rate_warning(
            "column"@,
            key,
            "' has a fixed/values/fixed_range rule; ignoring trained null_rate "@,
            trained_rate(table, column),
        ) + rate_warning(
            "column"@,
            key,
            "' has a fixed/values/fixed_range rule; ignoring rule null_rate "@,
            ruled_rate(rule, column),
        )
    } else if referenced {
        rate_warning("referenced column"@, key, "' cannot be NULL; ignoring null_rate "@, rate)
    } else {
        Seq::empty()
    }
}

fn push_rate_warning(
    warnings: &mut Vec<String>,
    kind: &str,
    key: &str,
    why: &str,
    rate: Option<&Rate>,
)
    ensures
        final(warnings).deep_view() == old(warnings).deep_view() + rate_warning(
            kind@,
            key@,
            why@,
            match rate {
                Some(r) => Some(*r),
                None => None,
            },
        ),
{
    let ghost before = warnings.deep_view();
    match rate {
        Some(r) => {
            if r.positive {
                let mut w = text::around("warning: ", kind, " '");
                text::push_text(&mut w, key);
                text::push_text(&mut w, why);
                text::push_text(&mut w, r.text.as_str());
                let ghost said = w@;
                warnings.push(w);
                proof {
                    assert(warnings.deep_view() =~= before + seq![said]);
                }
            } else {
                proof {
                    assert(warnings.deep_view() =~= before + Seq::<Seq<char>>::empty());
                }
            }
        },
        None => {
            proof {
                assert(warnings.deep_view() =~= before + Seq::<Seq<char>>::empty());
            }
        },
    }
}

/// The rate at which a column is NULL, where it is; warns about rates that are
/// not used.
pub fn effective_null_rate<'a>(
    rule: &'a TableRule,
    table: &'a TableModel,
    name: &str,
    column: &str,
    referenced: bool,
    warnings: &mut Vec<String>,
) -> (r: Option<&'a Rate>)
    ensures
        match r {
            Some(rate) => null_rate_of(*rule, *table, column@, referenced) == Some(*rate),
            None => null_rate_of(*rule, *table, column@, referenced) is None,
        },
        final(warnings).deep_view() == old(warnings).deep_view() + null_rate_warnings(
            *rule,
            *table,
            name@,
            column@,
            referenced,
        ),
{
    let ghost before = warnings.deep_view();
    let key = branch::write_key(name, column);
    let trained: Option<&Rate> = match table.column(column) {
        Some(c) => match &c.null_rate {
            Some(rate) => Some(rate),
            None => None,
        },
        None => None,
    };
    let mut ruled: Option<&Rate> = None;
    match rule.column(column) {
        Some(c) => {
            match &c.null_rate {
                Some(rate) => {
                    ruled = Some(rate);
                },
                None => {},
            }
            if c.has_column_override() {
                push_rate_warning(
                    warnings,
                    "column",
                    key.as_str(),
                    "' has a fixed/values/fixed_range rule; ignoring trained null_rate ",
                    trained,
                );
                push_rate_warning(
                    warnings,
                    "column",
                    key.as_str(),
                    "' has a fixed/values/fixed_range rule; ignoring rule null_rate ",
                    ruled,
                );
                proof {
                    let a = rate_warning(
                        "column"@,
                        key@,
                        "' has a fixed/values/fixed_range rule; ignoring trained null_rate "@,
                        trained_rate(*table, column@),
                    );
                    let b = rate_warning(
                        "column"@,
                        key@,
                        "' has a fixed/values/fixed_range rule; ignoring rule null_rate "@,
                        ruled_rate(*rule, column@),
                    );
                    assert((before + a) + b =~= before + (a + b));
                }
                return None;
            }
        },
        None => {},
    }
    let rate = match ruled {
        Some(r) => Some(r),
        None => trained,
    };
    if referenced {
        push_rate_warning(
            warnings,
            "referenced column",
            key.as_str(),
            "' cannot be NULL; ignoring null_rate ",
            rate,
        );
        return None;
    }
    proof {
        assert(before + Seq::<Seq<char>>::empty() =~= before);
    }
    match rate {
        Some(r) => if r.positive {
            Some(r)
        } else {
            None
        },
        None => None,
    }
}

/// The message for a foreign key that finds no parent.
pub open spec fn keys_fault(table: Seq<char>, k: Keys) -> Seq<char> {
    if k.unique {
        "table '"@ + table + "': unique FK '"@ + k.column + "' exhausted its parent pool ("@
            + text::digits(k.size as nat)
            + " parent rows); reduce row count or set unique: false"@
    } else {
        "FK pool for '"@ + branch::key_of(table, k.column)
            + "' is empty; parent table generated no rows"@
    }
}

pub open spec fn key_fault(table: Seq<char>, rel: RelPool) -> Seq<char> {
    keys_fault(table, rel@)
}

fn write_key_fault(table: &str, rel: &RelPool) -> (r: String)
    ensures
        r@ == key_fault(table@, *rel),
{
    if rel.unique {
        let mut m = text::around("table '", table, "': unique FK '");
        text::push_text(&mut m, rel.column.as_str());
        text::push_text(&mut m, "' exhausted its parent pool (");
        text::push_text(&mut m, text::number_text(rel.pool_size).as_str());
        text::push_text(&mut m, " parent rows); reduce row count or set unique: false");
        m
    } else {
        let key = branch::write_key(table, rel.column.as_str());
        text::around("FK pool for '", key.as_str(), "' is empty; parent table generated no rows")
    }
}

/// Everything of a relationship's pool but the entries that are left.
pub open spec fn same_rel(a: RelPool, b: RelPool) -> bool {
    &&& a.column@ == b.column@
    &&& a.reference@ == b.reference@
    &&& a.strategy == b.strategy
    &&& a.unique == b.unique
    &&& a.pool_size == b.pool_size
}

/// What drawing a key does to its pool: a key that may be used once leaves it.
pub open spec fn key_drawn(before: RelPool, after: RelPool, key: Cell) -> bool {
    &&& before.pool.entries().contains(key)
    &&& if before.unique {
        &&& before.pool.entries().to_multiset() == after.pool.entries().to_multiset().insert(key)
        &&& after.pool.entries().len() + 1 == before.pool.entries().len()
    } else {
        after.pool.entries() == before.pool.entries()
    }
}

/// A place in a pool: what was drawn, or the last place where that is none.
pub(crate) fn place_below(i: usize, n: usize) -> (r: usize)
    requires
        n > 0,
    ensures
        r == if i < n {
            i as int
        } else {
            n - 1
        },
{
    if i < n {
        i
    } else {
        n - 1
    }
}

/// A key of a pool, which stays there.
pub open spec fn shared_key<S: Sampler>(s: S, k: Keys, rng: rand::rngs::StdRng) -> (
    Option<Cell>,
    rand::rngs::StdRng,
) {
    if k.entries.len() == 0 {
        (None, rng)
    } else if k.strategy == SelectionStrategy::Uniform {
        let d = fk_pool::below(rng, k.entries.len() as usize, usize::BITS);
        (Some(k.entries[d.0 as int]), d.1)
    } else {
        let d = s.parent_place(k, rng);
        let i = if d.0 < k.entries.len() {
            d.0 as int
        } else {
            k.entries.len() - 1
        };
        (Some(k.entries[i]), d.1)
    }
}

/// A key of a pool, which stays there.
pub(crate) fn draw_shared_key<S: Sampler>(
    sampler: &S,
    rel: &RelPool,
    rng: &mut rand::rngs::StdRng,
) -> (r: Option<Value>)
    ensures
        (r.deep_view(), *final(rng)) == shared_key(*sampler, rel@, *old(rng)),
        match r {
            Some(v) => rel.pool.entries().contains(v@),
            None => rel.pool.entries().len() == 0,
        },
{
    if rel.pool.is_empty() {
        return None;
    }
    let pick = match rel.strategy {
        SelectionStrategy::Uniform => Pick::Uniform,
        _ => {
            let i: usize = sampler.parent_index(rel, rng);
            Pick::At(place_below(i, rel.pool.len()))
        },
    };
    rel.pool.sample_one(pick, rng)
}

/// A pool whose keys may be used once, put in the order in which they are taken.
pub open spec fn in_turn<S: Sampler>(s: S, k: Keys, rng: rand::rngs::StdRng) -> (
    Keys,
    rand::rngs::StdRng,
) {
    if k.prepared || k.strategy == SelectionStrategy::Uniform {
        (k, rng)
    } else {
        let d = s.parent_list(k, rng);
        if fk_pool::is_permutation(d.0, k.entries.len() as int) {
            (Keys { entries: fk_pool::permuted(k.entries, d.0), prepared: true, ..k }, d.1)
        } else {
            (k, d.1)
        }
    }
}

/// A key for a relationship's column, what is left of the pool, and the generator
/// after it; nothing where the pool is empty.
pub open spec fn own_key<S: Sampler>(s: S, k: Keys, rng: rand::rngs::StdRng) -> Option<
    (Cell, Keys, rand::rngs::StdRng),
> {
    if k.unique {
        let (ready, next) = in_turn(s, k, rng);
        let all = ready.entries;
        if all.len() == 0 {
            None
        } else if ready.prepared {
            Some((all.last(), Keys { entries: all.drop_last(), ..ready }, next))
        } else {
            let d = fk_pool::below(next, all.len() as usize, usize::BITS);
            Some(
                (
                    all[d.0 as int],
                    Keys { entries: fk_pool::swapped_out(all, d.0 as int), ..ready },
                    d.1,
                ),
            )
        }
    } else {
        match shared_key(s, k, rng) {
            (Some(cell), next) => Some((cell, k, next)),
            (None, _) => None,
        }
    }
}

/// A key for a relationship's column.
fn draw_key<S: Sampler>(
    sampler: &S,
    table: &str,
    rel: &mut RelPool,
    rng: &mut rand::rngs::StdRng,
) -> (r: Result<Value, String>)
    ensures
        same_rel(*old(rel), *final(rel)),
        match r {
            Ok(v) => {
                &&& key_drawn(*old(rel), *final(rel), v@)
                &&& own_key(*sampler, old(rel)@, *old(rng)) == Some((v@, final(rel)@, *final(rng)))
            },
            Err(m) => {
                &&& old(rel).pool.entries().len() == 0
                &&& own_key(*sampler, old(rel)@, *old(rng)) is None
                &&& final(rel).pool.entries() == old(rel).pool.entries()
                &&& m@ == key_fault(table@, *old(rel))
            },
        },
{
    if rel.unique {
        if !rel.pool.prepared() {
            match rel.strategy {
                SelectionStrategy::Uniform => {},
                _ => {
                    let order = sampler.parent_order(rel, rng);
                    let _ = rel.pool.prepare(order.as_slice());
                },
            }
        }
        let ghost ready = rel.pool.entries();
        proof {
            assert(ready.to_multiset() == old(rel).pool.entries().to_multiset());
            ready.to_multiset_ensures();
            old(rel).pool.entries().to_multiset_ensures();
            assert((rel@, *rng) == in_turn(*sampler, old(rel)@, *old(rng)));
        }
        match rel.pool.sample_unique(rng) {
            Some(v) => {
                proof {
                    broadcast use vstd::multiset::group_multiset_axioms;

                    assert(ready.to_multiset().count(v@) > 0);
                    old(rel).pool.entries().to_multiset_ensures();
                    assert(old(rel).pool.entries().contains(v@));
                }
                Ok(v)
            },
            None => {
                proof {
                    assert(old(rel).pool.entries() =~= rel.pool.entries());
                }
                Err(write_key_fault(table, rel))
            },
        }
    } else {
        match draw_shared_key(sampler, rel, rng) {
            Some(v) => Ok(v),
            None => Err(write_key_fault(table, rel)),
        }
    }
}

/// The columns of relationships.
pub open spec fn rel_names(rels: Seq<RelPool>) -> Seq<Seq<char>> {
    Seq::new(rels.len(), |j: int| rels[j].column@)
}

/// The relationship that a column belongs to: the first with its name, or their
/// number where there is none.
pub open spec fn rel_of(rels: Seq<RelPool>, column: Seq<char>) -> int {
    value::first_place(rel_names(rels), column)
}

/// Relationships that differ only in the entries left in their pools.
pub open spec fn same_rels(a: Seq<RelPool>, b: Seq<RelPool>) -> bool {
    &&& a.len() == b.len()
    &&& forall|j: int| 0 <= j < a.len() ==> same_rel(#[trigger] a[j], b[j])
}

pub proof fn lemma_same_names(a: Seq<RelPool>, b: Seq<RelPool>)
    requires
        same_rels(a, b),
    ensures
        rel_names(a) == rel_names(b),
{
    assert forall|j: int| 0 <= j < a.len() implies rel_names(a)[j] == rel_names(b)[j] by {
        assert(same_rel(a[j], b[j]));
    }
    assert(rel_names(a) =~= rel_names(b));
}

/// The relationship of a column.
pub(crate) fn find_rel(rels: &Vec<RelPool>, column: &str) -> (r: Option<usize>)
    ensures
        0 <= rel_of(rels@, column@) <= rels@.len(),
        match r {
            Some(j) => j == rel_of(rels@, column@) && j < rels@.len(),
            None => rel_of(rels@, column@) == rels@.len(),
        },
{
    let ghost all = rel_names(rels@);
    proof {
        value::lemma_first_place(all, column@);
    }
    let mut j: usize = 0;
    while j < rels.len()
        invariant
            j <= rels@.len(),
            all == rel_names(rels@),
            forall|k: int| 0 <= k < j ==> #[trigger] all[k] != column@,
            0 <= value::first_place(all, column@) <= all.len(),
        decreases rels@.len() - j,
    {
        if text::same(rels[j].column.as_str(), column) {
            proof {
                assert(all[j as int] == column@);
                value::lemma_place_found(all, column@, j as int);
            }
            return Some(j);
        }
        j = j + 1;
    }
    proof {
        value::lemma_first_place(all, column@);
        if value::first_place(all, column@) < all.len() {
            assert(all[value::first_place(all, column@)] == column@);
        }
    }
    None
}

/// The cells of a column.
pub open spec fn column_of(rows: Seq<Seq<Cell>>, c: int) -> Seq<Cell> {
    Seq::new(rows.len(), |r: int| rows[r][c])
}

/// A drawn cell: NULL where its column may be, else a key of its
/// relationship's pool where it has one.
pub open spec fn drawn_cell(
    cell: Cell,
    column: Seq<char>,
    nullable: bool,
    rels: Seq<RelPool>,
) -> bool {
    let j = rel_of(rels, column);
    ||| nullable && cell is Null
    ||| j >= rels.len()
    ||| rels[j].pool.entries().contains(cell)
}

/// No value occurs in a column more often than in the pool that it is taken
/// from.
pub open spec fn taken_from(column: Seq<Cell>, pool: Seq<Cell>) -> bool {
    forall|v: Cell|
        !(v is Null) ==> #[trigger] column.to_multiset().count(v) <= pool.to_multiset().count(v)
}

/// Rows as they are drawn.
pub open spec fn drawn_rows(
    rows: Seq<Seq<Cell>>,
    columns: Seq<Seq<char>>,
    nullable: Seq<bool>,
    rels: Seq<RelPool>,
) -> bool {
    &&& forall|r: int, c: int|
        0 <= r < rows.len() && 0 <= c < columns.len() ==> drawn_cell(
            #[trigger] rows[r][c],
            columns[c],
            nullable[c],
            rels,
        )
    &&& forall|c: int|
        0 <= c < columns.len() && rel_of(rels, #[trigger] columns[c]) < rels.len()
            && rels[rel_of(rels, columns[c])].unique ==> taken_from(
            column_of(rows, c),
            rels[rel_of(rels, columns[c])].pool.entries(),
        )
}

/// The key of a column ran out: its pool is empty, or has fewer entries than
/// rows are wanted where each may be used once.
pub open spec fn key_missing(
    table: Seq<char>,
    columns: Seq<Seq<char>>,
    rels: Seq<RelPool>,
    rows: nat,
    m: Seq<char>,
) -> bool {
    exists|c: int| #[trigger] key_missing_at(table, columns, rels, rows, m, c)
}

pub open spec fn key_missing_at(
    table: Seq<char>,
    columns: Seq<Seq<char>>,
    rels: Seq<RelPool>,
    rows: nat,
    m: Seq<char>,
    c: int,
) -> bool {
    let j = rel_of(rels, columns[c]);
    &&& 0 <= c < columns.len()
    &&& 0 <= j < rels.len()
    &&& rows > 0
    &&& m == key_fault(table, rels[j])
    &&& !rels[j].unique ==> rels[j].pool.entries().len() == 0
    &&& rels[j].unique && columns.no_duplicates() ==> rels[j].pool.entries().len() < rows
}

/// What was seen of a column: its cells in the finished rows, and that of the row
/// at hand once it is there.
spec fn seen_of(rows: Seq<Seq<Cell>>, row: Seq<Cell>, c: int) -> Multiset<Cell> {
    if c < row.len() {
        column_of(rows, c).to_multiset().insert(row[c])
    } else {
        column_of(rows, c).to_multiset()
    }
}

spec fn seen_within(seen: Multiset<Cell>, left: Seq<Cell>, first: Seq<Cell>) -> bool {
    forall|v: Cell|
        !(v is Null) ==> #[trigger] seen.count(v) + left.to_multiset().count(v)
            <= first.to_multiset().count(v)
}

/// The state of the draw: `first` are the pools at the start, `now` those of the
/// moment.
spec fn drawing(
    rows: Seq<Seq<Cell>>,
    row: Seq<Cell>,
    columns: Seq<Seq<char>>,
    nullable: Seq<bool>,
    first: Seq<RelPool>,
    now: Seq<RelPool>,
) -> bool {
    &&& same_rels(first, now)
    &&& nullable.len() == columns.len()
    &&& row.len() <= columns.len()
    &&& forall|r: int, c: int|
        0 <= r < rows.len() && 0 <= c < columns.len() ==> drawn_cell(
            #[trigger] rows[r][c],
            columns[c],
            nullable[c],
            first,
        )
    &&& forall|c: int|
        0 <= c < row.len() ==> drawn_cell(#[trigger] row[c], columns[c], nullable[c], first)
    &&& forall|j: int|
        0 <= j < first.len() && !first[j].unique ==> (#[trigger] now[j]).pool.entries()
            == first[j].pool.entries()
    &&& forall|j: int|
        0 <= j < first.len() ==> (#[trigger] now[j]).pool.entries().to_multiset().subset_of(
            first[j].pool.entries().to_multiset(),
        )
    &&& forall|c: int|
        0 <= c < columns.len() && rel_of(first, #[trigger] columns[c]) < first.len()
            && first[rel_of(first, columns[c])].unique ==> seen_within(
            seen_of(rows, row, c),
            now[rel_of(first, columns[c])].pool.entries(),
            first[rel_of(first, columns[c])].pool.entries(),
        )
    &&& forall|c: int|
        columns.no_duplicates() && 0 <= c < columns.len() && rel_of(first, #[trigger] columns[c])
            < first.len() ==> first[rel_of(first, columns[c])].pool.entries().len()
            <= now[rel_of(first, columns[c])].pool.entries().len() + rows.len() + (if c
            < row.len() {
            1int
        } else {
            0int
        })
}

proof fn lemma_names_apart(rels: Seq<RelPool>, a: Seq<char>, b: Seq<char>)
    requires
        rel_of(rels, a) == rel_of(rels, b),
        rel_of(rels, a) < rels.len(),
    ensures
        a == b,
{
    value::lemma_first_place(rel_names(rels), a);
    value::lemma_first_place(rel_names(rels), b);
}

/// A cell that is no key of a pool goes into the row.
proof fn lemma_plain_cell(
    rows: Seq<Seq<Cell>>,
    row: Seq<Cell>,
    columns: Seq<Seq<char>>,
    nullable: Seq<bool>,
    first: Seq<RelPool>,
    now: Seq<RelPool>,
    cell: Cell,
)
    requires
        drawing(rows, row, columns, nullable, first, now),
        row.len() < columns.len(),
        rel_of(first, columns[row.len() as int]) >= first.len() || (cell is Null
            && nullable[row.len() as int]),
    ensures
        drawing(rows, row.push(cell), columns, nullable, first, now),
{
    broadcast use vstd::multiset::group_multiset_axioms;

    let next = row.push(cell);
    let k = row.len() as int;
    assert forall|c: int| 0 <= c < next.len() implies drawn_cell(
        #[trigger] next[c],
        columns[c],
        nullable[c],
        first,
    ) by {
        if c < k {
            assert(next[c] == row[c]);
        }
    }
    assert forall|c: int|
        0 <= c < columns.len() && rel_of(first, #[trigger] columns[c]) < first.len()
            && first[rel_of(first, columns[c])].unique implies seen_within(
        seen_of(rows, next, c),
        now[rel_of(first, columns[c])].pool.entries(),
        first[rel_of(first, columns[c])].pool.entries(),
    ) by {
        assert(seen_within(
            seen_of(rows, row, c),
            now[rel_of(first, columns[c])].pool.entries(),
            first[rel_of(first, columns[c])].pool.entries(),
        ));
        if c == k {
            assert(cell is Null);
            assert forall|v: Cell| !(v is Null) implies #[trigger] seen_of(rows, next, c).count(v)
                == seen_of(rows, row, c).count(v) by {}
        } else {
            assert(seen_of(rows, next, c) == seen_of(rows, row, c));
        }
    }
}

/// A key of a pool goes into the row.
proof fn lemma_key_cell(
    rows: Seq<Seq<Cell>>,
    row: Seq<Cell>,
    columns: Seq<Seq<char>>,
    nullable: Seq<bool>,
    first: Seq<RelPool>,
    now: Seq<RelPool>,
    after: RelPool,
    cell: Cell,
)
    requires
        drawing(rows, row, columns, nullable, first, now),
        row.len() < columns.len(),
        0 <= rel_of(first, columns[row.len() as int]) < first.len(),
        same_rel(now[rel_of(first, columns[row.len() as int])], after),
        key_drawn(now[rel_of(first, columns[row.len() as int])], after, cell),
    ensures
        drawing(
            rows,
            row.push(cell),
            columns,
            nullable,
            first,
            now.update(rel_of(first, columns[row.len() as int]), after),
        ),
{
    broadcast use vstd::multiset::group_multiset_axioms;

    let next = row.push(cell);
    let k = row.len() as int;
    let j = rel_of(first, columns[k]);
    let new = now.update(j, after);
    let left = now[j].pool.entries();
    let first_j = first[j].pool.entries();
    assert(same_rel(first[j], now[j]));
    assert(first_j.contains(cell)) by {
        left.to_multiset_ensures();
        first_j.to_multiset_ensures();
        assert(left.to_multiset().count(cell) > 0);
        assert(left.to_multiset().subset_of(first_j.to_multiset()));
    }
    assert forall|i: int| 0 <= i < first.len() implies same_rel(#[trigger] first[i], new[i]) by {
        assert(same_rel(first[i], now[i]));
    }
    assert forall|c: int| 0 <= c < next.len() implies drawn_cell(
        #[trigger] next[c],
        columns[c],
        nullable[c],
        first,
    ) by {
        if c < k {
            assert(next[c] == row[c]);
        }
    }
    assert forall|i: int| 0 <= i < first.len() && !first[i].unique implies (
    #[trigger] new[i]).pool.entries() == first[i].pool.entries() by {
        assert(now[i].pool.entries() == first[i].pool.entries());
    }
    assert forall|i: int| 0 <= i < first.len() implies (
    #[trigger] new[i]).pool.entries().to_multiset().subset_of(
        first[i].pool.entries().to_multiset(),
    ) by {
        assert(now[i].pool.entries().to_multiset().subset_of(
            first[i].pool.entries().to_multiset(),
        ));
        if i == j && first[j].unique {
            assert forall|v: Cell| #[trigger]
                after.pool.entries().to_multiset().count(v) <= first_j.to_multiset().count(v) by {
                assert(left.to_multiset().count(v) <= first_j.to_multiset().count(v));
            }
        }
    }
    assert forall|c: int|
        0 <= c < columns.len() && rel_of(first, #[trigger] columns[c]) < first.len()
            && first[rel_of(first, columns[c])].unique implies seen_within(
        seen_of(rows, next, c),
        new[rel_of(first, columns[c])].pool.entries(),
        first[rel_of(first, columns[c])].pool.entries(),
    ) by {
        let i = rel_of(first, columns[c]);
        value::lemma_first_place(rel_names(first), columns[c]);
        assert(seen_within(
            seen_of(rows, row, c),
            now[i].pool.entries(),
            first[i].pool.entries(),
        ));
        assert forall|v: Cell| !(v is Null) implies #[trigger] seen_of(rows, next, c).count(v)
            + new[i].pool.entries().to_multiset().count(v)
            <= first[i].pool.entries().to_multiset().count(v) by {
            assert(seen_of(rows, row, c).count(v) + now[i].pool.entries().to_multiset().count(v)
                <= first[i].pool.entries().to_multiset().count(v));
            if i == j {
                assert(left.to_multiset().count(v)
                    == after.pool.entries().to_multiset().insert(cell).count(v));
            }
        }
    }
    assert forall|c: int|
        columns.no_duplicates() && 0 <= c < columns.len() && rel_of(first, #[trigger] columns[c])
            < first.len() implies first[rel_of(first, columns[c])].pool.entries().len()
        <= new[rel_of(first, columns[c])].pool.entries().len() + rows.len() + (if c < next.len() {
        1int
    } else {
        0int
    }) by {
        let i = rel_of(first, columns[c]);
        value::lemma_first_place(rel_names(first), columns[c]);
        assert(first[i].pool.entries().len() <= now[i].pool.entries().len() + rows.len() + (if c
            < row.len() {
            1int
        } else {
            0int
        }));
        if i == j {
            lemma_names_apart(first, columns[c], columns[k]);
            assert(columns[c] == columns[k]);
            assert(c == k);
        }
    }
}

/// A finished row goes to the rows.
proof fn lemma_row_done(
    rows: Seq<Seq<Cell>>,
    row: Seq<Cell>,
    columns: Seq<Seq<char>>,
    nullable: Seq<bool>,
    first: Seq<RelPool>,
    now: Seq<RelPool>,
)
    requires
        drawing(rows, row, columns, nullable, first, now),
        row.len() == columns.len(),
    ensures
        drawing(rows.push(row), Seq::empty(), columns, nullable, first, now),
{
    let more = rows.push(row);
    let none = Seq::<Cell>::empty();
    assert forall|r: int, c: int| 0 <= r < more.len() && 0 <= c < columns.len() implies drawn_cell(
        #[trigger] more[r][c],
        columns[c],
        nullable[c],
        first,
    ) by {
        if r < rows.len() {
            assert(more[r][c] == rows[r][c]);
        } else {
            assert(more[r][c] == row[c]);
        }
    }
    assert forall|c: int| 0 <= c < columns.len() implies seen_of(more, none, c) == #[trigger] seen_of(
        rows,
        row,
        c,
    ) by {
        assert(column_of(more, c) =~= column_of(rows, c).push(row[c]));
        vstd::seq_lib::to_multiset_build(column_of(rows, c), row[c]);
    }
    assert forall|c: int|
        0 <= c < columns.len() && rel_of(first, #[trigger] columns[c]) < first.len()
            && first[rel_of(first, columns[c])].unique implies seen_within(
        seen_of(more, none, c),
        now[rel_of(first, columns[c])].pool.entries(),
        first[rel_of(first, columns[c])].pool.entries(),
    ) by {
        assert(seen_of(more, none, c) == seen_of(rows, row, c));
    }
}

/// A cell of a column without a relationship is a draw, unless it is one of the
/// column's NULLs.
pub open spec fn plain_cell(
    cell: Cell,
    table: TableModel,
    column: Seq<char>,
    nullable: bool,
    rels: Seq<RelPool>,
    enforce: bool,
) -> bool {
    ||| rel_of(rels, column) < rels.len()
    ||| nullable && cell is Null
    ||| domain::is_draw(domain::source_of(table, column, enforce), cell)
}

/// Every cell of a column without a relationship is a draw, unless it is one of the
/// column's NULLs.
pub open spec fn plain_rows(
    rows: Seq<Seq<Cell>>,
    table: TableModel,
    columns: Seq<Seq<char>>,
    nullable: Seq<bool>,
    rels: Seq<RelPool>,
    enforce: Seq<bool>,
) -> bool {
    forall|r: int, c: int|
        0 <= r < rows.len() && 0 <= c < columns.len() ==> plain_cell(
            #[trigger] rows[r][c],
            table,
            columns[c],
            nullable[c],
            rels,
            enforce[c],
        )
}

/// Which columns may be NULL.
pub open spec fn nullable_of(rates: Seq<Option<&Rate>>) -> Seq<bool> {
    Seq::new(rates.len(), |c: int| rates[c] is Some)
}

/// The texts of the rates.
pub open spec fn rate_texts(rates: Seq<Option<&Rate>>) -> Seq<Option<Seq<char>>> {
    Seq::new(
        rates.len(),
        |c: int|
            match rates[c] {
                Some(rate) => Some(rate.text@),
                None => None,
            },
    )
}

/// What the rows of a table are drawn by: which columns it has, at which rates they
/// are NULL, and which draws stay between the smallest and the largest value that
/// were seen.
pub struct Sheet {
    pub table: TableModel,
    pub name: Seq<char>,
    pub columns: Seq<Seq<char>>,
    pub rates: Seq<Option<Seq<char>>>,
    pub enforce: Seq<bool>,
}

/// Where a draw stands: the finished rows, the row at hand, what is left of the
/// relationships' keys, the streams of the NULLs and that of everything else.
pub struct Drawing {
    pub rows: Seq<Seq<Cell>>,
    pub row: Seq<Cell>,
    pub keys: Seq<Keys>,
    pub nulls: Seq<rand::rngs::StdRng>,
    pub rng: rand::rngs::StdRng,
}

/// The place of a column's keys, or the number of relationships.
pub open spec fn keys_at(keys: Seq<Keys>, column: Seq<char>) -> int {
    value::first_place(Seq::new(keys.len(), |j: int| keys[j].column), column)
}

/// The next cell of the row at hand: NULL where the column's stream says so, else
/// a key of its relationship, else what was sampled. Where the keys are spent, the
/// message.
pub open spec fn cell_from<S: Sampler>(s: S, sheet: Sheet, d: Drawing) -> Result<
    Drawing,
    Seq<char>,
> {
    let c = d.row.len() as int;
    let tossed = match sheet.rates[c] {
        Some(rate) => s.nulled(rate, d.nulls[c]),
        None => (false, d.nulls[c]),
    };
    let nulls = match sheet.rates[c] {
        Some(rate) => d.nulls.update(c, tossed.1),
        None => d.nulls,
    };
    let j = keys_at(d.keys, sheet.columns[c]);
    if tossed.0 {
        Ok(Drawing { row: d.row.push(Cell::Null), nulls, ..d })
    } else if j < d.keys.len() {
        match own_key(s, d.keys[j], d.rng) {
            Some((cell, left, rng)) => Ok(
                Drawing { row: d.row.push(cell), keys: d.keys.update(j, left), nulls, rng, ..d },
            ),
            None => Err(keys_fault(sheet.name, d.keys[j])),
        }
    } else {
        let cell = domain::drawn_cell(
            model::column_model(sheet.table.columns@, sheet.columns[c]),
            s.drawn(sheet.table, c as usize, d.rows.len() as usize),
            sheet.enforce[c],
        );
        Ok(Drawing { row: d.row.push(cell), nulls, ..d })
    }
}

/// The first cells of the row at hand.
pub open spec fn row_from<S: Sampler>(s: S, sheet: Sheet, d: Drawing, n: nat) -> Result<
    Drawing,
    Seq<char>,
>
    decreases n,
{
    if n == 0 {
        Ok(d)
    } else {
        match row_from(s, sheet, d, (n - 1) as nat) {
            Ok(e) => cell_from(s, sheet, e),
            Err(m) => Err(m),
        }
    }
}

/// The first rows, each drawn after the ones before it.
pub open spec fn rows_from<S: Sampler>(s: S, sheet: Sheet, d: Drawing, n: nat) -> Result<
    Drawing,
    Seq<char>,
>
    decreases n,
{
    if n == 0 {
        Ok(d)
    } else {
        match rows_from(s, sheet, d, (n - 1) as nat) {
            Ok(e) => match row_from(s, sheet, e, sheet.columns.len()) {
                Ok(f) => Ok(Drawing { rows: f.rows.push(f.row), row: Seq::empty(), ..f }),
                Err(m) => Err(m),
            },
            Err(m) => Err(m),
        }
    }
}

/// A draw that stopped at a cell does not get further.
proof fn lemma_row_stops<S: Sampler>(s: S, sheet: Sheet, d: Drawing, k: nat, n: nat)
    requires
        k <= n,
        row_from(s, sheet, d, k) is Err,
    ensures
        row_from(s, sheet, d, n) == row_from(s, sheet, d, k),
    decreases n,
{
    if k < n {
        lemma_row_stops(s, sheet, d, k, (n - 1) as nat);
    }
}

/// A draw that stopped at a row does not get further.
proof fn lemma_rows_stop<S: Sampler>(s: S, sheet: Sheet, d: Drawing, k: nat, n: nat)
    requires
        k <= n,
        rows_from(s, sheet, d, k) is Err,
    ensures
        rows_from(s, sheet, d, n) == rows_from(s, sheet, d, k),
    decreases n,
{
    if k < n {
        lemma_rows_stop(s, sheet, d, k, (n - 1) as nat);
    }
}

/// The keys of a column stand where its relationship does.
pub(crate) proof fn lemma_keys_at(rels: Seq<RelPool>, column: Seq<char>)
    ensures
        keys_at(pools::all_keys(rels), column) == rel_of(rels, column),
{
    let keys = pools::all_keys(rels);
    assert(Seq::new(keys.len(), |j: int| keys[j].column) =~= rel_names(rels));
}

/// Draws the rows of a table.
pub fn draw_rows<S: Sampler>(
    sampler: &S,
    table: &TableModel,
    name: &str,
    columns: &[String],
    rels: &mut Vec<RelPool>,
    rates: &Vec<Option<&Rate>>,
    enforce: &Vec<bool>,
    nulls: &mut Vec<rand::rngs::StdRng>,
    count: usize,
    rng: &mut rand::rngs::StdRng,
) -> (r: Result<Vec<Vec<Value>>, String>)
    requires
        rates@.len() == columns@.len(),
        enforce@.len() == columns@.len(),
        old(nulls)@.len() == columns@.len(),
    ensures
        ({
            let sheet = Sheet {
                table: *table,
                name: name@,
                columns: columns.deep_view(),
                rates: rate_texts(rates@),
                enforce: enforce@,
            };
            let start = Drawing {
                rows: Seq::empty(),
                row: Seq::empty(),
                keys: pools::all_keys(old(rels)@),
                nulls: old(nulls)@,
                rng: *old(rng),
            };
            match r {
                Ok(rows) => rows_from(*sampler, sheet, start, count as nat) == Ok::<
                    Drawing,
                    Seq<char>,
                >(
                    Drawing {
                        rows: derivation::rows_cells(rows@),
                        row: Seq::empty(),
                        keys: pools::all_keys(final(rels)@),
                        nulls: final(nulls)@,
                        rng: *final(rng),
                    },
                ),
                Err(m) => rows_from(*sampler, sheet, start, count as nat) == Err::<
                    Drawing,
                    Seq<char>,
                >(m@),
            }
        }),
        match r {
            Ok(rows) => {
                &&& rows@.len() == count
                &&& derivation::all_wide(rows@, columns@.len())
                &&& drawn_rows(
                    derivation::rows_cells(rows@),
                    columns.deep_view(),
                    nullable_of(rates@),
                    old(rels)@,
                )
                &&& plain_rows(
                    derivation::rows_cells(rows@),
                    *table,
                    columns.deep_view(),
                    nullable_of(rates@),
                    old(rels)@,
                    enforce@,
                )
                &&& same_rels(old(rels)@, final(rels)@)
                &&& forall|j: int|
                    0 <= j < old(rels)@.len() ==> (
                    #[trigger] final(rels)@[j]).pool.entries().to_multiset().subset_of(
                        old(rels)@[j].pool.entries().to_multiset(),
                    )
            },
            Err(m) => key_missing(name@, columns.deep_view(), old(rels)@, count as nat, m@),
        },
{
    let ghost first = rels@;
    let ghost names = columns.deep_view();
    let ghost nullable = nullable_of(rates@);
    let mut rows: Vec<Vec<Value>> = Vec::new();
    let ghost sheet = Sheet {
        table: *table,
        name: name@,
        columns: names,
        rates: rate_texts(rates@),
        enforce: enforce@,
    };
    let ghost start = Drawing {
        rows: Seq::empty(),
        row: Seq::empty(),
        keys: pools::all_keys(rels@),
        nulls: nulls@,
        rng: *rng,
    };
    proof {
        assert(derivation::rows_cells(rows@) =~= Seq::empty());
        assert forall|c: int| 0 <= c < names.len() implies seen_within(
            #[trigger] seen_of(Seq::empty(), Seq::empty(), c),
            first[rel_of(first, names[c])].pool.entries(),
            first[rel_of(first, names[c])].pool.entries(),
        ) by {
            broadcast use vstd::multiset::group_multiset_axioms;

            assert(column_of(Seq::empty(), c) =~= Seq::<Cell>::empty());
            Seq::<Cell>::empty().to_multiset_ensures();
            assert(Seq::<Cell>::empty().to_multiset() =~= Multiset::empty());
        }
        assert(drawing(Seq::empty(), Seq::empty(), names, nullable, first, rels@)) by {
            assert forall|c: int|
                0 <= c < names.len() && rel_of(first, #[trigger] names[c]) < first.len()
                    && first[rel_of(first, names[c])].unique implies seen_within(
                seen_of(Seq::empty(), Seq::empty(), c),
                first[rel_of(first, names[c])].pool.entries(),
                first[rel_of(first, names[c])].pool.entries(),
            ) by {
                assert(seen_within(
                    seen_of(Seq::empty(), Seq::empty(), c),
                    first[rel_of(first, names[c])].pool.entries(),
                    first[rel_of(first, names[c])].pool.entries(),
                ));
            }
        }
    }
    let mut t: usize = 0;
    while t < count
        invariant
            t <= count,
            rates@.len() == columns@.len(),
            first == old(rels)@,
            names == columns.deep_view(),
            nullable == nullable_of(rates@),
            nulls@.len() == columns@.len(),
            sheet.table == *table,
            sheet.name == name@,
            sheet.columns == names,
            sheet.rates == rate_texts(rates@),
            sheet.enforce == enforce@,
            start == (Drawing {
                rows: Seq::empty(),
                row: Seq::empty(),
                keys: pools::all_keys(old(rels)@),
                nulls: old(nulls)@,
                rng: *old(rng),
            }),
            rows_from(*sampler, sheet, start, t as nat) == Ok::<Drawing, Seq<char>>(
                Drawing {
                    rows: derivation::rows_cells(rows@),
                    row: Seq::empty(),
                    keys: pools::all_keys(rels@),
                    nulls: nulls@,
                    rng: *rng,
                },
            ),
            rows@.len() == t,
            enforce@.len() == columns@.len(),
            plain_rows(derivation::rows_cells(rows@), *table, names, nullable, first, enforce@),
            derivation::all_wide(rows@, columns@.len()),
            drawing(
                derivation::rows_cells(rows@),
                Seq::empty(),
                names,
                nullable,
                first,
                rels@,
            ),
        decreases count - t,
    {
        let ghost done = derivation::rows_cells(rows@);
        let ghost begun = Drawing {
            rows: done,
            row: Seq::empty(),
            keys: pools::all_keys(rels@),
            nulls: nulls@,
            rng: *rng,
        };
        let mut row: Vec<Value> = Vec::new();
        let mut c: usize = 0;
        proof {
            assert(row.deep_view() =~= Seq::empty());
        }
        while c < columns.len()
            invariant
                c <= columns@.len(),
                t < count,
                rows@.len() == t,
                done.len() == t,
                rates@.len() == columns@.len(),
                first == old(rels)@,
                names == columns.deep_view(),
                nullable == nullable_of(rates@),
                nulls@.len() == columns@.len(),
                sheet.table == *table,
                sheet.name == name@,
                sheet.columns == names,
                sheet.rates == rate_texts(rates@),
                sheet.enforce == enforce@,
                start == (Drawing {
                    rows: Seq::empty(),
                    row: Seq::empty(),
                    keys: pools::all_keys(old(rels)@),
                    nulls: old(nulls)@,
                    rng: *old(rng),
                }),
                rows_from(*sampler, sheet, start, t as nat) == Ok::<Drawing, Seq<char>>(begun),
                row_from(*sampler, sheet, begun, c as nat) == Ok::<Drawing, Seq<char>>(
                    Drawing {
                        rows: done,
                        row: row.deep_view(),
                        keys: pools::all_keys(rels@),
                        nulls: nulls@,
                        rng: *rng,
                    },
                ),
                row@.len() == c,
                enforce@.len() == columns@.len(),
                forall|k: int|
                    0 <= k < c ==> plain_cell(
                        #[trigger] row.deep_view()[k],
                        *table,
                        names[k],
                        nullable[k],
                        first,
                        enforce@[k],
                    ),
                drawing(done, row.deep_view(), names, nullable, first, rels@),
            decreases columns@.len() - c,
        {
            let ghost so_far = row.deep_view();
            let ghost now = rels@;
            let ghost tossed = nulls@;
            let ghost at = Drawing {
                rows: done,
                row: so_far,
                keys: pools::all_keys(now),
                nulls: tossed,
                rng: *rng,
            };
            proof {
                lemma_same_names(first, now);
                lemma_keys_at(now, names[c as int]);
                assert(names[c as int] == columns@[c as int]@);
                assert(row_from(*sampler, sheet, begun, (c + 1) as nat) == cell_from(
                    *sampler,
                    sheet,
                    at,
                ));
            }
            let null = match rates[c] {
                Some(rate) => sampler.is_null(rate.text.as_str(), &mut nulls[c]),
                None => false,
            };
            proof {
                match sheet.rates[c as int] {
                    Some(rate) => {
                        assert(nulls@ =~= tossed.update(
                            c as int,
                            sampler.nulled(rate, tossed[c as int]).1,
                        ));
                    },
                    None => {
                        assert(nulls@ =~= tossed);
                    },
                }
            }
            if null {
                row.push(Value::Null);
                proof {
                    assert(nullable[c as int]);
                    lemma_plain_cell(done, so_far, names, nullable, first, now, Cell::Null);
                    assert(row.deep_view() =~= so_far.push(Cell::Null));
                }
            } else {
                match find_rel(rels, columns[c].as_str()) {
                    Some(j) => {
                        let drawn = draw_key(sampler, name, &mut rels[j], rng);
                        match drawn {
                            Ok(v) => {
                                let ghost cell = v@;
                                proof {
                                    assert(rels@ =~= now.update(j as int, rels@[j as int]));
                                    assert(pools::all_keys(rels@) =~= at.keys.update(
                                        j as int,
                                        rels@[j as int]@,
                                    ));
                                    lemma_key_cell(
                                        done,
                                        so_far,
                                        names,
                                        nullable,
                                        first,
                                        now,
                                        rels@[j as int],
                                        cell,
                                    );
                                }
                                row.push(v);
                                proof {
                                    assert(row.deep_view() =~= so_far.push(cell));
                                }
                            },
                            Err(m) => {
                                proof {
                                    assert(same_rel(first[j as int], now[j as int]));
                                    assert(key_missing_at(
                                        name@,
                                        names,
                                        first,
                                        count as nat,
                                        m@,
                                        c as int,
                                    ));
                                    lemma_row_stops(
                                        *sampler,
                                        sheet,
                                        begun,
                                        (c + 1) as nat,
                                        names.len(),
                                    );
                                    lemma_rows_stop(
                                        *sampler,
                                        sheet,
                                        start,
                                        (t + 1) as nat,
                                        count as nat,
                                    );
                                }
                                return Err(m);
                            },
                        }
                    },
                    None => {
                        let drawn = sampler.value(table, c, t);
                        let v = domain::draw_value(
                            table,
                            columns[c].as_str(),
                            drawn,
                            enforce[c],
                        );
                        let ghost cell = v@;
                        row.push(v);
                        proof {
                            lemma_plain_cell(done, so_far, names, nullable, first, now, cell);
                            assert(row.deep_view() =~= so_far.push(cell));
                        }
                    },
                }
            }
            proof {
                assert forall|k: int| 0 <= k < c + 1 implies plain_cell(
                    #[trigger] row.deep_view()[k],
                    *table,
                    names[k],
                    nullable[k],
                    first,
                    enforce@[k],
                ) by {
                    if k < c {
                        assert(row.deep_view()[k] == so_far[k]);
                    }
                }
            }
            c = c + 1;
        }
        proof {
            lemma_row_done(done, row.deep_view(), names, nullable, first, rels@);
        }
        let ghost cells = row.deep_view();
        rows.push(row);
        proof {
            assert(derivation::rows_cells(rows@) =~= done.push(cells));
            assert forall|r: int, k: int|
                0 <= r < rows@.len() && 0 <= k < names.len() implies plain_cell(
                #[trigger] derivation::rows_cells(rows@)[r][k],
                *table,
                names[k],
                nullable[k],
                first,
                enforce@[k],
            ) by {
                if r < t {
                    assert(derivation::rows_cells(rows@)[r][k] == done[r][k]);
                } else {
                    assert(derivation::rows_cells(rows@)[r][k] == cells[k]);
                }
            }
        }
        t = t + 1;
    }
    proof {
        let cells = derivation::rows_cells(rows@);
        assert forall|c: int|
            0 <= c < names.len() && rel_of(first, #[trigger] names[c]) < first.len()
                && first[rel_of(first, names[c])].unique implies taken_from(
            column_of(cells, c),
            first[rel_of(first, names[c])].pool.entries(),
        ) by {
            let j = rel_of(first, names[c]);
            assert(seen_within(
                seen_of(cells, Seq::empty(), c),
                rels@[j].pool.entries(),
                first[j].pool.entries(),
            ));
            assert forall|v: Cell| !(v is Null) implies #[trigger] column_of(
                cells,
                c,
            ).to_multiset().count(v) <= first[j].pool.entries().to_multiset().count(v) by {
                assert(seen_of(cells, Seq::empty(), c).count(v)
                    + rels@[j].pool.entries().to_multiset().count(v)
                    <= first[j].pool.entries().to_multiset().count(v));
            }
        }
    }
    Ok(rows)
}

} // verus!
