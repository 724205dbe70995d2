//! Branch coverage: rewriting rows until enough of them satisfy a predicate.
use crate::derivation;
use crate::derivation::{DerivePlan, Step};
use crate::expr;
use crate::expr::{Expr, ExprError};
use crate::literal;
use crate::model::TableModel;
use crate::names;
use crate::parser;
use crate::parser::Ast;
use crate::rules;
use crate::rules::{BranchRule, TableRule};
use crate::text;
use crate::value;
use crate::value::{Cell, TableRow, Value};
use vstd::prelude::*;

verus! {

/// How many rows of a table are to satisfy a branch's predicate, as numbers of
/// rows: how many are wanted, between which numbers the branch is covered, and
/// up to which number its rows are spared by other branches.
#[derive(Debug, Clone, Copy, PartialEq, Eq, Structural)]
pub struct BranchTarget {
    pub wanted: usize,
    pub pass_low: usize,
    pub pass_high: usize,
    pub spared_high: usize,
}

/// Coverage state of one branch after the repair loop.
#[derive(Debug, Clone, Copy, PartialEq, Eq, Structural)]
pub enum CoverageStatus {
    /// Within the target's tolerance.
    Pass,
    /// Repaired as far as the rules allowed, but still off target.
    Warn,
    /// No row could be rewritten (misconfigured predicate or repair).
    Fail,
}

/// Result of measuring and repairing one branch.
#[derive(Debug)]
pub struct BranchOutcome {
    pub id: String,
    /// Rows that satisfy the predicate.
    pub matching: usize,
    pub status: CoverageStatus,
    /// Repair rounds executed (0 when the branch was already covered).
    pub rounds: usize,
    /// Rows rewritten across all rounds.
    pub flips: u128,
    /// Rows whose predicate could not be evaluated.
    pub failed_evaluations: usize,
}

/// A branch as the repair sees it: its predicate, and the cells it writes.
pub struct Branch {
    pub tree: Ast,
    pub set: Seq<(int, Cell)>,
    pub target: BranchTarget,
}

/// Whether a predicate holds on a row; `None` where it cannot be evaluated.
pub open spec fn verdict(tree: Ast, columns: Seq<Seq<char>>, row: Seq<Cell>) -> Option<bool> {
    let found = expr::eval(tree, value::table_cells(columns, row));
    if found == Err::<expr::Sc, expr::Stop>(expr::Stop::Overflow) {
        None
    } else {
        match expr::as_predicate(found) {
            Ok(b) => Some(b),
            Err(_) => None,
        }
    }
}

/// Whether a predicate holds on a row.
pub open spec fn matches_row(tree: Ast, columns: Seq<Seq<char>>, row: Seq<Cell>) -> bool {
    verdict(tree, columns, row) == Some(true)
}

/// On how many rows a predicate gives a verdict.
pub open spec fn count_verdict(
    tree: Ast,
    columns: Seq<Seq<char>>,
    rows: Seq<Seq<Cell>>,
    v: Option<bool>,
) -> nat
    decreases rows.len(),
{
    if rows.len() == 0 {
        0
    } else {
        count_verdict(tree, columns, rows.drop_last(), v) + (if verdict(tree, columns, rows.last())
            == v {
            1nat
        } else {
            0nat
        })
    }
}

/// On how many rows a predicate holds.
pub open spec fn matching(tree: Ast, columns: Seq<Seq<char>>, rows: Seq<Seq<Cell>>) -> nat {
    count_verdict(tree, columns, rows, Some(true))
}

/// On how many rows a predicate cannot be evaluated.
pub open spec fn failing(tree: Ast, columns: Seq<Seq<char>>, rows: Seq<Seq<Cell>>) -> nat {
    count_verdict(tree, columns, rows, None)
}

/// The row with a branch's cells written into it.
pub open spec fn with_set(row: Seq<Cell>, set: Seq<(int, Cell)>) -> Seq<Cell>
    decreases set.len(),
{
    if set.len() == 0 {
        row
    } else {
        with_set(row, set.drop_last()).update(set.last().0, set.last().1)
    }
}

/// What the repair of a table works with.
pub struct Ground {
    pub table: Seq<char>,
    pub columns: Seq<Seq<char>>,
    pub steps: Seq<Step>,
    /// Why no column may be computed, if so.
    pub barred: Option<Seq<char>>,
    pub branches: Seq<Branch>,
}

/// Rewriting the row for one branch takes it away from a spared other branch,
/// once the computed columns are brought up to date.
pub open spec fn takes_from(g: Ground, spared: Seq<bool>, at: int, row: Seq<Cell>, other: int) -> bool {
    let now = derivation::derive_row(g.table, g.columns, g.steps, row);
    let then_row = derivation::derive_row(
        g.table,
        g.columns,
        g.steps,
        with_set(row, g.branches[at].set),
    );
    &&& other != at
    &&& spared[other]
    &&& now is Ok
    &&& matches_row(g.branches[other].tree, g.columns, now->Ok_0)
    &&& then_row is Ok
    &&& !matches_row(g.branches[other].tree, g.columns, then_row->Ok_0)
}

/// Whether rewriting a row for one branch takes it away from a spared other.
pub open spec fn destroys(g: Ground, spared: Seq<bool>, at: int, row: Seq<Cell>) -> bool {
    exists|other: int|
        0 <= other < g.branches.len() && #[trigger] takes_from(g, spared, at, row, other)
}

/// The rows that may be rewritten for a branch: those that do not satisfy its
/// predicate and whose rewriting takes nothing from spared branches.
pub open spec fn candidates(
    g: Ground,
    spared: Seq<bool>,
    at: int,
    rows: Seq<Seq<Cell>>,
) -> Seq<usize>
    decreases rows.len(),
{
    if rows.len() == 0 {
        Seq::empty()
    } else {
        let rest = candidates(g, spared, at, rows.drop_last());
        if !matches_row(g.branches[at].tree, g.columns, rows.last()) && !destroys(
            g,
            spared,
            at,
            rows.last(),
        ) {
            rest.push((rows.len() - 1) as usize)
        } else {
            rest
        }
    }
}

/// The rows with the first `n` of `needed` evenly spread candidates rewritten.
pub open spec fn rewritten(
    rows: Seq<Seq<Cell>>,
    picked: Seq<usize>,
    set: Seq<(int, Cell)>,
    needed: nat,
    n: nat,
) -> Seq<Seq<Cell>>
    decreases n,
{
    if n == 0 {
        rows
    } else {
        let before = rewritten(rows, picked, set, needed, (n - 1) as nat);
        let at = picked[((n - 1) as nat * picked.len()) as int / needed as int] as int;
        before.update(at, with_set(before[at], set))
    }
}

/// The rows, and how many of them each branch has rewritten, and how many
/// satisfied each predicate when it was looked at.
pub struct Repair {
    pub rows: Seq<Seq<Cell>>,
    pub flips: Seq<nat>,
    pub measured: Seq<nat>,
    pub touched: nat,
}

/// One branch's turn in a round.
pub open spec fn turn(g: Ground, spared: Seq<bool>, s: Repair, at: int) -> Repair {
    let b = g.branches[at];
    let m = matching(b.tree, g.columns, s.rows);
    let seen = Repair { measured: s.measured.update(at, m), ..s };
    if (b.target.pass_low <= m <= b.target.pass_high) || b.target.wanted <= m {
        seen
    } else {
        let picked = candidates(g, spared, at, s.rows);
        let needed: nat = if b.target.wanted - m < picked.len() {
            (b.target.wanted - m) as nat
        } else {
            picked.len()
        };
        if needed == 0 {
            seen
        } else {
            Repair {
                rows: rewritten(s.rows, picked, b.set, needed, needed),
                flips: s.flips.update(at, s.flips[at] + needed),
                measured: seen.measured,
                touched: s.touched + needed,
            }
        }
    }
}

/// The turns of the first `n` branches.
pub open spec fn turns(g: Ground, spared: Seq<bool>, s: Repair, n: nat) -> Repair
    decreases n,
{
    if n == 0 {
        s
    } else {
        turn(g, spared, turns(g, spared, s, (n - 1) as nat), n - 1)
    }
}

/// The branches whose rows the others spare: those not above their target.
pub open spec fn spared_of(g: Ground, rows: Seq<Seq<Cell>>) -> Seq<bool> {
    Seq::new(
        g.branches.len(),
        |i: int|
            matching(g.branches[i].tree, g.columns, rows) <= g.branches[i].target.spared_high,
    )
}

/// How a round ends.
pub enum Round {
    /// No branch rewrote anything.
    Idle(Repair),
    /// Nothing that was rewritten moved a predicate; the rows are as before.
    Undone(Repair),
    /// Some predicate moved.
    Moved(Repair),
    /// The computed columns could not be brought up to date.
    Broken(Seq<char>),
}

/// Some predicate holds on another number of rows than when it was looked at.
pub open spec fn moved(g: Ground, measured: Seq<nat>, rows: Seq<Seq<Cell>>) -> bool {
    exists|i: int|
        0 <= i < g.branches.len() && #[trigger] matching(g.branches[i].tree, g.columns, rows)
            != measured[i]
}

/// One round of repair.
pub open spec fn round(g: Ground, s: Repair) -> Round {
    let start = Repair { touched: 0, ..s };
    let after = turns(g, spared_of(g, s.rows), start, g.branches.len());
    if after.touched == 0 {
        Round::Idle(after)
    } else if g.barred is Some {
        Round::Broken(g.barred->0)
    } else {
        match derivation::derive_rows(g.table, g.columns, g.steps, after.rows) {
            Err(m) => Round::Broken(m),
            Ok(rows) => if moved(g, after.measured, rows) {
                Round::Moved(Repair { rows, ..after })
            } else {
                Round::Undone(Repair { rows: s.rows, flips: s.flips, ..after })
            },
        }
    }
}

/// The rounds of repair, at most `limit` of them: the state and the number of
/// rounds in which something was rewritten, or the message of a broken round.
pub open spec fn rounds(g: Ground, s: Repair, used: nat, limit: nat) -> Result<
    (Repair, nat),
    Seq<char>,
>
    decreases limit,
{
    if limit == 0 {
        Ok((s, used))
    } else {
        match round(g, s) {
            Round::Idle(t) => Ok((t, used)),
            Round::Undone(t) => Ok((t, used + 1)),
            Round::Moved(t) => rounds(g, t, used + 1, (limit - 1) as nat),
            Round::Broken(m) => Err(m),
        }
    }
}

/// The status of a branch.
pub open spec fn status_of(target: BranchTarget, m: nat, flips: nat) -> CoverageStatus {
    if target.pass_low <= m <= target.pass_high {
        CoverageStatus::Pass
    } else if flips > 0 {
        CoverageStatus::Warn
    } else {
        CoverageStatus::Fail
    }
}

/// A parsed predicate and the values a branch writes.
pub struct Prepared {
    expr: Expr,
    set: Vec<(usize, Value)>,
}

/// The cells that a branch writes.
pub open spec fn set_cells(set: Seq<(usize, Value)>) -> Seq<(int, Cell)> {
    Seq::new(set.len(), |i: int| (set[i].0 as int, set[i].1@))
}

impl Prepared {
    pub closed spec fn tree(&self) -> Ast {
        self.expr.tree()
    }

    pub closed spec fn cells(&self) -> Seq<(int, Cell)> {
        set_cells(self.set@)
    }

    /// Every cell written is one of the row's.
    pub open spec fn within(&self, width: nat) -> bool {
        forall|i: int|
            0 <= i < self.cells().len() ==> 0 <= (#[trigger] self.cells()[i]).0 < width
    }
}

/// The branches with their targets.
pub open spec fn branches_of(prepared: Seq<Prepared>, targets: Seq<BranchTarget>) -> Seq<Branch> {
    Seq::new(
        prepared.len(),
        |i: int|
            Branch { tree: prepared[i].tree(), set: prepared[i].cells(), target: targets[i] },
    )
}

fn verdict_of(e: &Expr, columns: &[String], row: &[Value]) -> (r: Option<bool>)
    ensures
        r == verdict(e.tree(), columns.deep_view(), row.deep_view()),
{
    let view = TableRow { columns, row };
    match e.try_eval_bool(&view) {
        Some(Ok(b)) => Some(b),
        _ => None,
    }
}

/// On how many rows a predicate holds, and on how many it cannot be evaluated.
fn measure_predicate(rows: &[Vec<Value>], e: &Expr, columns: &[String]) -> (r: (usize, usize))
    ensures
        r.0 == matching(e.tree(), columns.deep_view(), derivation::rows_cells(rows@)),
        r.1 == failing(e.tree(), columns.deep_view(), derivation::rows_cells(rows@)),
        r.0 + r.1 <= rows@.len(),
{
    let ghost all = derivation::rows_cells(rows@);
    let ghost cols = columns.deep_view();
    let mut hits: usize = 0;
    let mut failures: usize = 0;
    let mut i: usize = 0;
    proof {
        assert(all.take(0) =~= Seq::empty());
    }
    while i < rows.len()
        invariant
            i <= rows@.len(),
            all == derivation::rows_cells(rows@),
            cols == columns.deep_view(),
            hits + failures <= i,
            hits == count_verdict(e.tree(), cols, all.take(i as int), Some(true)),
            failures == count_verdict(e.tree(), cols, all.take(i as int), None),
        decreases rows@.len() - i,
    {
        proof {
            assert(all.take(i + 1).drop_last() =~= all.take(i as int));
            assert(all.take(i + 1).last() == rows@[i as int].deep_view());
        }
        match verdict_of(e, columns, rows[i].as_slice()) {
            Some(true) => {
                hits = hits + 1;
            },
            Some(false) => {},
            None => {
                failures = failures + 1;
            },
        }
        i = i + 1;
    }
    proof {
        assert(all.take(all.len() as int) =~= all);
    }
    (hits, failures)
}

pub(crate) proof fn lemma_with_set_len(row: Seq<Cell>, set: Seq<(int, Cell)>)
    requires
        forall|i: int| 0 <= i < set.len() ==> 0 <= (#[trigger] set[i]).0 < row.len(),
    ensures
        with_set(row, set).len() == row.len(),
    decreases set.len(),
{
    if set.len() > 0 {
        assert forall|i: int| 0 <= i < set.drop_last().len() implies 0 <= (
        #[trigger] set.drop_last()[i]).0 < row.len() by {
            assert(set.drop_last()[i] == set[i]);
        }
        lemma_with_set_len(row, set.drop_last());
        assert(set[set.len() - 1].0 < row.len());
    }
}

/// Writes a branch's values into a row.
fn write_set(row: &mut Vec<Value>, set: &Vec<(usize, Value)>)
    requires
        forall|i: int| 0 <= i < set@.len() ==> (#[trigger] set@[i]).0 < old(row)@.len(),
    ensures
        final(row)@.len() == old(row)@.len(),
        final(row).deep_view() == with_set(old(row).deep_view(), set_cells(set@)),
{
    let ghost cells = set_cells(set@);
    let ghost start = row.deep_view();
    let mut i: usize = 0;
    proof {
        assert(cells.take(0) =~= Seq::empty());
    }
    while i < set.len()
        invariant
            i <= set@.len(),
            cells == set_cells(set@),
            start == old(row).deep_view(),
            row@.len() == old(row)@.len(),
            forall|k: int| 0 <= k < set@.len() ==> (#[trigger] set@[k]).0 < row@.len(),
            row.deep_view() == with_set(start, cells.take(i as int)),
        decreases set@.len() - i,
    {
        let ghost before = row.deep_view();
        let at: usize = set[i].0;
        row.set(at, set[i].1.copy());
        proof {
            assert(cells.take(i + 1).drop_last() =~= cells.take(i as int));
            assert(cells.take(i + 1).last() == cells[i as int]);
            assert(row.deep_view() =~= before.update(at as int, set@[i as int].1@));
        }
        i = i + 1;
    }
    proof {
        assert(cells.take(cells.len() as int) =~= cells);
    }
}

/// A copy of a row.
pub(crate) fn copy_row(row: &[Value]) -> (r: Vec<Value>)
    ensures
        r.deep_view() == row.deep_view(),
        r@.len() == row@.len(),
{
    let mut out: Vec<Value> = Vec::new();
    let mut i: usize = 0;
    while i < row.len()
        invariant
            i <= row@.len(),
            out@.len() == i,
            out.deep_view() == row.deep_view().take(i as int),
        decreases row@.len() - i,
    {
        let ghost before = out.deep_view();
        out.push(row[i].copy());
        proof {
            assert(out.deep_view() =~= before.push(row@[i as int]@));
            assert(row.deep_view().take(i + 1) =~= row.deep_view().take(i as int).push(
                row.deep_view()[i as int],
            ));
        }
        i = i + 1;
    }
    proof {
        assert(row.deep_view().take(row@.len() as int) =~= row.deep_view());
    }
    out
}

/// A copy of rows.
fn copy_rows(rows: &[Vec<Value>]) -> (r: Vec<Vec<Value>>)
    ensures
        derivation::rows_cells(r@) == derivation::rows_cells(rows@),
        forall|w: nat| derivation::all_wide(rows@, w) ==> derivation::all_wide(r@, w),
        r@.len() == rows@.len(),
{
    let mut out: Vec<Vec<Value>> = Vec::new();
    let mut i: usize = 0;
    while i < rows.len()
        invariant
            i <= rows@.len(),
            out@.len() == i,
            forall|k: int|
                0 <= k < i ==> (#[trigger] out@[k]).deep_view() == rows@[k].deep_view()
                    && out@[k]@.len() == rows@[k]@.len(),
        decreases rows@.len() - i,
    {
        out.push(copy_row(rows[i].as_slice()));
        i = i + 1;
    }
    proof {
        assert(derivation::rows_cells(out@) =~= derivation::rows_cells(rows@));
    }
    out
}

/// Where the repair of a table stands.
struct Site<'a> {
    columns: &'a [String],
    plan: &'a DerivePlan,
    barred: &'a Option<String>,
    prepared: &'a Vec<Prepared>,
    targets: &'a [BranchTarget],
}

impl<'a> Site<'a> {
    spec fn ground(&self) -> Ground {
        Ground {
            table: self.plan.table(),
            columns: self.columns.deep_view(),
            steps: self.plan.steps(),
            barred: self.barred.deep_view(),
            branches: branches_of(self.prepared@, self.targets@),
        }
    }

    spec fn wf(&self) -> bool {
        &&& self.plan.wf()
        &&& self.plan.columns() == self.columns.deep_view()
        &&& self.targets@.len() == self.prepared@.len()
        &&& forall|i: int|
            0 <= i < self.prepared@.len() ==> (#[trigger] self.prepared@[i]).within(
                self.columns@.len(),
            )
    }

    /// Whether rewriting a row for one branch takes it away from another.
    fn takes(&self, spared: &Vec<bool>, at: usize, row: &[Value], other: usize) -> (r: bool)
        requires
            self.wf(),
            at < self.prepared@.len(),
            other < self.prepared@.len(),
            spared@.len() == self.prepared@.len(),
            row@.len() == self.columns@.len(),
        ensures
            r == takes_from(self.ground(), spared@, at as int, row.deep_view(), other as int),
    {
        if other == at || !spared[other] {
            return false;
        }
        let ghost g = self.ground();
        let mut now = copy_row(row);
        match self.plan.apply_to_row(&mut now) {
            Ok(_) => {},
            Err(_) => {
                return false;
            },
        }
        match verdict_of(&self.prepared[other].expr, self.columns, now.as_slice()) {
            Some(true) => {},
            _ => {
                return false;
            },
        }
        let mut changed = copy_row(row);
        proof {
            let p = self.prepared@[at as int];
            assert(p.within(self.columns@.len()));
            assert forall|i: int| 0 <= i < p.set@.len() implies (#[trigger] p.set@[i]).0
                < changed@.len() by {
                assert(p.cells()[i].0 == p.set@[i].0);
            }
        }
        write_set(&mut changed, &self.prepared[at].set);
        match self.plan.apply_to_row(&mut changed) {
            Ok(_) => {},
            Err(_) => {
                return false;
            },
        }
        match verdict_of(&self.prepared[other].expr, self.columns, changed.as_slice()) {
            Some(true) => false,
            _ => true,
        }
    }

    /// Whether rewriting a row for one branch takes it away from any spared one.
    fn destroys_protected_coverage(&self, spared: &Vec<bool>, at: usize, row: &[Value]) -> (r: bool)
        requires
            self.wf(),
            at < self.prepared@.len(),
            spared@.len() == self.prepared@.len(),
            row@.len() == self.columns@.len(),
        ensures
            r == destroys(self.ground(), spared@, at as int, row.deep_view()),
    {
        let mut other: usize = 0;
        while other < self.prepared.len()
            invariant
                self.wf(),
                at < self.prepared@.len(),
                spared@.len() == self.prepared@.len(),
                row@.len() == self.columns@.len(),
                other <= self.prepared@.len(),
                forall|k: int|
                    0 <= k < other ==> !#[trigger] takes_from(
                        self.ground(),
                        spared@,
                        at as int,
                        row.deep_view(),
                        k,
                    ),
            decreases self.prepared@.len() - other,
        {
            if self.takes(spared, at, row, other) {
                return true;
            }
            other = other + 1;
        }
        false
    }

    /// The rows that may be rewritten for a branch.
    fn find_candidates(&self, spared: &Vec<bool>, at: usize, rows: &Vec<Vec<Value>>) -> (r: Vec<
        usize,
    >)
        requires
            self.wf(),
            at < self.prepared@.len(),
            spared@.len() == self.prepared@.len(),
            derivation::all_wide(rows@, self.columns@.len()),
        ensures
            r@ == candidates(
                self.ground(),
                spared@,
                at as int,
                derivation::rows_cells(rows@),
            ),
    {
        let ghost all = derivation::rows_cells(rows@);
        let ghost g = self.ground();
        let mut out: Vec<usize> = Vec::new();
        let mut i: usize = 0;
        proof {
            assert(all.take(0) =~= Seq::empty());
        }
        while i < rows.len()
            invariant
                i <= rows@.len(),
                self.wf(),
                at < self.prepared@.len(),
                spared@.len() == self.prepared@.len(),
                derivation::all_wide(rows@, self.columns@.len()),
                all == derivation::rows_cells(rows@),
                g == self.ground(),
                out@ == candidates(g, spared@, at as int, all.take(i as int)),
            decreases rows@.len() - i,
        {
            proof {
                assert(all.take(i + 1).drop_last() =~= all.take(i as int));
                assert(all.take(i + 1).last() == rows@[i as int].deep_view());
                assert(rows@[i as int]@.len() == self.columns@.len());
            }
            let hit = match verdict_of(
                &self.prepared[at].expr,
                self.columns,
                rows[i].as_slice(),
            ) {
                Some(true) => true,
                _ => false,
            };
            if !hit && !self.destroys_protected_coverage(spared, at, rows[i].as_slice()) {
                out.push(i);
            }
            i = i + 1;
        }
        proof {
            assert(all.take(all.len() as int) =~= all);
        }
        out
    }
}

/// Every candidate is one of the rows, and there are no more than rows.
proof fn lemma_candidates_within(g: Ground, spared: Seq<bool>, at: int, rows: Seq<Seq<Cell>>)
    requires
        rows.len() <= usize::MAX,
    ensures
        candidates(g, spared, at, rows).len() <= rows.len(),
        forall|i: int|
            0 <= i < candidates(g, spared, at, rows).len() ==> #[trigger] candidates(
                g,
                spared,
                at,
                rows,
            )[i] < rows.len(),
    decreases rows.len(),
{
    if rows.len() > 0 {
        lemma_candidates_within(g, spared, at, rows.drop_last());
    }
}

/// Evenly spread places are places of the list.
pub(crate) proof fn lemma_spread(k: int, len: int, needed: int)
    by (nonlinear_arith)
    requires
        0 <= k < needed,
        0 < len,
    ensures
        0 <= (k * len) / needed < len,
{
}

proof fn lemma_product_bound(a: int, b: int, m: int)
    by (nonlinear_arith)
    requires
        0 <= a <= m,
        0 <= b <= m,
    ensures
        0 <= a * b <= m * m,
{
}

/// A place in an evenly spread selection.
fn spread(k: usize, len: usize, needed: usize) -> (r: usize)
    requires
        k < needed,
        0 < len,
    ensures
        r < len,
        r == (k * len) as int / needed as int,
{
    proof {
        lemma_spread(k as int, len as int, needed as int);
        lemma_product_bound(k as int, len as int, 0xffff_ffff_ffff_ffff);
        assert(0xffff_ffff_ffff_ffffint * 0xffff_ffff_ffff_ffffint <= u128::MAX) by (nonlinear_arith);
    }
    ((k as u128 * len as u128) / needed as u128) as usize
}

/// Rewrites evenly spread candidates.
fn rewrite_rows(
    rows: &mut Vec<Vec<Value>>,
    picked: &Vec<usize>,
    set: &Vec<(usize, Value)>,
    needed: usize,
    Ghost(width): Ghost<nat>,
)
    requires
        0 < needed <= picked@.len(),
        derivation::all_wide(old(rows)@, width),
        forall|i: int| 0 <= i < picked@.len() ==> #[trigger] picked@[i] < old(rows)@.len(),
        forall|i: int| 0 <= i < set@.len() ==> (#[trigger] set@[i]).0 < width,
    ensures
        final(rows)@.len() == old(rows)@.len(),
        derivation::all_wide(final(rows)@, width),
        derivation::rows_cells(final(rows)@) == rewritten(
            derivation::rows_cells(old(rows)@),
            picked@,
            set_cells(set@),
            needed as nat,
            needed as nat,
        ),
{
    let ghost start = derivation::rows_cells(rows@);
    let ghost cells = set_cells(set@);
    let mut k: usize = 0;
    while k < needed
        invariant
            k <= needed <= picked@.len(),
            0 < needed,
            rows@.len() == old(rows)@.len(),
            derivation::all_wide(rows@, width),
            forall|i: int| 0 <= i < picked@.len() ==> #[trigger] picked@[i] < rows@.len(),
            forall|i: int| 0 <= i < set@.len() ==> (#[trigger] set@[i]).0 < width,
            cells == set_cells(set@),
            derivation::rows_cells(rows@) == rewritten(
                start,
                picked@,
                cells,
                needed as nat,
                k as nat,
            ),
        decreases needed - k,
    {
        let at: usize = picked[spread(k, picked.len(), needed)];
        let ghost before = rows@;
        let ghost cells_before = derivation::rows_cells(rows@);
        proof {
            assert(before[at as int]@.len() == width);
        }
        write_set(&mut rows[at], set);
        proof {
            assert(derivation::rows_cells(rows@) =~= cells_before.update(
                at as int,
                with_set(cells_before[at as int], cells),
            ));
            assert forall|i: int| 0 <= i < rows@.len() implies (#[trigger] rows@[i])@.len()
                == width by {
                if i != at {
                    assert(rows@[i] == before[i]);
                }
            }
        }
        k = k + 1;
    }
}

/// The numbers as the specification counts them.
spec fn counted(v: Seq<u128>) -> Seq<nat> {
    Seq::new(v.len(), |i: int| v[i] as nat)
}

spec fn sizes(v: Seq<usize>) -> Seq<nat> {
    Seq::new(v.len(), |i: int| v[i] as nat)
}

/// No count is above a bound.
spec fn bounded(v: Seq<u128>, bound: nat) -> bool {
    forall|i: int| 0 <= i < v.len() ==> #[trigger] v[i] <= bound
}

impl<'a> Site<'a> {
    /// One branch's turn in a round.
    fn take_turn(
        &self,
        spared: &Vec<bool>,
        at: usize,
        rows: &mut Vec<Vec<Value>>,
        flips: &mut Vec<u128>,
        measured: &mut Vec<usize>,
        touched: u128,
        Ghost(done): Ghost<nat>,
    ) -> (r: u128)
        requires
            self.wf(),
            at < self.prepared@.len(),
            spared@.len() == self.prepared@.len(),
            old(flips)@.len() == self.prepared@.len(),
            old(measured)@.len() == self.prepared@.len(),
            derivation::all_wide(old(rows)@, self.columns@.len()),
            touched <= at * old(rows)@.len(),
            old(flips)@[at as int] <= done * old(rows)@.len(),
            done < usize::MAX,
        ensures
            final(rows)@.len() == old(rows)@.len(),
            derivation::all_wide(final(rows)@, self.columns@.len()),
            final(flips)@.len() == old(flips)@.len(),
            final(measured)@.len() == old(measured)@.len(),
            r <= (at + 1) * old(rows)@.len(),
            forall|i: int|
                0 <= i < final(flips)@.len() && i != at ==> #[trigger] final(flips)@[i] == old(
                    flips,
                )@[i],
            final(flips)@[at as int] <= (done + 1) * old(rows)@.len(),
            (Repair {
                rows: derivation::rows_cells(final(rows)@),
                flips: counted(final(flips)@),
                measured: sizes(final(measured)@),
                touched: r as nat,
            }) == turn(
                self.ground(),
                spared@,
                Repair {
                    rows: derivation::rows_cells(old(rows)@),
                    flips: counted(old(flips)@),
                    measured: sizes(old(measured)@),
                    touched: touched as nat,
                },
                at as int,
            ),
    {
        let ghost g = self.ground();
        let ghost cells = derivation::rows_cells(rows@);
        let ghost s0 = Repair {
            rows: cells,
            flips: counted(flips@),
            measured: sizes(measured@),
            touched: touched as nat,
        };
        let (hits, _) = measure_predicate(
            rows.as_slice(),
            &self.prepared[at].expr,
            self.columns,
        );
        measured.set(at, hits);
        let target = self.targets[at];
        proof {
            assert(sizes(measured@) =~= s0.measured.update(at as int, hits as nat));
            assert(rows@.len() == rows.len());
            let n = rows@.len() as int;
            assert((at + 1) * n == at * n + n) by (nonlinear_arith);
            assert((done + 1) * n == done * n + n) by (nonlinear_arith);
            lemma_product_bound(at as int, n, 0xffff_ffff_ffff_ffff);
            lemma_product_bound(done as int, n, 0xffff_ffff_ffff_ffff);
            assert(0xffff_ffff_ffff_ffffint * 0xffff_ffff_ffff_ffffint + 0xffff_ffff_ffff_ffffint
                <= u128::MAX) by (nonlinear_arith);
        }
        if (target.pass_low <= hits && hits <= target.pass_high) || target.wanted <= hits {
            return touched;
        }
        let picked = self.find_candidates(spared, at, rows);
        proof {
            assert(rows@.len() == rows.len());
            lemma_candidates_within(g, spared@, at as int, cells);
        }
        let missing: usize = target.wanted - hits;
        let needed: usize = if missing < picked.len() {
            missing
        } else {
            picked.len()
        };
        if needed == 0 {
            return touched;
        }
        proof {
            let p = self.prepared@[at as int];
            assert(p.within(self.columns@.len()));
            assert forall|i: int| 0 <= i < p.set@.len() implies (#[trigger] p.set@[i]).0
                < self.columns@.len() by {
                assert(p.cells()[i].0 == p.set@[i].0);
            }
        }
        rewrite_rows(
            rows,
            &picked,
            &self.prepared[at].set,
            needed,
            Ghost(self.columns@.len()),
        );
        let flipped: u128 = flips[at] + needed as u128;
        flips.set(at, flipped);
        proof {
            assert(counted(flips@) =~= s0.flips.update(
                at as int,
                s0.flips[at as int] + needed as nat,
            ));
        }
        touched + needed as u128
    }
}

/// What a repair works on.
spec fn repair_of(
    rows: Seq<Vec<Value>>,
    flips: Seq<u128>,
    measured: Seq<usize>,
    touched: u128,
) -> Repair {
    Repair {
        rows: derivation::rows_cells(rows),
        flips: counted(flips),
        measured: sizes(measured),
        touched: touched as nat,
    }
}

/// How a round ended.
enum RoundEnd {
    Idle,
    Undone,
    Moved,
    Broken(String),
}

impl<'a> Site<'a> {
    /// Which branches' rows the others spare.
    fn find_spared(&self, rows: &Vec<Vec<Value>>) -> (r: Vec<bool>)
        requires
            self.wf(),
        ensures
            r@ == spared_of(self.ground(), derivation::rows_cells(rows@)),
    {
        let mut out: Vec<bool> = Vec::new();
        let mut i: usize = 0;
        while i < self.prepared.len()
            invariant
                self.wf(),
                i <= self.prepared@.len(),
                out@.len() == i,
                forall|k: int|
                    0 <= k < i ==> #[trigger] out@[k] == spared_of(
                        self.ground(),
                        derivation::rows_cells(rows@),
                    )[k],
            decreases self.prepared@.len() - i,
        {
            let (hits, _) = measure_predicate(rows.as_slice(), &self.prepared[i].expr, self.columns);
            out.push(hits <= self.targets[i].spared_high);
            i = i + 1;
        }
        proof {
            assert(out@ =~= spared_of(self.ground(), derivation::rows_cells(rows@)));
        }
        out
    }

    /// Whether some predicate holds on another number of rows than measured.
    fn has_moved(&self, measured: &Vec<usize>, rows: &Vec<Vec<Value>>) -> (r: bool)
        requires
            self.wf(),
            measured@.len() == self.prepared@.len(),
        ensures
            r == moved(self.ground(), sizes(measured@), derivation::rows_cells(rows@)),
    {
        let ghost g = self.ground();
        let mut i: usize = 0;
        while i < self.prepared.len()
            invariant
                self.wf(),
                g == self.ground(),
                measured@.len() == self.prepared@.len(),
                i <= self.prepared@.len(),
                forall|k: int|
                    0 <= k < i ==> #[trigger] matching(
                        g.branches[k].tree,
                        g.columns,
                        derivation::rows_cells(rows@),
                    ) == sizes(measured@)[k],
            decreases self.prepared@.len() - i,
        {
            let (hits, _) = measure_predicate(rows.as_slice(), &self.prepared[i].expr, self.columns);
            if hits != measured[i] {
                proof {
                    assert(matching(
                        g.branches[i as int].tree,
                        g.columns,
                        derivation::rows_cells(rows@),
                    ) != sizes(measured@)[i as int]);
                }
                return true;
            }
            proof {
                assert(g.branches[i as int].tree == self.prepared@[i as int].tree());
            }
            i = i + 1;
        }
        false
    }

    /// Which branches are covered.
    fn find_covered(&self, rows: &Vec<Vec<Value>>) -> (r: Vec<bool>)
        requires
            self.wf(),
        ensures
            r@.len() == self.prepared@.len(),
            forall|k: int|
                0 <= k < r@.len() ==> #[trigger] r@[k] == was_covered(
                    self.ground(),
                    derivation::rows_cells(rows@),
                    k,
                ),
    {
        let mut covered: Vec<bool> = Vec::new();
        while covered.len() < self.prepared.len()
            invariant
                self.wf(),
                covered@.len() <= self.prepared@.len(),
                forall|k: int|
                    0 <= k < covered@.len() ==> #[trigger] covered@[k] == was_covered(
                        self.ground(),
                        derivation::rows_cells(rows@),
                        k,
                    ),
            decreases self.prepared@.len() - covered@.len(),
        {
            let at: usize = covered.len();
            let target = self.targets[at];
            let (hits, _) = measure_predicate(
                rows.as_slice(),
                &self.prepared[at].expr,
                self.columns,
            );
            covered.push(target.pass_low <= hits && hits <= target.pass_high);
        }
        covered
    }

    /// One round of repair.
    fn run_round(
        &self,
        rows: &mut Vec<Vec<Value>>,
        flips: &mut Vec<u128>,
        measured: &mut Vec<usize>,
        Ghost(done): Ghost<nat>,
    ) -> (r: RoundEnd)
        requires
            self.wf(),
            old(flips)@.len() == self.prepared@.len(),
            old(measured)@.len() == self.prepared@.len(),
            derivation::all_wide(old(rows)@, self.columns@.len()),
            bounded(old(flips)@, done * old(rows)@.len()),
            done < usize::MAX,
        ensures
            final(rows)@.len() == old(rows)@.len(),
            derivation::all_wide(final(rows)@, self.columns@.len()),
            final(flips)@.len() == old(flips)@.len(),
            final(measured)@.len() == old(measured)@.len(),
            !(r is Broken) ==> bounded(final(flips)@, (done + 1) * old(rows)@.len()),
            ({
                let ended = round(
                    self.ground(),
                    repair_of(old(rows)@, old(flips)@, old(measured)@, 0),
                );
                let cells = derivation::rows_cells(final(rows)@);
                match r {
                    RoundEnd::Idle => ended is Idle && ended->Idle_0.rows == cells
                        && ended->Idle_0.flips == counted(final(flips)@)
                        && ended->Idle_0.measured == sizes(final(measured)@),
                    RoundEnd::Undone => ended is Undone && ended->Undone_0.rows == cells
                        && ended->Undone_0.flips == counted(final(flips)@)
                        && ended->Undone_0.measured == sizes(final(measured)@),
                    RoundEnd::Moved => ended is Moved && ended->Moved_0.rows == cells
                        && ended->Moved_0.flips == counted(final(flips)@)
                        && ended->Moved_0.measured == sizes(final(measured)@),
                    RoundEnd::Broken(m) => ended == Round::Broken(m@),
                }
            }),
    {
        let ghost g = self.ground();
        let ghost start = repair_of(rows@, flips@, measured@, 0);
        let ghost n = rows@.len();
        let spared = self.find_spared(rows);
        let saved_rows = copy_rows(rows.as_slice());
        let saved_flips = copy_counts(flips);
        let mut touched: u128 = 0;
        let mut at: usize = 0;
        proof {
            assert(0 * n == 0) by (nonlinear_arith);
            assert(done * n <= (done + 1) * n) by (nonlinear_arith);
        }
        while at < self.prepared.len()
            invariant
                self.wf(),
                g == self.ground(),
                n == old(rows)@.len(),
                rows@.len() == n,
                start == repair_of(old(rows)@, old(flips)@, old(measured)@, 0),
                spared@ == spared_of(g, start.rows),
                at <= self.prepared@.len(),
                flips@.len() == self.prepared@.len(),
                measured@.len() == self.prepared@.len(),
                derivation::all_wide(rows@, self.columns@.len()),
                touched <= at * n,
                done < usize::MAX,
                forall|i: int| 0 <= i < at ==> #[trigger] flips@[i] <= (done + 1) * n,
                forall|i: int| at <= i < flips@.len() ==> #[trigger] flips@[i] <= done * n,
                repair_of(rows@, flips@, measured@, touched) == turns(
                    g,
                    spared@,
                    start,
                    at as nat,
                ),
            decreases self.prepared@.len() - at,
        {
            touched = self.take_turn(
                &spared,
                at,
                rows,
                flips,
                measured,
                touched,
                Ghost(done),
            );
            at = at + 1;
        }
        proof {
            assert((Repair { touched: 0, ..start }) == start);
            assert(g.branches.len() == self.prepared@.len());
        }
        if touched == 0 {
            return RoundEnd::Idle;
        }
        if let Some(m) = self.barred {
            return RoundEnd::Broken(m.clone());
        }
        match self.plan.apply_to_rows(rows) {
            Ok(_) => {},
            Err(m) => {
                return RoundEnd::Broken(m);
            },
        }
        if self.has_moved(measured, rows) {
            RoundEnd::Moved
        } else {
            *rows = saved_rows;
            *flips = saved_flips;
            RoundEnd::Undone
        }
    }
}

fn copy_counts(v: &Vec<u128>) -> (r: Vec<u128>)
    ensures
        r@ == v@,
{
    let mut out: Vec<u128> = Vec::new();
    let mut i: usize = 0;
    while i < v.len()
        invariant
            i <= v@.len(),
            out@ == v@.take(i as int),
        decreases v@.len() - i,
    {
        out.push(v[i]);
        proof {
            assert(v@.take(i + 1) =~= v@.take(i as int).push(v@[i as int]));
        }
        i = i + 1;
    }
    proof {
        assert(v@.take(v@.len() as int) =~= v@);
    }
    out
}

/// How messages about a branch begin.
pub open spec fn branch_heading(table: Seq<char>, id: Seq<char>) -> Seq<char> {
    "table '"@ + table + "' branch '"@ + id + "': "@
}

fn write_branch_heading(table: &str, id: &str) -> (r: String)
    ensures
        r@ == branch_heading(table@, id@),
{
    let mut r = text::around("table '", table, "' branch '");
    text::push_text(&mut r, id);
    text::push_text(&mut r, "': ");
    r
}

/// A parent key as relationships write it.
pub open spec fn key_of(table: Seq<char>, column: Seq<char>) -> Seq<char> {
    table + "."@ + column
}

/// Writes a parent key as relationships write it.
pub(crate) fn write_key(table: &str, column: &str) -> (r: String)
    ensures
        r@ == key_of(table@, column@),
{
    text::around(table, ".", column)
}

/// Why a branch may not write a column: it does not exist, it is a foreign key,
/// another table refers to it, it is computed, or a rule pins it.
pub open spec fn set_fault(
    rule: TableRule,
    referenced: Seq<Seq<char>>,
    columns: Seq<Seq<char>>,
    column: Seq<char>,
) -> Option<Seq<char>> {
    let pinned = rules::column_rule(rule.columns@, column);
    if !columns.contains(column) {
        Some("repair.set targets unknown column '"@ + column + "'"@)
    } else if rule.is_foreign_key(column) {
        Some(
            "repair.set cannot write FK column '"@ + column + "' (referential integrity)"@,
        )
    } else if referenced.contains(key_of(rule.name@, column)) {
        Some(
            "repair.set cannot write parent key '"@ + key_of(rule.name@, column)
                + "' referenced by another table (uniqueness is enforced before the repair phase)"@,
        )
    } else if rule.is_derived(column) {
        Some("repair.set cannot write derived column '"@ + column + "'"@)
    } else if pinned is Some && pinned->0.overrides() {
        Some("repair.set cannot write pinned column '"@ + column + "'"@)
    } else {
        None
    }
}

/// Why a branch's predicate is refused.
pub open spec fn predicate_fault(
    branch: BranchRule,
    columns: Seq<Seq<char>>,
    m: Seq<char>,
) -> bool {
    match parser::parsed_text(branch.predicate@) {
        Err(f) => m == "predicate '"@ + branch.predicate@ + "' rejected: "@ + expr::fault_text(f),
        Ok(tree) => exists|n: Seq<char>| #[trigger]
            derivation::missing_first(tree, columns, n) && m
                == "predicate references unknown column '"@ + n + "'"@,
    }
}

/// A branch whose predicate can be read and reads only columns of the table.
pub open spec fn predicate_fine(branch: BranchRule, columns: Seq<Seq<char>>) -> bool {
    &&& parser::parsed_text(branch.predicate@) is Ok
    &&& forall|n: Seq<char>| #[trigger]
        expr::mentions(parser::parsed_text(branch.predicate@)->Ok_0, n) ==> columns.contains(n)
}

/// The first `n` columns that a branch writes may be written.
pub open spec fn sets_fine(
    rule: TableRule,
    referenced: Seq<Seq<char>>,
    columns: Seq<Seq<char>>,
    branch: BranchRule,
    n: int,
) -> bool {
    forall|j: int|
        0 <= j < n ==> set_fault(rule, referenced, columns, (#[trigger] branch.set@[j]).0@) is None
}

/// Why a branch is refused: its predicate, or else the first column it may not
/// write.
pub open spec fn branch_fault(
    rule: TableRule,
    referenced: Seq<Seq<char>>,
    columns: Seq<Seq<char>>,
    branch: BranchRule,
    m: Seq<char>,
) -> bool {
    ||| predicate_fault(branch, columns, m)
    ||| predicate_fine(branch, columns) && exists|j: int|
        0 <= j < branch.set@.len() && #[trigger] sets_fine(rule, referenced, columns, branch, j)
            && set_fault(rule, referenced, columns, branch.set@[j].0@) == Some(m)
}

/// A branch that is not refused.
pub open spec fn branch_fine(
    rule: TableRule,
    referenced: Seq<Seq<char>>,
    columns: Seq<Seq<char>>,
    i: int,
) -> bool {
    &&& predicate_fine(rule.branches@[i], columns)
    &&& sets_fine(
        rule,
        referenced,
        columns,
        rule.branches@[i],
        rule.branches@[i].set@.len() as int,
    )
}

/// A branch with a fault is not a fine one.
pub proof fn lemma_faulty_is_not_fine(
    rule: TableRule,
    referenced: Seq<Seq<char>>,
    columns: Seq<Seq<char>>,
    i: int,
    why: Seq<char>,
)
    requires
        0 <= i < rule.branches@.len(),
        branch_fault(rule, referenced, columns, rule.branches@[i], why),
    ensures
        !branch_fine(rule, referenced, columns, i),
{
    let branch = rule.branches@[i];
    if predicate_fault(branch, columns, why) {
        match parser::parsed_text(branch.predicate@) {
            Err(f) => {},
            Ok(tree) => {
                let n = choose|n: Seq<char>| #[trigger]
                    derivation::missing_first(tree, columns, n) && why
                        == "predicate references unknown column '"@ + n + "'"@;
                assert(expr::mentions(tree, n) && !columns.contains(n));
            },
        }
    } else {
        let j = choose|j: int|
            0 <= j < branch.set@.len() && #[trigger] sets_fine(
                rule,
                referenced,
                columns,
                branch,
                j,
            ) && set_fault(rule, referenced, columns, branch.set@[j].0@) == Some(why);
        assert(set_fault(rule, referenced, columns, branch.set@[j].0@) is Some);
    }
}

/// No branch is refused.
pub open spec fn all_fine(
    rule: TableRule,
    referenced: Seq<Seq<char>>,
    columns: Seq<Seq<char>>,
) -> bool {
    forall|i: int|
        0 <= i < rule.branches@.len() ==> #[trigger] branch_fine(rule, referenced, columns, i)
}

/// The message for the first branch that is refused.
pub open spec fn refused(
    rule: TableRule,
    referenced: Seq<Seq<char>>,
    columns: Seq<Seq<char>>,
    i: int,
    m: Seq<char>,
) -> bool {
    &&& 0 <= i < rule.branches@.len()
    &&& forall|k: int| 0 <= k < i ==> #[trigger] branch_fine(rule, referenced, columns, k)
    &&& exists|why: Seq<char>| #[trigger]
        branch_fault(rule, referenced, columns, rule.branches@[i], why) && m == branch_heading(
            rule.name@,
            rule.branches@[i].id@,
        ) + why
}

pub open spec fn some_refused(
    rule: TableRule,
    referenced: Seq<Seq<char>>,
    columns: Seq<Seq<char>>,
    m: Seq<char>,
) -> bool {
    exists|i: int| #[trigger] refused(rule, referenced, columns, i, m)
}

/// The cells that a branch's rule writes.
pub open spec fn rule_cells(
    table_model: TableModel,
    columns: Seq<Seq<char>>,
    branch: BranchRule,
) -> Seq<(int, Cell)> {
    Seq::new(
        branch.set@.len(),
        |j: int|
            (
                value::last_place(columns, branch.set@[j].0@),
                literal::literal_cell(
                    branch.set@[j].1@,
                    table_model.numerical(branch.set@[j].0@),
                ),
            ),
    )
}

/// The branches of a rule with their targets.
pub open spec fn rule_branches(
    rule: TableRule,
    table_model: TableModel,
    columns: Seq<Seq<char>>,
    targets: Seq<BranchTarget>,
) -> Seq<Branch> {
    Seq::new(
        rule.branches@.len(),
        |i: int|
            Branch {
                tree: parser::parsed_text(rule.branches@[i].predicate@)->Ok_0,
                set: rule_cells(table_model, columns, rule.branches@[i]),
                target: targets[i],
            },
    )
}

fn check_set(
    rule: &TableRule,
    referenced: &[String],
    columns: &[String],
    column: &str,
) -> (r: Option<String>)
    ensures
        match r {
            Some(m) => set_fault(
                *rule,
                referenced.deep_view(),
                columns.deep_view(),
                column@,
            ) == Some(m@),
            None => set_fault(
                *rule,
                referenced.deep_view(),
                columns.deep_view(),
                column@,
            ) is None,
        },
{
    if !names::has(columns, column) {
        return Some(text::around("repair.set targets unknown column '", column, "'"));
    }
    if rule.has_foreign_key(column) {
        return Some(
            text::around(
                "repair.set cannot write FK column '",
                column,
                "' (referential integrity)",
            ),
        );
    }
    let key = write_key(rule.name.as_str(), column);
    if names::has(referenced, key.as_str()) {
        return Some(
            text::around(
                "repair.set cannot write parent key '",
                key.as_str(),
                "' referenced by another table (uniqueness is enforced before the repair phase)",
            ),
        );
    }
    if rule.has_derived(column) {
        return Some(text::around("repair.set cannot write derived column '", column, "'"));
    }
    match rule.column(column) {
        Some(c) => if c.has_column_override() {
            return Some(text::around("repair.set cannot write pinned column '", column, "'"));
        },
        None => {},
    }
    None
}

/// Parses a branch's predicate and resolves what it writes.
fn prepare_branch(
    rule: &TableRule,
    table_model: &TableModel,
    referenced: &[String],
    columns: &[String],
    branch: &BranchRule,
) -> (r: Result<Prepared, String>)
    ensures
        match r {
            Ok(p) => {
                &&& predicate_fine(*branch, columns.deep_view())
                &&& sets_fine(
                    *rule,
                    referenced.deep_view(),
                    columns.deep_view(),
                    *branch,
                    branch.set@.len() as int,
                )
                &&& p.tree() == parser::parsed_text(branch.predicate@)->Ok_0
                &&& p.cells() == rule_cells(*table_model, columns.deep_view(), *branch)
                &&& p.within(columns@.len())
            },
            Err(m) => branch_fault(
                *rule,
                referenced.deep_view(),
                columns.deep_view(),
                *branch,
                m@,
            ),
        },
{
    let e = match Expr::parse(branch.predicate.as_str()) {
        Ok(e) => e,
        Err(f) => {
            let mut m = text::around("predicate '", branch.predicate.as_str(), "' rejected: ");
            let t = f.to_string();
            text::push_text(&mut m, t.as_str());
            return Err(m);
        },
    };
    match e.check_columns(columns) {
        Ok(_) => {},
        Err(f) => {
            match f {
                ExprError::UnknownColumn { name } => {
                    let m = text::around(
                        "predicate references unknown column '",
                        name.as_str(),
                        "'",
                    );
                    proof {
                        assert(derivation::missing_first(e.tree(), columns.deep_view(), name@));
                    }
                    return Err(m);
                },
                _ => {
                    proof {
                        assert(false);
                    }
                    return Err(String::new());
                },
            }
        },
    }
    let ghost cols = columns.deep_view();
    let ghost cells = rule_cells(*table_model, cols, *branch);
    let mut set: Vec<(usize, Value)> = Vec::new();
    let mut j: usize = 0;
    while j < branch.set.len()
        invariant
            j <= branch.set@.len(),
            cols == columns.deep_view(),
            cells == rule_cells(*table_model, cols, *branch),
            predicate_fine(*branch, cols),
            sets_fine(*rule, referenced.deep_view(), cols, *branch, j as int),
            set@.len() == j,
            forall|k: int|
                0 <= k < j ==> set_cells(set@)[k] == #[trigger] cells[k] && 0 <= cells[k].0
                    < columns@.len(),
        decreases branch.set@.len() - j,
    {
        let column = branch.set[j].0.as_str();
        match check_set(rule, referenced, columns, column) {
            Some(m) => {
                proof {
                    assert(sets_fine(*rule, referenced.deep_view(), cols, *branch, j as int));
                }
                return Err(m);
            },
            None => {},
        }
        proof {
            value::lemma_last_place(cols, column@);
        }
        match value::find_last_name(columns, column) {
            Some(index) => {
                let v = literal::typed_literal(
                    branch.set[j].1.as_str(),
                    table_model.is_numerical(column),
                );
                let ghost before = set_cells(set@);
                set.push((index, v));
                proof {
                    assert(set_cells(set@) =~= before.push((index as int, v@)));
                    assert(cells[j as int] == (index as int, v@));
                }
            },
            None => {
                proof {
                    assert(false);
                }
            },
        }
        j = j + 1;
    }
    let p = Prepared { expr: e, set };
    proof {
        assert(p.cells() =~= cells);
    }
    Ok(p)
}

/// Parses and resolves the branches of a table.
fn prepare_branches(
    rule: &TableRule,
    table_model: &TableModel,
    referenced: &[String],
    columns: &[String],
) -> (r: Result<Vec<Prepared>, String>)
    ensures
        match r {
            Ok(p) => {
                &&& p@.len() == rule.branches@.len()
                &&& forall|i: int|
                    0 <= i < p@.len() ==> #[trigger] branch_fine(
                        *rule,
                        referenced.deep_view(),
                        columns.deep_view(),
                        i,
                    )
                &&& forall|i: int|
                    0 <= i < p@.len() ==> (#[trigger] p@[i]).within(columns@.len()) && p@[i].tree()
                        == parser::parsed_text(rule.branches@[i].predicate@)->Ok_0 && p@[i].cells()
                        == rule_cells(*table_model, columns.deep_view(), rule.branches@[i])
            },
            Err(m) => some_refused(*rule, referenced.deep_view(), columns.deep_view(), m@)
                && !all_fine(*rule, referenced.deep_view(), columns.deep_view()),
        },
{
    let mut out: Vec<Prepared> = Vec::new();
    let mut i: usize = 0;
    while i < rule.branches.len()
        invariant
            i <= rule.branches@.len(),
            out@.len() == i,
            forall|k: int|
                0 <= k < i ==> #[trigger] branch_fine(
                    *rule,
                    referenced.deep_view(),
                    columns.deep_view(),
                    k,
                ),
            forall|k: int|
                0 <= k < i ==> (#[trigger] out@[k]).within(columns@.len()) && out@[k].tree()
                    == parser::parsed_text(rule.branches@[k].predicate@)->Ok_0 && out@[k].cells()
                    == rule_cells(*table_model, columns.deep_view(), rule.branches@[k]),
        decreases rule.branches@.len() - i,
    {
        match prepare_branch(rule, table_model, referenced, columns, &rule.branches[i]) {
            Ok(p) => {
                proof {
                    assert(branch_fine(
                        *rule,
                        referenced.deep_view(),
                        columns.deep_view(),
                        i as int,
                    ));
                }
                out.push(p);
            },
            Err(why) => {
                let mut m = write_branch_heading(
                    rule.name.as_str(),
                    rule.branches[i].id.as_str(),
                );
                text::push_text(&mut m, why.as_str());
                proof {
                    lemma_faulty_is_not_fine(
                        *rule,
                        referenced.deep_view(),
                        columns.deep_view(),
                        i as int,
                        why@,
                    );
                    assert(branch_fault(
                        *rule,
                        referenced.deep_view(),
                        columns.deep_view(),
                        rule.branches@[i as int],
                        why@,
                    ));
                    assert(refused(
                        *rule,
                        referenced.deep_view(),
                        columns.deep_view(),
                        i as int,
                        m@,
                    ));
                }
                return Err(m);
            },
        }
        i = i + 1;
    }
    Ok(out)
}

/// Why a predicate cannot be evaluated on a row.
pub open spec fn failure_text(tree: Ast, columns: Seq<Seq<char>>, row: Seq<Cell>) -> Seq<char> {
    let found = expr::eval(tree, value::table_cells(columns, row));
    if found == Err::<expr::Sc, expr::Stop>(expr::Stop::Overflow) {
        "decimal overflow"@
    } else {
        match expr::as_predicate(found) {
            Err(f) => expr::fault_text(f),
            Ok(_) => "unknown evaluation error"@,
        }
    }
}

/// The message for the first branch whose predicate cannot be evaluated on any
/// row, which is a mistake and not missing coverage.
pub open spec fn unevaluable(
    g: Ground,
    branch_rules: Seq<BranchRule>,
    rows: Seq<Seq<Cell>>,
    i: int,
    m: Seq<char>,
) -> bool {
    &&& 0 <= i < g.branches.len()
    &&& rows.len() > 0
    &&& forall|k: int| 0 <= k < i ==> #[trigger] evaluable(g, rows, k)
    &&& !evaluable(g, rows, i)
    &&& m == branch_heading(g.table, branch_rules[i].id@) + "predicate '"@
        + branch_rules[i].predicate@ + "' could not be evaluated on any of the "@ + text::digits(
        rows.len(),
    ) + " generated row(s): "@ + failure_text(g.branches[i].tree, g.columns, rows[0])
}

/// There are no rows, or the predicate can be evaluated on one.
pub open spec fn evaluable(g: Ground, rows: Seq<Seq<Cell>>, i: int) -> bool {
    rows.len() == 0 || failing(g.branches[i].tree, g.columns, rows) != rows.len()
}

pub open spec fn some_unevaluable(
    g: Ground,
    branch_rules: Seq<BranchRule>,
    rows: Seq<Seq<Cell>>,
    m: Seq<char>,
) -> bool {
    exists|i: int| #[trigger] unevaluable(g, branch_rules, rows, i, m)
}

fn write_failure(e: &Expr, columns: &[String], row: &[Value]) -> (r: String)
    ensures
        r@ == failure_text(e.tree(), columns.deep_view(), row.deep_view()),
{
    let view = TableRow { columns, row };
    match e.try_eval_bool(&view) {
        None => "decimal overflow".to_owned(),
        Some(Err(f)) => f.to_string(),
        Some(Ok(_)) => "unknown evaluation error".to_owned(),
    }
}

impl<'a> Site<'a> {
    /// Whether every predicate can be evaluated on some row.
    fn check_evaluable(
        &self,
        table: &str,
        branch_rules: &Vec<BranchRule>,
        rows: &Vec<Vec<Value>>,
    ) -> (r: Result<(), String>)
        requires
            self.wf(),
            table@ == self.plan.table(),
            branch_rules@.len() == self.prepared@.len(),
        ensures
            match r {
                Ok(_) => forall|i: int|
                    0 <= i < self.prepared@.len() ==> #[trigger] evaluable(
                        self.ground(),
                        derivation::rows_cells(rows@),
                        i,
                    ),
                Err(m) => some_unevaluable(
                    self.ground(),
                    branch_rules@,
                    derivation::rows_cells(rows@),
                    m@,
                ),
            },
    {
        let ghost g = self.ground();
        let ghost cells = derivation::rows_cells(rows@);
        if rows.len() == 0 {
            return Ok(());
        }
        let mut i: usize = 0;
        while i < self.prepared.len()
            invariant
                self.wf(),
                table@ == self.plan.table(),
                branch_rules@.len() == self.prepared@.len(),
                g == self.ground(),
                cells == derivation::rows_cells(rows@),
                rows@.len() > 0,
                i <= self.prepared@.len(),
                forall|k: int| 0 <= k < i ==> #[trigger] evaluable(g, cells, k),
            decreases self.prepared@.len() - i,
        {
            let (_, failures) = measure_predicate(
                rows.as_slice(),
                &self.prepared[i].expr,
                self.columns,
            );
            proof {
                assert(g.branches[i as int].tree == self.prepared@[i as int].tree());
            }
            if failures == rows.len() {
                let mut m = write_branch_heading(table, branch_rules[i].id.as_str());
                text::push_text(&mut m, "predicate '");
                text::push_text(&mut m, branch_rules[i].predicate.as_str());
                text::push_text(&mut m, "' could not be evaluated on any of the ");
                let n = text::number_text(rows.len());
                text::push_text(&mut m, n.as_str());
                text::push_text(&mut m, " generated row(s): ");
                let why = write_failure(
                    &self.prepared[i].expr,
                    self.columns,
                    rows[0].as_slice(),
                );
                text::push_text(&mut m, why.as_str());
                proof {
                    assert(cells[0] == rows@[0].deep_view());
                    assert(unevaluable(g, branch_rules@, cells, i as int, m@));
                }
                return Err(m);
            }
            i = i + 1;
        }
        Ok(())
    }

    /// Rounds of repair, until nothing moves or the limit is reached.
    fn run_rounds(&self, rows: &mut Vec<Vec<Value>>, limit: usize) -> (r: Result<
        (Vec<u128>, usize),
        String,
    >)
        requires
            self.wf(),
            derivation::all_wide(old(rows)@, self.columns@.len()),
        ensures
            final(rows)@.len() == old(rows)@.len(),
            derivation::all_wide(final(rows)@, self.columns@.len()),
            ({
                let ended = rounds(
                    self.ground(),
                    fresh(derivation::rows_cells(old(rows)@), self.prepared@.len()),
                    0,
                    limit as nat,
                );
                match r {
                    Ok((flips, used)) => {
                        &&& flips@.len() == self.prepared@.len()
                        &&& ended is Ok
                        &&& ended->Ok_0.0.rows == derivation::rows_cells(final(rows)@)
                        &&& ended->Ok_0.0.flips == counted(flips@)
                        &&& ended->Ok_0.1 == used
                    },
                    Err(m) => ended == Err::<(Repair, nat), Seq<char>>(m@),
                }
            }),
    {
        let ghost g = self.ground();
        let ghost n = rows@.len();
        let ghost first = derivation::rows_cells(rows@);
        let mut flips: Vec<u128> = Vec::new();
        let mut measured: Vec<usize> = Vec::new();
        let mut i: usize = 0;
        while i < self.prepared.len()
            invariant
                i <= self.prepared@.len(),
                flips@.len() == i,
                measured@.len() == i,
                forall|k: int| 0 <= k < i ==> #[trigger] flips@[k] == 0,
                forall|k: int| 0 <= k < i ==> #[trigger] measured@[k] == 0,
            decreases self.prepared@.len() - i,
        {
            flips.push(0);
            measured.push(0);
            i = i + 1;
        }
        let ghost mut now = fresh(first, self.prepared@.len());
        let ghost ended = rounds(g, now, 0, limit as nat);
        proof {
            assert(counted(flips@) =~= now.flips);
            assert(sizes(measured@) =~= now.measured);
        }
        let mut used: usize = 0;
        while used < limit
            invariant
                self.wf(),
                g == self.ground(),
                n == old(rows)@.len(),
                rows@.len() == n,
                derivation::all_wide(rows@, self.columns@.len()),
                flips@.len() == self.prepared@.len(),
                measured@.len() == self.prepared@.len(),
                used <= limit,
                bounded(flips@, used as nat * n),
                first == derivation::rows_cells(old(rows)@),
                ended == rounds(
                    g,
                    fresh(first, self.prepared@.len()),
                    0,
                    limit as nat,
                ),
                now.rows == derivation::rows_cells(rows@),
                now.flips == counted(flips@),
                now.measured == sizes(measured@),
                ended == rounds(g, now, used as nat, (limit - used) as nat),
            decreases limit - used,
        {
            let ghost before = repair_of(rows@, flips@, measured@, 0);
            proof {
                assert(round(g, now) == round(g, before)) by {
                    assert((Repair { touched: 0, ..now }) == (Repair { touched: 0, ..before }));
                }
            }
            match self.run_round(rows, &mut flips, &mut measured, Ghost(used as nat)) {
                RoundEnd::Idle => {
                    return Ok((flips, used));
                },
                RoundEnd::Undone => {
                    return Ok((flips, used + 1));
                },
                RoundEnd::Moved => {
                    proof {
                        now = round(g, before)->Moved_0;
                    }
                },
                RoundEnd::Broken(m) => {
                    return Err(m);
                },
            }
            used = used + 1;
        }
        Ok((flips, used))
    }
}

/// Before any round.
pub open spec fn fresh(rows: Seq<Seq<Cell>>, n: nat) -> Repair {
    Repair {
        rows,
        flips: Seq::new(n, |i: int| 0nat),
        measured: Seq::new(n, |i: int| 0nat),
        touched: 0,
    }
}

/// A branch is covered before anything is rewritten.
pub open spec fn was_covered(g: Ground, before: Seq<Seq<Cell>>, i: int) -> bool {
    let target = g.branches[i].target;
    target.pass_low <= matching(g.branches[i].tree, g.columns, before) <= target.pass_high
}

/// What is reported of a branch after the repair.
pub open spec fn reported(
    g: Ground,
    branch: BranchRule,
    i: int,
    before: Seq<Seq<Cell>>,
    end: Repair,
    used: nat,
    o: BranchOutcome,
) -> bool {
    let m = matching(g.branches[i].tree, g.columns, end.rows);
    &&& o.id@ == branch.id@
    &&& o.matching == m
    &&& o.flips == end.flips[i]
    &&& o.rounds == (if was_covered(g, before, i) {
        0
    } else {
        used
    })
    &&& o.failed_evaluations == failing(g.branches[i].tree, g.columns, end.rows)
    &&& o.status == status_of(g.branches[i].target, m, end.flips[i])
}

/// No computed column is a parent key of another table.
pub open spec fn derives_no_parent_key(rule: TableRule, referenced: Seq<Seq<char>>) -> bool {
    forall|i: int|
        0 <= i < rule.derive@.len() ==> !referenced.contains(
            key_of(rule.name@, (#[trigger] rule.derive@[i]).column@),
        )
}

/// The message for a computed column that other tables refer to.
pub open spec fn parent_key_text(table: Seq<char>, column: Seq<char>) -> Seq<char> {
    "table '"@ + table + "': derive cannot target parent key '"@ + key_of(table, column)
        + "' referenced by another table (uniqueness is enforced before the derive phase, so derived values could repeat)"@
}

/// The message for the first computed column, from one on, that other tables
/// refer to.
pub open spec fn barred_from(rule: TableRule, referenced: Seq<Seq<char>>, from: int) -> Option<
    Seq<char>,
>
    decreases rule.derive@.len() - from,
{
    if from >= rule.derive@.len() {
        None
    } else if referenced.contains(key_of(rule.name@, rule.derive@[from].column@)) {
        Some(parent_key_text(rule.name@, rule.derive@[from].column@))
    } else {
        barred_from(rule, referenced, from + 1)
    }
}

/// Why no column of a table may be computed: one of them is a key that other
/// tables refer to.
pub fn find_barred(rule: &TableRule, referenced: &[String]) -> (r: Option<String>)
    ensures
        r.deep_view() == barred_from(*rule, referenced.deep_view(), 0),
        r is None <==> derives_no_parent_key(*rule, referenced.deep_view()),
{
    let mut i: usize = 0;
    while i < rule.derive.len()
        invariant
            i <= rule.derive@.len(),
            forall|k: int|
                0 <= k < i ==> !referenced.deep_view().contains(
                    key_of(rule.name@, (#[trigger] rule.derive@[k]).column@),
                ),
            barred_from(*rule, referenced.deep_view(), 0) == barred_from(
                *rule,
                referenced.deep_view(),
                i as int,
            ),
        decreases rule.derive@.len() - i,
    {
        let column = rule.derive[i].column.as_str();
        let key = write_key(rule.name.as_str(), column);
        if names::has(referenced, key.as_str()) {
            let mut m = text::around(
                "table '",
                rule.name.as_str(),
                "': derive cannot target parent key '",
            );
            text::push_text(&mut m, key.as_str());
            text::push_text(
                &mut m,
                "' referenced by another table (uniqueness is enforced before the derive phase, so derived values could repeat)",
            );
            return Some(m);
        }
        i = i + 1;
    }
    None
}

/// The ground on which a table is repaired.
pub open spec fn ground_of(
    plan: DerivePlan,
    rule: TableRule,
    table_model: TableModel,
    columns: Seq<Seq<char>>,
    referenced: Seq<Seq<char>>,
    targets: Seq<BranchTarget>,
) -> Ground {
    Ground {
        table: rule.name@,
        columns,
        steps: plan.steps(),
        barred: barred_from(rule, referenced, 0),
        branches: rule_branches(rule, table_model, columns, targets),
    }
}

/// What a repair that succeeds has done.
pub open spec fn repaired(
    plan: DerivePlan,
    rule: TableRule,
    table_model: TableModel,
    columns: Seq<Seq<char>>,
    referenced: Seq<Seq<char>>,
    targets: Seq<BranchTarget>,
    limit: nat,
    before: Seq<Seq<Cell>>,
    after: Seq<Seq<Cell>>,
    outcomes: Seq<BranchOutcome>,
) -> bool {
    let g = ground_of(plan, rule, table_model, columns, referenced, targets);
    let ended = rounds(g, fresh(before, g.branches.len()), 0, limit);
    &&& derivation::follows(plan, rule.name@, rule.derive@, table_model, columns)
    &&& forall|i: int| 0 <= i < g.branches.len() ==> #[trigger] evaluable(g, before, i)
    &&& ended is Ok
    &&& after == ended->Ok_0.0.rows
    &&& outcomes.len() == rule.branches@.len()
    &&& forall|i: int|
        0 <= i < outcomes.len() ==> reported(
            g,
            rule.branches@[i],
            i,
            before,
            ended->Ok_0.0,
            ended->Ok_0.1,
            #[trigger] outcomes[i],
        )
}

/// Why a repair fails once the branches are in order: the computed columns
/// cannot be put in order, a predicate cannot be evaluated, or a computed
/// column is barred or cannot be computed.
pub open spec fn unrepaired(
    rule: TableRule,
    table_model: TableModel,
    columns: Seq<Seq<char>>,
    referenced: Seq<Seq<char>>,
    targets: Seq<BranchTarget>,
    limit: nat,
    before: Seq<Seq<Cell>>,
    m: Seq<char>,
) -> bool {
    ||| derivation::unplanned(rule.name@, rule.derive@, columns, m)
    ||| exists|plan: DerivePlan| #[trigger]
        derivation::follows(plan, rule.name@, rule.derive@, table_model, columns) && {
            let g = ground_of(plan, rule, table_model, columns, referenced, targets);
            ||| some_unevaluable(g, rule.branches@, before, m)
            ||| rounds(g, fresh(before, g.branches.len()), 0, limit) == Err::<
                (Repair, nat),
                Seq<char>,
            >(m)
        }
}

pub open spec fn some_repair(
    rule: TableRule,
    table_model: TableModel,
    columns: Seq<Seq<char>>,
    referenced: Seq<Seq<char>>,
    targets: Seq<BranchTarget>,
    limit: nat,
    before: Seq<Seq<Cell>>,
    after: Seq<Seq<Cell>>,
    outcomes: Seq<BranchOutcome>,
) -> bool {
    exists|plan: DerivePlan| #[trigger]
        repaired(
            plan,
            rule,
            table_model,
            columns,
            referenced,
            targets,
            limit,
            before,
            after,
            outcomes,
        )
}

/// Measures every branch's predicate and rewrites rows until each target is met,
/// in at most `limit` rounds. Only the branches' own values are written.
pub fn apply_branch_repair(
    rows: &mut Vec<Vec<Value>>,
    rule: &TableRule,
    table_model: &TableModel,
    columns: &[String],
    referenced: &[String],
    targets: &[BranchTarget],
    limit: usize,
) -> (r: Result<Vec<BranchOutcome>, String>)
    requires
        derivation::all_wide(old(rows)@, columns@.len()),
        targets@.len() == rule.branches@.len(),
    ensures
        final(rows)@.len() == old(rows)@.len(),
        derivation::all_wide(final(rows)@, columns@.len()),
        rule.branches@.len() == 0 ==> final(rows)@ == old(rows)@ && r is Ok && r->Ok_0@.len() == 0,
        rule.branches@.len() > 0 ==> match r {
            Ok(outcomes) => {
                &&& forall|i: int|
                    0 <= i < rule.branches@.len() ==> #[trigger] branch_fine(
                        *rule,
                        referenced.deep_view(),
                        columns.deep_view(),
                        i,
                    )
                &&& some_repair(
                    *rule,
                    *table_model,
                    columns.deep_view(),
                    referenced.deep_view(),
                    targets@,
                    limit as nat,
                    derivation::rows_cells(old(rows)@),
                    derivation::rows_cells(final(rows)@),
                    outcomes@,
                )
            },
            Err(m) => if !all_fine(*rule, referenced.deep_view(), columns.deep_view()) {
                &&& some_refused(*rule, referenced.deep_view(), columns.deep_view(), m@)
                &&& final(rows)@ == old(rows)@
            } else {
                unrepaired(
                    *rule,
                    *table_model,
                    columns.deep_view(),
                    referenced.deep_view(),
                    targets@,
                    limit as nat,
                    derivation::rows_cells(old(rows)@),
                    m@,
                )
            },
        },
{
    if rule.branches.len() == 0 {
        return Ok(Vec::new());
    }
    let prepared = match prepare_branches(rule, table_model, referenced, columns) {
        Ok(p) => p,
        Err(m) => {
            return Err(m);
        },
    };
    let plan = match DerivePlan::build(
        rule.name.as_str(),
        rule.derive.as_slice(),
        table_model,
        columns,
    ) {
        Ok(p) => p,
        Err(m) => {
            return Err(m);
        },
    };
    let barred = find_barred(rule, referenced);
    let site = Site { columns, plan: &plan, barred: &barred, prepared: &prepared, targets };
    let ghost g = ground_of(
        plan,
        *rule,
        *table_model,
        columns.deep_view(),
        referenced.deep_view(),
        targets@,
    );
    let ghost before = derivation::rows_cells(rows@);
    proof {
        assert(site.ground().branches =~= g.branches);
        assert(site.ground() == g);
        assert(derivation::follows(
            plan,
            rule.name@,
            rule.derive@,
            *table_model,
            columns.deep_view(),
        ));
    }
    match site.check_evaluable(rule.name.as_str(), &rule.branches, rows) {
        Ok(_) => {},
        Err(m) => {
            return Err(m);
        },
    }
    let covered = site.find_covered(rows);
    let (flips, used) = match site.run_rounds(rows, limit) {
        Ok(found) => found,
        Err(m) => {
            return Err(m);
        },
    };
    let ghost ended = rounds(g, fresh(before, g.branches.len()), 0, limit as nat);
    let mut outcomes: Vec<BranchOutcome> = Vec::new();
    let mut i: usize = 0;
    while i < prepared.len()
        invariant
            i <= prepared@.len(),
            prepared@.len() == rule.branches@.len(),
            targets@.len() == rule.branches@.len(),
            g == ground_of(
                plan,
                *rule,
                *table_model,
                columns.deep_view(),
                referenced.deep_view(),
                targets@,
            ),
            forall|k: int|
                0 <= k < prepared@.len() ==> (#[trigger] prepared@[k]).tree()
                    == parser::parsed_text(rule.branches@[k].predicate@)->Ok_0,
            flips@.len() == prepared@.len(),
            ended is Ok,
            ended->Ok_0.0.rows == derivation::rows_cells(rows@),
            ended->Ok_0.0.flips == counted(flips@),
            ended->Ok_0.1 == used,
            covered@.len() == prepared@.len(),
            forall|k: int|
                0 <= k < covered@.len() ==> #[trigger] covered@[k] == was_covered(g, before, k),
            outcomes@.len() == i,
            forall|k: int|
                0 <= k < i ==> reported(
                    g,
                    rule.branches@[k],
                    k,
                    before,
                    ended->Ok_0.0,
                    ended->Ok_0.1,
                    #[trigger] outcomes@[k],
                ),
        decreases prepared@.len() - i,
    {
        let (hits, failures) = measure_predicate(rows.as_slice(), &prepared[i].expr, columns);
        let target = targets[i];
        let status = if target.pass_low <= hits && hits <= target.pass_high {
            CoverageStatus::Pass
        } else if flips[i] > 0 {
            CoverageStatus::Warn
        } else {
            CoverageStatus::Fail
        };
        proof {
            assert(prepared@[i as int].tree() == g.branches[i as int].tree);
            assert(g.branches[i as int].target == target);
        }
        outcomes.push(
            BranchOutcome {
                id: rule.branches[i].id.clone(),
                matching: hits,
                status,
                rounds: if covered[i] {
                    0
                } else {
                    used
                },
                flips: flips[i],
                failed_evaluations: failures,
            },
        );
        i = i + 1;
    }
    proof {
        assert(repaired(
            plan,
            *rule,
            *table_model,
            columns.deep_view(),
            referenced.deep_view(),
            targets@,
            limit as nat,
            before,
            derivation::rows_cells(rows@),
            outcomes@,
        ));
    }
    Ok(outcomes)
}

/// Every row has the given width.
pub open spec fn even_rows(rows: Seq<Seq<Cell>>, width: nat) -> bool {
    forall|i: int| 0 <= i < rows.len() ==> (#[trigger] rows[i]).len() == width
}

/// The steps and branches write cells of the row.
pub open spec fn writes_within(g: Ground, width: nat) -> bool {
    &&& forall|i: int| 0 <= i < g.steps.len() ==> 0 <= (#[trigger] g.steps[i]).index < width
    &&& forall|b: int, j: int|
        0 <= b < g.branches.len() && 0 <= j < g.branches[b].set.len() ==> 0 <= (
        #[trigger] g.branches[b].set[j]).0 < width
}

/// Neither a branch nor a computed column writes the column.
pub open spec fn left_alone(g: Ground, at: int) -> bool {
    &&& forall|i: int| 0 <= i < g.steps.len() ==> (#[trigger] g.steps[i]).index != at
    &&& forall|b: int, j: int|
        0 <= b < g.branches.len() && 0 <= j < g.branches[b].set.len() ==> (
        #[trigger] g.branches[b].set[j]).0 != at
}

/// The rows are as many and as wide, and agree in a column.
pub open spec fn agree_at(a: Seq<Seq<Cell>>, b: Seq<Seq<Cell>>, at: int, width: nat) -> bool {
    &&& a.len() == b.len()
    &&& even_rows(b, width)
    &&& forall|i: int| 0 <= i < a.len() ==> (#[trigger] a[i])[at] == b[i][at]
}

proof fn lemma_with_set_alone(row: Seq<Cell>, set: Seq<(int, Cell)>, at: int)
    requires
        0 <= at < row.len(),
        forall|j: int| 0 <= j < set.len() ==> 0 <= (#[trigger] set[j]).0 < row.len() && set[j].0 != at,
    ensures
        with_set(row, set).len() == row.len(),
        with_set(row, set)[at] == row[at],
    decreases set.len(),
{
    if set.len() > 0 {
        let rest = set.drop_last();
        assert forall|j: int| 0 <= j < rest.len() implies 0 <= (#[trigger] rest[j]).0 < row.len()
            && rest[j].0 != at by {
            assert(rest[j] == set[j]);
        }
        lemma_with_set_alone(row, rest, at);
        assert(set[set.len() - 1].0 != at);
    }
}

proof fn lemma_rewritten_alone(
    rows: Seq<Seq<Cell>>,
    picked: Seq<usize>,
    set: Seq<(int, Cell)>,
    needed: nat,
    n: nat,
    at: int,
    width: nat,
)
    requires
        n <= needed <= picked.len(),
        even_rows(rows, width),
        0 <= at < width,
        forall|i: int| 0 <= i < picked.len() ==> #[trigger] picked[i] < rows.len(),
        forall|j: int| 0 <= j < set.len() ==> 0 <= (#[trigger] set[j]).0 < width && set[j].0 != at,
    ensures
        agree_at(rows, rewritten(rows, picked, set, needed, n), at, width),
    decreases n,
{
    if n > 0 {
        lemma_rewritten_alone(rows, picked, set, needed, (n - 1) as nat, at, width);
        let before = rewritten(rows, picked, set, needed, (n - 1) as nat);
        lemma_spread(n - 1, picked.len() as int, needed as int);
        let k = ((n - 1) as nat * picked.len()) as int / needed as int;
        assert(picked[k] < rows.len());
        let p = picked[k] as int;
        assert(before[p].len() == width);
        lemma_with_set_alone(before[p], set, at);
        let after = rewritten(rows, picked, set, needed, n);
        assert(after == before.update(p, with_set(before[p], set)));
        assert forall|i: int| 0 <= i < rows.len() implies (#[trigger] rows[i])[at]
            == after[i][at] by {
            assert(rows[i][at] == before[i][at]);
        }
        assert forall|i: int| 0 <= i < after.len() implies (#[trigger] after[i]).len() == width by {
            if i != p {
                assert(after[i] == before[i]);
            }
        }
    }
}

proof fn lemma_turn_alone(g: Ground, spared: Seq<bool>, s: Repair, b: int, at: int, width: nat)
    requires
        0 <= b < g.branches.len(),
        s.rows.len() <= usize::MAX,
        even_rows(s.rows, width),
        0 <= at < width,
        writes_within(g, width),
        left_alone(g, at),
    ensures
        agree_at(s.rows, turn(g, spared, s, b).rows, at, width),
{
    let branch = g.branches[b];
    let m = matching(branch.tree, g.columns, s.rows);
    let picked = candidates(g, spared, b, s.rows);
    lemma_candidates_within(g, spared, b, s.rows);
    assert forall|j: int| 0 <= j < branch.set.len() implies 0 <= (#[trigger] branch.set[j]).0 < width
        && branch.set[j].0 != at by {
        assert(g.branches[b].set[j].0 != at);
    }
    if !((branch.target.pass_low <= m <= branch.target.pass_high) || branch.target.wanted <= m) {
        let needed: nat = if branch.target.wanted - m < picked.len() {
            (branch.target.wanted - m) as nat
        } else {
            picked.len()
        };
        if needed > 0 {
            lemma_rewritten_alone(s.rows, picked, branch.set, needed, needed, at, width);
        }
    }
}

proof fn lemma_turns_alone(g: Ground, spared: Seq<bool>, s: Repair, n: nat, at: int, width: nat)
    requires
        n <= g.branches.len(),
        s.rows.len() <= usize::MAX,
        even_rows(s.rows, width),
        0 <= at < width,
        writes_within(g, width),
        left_alone(g, at),
    ensures
        agree_at(s.rows, turns(g, spared, s, n).rows, at, width),
    decreases n,
{
    if n > 0 {
        lemma_turns_alone(g, spared, s, (n - 1) as nat, at, width);
        let t = turns(g, spared, s, (n - 1) as nat);
        lemma_turn_alone(g, spared, t, n - 1, at, width);
        let u = turns(g, spared, s, n);
        assert forall|i: int| 0 <= i < s.rows.len() implies (#[trigger] s.rows[i])[at]
            == u.rows[i][at] by {
            assert(t.rows[i][at] == u.rows[i][at]);
        }
    }
}

pub proof fn lemma_derive_rows_alone(g: Ground, rows: Seq<Seq<Cell>>, at: int, width: nat)
    requires
        derivation::derive_rows(g.table, g.columns, g.steps, rows) is Ok,
        even_rows(rows, width),
        0 <= at < width,
        writes_within(g, width),
        left_alone(g, at),
    ensures
        agree_at(
            rows,
            derivation::derive_rows(g.table, g.columns, g.steps, rows)->Ok_0,
            at,
            width,
        ),
    decreases rows.len(),
{
    if rows.len() > 0 {
        let rest = rows.skip(1);
        assert forall|i: int| 0 <= i < rest.len() implies (#[trigger] rest[i]).len() == width by {
            assert(rest[i] == rows[i + 1]);
        }
        lemma_derive_rows_alone(g, rest, at, width);
        assert(rows[0].len() == width);
        derivation::lemma_untouched(g.table, g.columns, g.steps, rows[0], at);
        let out = derivation::derive_rows(g.table, g.columns, g.steps, rows)->Ok_0;
        let more = derivation::derive_rows(g.table, g.columns, g.steps, rest)->Ok_0;
        assert forall|i: int| 0 <= i < rows.len() implies (#[trigger] rows[i])[at]
            == out[i][at] by {
            if i > 0 {
                assert(rows[i] == rest[i - 1]);
                assert(out[i] == more[i - 1]);
            }
        }
        assert forall|i: int| 0 <= i < out.len() implies (#[trigger] out[i]).len() == width by {
            if i > 0 {
                assert(out[i] == more[i - 1]);
            }
        }
    }
}

proof fn lemma_rounds_alone(g: Ground, s: Repair, used: nat, limit: nat, at: int, width: nat)
    requires
        rounds(g, s, used, limit) is Ok,
        s.rows.len() <= usize::MAX,
        even_rows(s.rows, width),
        0 <= at < width,
        writes_within(g, width),
        left_alone(g, at),
    ensures
        agree_at(s.rows, rounds(g, s, used, limit)->Ok_0.0.rows, at, width),
        used <= rounds(g, s, used, limit)->Ok_0.1 <= used + limit,
    decreases limit,
{
    if limit > 0 {
        let start = Repair { touched: 0, ..s };
        let spared = spared_of(g, s.rows);
        lemma_turns_alone(g, spared, start, g.branches.len(), at, width);
        let after = turns(g, spared, start, g.branches.len());
        match round(g, s) {
            Round::Moved(t) => {
                lemma_derive_rows_alone(g, after.rows, at, width);
                lemma_rounds_alone(g, t, used + 1, (limit - 1) as nat, at, width);
                let end = rounds(g, t, used + 1, (limit - 1) as nat)->Ok_0.0;
                assert forall|i: int| 0 <= i < s.rows.len() implies (#[trigger] s.rows[i])[at]
                    == end.rows[i][at] by {
                    assert(after.rows[i][at] == t.rows[i][at]);
                    assert(t.rows[i][at] == end.rows[i][at]);
                }
            },
            _ => {},
        }
    }
}

/// A repair writes nothing but the columns that a branch sets and the computed
/// columns: every other column of every row is as it was. It takes no more
/// rounds than the limit.
pub proof fn lemma_repair_leaves_other_columns(
    g: Ground,
    rows: Seq<Seq<Cell>>,
    limit: nat,
    at: int,
    width: nat,
)
    requires
        rounds(g, fresh(rows, g.branches.len()), 0, limit) is Ok,
        rows.len() <= usize::MAX,
        even_rows(rows, width),
        0 <= at < width,
        writes_within(g, width),
        left_alone(g, at),
    ensures
        agree_at(
            rows,
            rounds(g, fresh(rows, g.branches.len()), 0, limit)->Ok_0.0.rows,
            at,
            width,
        ),
        rounds(g, fresh(rows, g.branches.len()), 0, limit)->Ok_0.1 <= limit,
{
    lemma_rounds_alone(g, fresh(rows, g.branches.len()), 0, limit, at, width);
}

/// A repair that is not refused writes no foreign key, no parent key of another
/// table, no computed and no pinned column.
pub proof fn lemma_repair_spares_keys(
    rule: TableRule,
    referenced: Seq<Seq<char>>,
    columns: Seq<Seq<char>>,
    i: int,
    j: int,
)
    requires
        0 <= i < rule.branches@.len(),
        0 <= j < rule.branches@[i].set@.len(),
        branch_fine(rule, referenced, columns, i),
    ensures
        ({
            let column = rule.branches@[i].set@[j].0@;
            let pinned = rules::column_rule(rule.columns@, column);
            &&& columns.contains(column)
            &&& !rule.is_foreign_key(column)
            &&& !referenced.contains(key_of(rule.name@, column))
            &&& !rule.is_derived(column)
            &&& !(pinned is Some && pinned->0.overrides())
        }),
{
    assert(set_fault(rule, referenced, columns, rule.branches@[i].set@[j].0@) is None);
}

/// A round in which nothing that was rewritten moved a predicate leaves the rows
/// and the counts as they were.
pub proof fn lemma_undone_round_leaves_no_trace(g: Ground, s: Repair)
    requires
        round(g, s) is Undone,
    ensures
        round(g, s)->Undone_0.rows == s.rows,
        round(g, s)->Undone_0.flips == s.flips,
{
}

/// Every computed column of a row holds what its expression gives on that row.
pub open spec fn up_to_date(g: Ground, row: Seq<Cell>) -> bool {
    forall|i: int|
        0 <= i < g.steps.len() ==> derivation::step_cell(#[trigger] g.steps[i], g.columns, row)
            == Ok::<Cell, Seq<char>>(row[g.steps[i].index])
}

pub open spec fn all_up_to_date(g: Ground, rows: Seq<Seq<Cell>>) -> bool {
    forall|r: int| 0 <= r < rows.len() ==> up_to_date(g, #[trigger] rows[r])
}

proof fn lemma_turns_even(g: Ground, spared: Seq<bool>, s: Repair, n: nat, width: nat)
    requires
        n <= g.branches.len(),
        s.rows.len() <= usize::MAX,
        even_rows(s.rows, width),
        writes_within(g, width),
    ensures
        turns(g, spared, s, n).rows.len() == s.rows.len(),
        even_rows(turns(g, spared, s, n).rows, width),
        turns(g, spared, s, n).touched >= s.touched,
        turns(g, spared, s, n).touched == s.touched ==> turns(g, spared, s, n).rows == s.rows,
    decreases n,
{
    if n > 0 {
        lemma_turns_even(g, spared, s, (n - 1) as nat, width);
        let t = turns(g, spared, s, (n - 1) as nat);
        let b = g.branches[n - 1];
        let m = matching(b.tree, g.columns, t.rows);
        let picked = candidates(g, spared, n - 1, t.rows);
        lemma_candidates_within(g, spared, n - 1, t.rows);
        assert forall|j: int| 0 <= j < b.set.len() implies 0 <= (#[trigger] b.set[j]).0 < width by {
            assert(g.branches[n - 1].set[j].0 < width);
        }
        if !((b.target.pass_low <= m <= b.target.pass_high) || b.target.wanted <= m) {
            let needed: nat = if b.target.wanted - m < picked.len() {
                (b.target.wanted - m) as nat
            } else {
                picked.len()
            };
            if needed > 0 {
                lemma_rewritten_even(t.rows, picked, b.set, needed, needed, width);
            }
        }
    }
}

proof fn lemma_rewritten_even(
    rows: Seq<Seq<Cell>>,
    picked: Seq<usize>,
    set: Seq<(int, Cell)>,
    needed: nat,
    n: nat,
    width: nat,
)
    requires
        n <= needed <= picked.len(),
        even_rows(rows, width),
        forall|i: int| 0 <= i < picked.len() ==> #[trigger] picked[i] < rows.len(),
        forall|j: int| 0 <= j < set.len() ==> 0 <= (#[trigger] set[j]).0 < width,
    ensures
        rewritten(rows, picked, set, needed, n).len() == rows.len(),
        even_rows(rewritten(rows, picked, set, needed, n), width),
    decreases n,
{
    if n > 0 {
        lemma_rewritten_even(rows, picked, set, needed, (n - 1) as nat, width);
        let before = rewritten(rows, picked, set, needed, (n - 1) as nat);
        lemma_spread(n - 1, picked.len() as int, needed as int);
        let k = ((n - 1) as nat * picked.len()) as int / needed as int;
        assert(picked[k] < rows.len());
        let p = picked[k] as int;
        assert(before[p].len() == width);
        lemma_with_set_len(before[p], set);
        let after = rewritten(rows, picked, set, needed, n);
        assert(after == before.update(p, with_set(before[p], set)));
        assert forall|i: int| 0 <= i < after.len() implies (#[trigger] after[i]).len() == width by {
            if i != p {
                assert(after[i] == before[i]);
            }
        }
    }
}

/// Evenly spread places of a list that is long enough are different ones.
pub(crate) proof fn lemma_spread_apart(i: int, j: int, len: int, needed: int)
    by (nonlinear_arith)
    requires
        0 <= i < j,
        0 < needed <= len,
    ensures
        (i * len) / needed < (j * len) / needed,
{
    assert(j * len >= i * len + needed);
    assert((i * len + needed) / needed == (i * len) / needed + 1);
    assert((j * len) / needed >= (i * len + needed) / needed);
}

/// Candidates stand in order, and rewriting them takes nothing from spared
/// branches.
pub(crate) proof fn lemma_candidates_spare(g: Ground, spared: Seq<bool>, at: int, rows: Seq<Seq<Cell>>)
    requires
        rows.len() <= usize::MAX,
    ensures
        ({
            let picked = candidates(g, spared, at, rows);
            &&& forall|i: int| 0 <= i < picked.len() ==> #[trigger] picked[i] < rows.len()
            &&& forall|i: int|
                0 <= i < picked.len() ==> !destroys(g, spared, at, rows[#[trigger] picked[i] as int])
            &&& forall|i: int, j: int|
                0 <= i < j < picked.len() ==> #[trigger] picked[i] < #[trigger] picked[j]
        }),
    decreases rows.len(),
{
    if rows.len() > 0 {
        lemma_candidates_spare(g, spared, at, rows.drop_last());
        let rest = candidates(g, spared, at, rows.drop_last());
        assert forall|i: int| 0 <= i < rest.len() implies !destroys(
            g,
            spared,
            at,
            rows[#[trigger] rest[i] as int],
        ) by {
            assert(rows.drop_last()[rest[i] as int] == rows[rest[i] as int]);
        }
    }
}

/// One of the first `n` places of a selection is the row.
pub open spec fn is_picked(picked: Seq<usize>, needed: nat, n: nat, r: int, k: int) -> bool {
    0 <= k < n && picked[(k * picked.len()) / needed as int] == r
}

/// Rewriting writes the branch's cells into the picked rows and leaves the
/// others.
pub(crate) proof fn lemma_rewritten_rows(
    rows: Seq<Seq<Cell>>,
    picked: Seq<usize>,
    set: Seq<(int, Cell)>,
    needed: nat,
    n: nat,
    r: int,
)
    requires
        n <= needed <= picked.len(),
        0 <= r < rows.len(),
        forall|i: int| 0 <= i < picked.len() ==> #[trigger] picked[i] < rows.len(),
        forall|i: int, j: int|
            0 <= i < j < picked.len() ==> #[trigger] picked[i] < #[trigger] picked[j],
    ensures
        rewritten(rows, picked, set, needed, n).len() == rows.len(),
        ({
            let now = rewritten(rows, picked, set, needed, n)[r];
            ||| now == rows[r] && forall|k: int| !#[trigger] is_picked(picked, needed, n, r, k)
            ||| now == with_set(rows[r], set) && exists|k: int| #[trigger]
                is_picked(picked, needed, n, r, k)
        }),
    decreases n,
{
    if n > 0 {
        let m = (n - 1) as nat;
        lemma_rewritten_rows(rows, picked, set, needed, m, r);
        lemma_spread(m as int, picked.len() as int, needed as int);
        let place = (m * picked.len()) as int / needed as int;
        let p = picked[place] as int;
        if p == r {
            assert forall|k: int| !#[trigger] is_picked(picked, needed, m, r, k) by {
                if 0 <= k < m {
                    lemma_spread(k, picked.len() as int, needed as int);
                    lemma_spread_apart(k, m as int, picked.len() as int, needed as int);
                    assert(picked[(k * picked.len()) / needed as int] < picked[place]);
                }
            }
            assert(is_picked(picked, needed, n, r, m as int));
        } else {
            assert forall|k: int| #[trigger] is_picked(picked, needed, n, r, k) == is_picked(
                picked,
                needed,
                m,
                r,
                k,
            ) by {}
            if exists|k: int| #[trigger] is_picked(picked, needed, m, r, k) {
                let k = choose|k: int| #[trigger] is_picked(picked, needed, m, r, k);
                assert(is_picked(picked, needed, n, r, k));
            }
        }
    }
}

/// A branch's turn takes no row from another branch that is spared: a row that
/// satisfies the other's predicate, with its computed columns up to date, still
/// satisfies it after the turn, once they are brought up to date again.
pub proof fn lemma_turn_spares_siblings(
    g: Ground,
    spared: Seq<bool>,
    s: Repair,
    at: int,
    other: int,
    r: int,
)
    requires
        s.rows.len() <= usize::MAX,
        0 <= at < g.branches.len(),
        0 <= other < g.branches.len(),
        other != at,
        spared[other],
        0 <= r < s.rows.len(),
        ({
            let now = derivation::derive_row(g.table, g.columns, g.steps, s.rows[r]);
            now is Ok && matches_row(g.branches[other].tree, g.columns, now->Ok_0)
        }),
    ensures
        ({
            let after = turn(g, spared, s, at).rows[r];
            let then_row = derivation::derive_row(g.table, g.columns, g.steps, after);
            then_row is Ok ==> matches_row(g.branches[other].tree, g.columns, then_row->Ok_0)
        }),
{
    let b = g.branches[at];
    let m = matching(b.tree, g.columns, s.rows);
    let picked = candidates(g, spared, at, s.rows);
    let needed: nat = if b.target.wanted - m < picked.len() {
        (b.target.wanted - m) as nat
    } else {
        picked.len()
    };
    if !((b.target.pass_low <= m <= b.target.pass_high) || b.target.wanted <= m) && needed > 0 {
        lemma_candidates_spare(g, spared, at, s.rows);
        lemma_rewritten_rows(s.rows, picked, b.set, needed, needed, r);
        let after = rewritten(s.rows, picked, b.set, needed, needed)[r];
        if after != s.rows[r] {
            let k = choose|k: int| #[trigger] is_picked(picked, needed, needed, r, k);
            lemma_spread(k, picked.len() as int, needed as int);
            assert(!destroys(g, spared, at, s.rows[picked[(k * picked.len()) / needed as int] as int]));
            assert(!takes_from(g, spared, at, s.rows[r], other));
        }
    }
}

/// Every branch is within its target.
pub open spec fn all_covered(g: Ground, rows: Seq<Seq<Cell>>) -> bool {
    forall|i: int|
        0 <= i < g.branches.len() ==> {
            let m = matching((#[trigger] g.branches[i]).tree, g.columns, rows);
            g.branches[i].target.pass_low <= m <= g.branches[i].target.pass_high
        }
}

proof fn lemma_covered_turns(g: Ground, spared: Seq<bool>, s: Repair, n: nat)
    requires
        all_covered(g, s.rows),
        n <= g.branches.len(),
    ensures
        turns(g, spared, s, n).rows == s.rows,
        turns(g, spared, s, n).flips == s.flips,
        turns(g, spared, s, n).touched == s.touched,
    decreases n,
{
    if n > 0 {
        lemma_covered_turns(g, spared, s, (n - 1) as nat);
        assert(g.branches[n - 1] == g.branches[n - 1]);
    }
}

/// Where every branch is within its target, a repair rewrites nothing.
pub proof fn lemma_covered_rows_stay(g: Ground, s: Repair, used: nat, limit: nat)
    requires
        all_covered(g, s.rows),
    ensures
        ({
            let end = rounds(g, s, used, limit);
            &&& end is Ok
            &&& end->Ok_0.0.rows == s.rows
            &&& end->Ok_0.0.flips == s.flips
            &&& end->Ok_0.1 == used
        }),
{
    if limit > 0 {
        let start = Repair { touched: 0, ..s };
        lemma_covered_turns(g, spared_of(g, s.rows), start, g.branches.len());
    }
}

/// Rows whose columns were computed hold what the expressions give.
pub proof fn lemma_computed_rows_hold(
    plan: DerivePlan,
    rule: TableRule,
    table_model: TableModel,
    columns: Seq<Seq<char>>,
    g: Ground,
    rows: Seq<Seq<Cell>>,
)
    requires
        derivation::follows(plan, rule.name@, rule.derive@, table_model, columns),
        g.table == rule.name@,
        g.columns == columns,
        g.steps == plan.steps(),
        even_rows(rows, columns.len()),
        derivation::derive_rows(g.table, g.columns, g.steps, rows) is Ok,
    ensures
        all_up_to_date(g, derivation::derive_rows(g.table, g.columns, g.steps, rows)->Ok_0),
        even_rows(
            derivation::derive_rows(g.table, g.columns, g.steps, rows)->Ok_0,
            columns.len(),
        ),
        derivation::derive_rows(g.table, g.columns, g.steps, rows)->Ok_0.len() == rows.len(),
    decreases rows.len(),
{
    if rows.len() > 0 {
        let rest = rows.skip(1);
        assert forall|i: int| 0 <= i < rest.len() implies (#[trigger] rest[i]).len()
            == columns.len() by {
            assert(rest[i] == rows[i + 1]);
        }
        lemma_computed_rows_hold(plan, rule, table_model, columns, g, rest);
        assert(rows[0].len() == columns.len());
        derivation::lemma_derived_columns_hold(
            plan,
            rule.name@,
            rule.derive@,
            table_model,
            columns,
            rows[0],
        );
        let first = derivation::derive_row(g.table, g.columns, g.steps, rows[0])->Ok_0;
        let out = derivation::derive_rows(g.table, g.columns, g.steps, rows)->Ok_0;
        let more = derivation::derive_rows(g.table, g.columns, g.steps, rest)->Ok_0;
        assert(up_to_date(g, first));
        assert forall|r: int| 0 <= r < out.len() implies up_to_date(g, #[trigger] out[r]) && out[r].len()
            == columns.len() by {
            if r > 0 {
                assert(out[r] == more[r - 1]);
            } else {
                assert(out[0] == first);
            }
        }
    }
}

/// A repair leaves every computed column of every row at what its expression
/// gives on that row.
pub proof fn lemma_repair_keeps_computed(
    plan: DerivePlan,
    rule: TableRule,
    table_model: TableModel,
    columns: Seq<Seq<char>>,
    g: Ground,
    s: Repair,
    used: nat,
    limit: nat,
)
    requires
        derivation::follows(plan, rule.name@, rule.derive@, table_model, columns),
        g.table == rule.name@,
        g.columns == columns,
        g.steps == plan.steps(),
        s.rows.len() <= usize::MAX,
        even_rows(s.rows, columns.len()),
        writes_within(g, columns.len()),
        all_up_to_date(g, s.rows),
        rounds(g, s, used, limit) is Ok,
    ensures
        all_up_to_date(g, rounds(g, s, used, limit)->Ok_0.0.rows),
    decreases limit,
{
    if limit > 0 {
        let start = Repair { touched: 0, ..s };
        let after = turns(g, spared_of(g, s.rows), start, g.branches.len());
        lemma_turns_even(g, spared_of(g, s.rows), start, g.branches.len(), columns.len());
        match round(g, s) {
            Round::Idle(t) => {
                assert(t.rows == s.rows);
            },
            Round::Undone(t) => {},
            Round::Moved(t) => {
                lemma_computed_rows_hold(plan, rule, table_model, columns, g, after.rows);
                lemma_repair_keeps_computed(
                    plan,
                    rule,
                    table_model,
                    columns,
                    g,
                    t,
                    used + 1,
                    (limit - 1) as nat,
                );
            },
            Round::Broken(m) => {},
        }
    }
}

} // verus!
