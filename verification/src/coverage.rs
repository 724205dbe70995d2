//! What the repair of branches achieves.
use crate::branch;
use crate::branch::{BranchOutcome, BranchTarget, CoverageStatus, Ground, Repair, Round};
use crate::candidates::how_many;
use crate::derivation;
use crate::derivation::DerivePlan;
use crate::expr;
use crate::expr::Scalar;
use crate::literal;
use crate::model::TableModel;
use crate::parser;
use crate::parser::Ast;
use crate::rules::TableRule;
use crate::value;
use crate::value::Cell;
use vstd::prelude::*;

verus! {

/// A predicate is true of a row.
pub open spec fn satisfies(tree: Ast, columns: Seq<Seq<char>>, row: Seq<Cell>) -> bool {
    expr::eval(tree, value::table_cells(columns, row)) == Ok::<expr::Sc, expr::Stop>(
        Scalar::Bool(true),
    )
}

/// How many rows a predicate is true of.
pub open spec fn satisfying(tree: Ast, columns: Seq<Seq<char>>, rows: Seq<Seq<Cell>>) -> nat {
    how_many(rows.len(), |r: int| satisfies(tree, columns, rows[r]))
}

/// A row with cells written into it: each column holds what was written into it last, and
/// a column that nothing was written into what it held.
pub open spec fn has_written(row: Seq<Cell>, set: Seq<(int, Cell)>, after: Seq<Cell>) -> bool {
    &&& after.len() == row.len()
    &&& forall|c: int|
        0 <= c < row.len() && (forall|i: int| 0 <= i < set.len() ==> (#[trigger] set[i]).0 != c)
            ==> #[trigger] after[c] == row[c]
    &&& forall|i: int|
        0 <= i < set.len() && 0 <= (#[trigger] set[i]).0 < row.len() && (forall|j: int|
            i < j < set.len() ==> (#[trigger] set[j]).0 != set[i].0) ==> after[set[i].0]
            == set[i].1
}

proof fn lemma_has_written(row: Seq<Cell>, set: Seq<(int, Cell)>)
    requires
        forall|i: int| 0 <= i < set.len() ==> 0 <= (#[trigger] set[i]).0 < row.len(),
    ensures
        has_written(row, set, branch::with_set(row, set)),
    decreases set.len(),
{
    branch::lemma_with_set_len(row, set);
    if set.len() > 0 {
        let rest = set.drop_last();
        assert forall|i: int| 0 <= i < rest.len() implies 0 <= (#[trigger] rest[i]).0 < row.len() by {
            assert(rest[i] == set[i]);
        }
        lemma_has_written(row, rest);
        let before = branch::with_set(row, rest);
        let after = branch::with_set(row, set);
        let last = set[set.len() - 1];
        assert forall|c: int|
            0 <= c < row.len() && (forall|i: int| 0 <= i < set.len() ==> (#[trigger] set[i]).0
                != c) implies #[trigger] after[c] == row[c] by {
            assert(last.0 != c);
            assert forall|i: int| 0 <= i < rest.len() implies (#[trigger] rest[i]).0 != c by {
                assert(rest[i] == set[i]);
            }
            assert(before[c] == row[c]);
        }
        assert forall|i: int|
            0 <= i < set.len() && 0 <= (#[trigger] set[i]).0 < row.len() && (forall|j: int|
                i < j < set.len() ==> (#[trigger] set[j]).0 != set[i].0) implies after[set[i].0]
            == set[i].1 by {
            if i < rest.len() {
                assert(set[set.len() - 1].0 != set[i].0);
                assert forall|j: int| i < j < rest.len() implies (#[trigger] rest[j]).0
                    != rest[i].0 by {
                    assert(rest[j] == set[j] && rest[i] == set[i]);
                }
                assert(rest[i] == set[i]);
                assert(before[rest[i].0] == rest[i].1);
            }
        }
    }
}

proof fn lemma_matches(tree: Ast, columns: Seq<Seq<char>>, row: Seq<Cell>)
    ensures
        branch::matches_row(tree, columns, row) == satisfies(tree, columns, row),
{
}

proof fn lemma_matching_upto(
    tree: Ast,
    columns: Seq<Seq<char>>,
    rows: Seq<Seq<Cell>>,
    p: spec_fn(int) -> bool,
)
    requires
        forall|r: int| 0 <= r < rows.len() ==> #[trigger] p(r) == satisfies(tree, columns, rows[r]),
    ensures
        branch::matching(tree, columns, rows) == how_many(rows.len(), p),
    decreases rows.len(),
{
    if rows.len() > 0 {
        let rest = rows.drop_last();
        assert forall|r: int| 0 <= r < rest.len() implies #[trigger] p(r) == satisfies(
            tree,
            columns,
            rest[r],
        ) by {
            assert(rest[r] == rows[r]);
        }
        lemma_matching_upto(tree, columns, rest, p);
        lemma_matches(tree, columns, rows.last());
        assert(p(rows.len() - 1) == satisfies(tree, columns, rows[rows.len() - 1]));
    }
}

/// What is measured of a branch is how many rows its predicate is true of.
pub proof fn lemma_measured_is_counted(tree: Ast, columns: Seq<Seq<char>>, rows: Seq<Seq<Cell>>)
    ensures
        branch::matching(tree, columns, rows) == satisfying(tree, columns, rows),
{
    lemma_matching_upto(tree, columns, rows, |r: int| satisfies(tree, columns, rows[r]));
}

/// Writing a branch's cells into a row makes another branch's predicate false of it, once
/// the computed columns are brought up to date, where it was true before.
pub open spec fn loses(g: Ground, at: int, row: Seq<Cell>, other: int) -> bool {
    let now = derivation::derive_row(g.table, g.columns, g.steps, row);
    let next = derivation::derive_row(
        g.table,
        g.columns,
        g.steps,
        branch::with_set(row, g.branches[at].set),
    );
    &&& now is Ok
    &&& satisfies(g.branches[other].tree, g.columns, now->Ok_0)
    &&& next is Ok
    &&& !satisfies(g.branches[other].tree, g.columns, next->Ok_0)
}

/// A row may be rewritten for a branch: its predicate is not true of it, and no other
/// branch whose rows are spared loses it.
pub open spec fn may_take(g: Ground, spared: Seq<bool>, at: int, row: Seq<Cell>) -> bool {
    &&& !satisfies(g.branches[at].tree, g.columns, row)
    &&& forall|other: int|
        0 <= other < g.branches.len() && other != at && spared[other] ==> !#[trigger] loses(
            g,
            at,
            row,
            other,
        )
}

/// How many rows may be rewritten for a branch.
pub open spec fn takeable(g: Ground, spared: Seq<bool>, at: int, rows: Seq<Seq<Cell>>) -> nat {
    how_many(rows.len(), |r: int| may_take(g, spared, at, rows[r]))
}

proof fn lemma_may_take(g: Ground, spared: Seq<bool>, at: int, row: Seq<Cell>)
    ensures
        may_take(g, spared, at, row) == (!branch::matches_row(
            g.branches[at].tree,
            g.columns,
            row,
        ) && !branch::destroys(g, spared, at, row)),
{
    lemma_matches(g.branches[at].tree, g.columns, row);
    assert forall|other: int| 0 <= other < g.branches.len() implies (other != at && spared[other]
        && #[trigger] loses(g, at, row, other)) == branch::takes_from(
        g,
        spared,
        at,
        row,
        other,
    ) by {
        let now = derivation::derive_row(g.table, g.columns, g.steps, row);
        let next = derivation::derive_row(
            g.table,
            g.columns,
            g.steps,
            branch::with_set(row, g.branches[at].set),
        );
        if now is Ok {
            lemma_matches(g.branches[other].tree, g.columns, now->Ok_0);
        }
        if next is Ok {
            lemma_matches(g.branches[other].tree, g.columns, next->Ok_0);
        }
    }
    if branch::destroys(g, spared, at, row) {
        let other = choose|other: int|
            0 <= other < g.branches.len() && #[trigger] branch::takes_from(
                g,
                spared,
                at,
                row,
                other,
            );
        assert(loses(g, at, row, other));
    }
    if exists|other: int|
        0 <= other < g.branches.len() && other != at && spared[other] && #[trigger] loses(
            g,
            at,
            row,
            other,
        ) {
        let other = choose|other: int|
            0 <= other < g.branches.len() && other != at && spared[other] && #[trigger] loses(
                g,
                at,
                row,
                other,
            );
        assert(branch::takes_from(g, spared, at, row, other));
    }
}

proof fn lemma_candidates_counted(
    g: Ground,
    spared: Seq<bool>,
    at: int,
    rows: Seq<Seq<Cell>>,
    p: spec_fn(int) -> bool,
)
    requires
        rows.len() <= usize::MAX,
        forall|r: int|
            0 <= r < rows.len() ==> #[trigger] p(r) == may_take(g, spared, at, rows[r]),
    ensures
        ({
            let all = branch::candidates(g, spared, at, rows);
            &&& all.len() == how_many(rows.len(), p)
            &&& forall|k: int|
                0 <= k < all.len() ==> {
                    &&& #[trigger] all[k] < rows.len()
                    &&& p(all[k] as int)
                    &&& how_many(all[k] as nat, p) == k
                }
        }),
    decreases rows.len(),
{
    if rows.len() > 0 {
        let rest = rows.drop_last();
        assert forall|r: int| 0 <= r < rest.len() implies #[trigger] p(r) == may_take(
            g,
            spared,
            at,
            rest[r],
        ) by {
            assert(rest[r] == rows[r]);
        }
        lemma_candidates_counted(g, spared, at, rest, p);
        lemma_may_take(g, spared, at, rows.last());
        assert(p(rows.len() - 1) == may_take(g, spared, at, rows[rows.len() - 1]));
        let before = branch::candidates(g, spared, at, rest);
        let all = branch::candidates(g, spared, at, rows);
        assert forall|k: int| 0 <= k < all.len() implies {
            &&& #[trigger] all[k] < rows.len()
            &&& p(all[k] as int)
            &&& how_many(all[k] as nat, p) == k
        } by {
            if k < before.len() {
                assert(all[k] == before[k]);
            }
        }
    }
}

/// Rows that were rewritten for a branch: these and no others, each with all of the
/// branch's cells.
pub open spec fn rewrote(
    set: Seq<(int, Cell)>,
    rows: Seq<Seq<Cell>>,
    after: Seq<Seq<Cell>>,
    hit: Seq<int>,
) -> bool {
    &&& after.len() == rows.len()
    &&& forall|i: int| 0 <= i < hit.len() ==> 0 <= #[trigger] hit[i] < rows.len()
    &&& forall|i: int, j: int| 0 <= i < j < hit.len() ==> #[trigger] hit[i] < #[trigger] hit[j]
    &&& forall|i: int|
        0 <= i < hit.len() ==> has_written(rows[#[trigger] hit[i]], set, after[hit[i]])
    &&& forall|r: int|
        0 <= r < rows.len() && !hit.contains(r) ==> #[trigger] after[r] == rows[r]
}

/// The rows that a turn rewrites: as many as are missing or may be taken, spread evenly
/// over those that may be.
pub open spec fn took(
    g: Ground,
    spared: Seq<bool>,
    s: Repair,
    at: int,
    hit: Seq<int>,
) -> bool {
    let b = g.branches[at];
    let missing = b.target.wanted - satisfying(b.tree, g.columns, s.rows);
    let free = takeable(g, spared, at, s.rows) as int;
    let after = branch::turn(g, spared, s, at);
    &&& hit.len() == if missing < free {
        missing
    } else {
        free
    }
    &&& rewrote(b.set, s.rows, after.rows, hit)
    &&& forall|i: int| 0 <= i < hit.len() ==> may_take(g, spared, at, s.rows[#[trigger] hit[i]])
    &&& forall|i: int|
        0 <= i < hit.len() ==> how_many(
            #[trigger] hit[i] as nat,
            |r: int| may_take(g, spared, at, s.rows[r]),
        ) == (i * free) / (hit.len() as int)
    &&& after.flips == s.flips.update(at, (s.flips[at] + hit.len()) as nat)
    &&& after.touched == s.touched + hit.len()
}

/// Progress of a turn: where fewer rows than wanted satisfy a branch's predicate, and it
/// is not within its target, as many different rows are rewritten as are missing, or as
/// may be taken where these are fewer; each gets every cell of the branch, however many
/// these are, and the others stay as they are. The rows are evenly spread.
pub proof fn lemma_turn_takes_what_is_missing(g: Ground, spared: Seq<bool>, s: Repair, at: int)
    requires
        s.rows.len() <= usize::MAX,
        0 <= at < g.branches.len(),
        s.flips.len() == g.branches.len(),
        ({
            let b = g.branches[at];
            let m = satisfying(b.tree, g.columns, s.rows);
            &&& m < b.target.wanted
            &&& !(b.target.pass_low <= m <= b.target.pass_high)
        }),
        forall|r: int, i: int|
            0 <= r < s.rows.len() && 0 <= i < g.branches[at].set.len() ==> 0 <= (
            #[trigger] g.branches[at].set[i]).0 < (#[trigger] s.rows[r]).len(),
    ensures
        exists|hit: Seq<int>| #[trigger] took(g, spared, s, at, hit),
{
    let b = g.branches[at];
    let rows = s.rows;
    let m = branch::matching(b.tree, g.columns, rows);
    lemma_measured_is_counted(b.tree, g.columns, rows);
    let p = |r: int| may_take(g, spared, at, rows[r]);
    lemma_candidates_counted(g, spared, at, rows, p);
    branch::lemma_candidates_spare(g, spared, at, rows);
    let picked = branch::candidates(g, spared, at, rows);
    let needed: nat = if b.target.wanted - m < picked.len() {
        (b.target.wanted - m) as nat
    } else {
        picked.len()
    };
    let after = branch::turn(g, spared, s, at);
    let place = |k: int| (k * picked.len()) / (needed as int);
    let hit = Seq::new(needed, |k: int| picked[place(k)] as int);
    if needed == 0 {
        assert(hit =~= Seq::empty());
        assert(after.flips =~= s.flips.update(at, (s.flips[at] + 0) as nat));
    } else {
        assert forall|k: int| 0 <= k < needed implies 0 <= #[trigger] place(k) < picked.len() by {
            branch::lemma_spread(k, picked.len() as int, needed as int);
        }
        assert forall|i: int, j: int| 0 <= i < j < hit.len() implies #[trigger] hit[i]
            < #[trigger] hit[j] by {
            branch::lemma_spread_apart(i, j, picked.len() as int, needed as int);
            assert(0 <= place(i) < place(j) < picked.len());
            assert(picked[place(i)] < picked[place(j)]);
        }
        assert forall|r: int| 0 <= r < rows.len() && !hit.contains(r) implies #[trigger] after.rows[r]
            == rows[r] by {
            branch::lemma_rewritten_rows(rows, picked, b.set, needed, needed, r);
            assert forall|k: int| !#[trigger] branch::is_picked(picked, needed, needed, r, k) by {
                if branch::is_picked(picked, needed, needed, r, k) {
                    assert(hit[k] == r);
                }
            }
        }
        assert forall|i: int| 0 <= i < hit.len() implies has_written(
            rows[#[trigger] hit[i]],
            b.set,
            after.rows[hit[i]],
        ) by {
            let r = hit[i];
            assert(0 <= place(i) < picked.len());
            branch::lemma_rewritten_rows(rows, picked, b.set, needed, needed, r);
            assert(branch::is_picked(picked, needed, needed, r, i));
            assert(rows[r].len() == rows[r].len());
            lemma_has_written(rows[r], b.set);
        }
        branch::lemma_rewritten_rows(rows, picked, b.set, needed, needed, hit[0]);
        assert forall|i: int| 0 <= i < hit.len() implies may_take(
            g,
            spared,
            at,
            rows[#[trigger] hit[i]],
        ) by {
            assert(0 <= place(i) < picked.len());
            assert(p(picked[place(i)] as int));
        }
        assert forall|i: int| 0 <= i < hit.len() implies how_many(#[trigger] hit[i] as nat, p) == (i
            * picked.len()) / (hit.len() as int) by {
            assert(0 <= place(i) < picked.len());
            assert(how_many(picked[place(i)] as nat, p) == place(i));
        }
    }
    assert(took(g, spared, s, at, hit));
}

/// Rows that a property newly holds of add to how many have it.
proof fn lemma_more(n: nat, p: spec_fn(int) -> bool, q: spec_fn(int) -> bool, hit: Seq<int>)
    requires
        forall|i: int| 0 <= i < hit.len() ==> 0 <= #[trigger] hit[i] < n,
        forall|i: int, j: int| 0 <= i < j < hit.len() ==> #[trigger] hit[i] < #[trigger] hit[j],
        forall|r: int| 0 <= r < n ==> #[trigger] q(r) == (p(r) || hit.contains(r)),
        forall|i: int| 0 <= i < hit.len() ==> !p(#[trigger] hit[i]),
    ensures
        how_many(n, q) == how_many(n, p) + hit.len(),
    decreases n,
{
    if n > 0 {
        let m = (n - 1) as nat;
        if hit.len() > 0 && hit.last() == m {
            let rest = hit.drop_last();
            assert forall|r: int| 0 <= r < m implies #[trigger] q(r) == (p(r) || rest.contains(r)) by {
                if hit.contains(r) {
                    let i = hit.index_of(r);
                    assert(rest[i] == r);
                }
                if rest.contains(r) {
                    let i = rest.index_of(r);
                    assert(hit[i] == r);
                }
            }
            assert forall|i: int| 0 <= i < rest.len() implies 0 <= #[trigger] rest[i] < m by {
                assert(hit[i] < hit[hit.len() - 1]);
            }
            assert forall|i: int| 0 <= i < rest.len() implies !p(#[trigger] rest[i]) by {
                assert(rest[i] == hit[i]);
            }
            lemma_more(m, p, q, rest);
            assert(hit[hit.len() - 1] == m);
            assert(!p(m as int));
            assert(q(m as int));
        } else {
            assert forall|i: int| 0 <= i < hit.len() implies 0 <= #[trigger] hit[i] < m by {
                if i < hit.len() - 1 {
                    assert(hit[i] < hit[hit.len() - 1]);
                }
            }
            lemma_more(m, p, q, hit);
            assert(!hit.contains(m as int)) by {
                if hit.contains(m as int) {
                    let i = hit.index_of(m as int);
                    assert(hit[i] < m);
                }
            }
            assert(q(m as int) == p(m as int));
        }
    } else if hit.len() > 0 {
        assert(0 <= hit[0] < n);
    }
}

/// Where writing a branch's cells makes its predicate true of every row that may be taken,
/// and there are enough of these, the predicate is true of exactly as many rows as are
/// wanted after the turn.
pub proof fn lemma_turn_reaches_its_target(g: Ground, spared: Seq<bool>, s: Repair, at: int)
    requires
        s.rows.len() <= usize::MAX,
        0 <= at < g.branches.len(),
        s.flips.len() == g.branches.len(),
        ({
            let b = g.branches[at];
            let m = satisfying(b.tree, g.columns, s.rows);
            &&& m < b.target.wanted
            &&& !(b.target.pass_low <= m <= b.target.pass_high)
            &&& b.target.wanted - m <= takeable(g, spared, at, s.rows)
        }),
        forall|r: int, i: int|
            0 <= r < s.rows.len() && 0 <= i < g.branches[at].set.len() ==> 0 <= (
            #[trigger] g.branches[at].set[i]).0 < (#[trigger] s.rows[r]).len(),
        forall|r: int, after: Seq<Cell>|
            0 <= r < s.rows.len() && may_take(g, spared, at, s.rows[r]) && #[trigger] has_written(
                s.rows[r],
                g.branches[at].set,
                after,
            ) ==> satisfies(g.branches[at].tree, g.columns, after),
    ensures
        satisfying(
            g.branches[at].tree,
            g.columns,
            branch::turn(g, spared, s, at).rows,
        ) == g.branches[at].target.wanted,
{
    let b = g.branches[at];
    lemma_turn_takes_what_is_missing(g, spared, s, at);
    let hit = choose|hit: Seq<int>| #[trigger] took(g, spared, s, at, hit);
    let after = branch::turn(g, spared, s, at).rows;
    let p = |r: int| satisfies(b.tree, g.columns, s.rows[r]);
    let q = |r: int| satisfies(b.tree, g.columns, after[r]);
    assert forall|r: int| 0 <= r < s.rows.len() implies #[trigger] q(r) == (p(r) || hit.contains(
        r,
    )) by {
        if hit.contains(r) {
            let i = hit.index_of(r);
            assert(has_written(s.rows[hit[i]], b.set, after[hit[i]]));
            assert(may_take(g, spared, at, s.rows[hit[i]]));
        } else {
            assert(after[r] == s.rows[r]);
        }
    }
    assert forall|i: int| 0 <= i < hit.len() implies !p(#[trigger] hit[i]) by {
        assert(may_take(g, spared, at, s.rows[hit[i]]));
    }
    lemma_more(s.rows.len(), p, q, hit);
}

/// A turn leaves a branch alone that is within its target, or that enough rows satisfy.
pub proof fn lemma_turn_leaves_what_is_covered(g: Ground, spared: Seq<bool>, s: Repair, at: int)
    requires
        0 <= at < g.branches.len(),
        ({
            let b = g.branches[at];
            let m = satisfying(b.tree, g.columns, s.rows);
            b.target.wanted <= m || b.target.pass_low <= m <= b.target.pass_high
        }),
    ensures
        branch::turn(g, spared, s, at).rows == s.rows,
        branch::turn(g, spared, s, at).flips == s.flips,
        branch::turn(g, spared, s, at).touched == s.touched,
{
    lemma_measured_is_counted(g.branches[at].tree, g.columns, s.rows);
}

/// Turns go by the rows alone.
proof fn lemma_same_turns(g: Ground, spared: Seq<bool>, a: Repair, b: Repair, n: nat)
    requires
        n <= g.branches.len(),
        a.rows == b.rows,
        a.touched == b.touched,
        a.measured.len() == g.branches.len(),
        b.measured.len() == g.branches.len(),
    ensures
        ({
            let x = branch::turns(g, spared, a, n);
            let y = branch::turns(g, spared, b, n);
            &&& x.rows == y.rows
            &&& x.touched == y.touched
            &&& x.measured.len() == g.branches.len()
            &&& y.measured.len() == g.branches.len()
            &&& forall|i: int| 0 <= i < n ==> #[trigger] x.measured[i] == y.measured[i]
        }),
    decreases n,
{
    if n > 0 {
        lemma_same_turns(g, spared, a, b, (n - 1) as nat);
    }
}

/// Turns that touched nothing left the rows as they were.
proof fn lemma_idle_rows(g: Ground, spared: Seq<bool>, s: Repair, n: nat)
    ensures
        branch::turns(g, spared, s, n).touched >= s.touched,
        branch::turns(g, spared, s, n).touched == s.touched ==> branch::turns(g, spared, s, n).rows
            == s.rows,
    decreases n,
{
    if n > 0 {
        lemma_idle_rows(g, spared, s, (n - 1) as nat);
    }
}

/// A repair that ends before its last round is done: one more round would move nothing.
pub proof fn lemma_repair_ends_when_nothing_moves(g: Ground, s: Repair, used: nat, limit: nat)
    requires
        s.measured.len() == g.branches.len(),
        branch::rounds(g, s, used, limit) is Ok,
        branch::rounds(g, s, used, limit)->Ok_0.1 < used + limit,
    ensures
        !(branch::round(g, branch::rounds(g, s, used, limit)->Ok_0.0) is Moved),
    decreases limit,
{
    let spared = branch::spared_of(g, s.rows);
    let n = g.branches.len();
    let start = Repair { touched: 0, ..s };
    if limit > 0 {
        lemma_same_turns(g, spared, start, start, n);
        lemma_idle_rows(g, spared, start, n);
        match branch::round(g, s) {
            Round::Idle(t) => {
                lemma_same_turns(g, spared, start, Repair { touched: 0, ..t }, n);
            },
            Round::Undone(t) => {
                let again = Repair { touched: 0, ..t };
                lemma_same_turns(g, spared, start, again, n);
                let x = branch::turns(g, spared, start, n);
                let y = branch::turns(g, spared, again, n);
                let rows = derivation::derive_rows(g.table, g.columns, g.steps, x.rows)->Ok_0;
                if branch::moved(g, y.measured, rows) {
                    let i = choose|i: int|
                        0 <= i < n && #[trigger] branch::matching(
                            g.branches[i].tree,
                            g.columns,
                            rows,
                        ) != y.measured[i];
                    assert(x.measured[i] == y.measured[i]);
                    assert(branch::moved(g, x.measured, rows));
                }
            },
            Round::Moved(t) => {
                lemma_repair_ends_when_nothing_moves(g, t, used + 1, (limit - 1) as nat);
            },
            Round::Broken(m) => {},
        }
    }
}

/// A predicate has no truth value on a row.
pub open spec fn undecided(tree: Ast, columns: Seq<Seq<char>>, row: Seq<Cell>) -> bool {
    !satisfies(tree, columns, row) && expr::eval(tree, value::table_cells(columns, row)) != Ok::<
        expr::Sc,
        expr::Stop,
    >(Scalar::Bool(false))
}

proof fn lemma_failing_upto(
    tree: Ast,
    columns: Seq<Seq<char>>,
    rows: Seq<Seq<Cell>>,
    p: spec_fn(int) -> bool,
)
    requires
        forall|r: int| 0 <= r < rows.len() ==> #[trigger] p(r) == undecided(tree, columns, rows[r]),
    ensures
        branch::failing(tree, columns, rows) == how_many(rows.len(), p),
    decreases rows.len(),
{
    if rows.len() > 0 {
        let rest = rows.drop_last();
        assert forall|r: int| 0 <= r < rest.len() implies #[trigger] p(r) == undecided(
            tree,
            columns,
            rest[r],
        ) by {
            assert(rest[r] == rows[r]);
        }
        lemma_failing_upto(tree, columns, rest, p);
        assert(p(rows.len() - 1) == undecided(tree, columns, rows[rows.len() - 1]));
    }
}

proof fn lemma_rounds_used(g: Ground, s: Repair, used: nat, limit: nat)
    ensures
        branch::rounds(g, s, used, limit) matches Ok(end) ==> used <= end.1 <= used + limit,
    decreases limit,
{
    if limit > 0 {
        if let Round::Moved(t) = branch::round(g, s) {
            lemma_rounds_used(g, t, used + 1, (limit - 1) as nat);
        }
    }
}

/// What is reported of a branch is so: the rows that its predicate is true of and those
/// on which it has no truth value are counted in the repaired rows; it passes exactly
/// where the former lie in its band; one that does not has failed exactly where none of
/// its rows was rewritten; and one that was in its band from the start took no rounds.
pub proof fn lemma_reports_say_what_is(
    plan: DerivePlan,
    rule: TableRule,
    table: TableModel,
    columns: Seq<Seq<char>>,
    referenced: Seq<Seq<char>>,
    targets: Seq<BranchTarget>,
    limit: nat,
    before: Seq<Seq<Cell>>,
    after: Seq<Seq<Cell>>,
    outcomes: Seq<BranchOutcome>,
    i: int,
)
    requires
        branch::repaired(
            plan,
            rule,
            table,
            columns,
            referenced,
            targets,
            limit,
            before,
            after,
            outcomes,
        ),
        0 <= i < rule.branches@.len(),
    ensures
        outcomes.len() == rule.branches@.len(),
        ({
            let o = outcomes[i];
            let t = targets[i];
            let tree = parser::parsed_text(rule.branches@[i].predicate@)->Ok_0;
            let first = satisfying(tree, columns, before);
            &&& o.id@ == rule.branches@[i].id@
            &&& o.matching == satisfying(tree, columns, after)
            &&& o.failed_evaluations == how_many(
                after.len(),
                |r: int| undecided(tree, columns, after[r]),
            )
            &&& o.status == CoverageStatus::Pass <==> t.pass_low <= o.matching <= t.pass_high
            &&& o.status == CoverageStatus::Fail ==> o.flips == 0
            &&& o.status == CoverageStatus::Warn ==> o.flips > 0
            &&& t.pass_low <= first <= t.pass_high ==> o.rounds == 0
            &&& o.rounds <= limit
        }),
        ({
            let o = outcomes[i];
            let t = targets[i];
            let g = branch::ground_of(plan, rule, table, columns, referenced, targets);
            let start = branch::fresh(before, rule.branches@.len());
            let ended = branch::rounds(g, start, 0, limit);
            let tree = parser::parsed_text(rule.branches@[i].predicate@)->Ok_0;
            let first = satisfying(tree, columns, before);
            &&& start.rows == before
            &&& start.flips[i] == 0
            &&& ended matches Ok(end)
            &&& after == end.0.rows
            &&& o.flips == end.0.flips[i]
            &&& !(t.pass_low <= first <= t.pass_high) ==> o.rounds == end.1
        }),
{
    let g = branch::ground_of(plan, rule, table, columns, referenced, targets);
    let ended = branch::rounds(g, branch::fresh(before, g.branches.len()), 0, limit);
    let tree = parser::parsed_text(rule.branches@[i].predicate@)->Ok_0;
    assert(branch::reported(
        g,
        rule.branches@[i],
        i,
        before,
        ended->Ok_0.0,
        ended->Ok_0.1,
        outcomes[i],
    ));
    lemma_measured_is_counted(tree, columns, before);
    lemma_measured_is_counted(tree, columns, after);
    lemma_failing_upto(tree, columns, after, |r: int| undecided(tree, columns, after[r]));
    lemma_rounds_used(g, branch::fresh(before, g.branches.len()), 0, limit);
}

/// The repair works with what the rule says: each branch has the predicate that is
/// written, and writes every one of its values, typed as its column is, into the column
/// of its name.
pub proof fn lemma_repair_writes_what_the_rule_says(
    plan: DerivePlan,
    rule: TableRule,
    table: TableModel,
    columns: Seq<Seq<char>>,
    referenced: Seq<Seq<char>>,
    targets: Seq<BranchTarget>,
    i: int,
    j: int,
)
    requires
        0 <= i < rule.branches@.len(),
        branch::branch_fine(rule, referenced, columns, i),
        0 <= j < rule.branches@[i].set@.len(),
    ensures
        ({
            let b = branch::ground_of(plan, rule, table, columns, referenced, targets).branches[i];
            let said = rule.branches@[i].set@[j];
            &&& parser::parsed_text(rule.branches@[i].predicate@) == Ok::<Ast, expr::Fault>(b.tree)
            &&& b.target == targets[i]
            &&& b.set.len() == rule.branches@[i].set@.len()
            &&& 0 <= b.set[j].0 < columns.len()
            &&& columns[b.set[j].0] == said.0@
            &&& !table.numerical(said.0@) ==> b.set[j].1 == Cell::Text(said.1@)
            &&& table.numerical(said.0@) ==> b.set[j].1 == literal::literal_cell(said.1@, true)
        }),
{
    let said = rule.branches@[i].set@[j];
    assert(branch::set_fault(rule, referenced, columns, said.0@) is None);
    value::lemma_last_place(columns, said.0@);
}

/// Every column that a branch writes is one of the rows.
pub open spec fn sets_fit(g: Ground, rows: Seq<Seq<Cell>>) -> bool {
    forall|at: int, i: int, r: int|
        0 <= at < g.branches.len() && 0 <= i < g.branches[at].set.len() && 0 <= r < rows.len()
            ==> 0 <= (#[trigger] g.branches[at].set[i]).0 && g.branches[at].set[i].0 < (
        #[trigger] rows[r]).len()
}

proof fn lemma_turns_that_took_nothing(g: Ground, spared: Seq<bool>, s: Repair, n: nat)
    requires
        s.rows.len() <= usize::MAX,
        n <= g.branches.len(),
        s.flips.len() == g.branches.len(),
        sets_fit(g, s.rows),
    ensures
        branch::turns(g, spared, s, n).touched >= s.touched,
        branch::turns(g, spared, s, n).touched == s.touched ==> {
            &&& branch::turns(g, spared, s, n).rows == s.rows
            &&& branch::turns(g, spared, s, n).flips == s.flips
            &&& forall|at: int|
                0 <= at < n ==> #[trigger] has_its_share(g, spared, s.rows, at)
        },
    decreases n,
{
    if n > 0 {
        let m = (n - 1) as nat;
        lemma_turns_that_took_nothing(g, spared, s, m);
        let before = branch::turns(g, spared, s, m);
        let after = branch::turns(g, spared, s, n);
        let b = g.branches[m as int];
        assert(after.touched >= before.touched);
        if after.touched == s.touched {
            assert(before.touched == s.touched);
            let have = satisfying(b.tree, g.columns, s.rows);
            if have < b.target.wanted && !(b.target.pass_low <= have <= b.target.pass_high) {
                lemma_turn_takes_what_is_missing(g, spared, before, m as int);
                let hit = choose|hit: Seq<int>| #[trigger] took(g, spared, before, m as int, hit);
                assert(after.touched == before.touched + hit.len());
                assert(hit.len() == 0);
                assert(after.rows =~= s.rows);
                assert(after.flips =~= s.flips);
            } else {
                lemma_turn_leaves_what_is_covered(g, spared, before, m as int);
            }
            assert(has_its_share(g, spared, s.rows, m as int));
        }
    }
}

/// A branch has what it can have: its predicate is true of as many rows as are wanted, or
/// of so many that it passes, or there is no row left that it may take.
pub open spec fn has_its_share(
    g: Ground,
    spared: Seq<bool>,
    rows: Seq<Seq<Cell>>,
    at: int,
) -> bool {
    let b = g.branches[at];
    let m = satisfying(b.tree, g.columns, rows);
    ||| b.target.wanted <= m
    ||| b.target.pass_low <= m <= b.target.pass_high
    ||| takeable(g, spared, at, rows) == 0
}

/// Repairing goes on as long as some branch lacks rows that it may take: a round in which
/// nothing is rewritten leaves every branch with what it can have. The branches that are
/// not to lose rows in it are those that had no more than they need.
pub proof fn lemma_idle_rounds_leave_nothing_to_do(g: Ground, s: Repair, at: int)
    requires
        s.rows.len() <= usize::MAX,
        s.flips.len() == g.branches.len(),
        sets_fit(g, s.rows),
        branch::round(g, s) is Idle,
        0 <= at < g.branches.len(),
    ensures
        has_its_share(g, branch::spared_of(g, s.rows), s.rows, at),
        branch::spared_of(g, s.rows)[at] <==> satisfying(
            g.branches[at].tree,
            g.columns,
            s.rows,
        ) <= g.branches[at].target.spared_high,
        branch::round(g, s)->Idle_0.rows == s.rows,
{
    lemma_measured_is_counted(g.branches[at].tree, g.columns, s.rows);
    let spared = branch::spared_of(g, s.rows);
    lemma_turns_that_took_nothing(
        g,
        spared,
        Repair { touched: 0, ..s },
        g.branches.len(),
    );
    assert(has_its_share(g, spared, s.rows, at));
}

proof fn lemma_turns_measure(g: Ground, spared: Seq<bool>, s: Repair, n: nat, i: int)
    requires
        s.measured.len() == g.branches.len(),
        n <= g.branches.len(),
        0 <= i < n,
    ensures
        branch::turns(g, spared, s, n).measured.len() == g.branches.len(),
        branch::turns(g, spared, s, n).measured[i] == satisfying(
            g.branches[i].tree,
            g.columns,
            branch::turns(g, spared, s, i as nat).rows,
        ),
    decreases n,
{
    let m = (n - 1) as nat;
    let before = branch::turns(g, spared, s, m);
    lemma_turns_measured_len(g, spared, s, m);
    lemma_measured_is_counted(g.branches[m as int].tree, g.columns, before.rows);
    if i < m {
        lemma_turns_measure(g, spared, s, m, i);
    }
}

proof fn lemma_turns_measured_len(g: Ground, spared: Seq<bool>, s: Repair, n: nat)
    requires
        s.measured.len() == g.branches.len(),
        n <= g.branches.len(),
    ensures
        branch::turns(g, spared, s, n).measured.len() == s.measured.len(),
    decreases n,
{
    if n > 0 {
        lemma_turns_measured_len(g, spared, s, (n - 1) as nat);
    }
}

/// A round that rewrote rows is taken back where, with the computed columns brought up to
/// date, every predicate is true of as many rows as when its branch had its turn; else its
/// rows are kept.
pub proof fn lemma_rounds_are_kept_where_they_moved(g: Ground, s: Repair)
    requires
        s.measured.len() == g.branches.len(),
    ensures
        ({
            let spared = branch::spared_of(g, s.rows);
            let start = Repair { touched: 0, ..s };
            let after = branch::turns(g, spared, start, g.branches.len());
            let made = derivation::derive_rows(g.table, g.columns, g.steps, after.rows);
            let still = forall|i: int|
                0 <= i < g.branches.len() ==> satisfying(
                    (#[trigger] g.branches[i]).tree,
                    g.columns,
                    made->Ok_0,
                ) == satisfying(
                    g.branches[i].tree,
                    g.columns,
                    branch::turns(g, spared, start, i as nat).rows,
                );
            &&& after.touched > 0 && g.barred is None && made is Ok && still ==> {
                &&& branch::round(g, s) is Undone
                &&& branch::round(g, s)->Undone_0.rows == s.rows
                &&& branch::round(g, s)->Undone_0.flips == s.flips
            }
            &&& after.touched > 0 && g.barred is None && made is Ok && !still ==> {
                &&& branch::round(g, s) is Moved
                &&& branch::round(g, s)->Moved_0.rows == made->Ok_0
                &&& branch::round(g, s)->Moved_0.flips == after.flips
            }
            &&& after.touched > 0 && (g.barred is Some || made is Err) ==> branch::round(
                g,
                s,
            ) is Broken
        }),
{
    let spared = branch::spared_of(g, s.rows);
    let start = Repair { touched: 0, ..s };
    let n = g.branches.len();
    let after = branch::turns(g, spared, start, n);
    let made = derivation::derive_rows(g.table, g.columns, g.steps, after.rows);
    if made is Ok {
        let rows = made->Ok_0;
        assert forall|i: int| 0 <= i < n implies branch::matching(
            (#[trigger] g.branches[i]).tree,
            g.columns,
            rows,
        ) == satisfying(g.branches[i].tree, g.columns, rows) && after.measured[i] == satisfying(
            g.branches[i].tree,
            g.columns,
            branch::turns(g, spared, start, i as nat).rows,
        ) by {
            lemma_measured_is_counted(g.branches[i].tree, g.columns, rows);
            lemma_turns_measure(g, spared, start, n, i);
        }
    }
}

} // verus!
