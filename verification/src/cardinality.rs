//! How many child rows refer to one parent key.
use crate::value::{Cell, Value};
use vstd::prelude::*;

verus! {

/// Counts above this are merged into it.
pub const MAX_COUNT_BUCKET: u64 = 50;

/// Child rows for each parent key: how many parents have how many children, up
/// to the largest bucket, and how many rows have no parent.
#[derive(Debug, PartialEq, Eq)]
pub struct CardinalityDist {
    /// Numbers of children, ascending, each with the number of parents that have
    /// so many.
    pub counts: Vec<(u64, usize)>,
    pub parents: usize,
    pub null_rows: usize,
    pub rows: usize,
}

/// The numbers of a distribution.
pub open spec fn numbers_of(d: CardinalityDist) -> (Seq<(u64, usize)>, usize, usize, usize) {
    (d.counts@, d.parents, d.null_rows, d.rows)
}

/// A copy of a distribution.
pub(crate) fn copy_cardinality(d: &CardinalityDist) -> (r: CardinalityDist)
    ensures
        numbers_of(r) == numbers_of(*d),
{
    let mut counts: Vec<(u64, usize)> = Vec::new();
    let mut i: usize = 0;
    while i < d.counts.len()
        invariant
            i <= d.counts@.len(),
            counts@ == d.counts@.take(i as int),
        decreases d.counts@.len() - i,
    {
        counts.push((d.counts[i].0, d.counts[i].1));
        proof {
            assert(d.counts@.take(i + 1) =~= d.counts@.take(i as int).push(d.counts@[i as int]));
        }
        i = i + 1;
    }
    proof {
        assert(d.counts@.take(d.counts@.len() as int) =~= d.counts@);
    }
    CardinalityDist { counts, parents: d.parents, null_rows: d.null_rows, rows: d.rows }
}

/// How often a cell occurs.
pub open spec fn occurrences(cells: Seq<Cell>, cell: Cell) -> nat
    decreases cells.len(),
{
    if cells.len() == 0 {
        0
    } else {
        occurrences(cells.drop_last(), cell) + if cells.last() == cell {
            1nat
        } else {
            0
        }
    }
}

/// The parents that are referred to: each cell that is not NULL, once, in the
/// order in which they first occur.
pub open spec fn referenced(cells: Seq<Cell>) -> Seq<Cell>
    decreases cells.len(),
{
    if cells.len() == 0 {
        Seq::empty()
    } else {
        let before = referenced(cells.drop_last());
        if cells.last() is Null || before.contains(cells.last()) {
            before
        } else {
            before.push(cells.last())
        }
    }
}

/// The bucket of a number of children.
pub open spec fn bucket(n: nat) -> nat {
    if n < MAX_COUNT_BUCKET {
        n
    } else {
        MAX_COUNT_BUCKET as nat
    }
}

/// How many of the parents have children that fall into a bucket.
pub open spec fn with_bucket(cells: Seq<Cell>, parents: Seq<Cell>, b: nat) -> nat
    decreases parents.len(),
{
    if parents.len() == 0 {
        0
    } else {
        with_bucket(cells, parents.drop_last(), b) + if bucket(
            occurrences(cells, parents.last()),
        ) == b {
            1nat
        } else {
            0
        }
    }
}

/// The parents to which no row refers, where the number of parents is known.
pub open spec fn childless(cells: Seq<Cell>, distinct: Option<usize>) -> nat {
    match distinct {
        Some(n) => if n > referenced(cells).len() {
            (n - referenced(cells).len()) as nat
        } else {
            0
        },
        None => 0,
    }
}

/// How many parents fall into a bucket.
pub open spec fn parents_in(cells: Seq<Cell>, distinct: Option<usize>, b: nat) -> nat {
    if b == 0 {
        childless(cells, distinct)
    } else {
        with_bucket(cells, referenced(cells), b)
    }
}

/// The buckets below `n` that have parents, each with their number.
pub open spec fn buckets_below(cells: Seq<Cell>, distinct: Option<usize>, n: nat) -> Seq<
    (nat, nat),
>
    decreases n,
{
    if n == 0 {
        Seq::empty()
    } else {
        let before = buckets_below(cells, distinct, (n - 1) as nat);
        let p = parents_in(cells, distinct, (n - 1) as nat);
        if p == 0 {
            before
        } else {
            before.push(((n - 1) as nat, p))
        }
    }
}

/// The counts as numbers.
pub open spec fn count_pairs(counts: Seq<(u64, usize)>) -> Seq<(nat, nat)> {
    Seq::new(counts.len(), |i: int| (counts[i].0 as nat, counts[i].1 as nat))
}

fn count_cell(values: &[Value], v: &Value) -> (r: usize)
    ensures
        r == occurrences(values.deep_view(), v@),
{
    let ghost all = values.deep_view();
    let mut n: usize = 0;
    let mut i: usize = 0;
    proof {
        assert(all.take(0) =~= Seq::empty());
    }
    while i < values.len()
        invariant
            i <= values@.len(),
            all == values.deep_view(),
            n <= i,
            n == occurrences(all.take(i as int), v@),
        decreases values@.len() - i,
    {
        proof {
            assert(all.take(i + 1).drop_last() =~= all.take(i as int));
            assert(all.take(i + 1).last() == values@[i as int]@);
        }
        if values[i].same(v) {
            n = n + 1;
        }
        i = i + 1;
    }
    proof {
        assert(all.take(all.len() as int) =~= all);
    }
    n
}

fn contains_cell(values: &[Value], v: &Value) -> (r: bool)
    ensures
        r == values.deep_view().contains(v@),
{
    let ghost all = values.deep_view();
    let mut i: usize = 0;
    while i < values.len()
        invariant
            i <= values@.len(),
            all == values.deep_view(),
            forall|k: int| 0 <= k < i ==> #[trigger] all[k] != v@,
        decreases values@.len() - i,
    {
        if values[i].same(v) {
            proof {
                assert(all[i as int] == v@);
            }
            return true;
        }
        i = i + 1;
    }
    false
}

/// The different values that are not NULL, in the order in which they first
/// occur.
pub fn distinct_values(values: &[Value]) -> (r: Vec<Value>)
    ensures
        r.deep_view() == referenced(values.deep_view()),
        r@.len() <= values@.len(),
{
    let ghost all = values.deep_view();
    let mut out: Vec<Value> = Vec::new();
    let mut i: usize = 0;
    proof {
        assert(all.take(0) =~= Seq::empty());
        assert(out.deep_view() =~= Seq::empty());
    }
    while i < values.len()
        invariant
            i <= values@.len(),
            all == values.deep_view(),
            out@.len() <= i,
            out.deep_view() == referenced(all.take(i as int)),
        decreases values@.len() - i,
    {
        let ghost before = out.deep_view();
        proof {
            assert(all.take(i + 1).drop_last() =~= all.take(i as int));
            assert(all.take(i + 1).last() == values@[i as int]@);
        }
        if !values[i].is_null() && !contains_cell(out.as_slice(), &values[i]) {
            out.push(values[i].copy());
            proof {
                assert(out.deep_view() =~= before.push(all[i as int]));
            }
        }
        i = i + 1;
    }
    proof {
        assert(all.take(all.len() as int) =~= all);
    }
    out
}

/// How many different values there are besides NULL.
pub fn distinct_non_null(values: &[Value]) -> (r: usize)
    ensures
        r == referenced(values.deep_view()).len(),
{
    let found = distinct_values(values);
    proof {
        assert(found.deep_view().len() == found@.len());
    }
    found.len()
}

fn count_bucket(values: &[Value], parents: &Vec<Value>, b: u64) -> (r: usize)
    ensures
        r == with_bucket(values.deep_view(), parents.deep_view(), b as nat),
        r <= parents@.len(),
{
    let ghost cells = values.deep_view();
    let ghost all = parents.deep_view();
    let mut n: usize = 0;
    let mut i: usize = 0;
    proof {
        assert(all.take(0) =~= Seq::empty());
    }
    while i < parents.len()
        invariant
            i <= parents@.len(),
            cells == values.deep_view(),
            all == parents.deep_view(),
            n <= i,
            n == with_bucket(cells, all.take(i as int), b as nat),
        decreases parents@.len() - i,
    {
        proof {
            assert(all.take(i + 1).drop_last() =~= all.take(i as int));
            assert(all.take(i + 1).last() == parents@[i as int]@);
        }
        let children: usize = count_cell(values, &parents[i]);
        let at: u64 = if children < 50 {
            children as u64
        } else {
            MAX_COUNT_BUCKET
        };
        if at == b {
            n = n + 1;
        }
        i = i + 1;
    }
    proof {
        assert(all.take(all.len() as int) =~= all);
    }
    n
}

/// Learns how many child rows refer to one parent key. The number of parents,
/// where it is known, tells how many have no children. There is nothing to learn
/// where no row refers to a parent.
pub fn learn_cardinality(values: &[Value], parent_distinct: Option<usize>) -> (r: Option<
    CardinalityDist,
>)
    ensures
        match r {
            None => referenced(values.deep_view()).len() == 0,
            Some(d) => {
                let cells = values.deep_view();
                &&& referenced(cells).len() > 0
                &&& count_pairs(d.counts@) == buckets_below(
                    cells,
                    parent_distinct,
                    (MAX_COUNT_BUCKET + 1) as nat,
                )
                &&& d.parents == referenced(cells).len() + childless(cells, parent_distinct)
                &&& d.null_rows == occurrences(cells, Cell::Null)
                &&& d.rows == cells.len()
            },
        },
{
    let ghost cells = values.deep_view();
    let parents = distinct_values(values);
    proof {
        assert(parents.deep_view().len() == parents@.len());
    }
    if parents.len() == 0 {
        return None;
    }
    let zero: usize = match parent_distinct {
        Some(n) => if n > parents.len() {
            n - parents.len()
        } else {
            0
        },
        None => 0,
    };
    let mut counts: Vec<(u64, usize)> = Vec::new();
    let mut b: u64 = 0;
    proof {
        assert(count_pairs(counts@) =~= Seq::empty());
    }
    while b <= MAX_COUNT_BUCKET
        invariant
            b <= MAX_COUNT_BUCKET + 1,
            cells == values.deep_view(),
            parents.deep_view() == referenced(cells),
            zero == childless(cells, parent_distinct),
            count_pairs(counts@) == buckets_below(cells, parent_distinct, b as nat),
        decreases MAX_COUNT_BUCKET + 1 - b,
    {
        let ghost before = count_pairs(counts@);
        let n: usize = if b == 0 {
            zero
        } else {
            count_bucket(values, &parents, b)
        };
        if n > 0 {
            counts.push((b, n));
            proof {
                assert(count_pairs(counts@) =~= before.push((b as nat, n as nat)));
            }
        }
        b = b + 1;
    }
    let null_rows: usize = count_cell(values, &Value::Null);
    Some(CardinalityDist { counts, parents: parents.len() + zero, null_rows, rows: values.len() })
}

/// The sum of the numbers of parents.
pub open spec fn total(pairs: Seq<(nat, nat)>) -> nat
    decreases pairs.len(),
{
    if pairs.len() == 0 {
        0
    } else {
        total(pairs.drop_last()) + pairs.last().1
    }
}

/// The sum of the buckets below `n`.
spec fn below_total(cells: Seq<Cell>, parents: Seq<Cell>, n: nat) -> nat
    decreases n,
{
    if n <= 1 {
        0
    } else {
        below_total(cells, parents, (n - 1) as nat) + with_bucket(cells, parents, (n - 1) as nat)
    }
}

proof fn lemma_below_total_push(cells: Seq<Cell>, parents: Seq<Cell>, c: Cell, n: nat)
    ensures
        below_total(cells, parents.push(c), n) == below_total(cells, parents, n) + (if 1 <= bucket(
            occurrences(cells, c),
        ) < n {
            1nat
        } else {
            0
        }),
    decreases n,
{
    assert(parents.push(c).drop_last() =~= parents);
    if n > 1 {
        lemma_below_total_push(cells, parents, c, (n - 1) as nat);
    }
}

proof fn lemma_none_below(cells: Seq<Cell>, n: nat)
    ensures
        below_total(cells, Seq::empty(), n) == 0,
    decreases n,
{
    if n > 1 {
        lemma_none_below(cells, (n - 1) as nat);
    }
}

proof fn lemma_every_parent_counted(cells: Seq<Cell>, parents: Seq<Cell>)
    requires
        forall|i: int|
            0 <= i < parents.len() ==> occurrences(cells, #[trigger] parents[i]) > 0,
    ensures
        below_total(cells, parents, (MAX_COUNT_BUCKET + 1) as nat) == parents.len(),
    decreases parents.len(),
{
    if parents.len() == 0 {
        assert(parents =~= Seq::empty());
        lemma_none_below(cells, (MAX_COUNT_BUCKET + 1) as nat);
    } else {
        let rest = parents.drop_last();
        assert forall|i: int| 0 <= i < rest.len() implies occurrences(cells, #[trigger] rest[i])
            > 0 by {
            assert(rest[i] == parents[i]);
        }
        lemma_every_parent_counted(cells, rest);
        assert(rest.push(parents.last()) =~= parents);
        assert(occurrences(cells, parents[parents.len() - 1]) > 0);
        lemma_below_total_push(cells, rest, parents.last(), (MAX_COUNT_BUCKET + 1) as nat);
    }
}

proof fn lemma_referenced_occurs(cells: Seq<Cell>, i: int)
    requires
        0 <= i < referenced(cells).len(),
    ensures
        occurrences(cells, referenced(cells)[i]) > 0,
    decreases cells.len(),
{
    let before = referenced(cells.drop_last());
    if i < before.len() {
        lemma_referenced_occurs(cells.drop_last(), i);
        assert(referenced(cells)[i] == before[i]);
    }
}

proof fn lemma_buckets_total(cells: Seq<Cell>, distinct: Option<usize>, n: nat)
    requires
        n >= 1,
    ensures
        total(buckets_below(cells, distinct, n)) == childless(cells, distinct) + below_total(
            cells,
            referenced(cells),
            n,
        ),
    decreases n,
{
    let before = buckets_below(cells, distinct, (n - 1) as nat);
    let p = parents_in(cells, distinct, (n - 1) as nat);
    if n > 1 {
        lemma_buckets_total(cells, distinct, (n - 1) as nat);
    }
    if p > 0 {
        assert(before.push(((n - 1) as nat, p)).drop_last() =~= before);
    }
    if n == 1 {
        assert(before =~= Seq::empty());
        assert(total(before) == 0);
    }
}

/// The numbers of parents add up to all of them: the shares of a learned
/// distribution sum to one.
pub proof fn lemma_parents_add_up(cells: Seq<Cell>, distinct: Option<usize>)
    ensures
        total(buckets_below(cells, distinct, (MAX_COUNT_BUCKET + 1) as nat)) == referenced(
            cells,
        ).len() + childless(cells, distinct),
{
    let parents = referenced(cells);
    assert forall|i: int| 0 <= i < parents.len() implies occurrences(cells, #[trigger] parents[i])
        > 0 by {
        lemma_referenced_occurs(cells, i);
    }
    lemma_every_parent_counted(cells, parents);
    lemma_buckets_total(cells, distinct, (MAX_COUNT_BUCKET + 1) as nat);
}

} // verus!
