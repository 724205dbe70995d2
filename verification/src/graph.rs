//! Ordering tables by their foreign keys.
use crate::digraph;
use crate::text;
use vstd::prelude::*;

verus! {

/// A vertex name.
pub trait Label: Sized {
    /// The text by which two vertices are told apart.
    spec fn label(&self) -> Seq<char>;

    fn same_label(&self, other: &Self) -> (r: bool)
        ensures
            r == (self.label() == other.label()),
    ;

    fn copy_label(&self) -> (r: Self)
        ensures
            r.label() == self.label(),
    ;

    fn text_label(&self) -> (r: String)
        ensures
            r@ == self.label(),
    ;
}

impl Label for String {
    open spec fn label(&self) -> Seq<char> {
        self@
    }

    fn same_label(&self, other: &Self) -> (r: bool) {
        text::same(self.as_str(), other.as_str())
    }

    fn copy_label(&self) -> (r: Self) {
        self.clone()
    }

    fn text_label(&self) -> (r: String) {
        self.clone()
    }
}

impl<'a> Label for &'a str {
    open spec fn label(&self) -> Seq<char> {
        (*self)@
    }

    fn same_label(&self, other: &Self) -> (r: bool) {
        text::same(*self, *other)
    }

    fn copy_label(&self) -> (r: Self) {
        *self
    }

    fn text_label(&self) -> (r: String) {
        (*self).to_owned()
    }
}

/// The names of a list of vertices.
pub open spec fn labels<T: Label>(nodes: Seq<T>) -> Seq<Seq<char>> {
    Seq::new(nodes.len(), |i: int| nodes[i].label())
}

/// The arcs by the names of their ends.
pub open spec fn label_arcs<T: Label>(edges: Seq<(T, T)>) -> Seq<(Seq<char>, Seq<char>)> {
    Seq::new(edges.len(), |i: int| (edges[i].0.label(), edges[i].1.label()))
}

/// A listed vertex, or one that an arc leads to.
pub open spec fn is_vertex<A>(nodes: Seq<A>, arcs: Seq<(A, A)>, v: A) -> bool {
    nodes.contains(v) || exists|k: int| 0 <= k < arcs.len() && (#[trigger] arcs[k]).1 == v
}

/// Every arc into `v` comes from a listed vertex.
pub open spec fn fed_by<A>(arcs: Seq<(A, A)>, order: Seq<A>, v: A) -> bool {
    forall|k: int| 0 <= k < arcs.len() && (#[trigger] arcs[k]).1 == v ==> order.contains(arcs[k].0)
}

/// `order` lists, each once and after all its predecessors, the vertices that
/// can be listed so, and leaves out none of them.
pub open spec fn settles<A>(nodes: Seq<A>, arcs: Seq<(A, A)>, order: Seq<A>) -> bool {
    &&& order.no_duplicates()
    &&& forall|j: int|
        0 <= j < order.len() ==> is_vertex(nodes, arcs, #[trigger] order[j]) && fed_by(
            arcs,
            order.take(j),
            order[j],
        )
    &&& forall|v: A| #[trigger]
        is_vertex(nodes, arcs, v) && fed_by(arcs, order, v) ==> order.contains(v)
}

/// The members of a list, each where it occurs first.
pub open spec fn firsts<A>(s: Seq<A>) -> Seq<A>
    decreases s.len(),
{
    if s.len() == 0 {
        s
    } else {
        let before = firsts(s.drop_last());
        if before.contains(s.last()) {
            before
        } else {
            before.push(s.last())
        }
    }
}

/// The ends of arcs, one after the other.
pub open spec fn ends<A>(arcs: Seq<(A, A)>) -> Seq<A>
    decreases arcs.len(),
{
    if arcs.len() == 0 {
        Seq::empty()
    } else {
        ends(arcs.drop_last()).push(arcs.last().0).push(arcs.last().1)
    }
}

/// Everything that is listed or that an arc touches, each once, in the order in
/// which it is met.
pub open spec fn vertices<A>(nodes: Seq<A>, arcs: Seq<(A, A)>) -> Seq<A> {
    firsts(nodes + ends(arcs))
}

/// Those of the first `n` members of `all` that no arc leads to.
pub open spec fn roots<A>(all: Seq<A>, nodes: Seq<A>, arcs: Seq<(A, A)>, n: nat) -> Seq<A>
    decreases n,
{
    if n == 0 {
        Seq::empty()
    } else {
        let before = roots(all, nodes, arcs, (n - 1) as nat);
        let v = all[n - 1];
        if is_vertex(nodes, arcs, v) && fed_by(arcs, Seq::empty(), v) {
            before.push(v)
        } else {
            before
        }
    }
}

/// Every arc into `v` comes from the list, or is one of the first `k` arcs and comes
/// from `node`.
pub open spec fn freed<A>(arcs: Seq<(A, A)>, done: Seq<A>, node: A, k: int, v: A) -> bool {
    forall|j: int|
        0 <= j < arcs.len() && (#[trigger] arcs[j]).1 == v ==> done.contains(arcs[j].0) || (
        arcs[j].0 == node && j < k)
}

/// The order once the first `k` arcs were looked at for those that leave its member
/// at `head`: what such an arc frees comes behind the others.
pub open spec fn taken<A>(arcs: Seq<(A, A)>, order: Seq<A>, head: int, k: nat) -> Seq<A>
    decreases k,
{
    if k == 0 {
        order
    } else {
        let before = taken(arcs, order, head, (k - 1) as nat);
        let arc = arcs[k - 1];
        if arc.0 == order[head] && freed(arcs, order.take(head), order[head], k as int, arc.1) {
            before.push(arc.1)
        } else {
            before
        }
    }
}

/// The order once the arcs that leave its first `h` members were looked at.
pub open spec fn queued<A>(all: Seq<A>, nodes: Seq<A>, arcs: Seq<(A, A)>, h: nat) -> Seq<A>
    decreases h,
{
    if h == 0 {
        roots(all, nodes, arcs, all.len())
    } else {
        let before = queued(all, nodes, arcs, (h - 1) as nat);
        if h - 1 < before.len() {
            taken(arcs, before, h - 1, arcs.len())
        } else {
            before
        }
    }
}

/// The order in which vertices are listed: first those that no arc leads to, then
/// each as soon as its last predecessor was listed.
pub open spec fn sorted_order<A>(nodes: Seq<A>, arcs: Seq<(A, A)>) -> Seq<A> {
    let all = vertices(nodes, arcs);
    queued(all, nodes, arcs, all.len())
}

/// Once every member was looked at, the order stays.
proof fn lemma_queue_ends<A>(all: Seq<A>, nodes: Seq<A>, arcs: Seq<(A, A)>, h: nat, n: nat)
    requires
        h <= n,
        queued(all, nodes, arcs, h).len() <= h,
    ensures
        queued(all, nodes, arcs, n) == queued(all, nodes, arcs, h),
    decreases n,
{
    if h < n {
        lemma_queue_ends(all, nodes, arcs, h, (n - 1) as nat);
    }
}

/// The numbers below `n`.
pub open spec fn numbers_below(n: nat) -> Seq<usize> {
    Seq::new(n, |i: int| i as usize)
}

/// How many arcs into `v` are not marked as used.
pub open spec fn unused_into(arcs: Seq<(usize, usize)>, used: Seq<bool>, v: usize) -> nat
    decreases arcs.len(),
{
    if arcs.len() == 0 {
        0
    } else {
        unused_into(arcs.drop_last(), used, v) + (if arcs.last().1 == v && !used[arcs.len() - 1] {
            1nat
        } else {
            0nat
        })
    }
}

proof fn lemma_unused_bound(arcs: Seq<(usize, usize)>, used: Seq<bool>, v: usize)
    ensures
        unused_into(arcs, used, v) <= arcs.len(),
    decreases arcs.len(),
{
    if arcs.len() > 0 {
        lemma_unused_bound(arcs.drop_last(), used, v);
    }
}

proof fn lemma_unused_mark(arcs: Seq<(usize, usize)>, used: Seq<bool>, k: int, v: usize)
    requires
        arcs.len() <= used.len(),
        0 <= k < used.len(),
        !used[k],
    ensures
        k >= arcs.len() || arcs[k].1 != v ==> unused_into(arcs, used.update(k, true), v)
            == unused_into(arcs, used, v),
        k < arcs.len() && arcs[k].1 == v ==> unused_into(arcs, used.update(k, true), v) + 1
            == unused_into(arcs, used, v),
    decreases arcs.len(),
{
    if arcs.len() > 0 {
        lemma_unused_mark(arcs.drop_last(), used, k, v);
        assert(k < arcs.len() - 1 ==> arcs.drop_last()[k] == arcs[k]);
    }
}

proof fn lemma_unused_zero(arcs: Seq<(usize, usize)>, used: Seq<bool>, v: usize)
    requires
        arcs.len() <= used.len(),
    ensures
        unused_into(arcs, used, v) == 0 <==> forall|k: int|
            0 <= k < arcs.len() && (#[trigger] arcs[k]).1 == v ==> used[k],
    decreases arcs.len(),
{
    if arcs.len() > 0 {
        let rest = arcs.drop_last();
        lemma_unused_zero(rest, used, v);
        let last = arcs.len() - 1;
        if unused_into(arcs, used, v) == 0 {
            assert forall|k: int| 0 <= k < arcs.len() && (#[trigger] arcs[k]).1 == v implies used[k] by {
                if k < last {
                    assert(rest[k] == arcs[k]);
                }
            }
        } else if unused_into(rest, used, v) != 0 {
            let k = choose|k: int| 0 <= k < rest.len() && (#[trigger] rest[k]).1 == v && !used[k];
            assert(arcs[k].1 == v && !used[k]);
        } else {
            assert(arcs[last].1 == v && !used[last]);
        }
    }
}

/// The state of the ordering after the arcs marked in `used` have been taken
/// out: `order` holds the vertices found so far, the first `head` of which have
/// had their arcs taken out.
spec fn ordering(
    n: int,
    nodes: Seq<usize>,
    arcs: Seq<(usize, usize)>,
    present: Seq<bool>,
    degree: Seq<usize>,
    used: Seq<bool>,
    order: Seq<usize>,
) -> bool {
    &&& digraph::arcs_below(arcs, n)
    &&& present.len() == n
    &&& degree.len() == n
    &&& used.len() == arcs.len()
    &&& forall|v: usize| v < n ==> (#[trigger] present[v as int] <==> is_vertex(nodes, arcs, v))
    &&& forall|v: usize| v < n ==> #[trigger] degree[v as int] == unused_into(arcs, used, v)
    &&& order.no_duplicates()
    &&& forall|j: int| 0 <= j < order.len() ==> #[trigger] order[j] < n
    &&& forall|j: int|
        0 <= j < order.len() ==> is_vertex(nodes, arcs, #[trigger] order[j]) && fed_by(
            arcs,
            order.take(j),
            order[j],
        )
    &&& forall|v: usize|
        v < n && #[trigger] present[v as int] ==> (order.contains(v) <==> degree[v as int] == 0)
}

/// Counts, for each vertex, the arcs into it.
fn count_into(n: usize, arcs: &Vec<(usize, usize)>, Ghost(used): Ghost<Seq<bool>>) -> (degree: Vec<
    usize,
>)
    requires
        digraph::arcs_below(arcs@, n as int),
        used.len() == arcs@.len(),
        forall|k: int| 0 <= k < used.len() ==> !used[k],
    ensures
        degree@.len() == n,
        forall|v: usize|
            v < n ==> #[trigger] degree@[v as int] == unused_into(arcs@, used, v),
{
    let mut degree: Vec<usize> = Vec::new();
    let mut i: usize = 0;
    while i < n
        invariant
            i <= n,
            degree@.len() == i,
            forall|k: int| 0 <= k < i ==> degree@[k] == 0,
        decreases n - i,
    {
        degree.push(0);
        i = i + 1;
    }
    let mut k: usize = 0;
    while k < arcs.len()
        invariant
            k <= arcs@.len(),
            digraph::arcs_below(arcs@, n as int),
            used.len() == arcs@.len(),
            forall|j: int| 0 <= j < used.len() ==> !used[j],
            degree@.len() == n,
            forall|v: usize|
                v < n ==> #[trigger] degree@[v as int] == unused_into(
                    arcs@.take(k as int),
                    used,
                    v,
                ),
        decreases arcs@.len() - k,
    {
        let to: usize = arcs[k].1;
        proof {
            lemma_unused_bound(arcs@.take(k as int), used, to);
            assert(arcs@.take(k + 1).drop_last() =~= arcs@.take(k as int));
            assert(arcs@.len() == arcs.len());
        }
        let d: usize = degree[to];
        degree.set(to, d + 1);
        k = k + 1;
    }
    proof {
        assert(arcs@.take(arcs@.len() as int) =~= arcs@);
    }
    degree
}

/// Marks the listed vertices and those that an arc leads to.
fn mark_present(n: usize, nodes: &Vec<usize>, arcs: &Vec<(usize, usize)>) -> (present: Vec<bool>)
    requires
        digraph::arcs_below(arcs@, n as int),
        forall|i: int| 0 <= i < nodes@.len() ==> #[trigger] nodes@[i] < n,
    ensures
        present@.len() == n,
        forall|v: usize|
            v < n ==> (#[trigger] present@[v as int] <==> is_vertex(nodes@, arcs@, v)),
{
    let mut present: Vec<bool> = Vec::new();
    let mut i: usize = 0;
    while i < n
        invariant
            i <= n,
            present@.len() == i,
            forall|k: int| 0 <= k < i ==> !present@[k],
        decreases n - i,
    {
        present.push(false);
        i = i + 1;
    }
    let mut j: usize = 0;
    while j < nodes.len()
        invariant
            j <= nodes@.len(),
            forall|i: int| 0 <= i < nodes@.len() ==> #[trigger] nodes@[i] < n,
            present@.len() == n,
            forall|v: usize|
                v < n ==> (#[trigger] present@[v as int] <==> nodes@.take(j as int).contains(v)),
        decreases nodes@.len() - j,
    {
        let ghost before = present@;
        present.set(nodes[j], true);
        proof {
            let t = nodes@.take(j + 1);
            assert(t =~= nodes@.take(j as int).push(nodes@[j as int]));
            assert forall|v: usize| v < n implies (#[trigger] present@[v as int] <==> t.contains(
                v,
            )) by {
                if t.contains(v) {
                    let m = t.index_of(v);
                    if m < j {
                        assert(nodes@.take(j as int)[m] == v);
                    }
                    assert(before[v as int] <==> nodes@.take(j as int).contains(v));
                }
                if v == nodes@[j as int] {
                    assert(t[j as int] == v);
                } else if before[v as int] {
                    let m = nodes@.take(j as int).index_of(v);
                    assert(t[m] == v);
                }
            }
        }
        j = j + 1;
    }
    proof {
        assert(nodes@.take(nodes@.len() as int) =~= nodes@);
    }
    let mut k: usize = 0;
    while k < arcs.len()
        invariant
            k <= arcs@.len(),
            digraph::arcs_below(arcs@, n as int),
            present@.len() == n,
            forall|v: usize|
                v < n ==> (#[trigger] present@[v as int] <==> nodes@.contains(v) || exists|m: int|
                    0 <= m < k && (#[trigger] arcs@[m]).1 == v),
        decreases arcs@.len() - k,
    {
        let ghost before = present@;
        let to: usize = arcs[k].1;
        present.set(to, true);
        k = k + 1;
        proof {
            assert forall|v: usize| v < n implies (#[trigger] present@[v as int] <==> nodes@.contains(
                v,
            ) || exists|m: int| 0 <= m < k && (#[trigger] arcs@[m]).1 == v) by {
                assert(before[v as int] <==> nodes@.contains(v) || exists|m: int|
                    0 <= m < k - 1 && (#[trigger] arcs@[m]).1 == v);
                if v == to {
                    assert(arcs@[k - 1].1 == v);
                }
            }
        }
    }
    present
}

/// A vertex whose last unused arc went can be listed next.
proof fn lemma_listed_next(
    arcs: Seq<(usize, usize)>,
    used: Seq<bool>,
    order: Seq<usize>,
    v: usize,
)
    requires
        used.len() == arcs.len(),
        forall|k: int|
            0 <= k < arcs.len() && #[trigger] used[k] ==> order.contains(arcs[k].0),
        unused_into(arcs, used, v) == 0,
    ensures
        fed_by(arcs, order, v),
{
    lemma_unused_zero(arcs, used, v);
}

/// Kahn's algorithm over numbered vertices.
fn settle_order(n: usize, nodes: &Vec<usize>, arcs: &Vec<(usize, usize)>) -> (order: Vec<usize>)
    requires
        digraph::arcs_below(arcs@, n as int),
        forall|i: int| 0 <= i < nodes@.len() ==> #[trigger] nodes@[i] < n,
    ensures
        settles(nodes@, arcs@, order@),
        forall|j: int| 0 <= j < order@.len() ==> #[trigger] order@[j] < n,
        order@ == queued(numbers_below(n as nat), nodes@, arcs@, n as nat),
{
    let ghost all = numbers_below(n as nat);
    let ghost mut used: Seq<bool> = Seq::new(arcs@.len(), |k: int| false);
    let present = mark_present(n, nodes, arcs);
    let mut degree = count_into(n, arcs, Ghost(used));
    let mut order: Vec<usize> = Vec::new();
    let mut v: usize = 0;
    while v < n
        invariant
            v <= n,
            all == numbers_below(n as nat),
            order@ == roots(all, nodes@, arcs@, v as nat),
            used == Seq::new(arcs@.len(), |k: int| false),
            digraph::arcs_below(arcs@, n as int),
            present@.len() == n,
            degree@.len() == n,
            forall|u: usize|
                u < n ==> (#[trigger] present@[u as int] <==> is_vertex(nodes@, arcs@, u)),
            forall|u: usize|
                u < n ==> #[trigger] degree@[u as int] == unused_into(arcs@, used, u),
            order@.no_duplicates(),
            forall|j: int| 0 <= j < order@.len() ==> #[trigger] order@[j] < v,
            forall|j: int|
                0 <= j < order@.len() ==> is_vertex(nodes@, arcs@, #[trigger] order@[j]) && fed_by(
                    arcs@,
                    order@.take(j),
                    order@[j],
                ),
            forall|u: usize|
                u < v && #[trigger] present@[u as int] ==> (order@.contains(u) <==> degree@[u as int]
                    == 0),
        decreases n - v,
    {
        let ghost before = order@;
        proof {
            lemma_unused_zero(arcs@, used, v);
            assert(all[v as int] == v);
            assert(fed_by(arcs@, Seq::<usize>::empty(), v) <==> degree@[v as int] == 0) by {
                if degree@[v as int] == 0 {
                    assert forall|k: int| 0 <= k < arcs@.len() && (#[trigger] arcs@[k]).1
                        == v implies Seq::<usize>::empty().contains(arcs@[k].0) by {
                        assert(used[k]);
                    }
                } else {
                    let k = choose|k: int| 0 <= k < arcs@.len() && (#[trigger] arcs@[k]).1 == v
                        && !used[k];
                    assert(!Seq::<usize>::empty().contains(arcs@[k].0));
                }
            }
        }
        if present[v] && degree[v] == 0 {
            order.push(v);
            proof {
                lemma_listed_next(arcs@, used, before, v);
                lemma_push_fed(arcs@, nodes@, before, v);
            }
        }
        proof {
            assert forall|u: usize| u < v + 1 && #[trigger] present@[u as int] implies (
            order@.contains(u) <==> degree@[u as int] == 0) by {
                lemma_push_contains(before, v, u);
                if u == v {
                    if before.contains(v) {
                        let j = before.index_of(v);
                        assert(before[j] < v);
                    }
                }
            }
        }
        v = v + 1;
    }
    let mut head: usize = 0;
    proof {
        assert forall|k: int| 0 <= k < arcs@.len() implies (#[trigger] used[k] <==> order@.take(
            0,
        ).contains(arcs@[k].0)) by {}
    }
    while head < order.len()
        invariant
            head <= order@.len(),
            all == numbers_below(n as nat),
            order@ == queued(all, nodes@, arcs@, head as nat),
            forall|i: int| 0 <= i < nodes@.len() ==> #[trigger] nodes@[i] < n,
            ordering(n as int, nodes@, arcs@, present@, degree@, used, order@),
            forall|k: int|
                0 <= k < arcs@.len() ==> (#[trigger] used[k] <==> order@.take(
                    head as int,
                ).contains(arcs@[k].0)),
        decreases n - head,
    {
        let node: usize = order[head];
        let ghost begun = order@;
        proof {
            lemma_short(order@, n as int);
            assert(order@.take(head + 1) =~= order@.take(head as int).push(node));
            assert(!order@.take(head as int).contains(node)) by {
                if order@.take(head as int).contains(node) {
                    let j = order@.take(head as int).index_of(node);
                    assert(order@[j] == order@[head as int]);
                }
            }
        }
        let mut k: usize = 0;
        while k < arcs.len()
            invariant
                k <= arcs@.len(),
                head < order@.len(),
                order@[head as int] == node,
                !order@.take(head as int).contains(node),
                head < begun.len(),
                begun[head as int] == node,
                order@.take(head as int) == begun.take(head as int),
                order@ == taken(arcs@, begun, head as int, k as nat),
                ordering(n as int, nodes@, arcs@, present@, degree@, used, order@),
                forall|j: int|
                    0 <= j < arcs@.len() ==> (#[trigger] used[j] <==> order@.take(
                        head as int,
                    ).contains(arcs@[j].0) || (arcs@[j].0 == node && j < k)),
            decreases arcs@.len() - k,
        {
            if arcs[k].0 == node {
                let to: usize = arcs[k].1;
                let ghost used0 = used;
                let ghost degree0 = degree@;
                let ghost order0 = order@;
                proof {
                    assert(!used0[k as int]);
                    used = used.update(k as int, true);
                    assert forall|u: usize| u < n implies if u == to {
                        unused_into(arcs@, used, u) + 1 == unused_into(arcs@, used0, u)
                    } else {
                        unused_into(arcs@, used, u) == unused_into(arcs@, used0, u)
                    } by {
                        lemma_unused_mark(arcs@, used0, k as int, u);
                    }
                    lemma_unused_mark(arcs@, used0, k as int, to);
                }
                let d: usize = degree[to];
                degree.set(to, d - 1);
                proof {
                    lemma_unused_zero(arcs@, used, to);
                    assert forall|j: int| 0 <= j < arcs@.len() implies (#[trigger] used[j]
                        <==> begun.take(head as int).contains(arcs@[j].0) || (arcs@[j].0 == node
                        && j < k + 1)) by {
                        if j != k {
                            assert(used[j] == used0[j]);
                        }
                    }
                    if d == 1 {
                        assert forall|j: int| 0 <= j < arcs@.len() && (#[trigger] arcs@[j]).1
                            == to implies begun.take(head as int).contains(arcs@[j].0) || (
                        arcs@[j].0 == node && j < k + 1) by {
                            assert(used[j]);
                        }
                    } else {
                        let j = choose|j: int| 0 <= j < arcs@.len() && (#[trigger] arcs@[j]).1
                            == to && !used[j];
                        assert(arcs@[j].1 == to);
                    }
                    assert(freed(arcs@, begun.take(head as int), node, k + 1, to) <==> d == 1);
                }
                if d - 1 == 0 {
                    order.push(to);
                }
                proof {
                    assert(order@.take(head as int) =~= order0.take(head as int));
                }
                proof {
                    lemma_relaxed(
                        n as int,
                        nodes@,
                        arcs@,
                        present@,
                        degree0,
                        degree@,
                        used0,
                        used,
                        order0,
                        order@,
                        head as int,
                        k as int,
                    );
                }
            }
            k = k + 1;
        }
        proof {
            assert forall|j: int| 0 <= j < arcs@.len() implies (#[trigger] used[j]
                <==> order@.take(head + 1).contains(arcs@[j].0)) by {
                assert(order@.take(head + 1) =~= order@.take(head as int).push(node));
                lemma_push_contains(order@.take(head as int), node, arcs@[j].0);
            }
        }
        head = head + 1;
    }
    proof {
        lemma_short(order@, n as int);
        lemma_queue_ends(all, nodes@, arcs@, head as nat, n as nat);
        assert(order@.take(head as int) =~= order@);
        assert forall|v: usize| #[trigger]
            is_vertex(nodes@, arcs@, v) && fed_by(arcs@, order@, v) implies order@.contains(v) by {
            lemma_unused_zero(arcs@, used, v);
            assert(v < n) by {
                if nodes@.contains(v) {
                    let i = nodes@.index_of(v);
                    assert(nodes@[i] < n);
                } else {
                    let k = choose|k: int| 0 <= k < arcs@.len() && (#[trigger] arcs@[k]).1 == v;
                    assert(arcs@[k].1 < n);
                }
            }
            assert(present@[v as int]);
            assert(degree@[v as int] == 0);
        }
    }
    order
}

proof fn lemma_push_contains<A>(s: Seq<A>, x: A, y: A)
    ensures
        s.push(x).contains(y) <==> s.contains(y) || x == y,
{
    if s.contains(y) {
        let i = s.index_of(y);
        assert(s.push(x)[i] == y);
    }
    if x == y {
        assert(s.push(x)[s.len() as int] == y);
    }
    if s.push(x).contains(y) {
        let i = s.push(x).index_of(y);
        if i < s.len() {
            assert(s[i] == y);
        }
    }
}

/// Numbers below `n` without repetition are at most `n` many.
proof fn lemma_short(s: Seq<usize>, n: int)
    requires
        s.no_duplicates(),
        0 <= n,
        forall|j: int| 0 <= j < s.len() ==> #[trigger] s[j] < n,
    ensures
        s.len() <= n,
{
    let range = Seq::new(n as nat, |i: int| i as usize);
    assert forall|j: int| 0 <= j < s.len() implies range.contains(#[trigger] s[j]) by {
        assert(range[s[j] as int] == s[j]);
    }
    lemma_fits(s, range);
}

/// A list without repetition whose members all occur in another is no longer
/// than that other.
pub proof fn lemma_fits<A>(s: Seq<A>, t: Seq<A>)
    requires
        s.no_duplicates(),
        forall|j: int| 0 <= j < s.len() ==> t.contains(#[trigger] s[j]),
    ensures
        s.len() <= t.len(),
    decreases s.len(),
{
    if s.len() > 0 {
        let x = s.last();
        let i = t.index_of(x);
        let rest = t.remove(i);
        assert(t.contains(s[s.len() - 1]));
        assert forall|j: int| 0 <= j < s.drop_last().len() implies rest.contains(
            #[trigger] s.drop_last()[j],
        ) by {
            let y = s[j];
            assert(t.contains(y));
            let m = t.index_of(y);
            assert(y != x);
            if m < i {
                assert(rest[m] == y);
            } else {
                assert(rest[m - 1] == y);
            }
        }
        lemma_fits(s.drop_last(), rest);
    }
}

proof fn lemma_push_fed(
    arcs: Seq<(usize, usize)>,
    nodes: Seq<usize>,
    order: Seq<usize>,
    v: usize,
)
    requires
        fed_by(arcs, order, v),
        forall|j: int|
            0 <= j < order.len() ==> is_vertex(nodes, arcs, #[trigger] order[j]) && fed_by(
                arcs,
                order.take(j),
                order[j],
            ),
        is_vertex(nodes, arcs, v),
    ensures
        forall|j: int|
            0 <= j < order.push(v).len() ==> is_vertex(nodes, arcs, #[trigger] order.push(v)[j])
                && fed_by(arcs, order.push(v).take(j), order.push(v)[j]),
{
    let next = order.push(v);
    assert forall|j: int| 0 <= j < next.len() implies is_vertex(nodes, arcs, #[trigger] next[j])
        && fed_by(arcs, next.take(j), next[j]) by {
        assert(next.take(j) =~= order.take(j));
        if j == order.len() {
            assert(order.take(j) =~= order);
        } else {
            assert(next[j] == order[j]);
        }
    }
}

/// One arc is taken out.
proof fn lemma_relaxed(
    n: int,
    nodes: Seq<usize>,
    arcs: Seq<(usize, usize)>,
    present: Seq<bool>,
    degree0: Seq<usize>,
    degree: Seq<usize>,
    used0: Seq<bool>,
    used: Seq<bool>,
    order0: Seq<usize>,
    order: Seq<usize>,
    head: int,
    k: int,
)
    requires
        0 <= k < arcs.len(),
        0 <= head < order0.len(),
        order0[head] == arcs[k].0,
        ordering(n, nodes, arcs, present, degree0, used0, order0),
        forall|j: int|
            0 <= j < arcs.len() ==> (#[trigger] used0[j] <==> order0.take(head).contains(
                arcs[j].0,
            ) || (arcs[j].0 == order0[head] && j < k)),
        !used0[k],
        used == used0.update(k, true),
        degree0[arcs[k].1 as int] > 0,
        degree == degree0.update(
            arcs[k].1 as int,
            (degree0[arcs[k].1 as int] - 1) as usize,
        ),
        order == (if degree0[arcs[k].1 as int] == 1 {
            order0.push(arcs[k].1)
        } else {
            order0
        }),
    ensures
        ordering(n, nodes, arcs, present, degree, used, order),
        order[head] == order0[head],
        order.take(head) == order0.take(head),
        forall|j: int|
            0 <= j < arcs.len() ==> (#[trigger] used[j] <==> order.take(head).contains(
                arcs[j].0,
            ) || (arcs[j].0 == order0[head] && j < k + 1)),
{
    let to = arcs[k].1;
    let node = order0[head];
    assert(order.take(head) =~= order0.take(head));
    assert forall|u: usize| u < n implies #[trigger] degree[u as int] == unused_into(
        arcs,
        used,
        u,
    ) by {
        lemma_unused_mark(arcs, used0, k, u);
        assert(degree0[u as int] == unused_into(arcs, used0, u));
    }
    assert(is_vertex(nodes, arcs, to)) by {
        assert(arcs[k].1 == to);
    }
    assert(present[to as int]);
    assert(!order0.contains(to));
    if degree0[to as int] == 1 {
        assert forall|j: int| 0 <= j < arcs.len() && #[trigger] used[j] implies order0.contains(
            arcs[j].0,
        ) by {
            if j != k {
                assert(used0[j]);
                if order0.take(head).contains(arcs[j].0) {
                    let m = order0.take(head).index_of(arcs[j].0);
                    assert(order0[m] == arcs[j].0);
                }
            }
        }
        assert(degree[to as int] == 0);
        lemma_listed_next(arcs, used, order0, to);
        lemma_push_fed(arcs, nodes, order0, to);
        assert forall|j: int| 0 <= j < order.len() implies #[trigger] order[j] < n by {
            if j < order0.len() {
                assert(order[j] == order0[j]);
            }
        }
    }
    assert forall|u: usize| u < n && #[trigger] present[u as int] implies (order.contains(u)
        <==> degree[u as int] == 0) by {
        lemma_push_contains(order0, to, u);
        assert(order0.contains(u) <==> degree0[u as int] == 0);
    }
}

/// The graph with vertices as places in `verts`.
struct Numbering<T> {
    verts: Vec<T>,
    nodes: Vec<usize>,
    arcs: Vec<(usize, usize)>,
}

/// Numbered vertices `small` are the vertices `nodes` written as their places
/// in `names`.
spec fn numbered_nodes<A>(names: Seq<A>, small: Seq<usize>, nodes: Seq<A>) -> bool {
    &&& small.len() == nodes.len()
    &&& forall|i: int|
        0 <= i < small.len() ==> #[trigger] small[i] < names.len() && nodes[i]
            == names[small[i] as int]
}

/// The place of a vertex, which is added where it is new.
fn place<T: Label>(verts: &mut Vec<T>, t: &T) -> (r: usize)
    requires
        labels(old(verts)@).no_duplicates(),
    ensures
        labels(final(verts)@).no_duplicates(),
        old(verts)@.len() <= final(verts)@.len(),
        labels(old(verts)@) == labels(final(verts)@).take(old(verts)@.len() as int),
        r < final(verts)@.len(),
        final(verts)@[r as int].label() == t.label(),
        labels(final(verts)@) == (if labels(old(verts)@).contains(t.label()) {
            labels(old(verts)@)
        } else {
            labels(old(verts)@).push(t.label())
        }),
{
    let mut i: usize = 0;
    while i < verts.len()
        invariant
            i <= verts@.len(),
            verts@ == old(verts)@,
            labels(verts@).no_duplicates(),
            forall|j: int| 0 <= j < i ==> (#[trigger] verts@[j]).label() != t.label(),
        decreases verts@.len() - i,
    {
        if verts[i].same_label(t) {
            proof {
                assert(labels(verts@).take(verts@.len() as int) =~= labels(verts@));
                assert(labels(verts@)[i as int] == t.label());
            }
            return i;
        }
        i = i + 1;
    }
    let ghost before = labels(verts@);
    proof {
        if before.contains(t.label()) {
            let j = before.index_of(t.label());
            assert(verts@[j].label() == t.label());
        }
    }
    verts.push(t.copy_label());
    proof {
        assert(labels(verts@) =~= before.push(t.label()));
        assert forall|a: int, b: int|
            0 <= a < verts@.len() && 0 <= b < verts@.len() && a != b implies labels(verts@)[a]
            != labels(verts@)[b] by {
            if a < before.len() {
                assert(before[a] == old(verts)@[a].label());
            }
            if b < before.len() {
                assert(before[b] == old(verts)@[b].label());
            }
        }
        assert(labels(verts@).take(before.len() as int) =~= before);
    }
    i
}

fn number_graph<T: Label>(nodes: &[T], edges: &[(T, T)]) -> (r: Numbering<T>)
    ensures
        digraph::numbered(labels(r.verts@), r.arcs@, label_arcs(edges@)),
        numbered_nodes(labels(r.verts@), r.nodes@, labels(nodes@)),
        labels(r.verts@) == vertices(labels(nodes@), label_arcs(edges@)),
{
    let ghost names = labels(nodes@);
    let ghost arcs = label_arcs(edges@);
    let mut verts: Vec<T> = Vec::new();
    proof {
        assert(labels(verts@) =~= firsts(names.take(0)));
    }
    let mut small_nodes: Vec<usize> = Vec::new();
    let mut small: Vec<(usize, usize)> = Vec::new();
    let mut i: usize = 0;
    while i < nodes.len()
        invariant
            i <= nodes@.len(),
            names == labels(nodes@),
            labels(verts@) == firsts(names.take(i as int)),
            labels(verts@).no_duplicates(),
            small_nodes@.len() == i,
            forall|j: int|
                0 <= j < i ==> #[trigger] small_nodes@[j] < verts@.len() && nodes@[j].label()
                    == labels(verts@)[small_nodes@[j] as int],
        decreases nodes@.len() - i,
    {
        let ghost before = labels(verts@);
        let p: usize = place(&mut verts, &nodes[i]);
        small_nodes.push(p);
        proof {
            assert(names.take(i + 1).drop_last() =~= names.take(i as int));
            assert(names.take(i + 1).last() == nodes@[i as int].label());
            assert forall|j: int| 0 <= j < i implies #[trigger] small_nodes@[j] < verts@.len()
                && nodes@[j].label() == labels(verts@)[small_nodes@[j] as int] by {
                assert(before[small_nodes@[j] as int] == labels(
                    verts@,
                )[small_nodes@[j] as int]);
            }
        }
        i = i + 1;
    }
    let mut k: usize = 0;
    proof {
        assert(names.take(names.len() as int) =~= names);
        assert(names + ends(arcs.take(0)) =~= names);
    }
    while k < edges.len()
        invariant
            k <= edges@.len(),
            names == labels(nodes@),
            arcs == label_arcs(edges@),
            labels(verts@) == firsts(names + ends(arcs.take(k as int))),
            labels(verts@).no_duplicates(),
            small_nodes@.len() == nodes@.len(),
            forall|j: int|
                0 <= j < nodes@.len() ==> #[trigger] small_nodes@[j] < verts@.len()
                    && nodes@[j].label() == labels(verts@)[small_nodes@[j] as int],
            small@.len() == k,
            forall|j: int|
                0 <= j < k ==> (#[trigger] small@[j]).0 < verts@.len() && small@[j].1 < verts@.len()
                    && edges@[j].0.label() == labels(verts@)[small@[j].0 as int]
                    && edges@[j].1.label() == labels(verts@)[small@[j].1 as int],
        decreases edges@.len() - k,
    {
        let ghost before = labels(verts@);
        let from: usize = place(&mut verts, &edges[k].0);
        let ghost middle = labels(verts@);
        let to: usize = place(&mut verts, &edges[k].1);
        small.push((from, to));
        proof {
            let after = labels(verts@);
            let now = arcs.take(k + 1);
            let met = names + ends(arcs.take(k as int));
            assert(now.drop_last() =~= arcs.take(k as int));
            assert(now.last() == arcs[k as int]);
            assert(names + ends(now) =~= met.push(arcs[k as int].0).push(arcs[k as int].1));
            assert(met.push(arcs[k as int].0).push(arcs[k as int].1).drop_last() =~= met.push(
                arcs[k as int].0,
            ));
            assert(met.push(arcs[k as int].0).drop_last() =~= met);
            assert(firsts(met.push(arcs[k as int].0)) == middle);
            assert(firsts(met.push(arcs[k as int].0).push(arcs[k as int].1)) == after);
            assert forall|j: int| 0 <= j < before.len() implies before[j] == after[j] by {
                assert(before[j] == middle[j]);
                assert(middle[j] == after[j]);
            }
            assert(middle[from as int] == after[from as int]);
            assert forall|j: int| 0 <= j < nodes@.len() implies #[trigger] small_nodes@[j]
                < verts@.len() && nodes@[j].label() == labels(verts@)[small_nodes@[j] as int] by {
                assert(before[small_nodes@[j] as int] == after[small_nodes@[j] as int]);
            }
            assert forall|j: int| 0 <= j < k implies (#[trigger] small@[j]).0 < verts@.len()
                && small@[j].1 < verts@.len() && edges@[j].0.label() == labels(
                verts@,
            )[small@[j].0 as int] && edges@[j].1.label() == labels(verts@)[small@[j].1 as int] by {
                assert(before[small@[j].0 as int] == after[small@[j].0 as int]);
                assert(before[small@[j].1 as int] == after[small@[j].1 as int]);
            }
        }
        k = k + 1;
    }
    proof {
        assert(arcs.take(arcs.len() as int) =~= arcs);
    }
    Numbering { verts, nodes: small_nodes, arcs: small }
}

/// The vertices at these places.
spec fn named<A>(names: Seq<A>, places: Seq<usize>) -> Seq<A> {
    Seq::new(places.len(), |j: int| names[places[j] as int])
}

/// A vertex is in a list where its number is in the numbers of the list.
proof fn lemma_named_contains<A>(names: Seq<A>, places: Seq<usize>, i: usize)
    requires
        names.no_duplicates(),
        forall|j: int| 0 <= j < places.len() ==> #[trigger] places[j] < names.len(),
        i < names.len(),
    ensures
        named(names, places).contains(names[i as int]) <==> places.contains(i),
{
    let out = named(names, places);
    if places.contains(i) {
        let j = places.index_of(i);
        assert(out[j] == names[i as int]);
    }
    if out.contains(names[i as int]) {
        let j = out.index_of(names[i as int]);
        assert(names[places[j] as int] == names[i as int]);
        assert(places[j] == i);
    }
}

/// A numbered vertex is one by its name.
proof fn lemma_named_vertex<A>(
    names: Seq<A>,
    small_nodes: Seq<usize>,
    small: Seq<(usize, usize)>,
    nodes: Seq<A>,
    arcs: Seq<(A, A)>,
    i: usize,
)
    requires
        digraph::numbered(names, small, arcs),
        numbered_nodes(names, small_nodes, nodes),
        i < names.len(),
    ensures
        is_vertex(small_nodes, small, i) <==> is_vertex(nodes, arcs, names[i as int]),
{
    assert(named(names, small_nodes) =~= nodes);
    lemma_named_contains(names, small_nodes, i);
    if exists|k: int| 0 <= k < small.len() && (#[trigger] small[k]).1 == i {
        let k = choose|k: int| 0 <= k < small.len() && (#[trigger] small[k]).1 == i;
        assert(arcs[k].1 == names[i as int]);
    }
    if exists|k: int| 0 <= k < arcs.len() && (#[trigger] arcs[k]).1 == names[i as int] {
        let k = choose|k: int| 0 <= k < arcs.len() && (#[trigger] arcs[k]).1 == names[i as int];
        assert(small[k].1 < names.len());
        assert(small[k].1 == i);
    }
}

/// What frees a numbered vertex frees it by its name.
proof fn lemma_named_freed<A>(
    names: Seq<A>,
    small: Seq<(usize, usize)>,
    arcs: Seq<(A, A)>,
    done: Seq<usize>,
    node: usize,
    k: int,
    i: usize,
)
    requires
        digraph::numbered(names, small, arcs),
        forall|j: int| 0 <= j < done.len() ==> #[trigger] done[j] < names.len(),
        node < names.len(),
        i < names.len(),
    ensures
        freed(small, done, node, k, i) <==> freed(
            arcs,
            named(names, done),
            names[node as int],
            k,
            names[i as int],
        ),
{
    let out = named(names, done);
    assert forall|j: int| 0 <= j < small.len() implies {
        &&& ((#[trigger] small[j]).1 == i <==> arcs[j].1 == names[i as int])
        &&& (small[j].0 == node <==> arcs[j].0 == names[node as int])
        &&& (done.contains(small[j].0) <==> out.contains(arcs[j].0))
    } by {
        assert(small[j].0 < names.len() && small[j].1 < names.len());
        assert(arcs[j] == (names[small[j].0 as int], names[small[j].1 as int]));
        lemma_named_contains(names, done, small[j].0);
    }
    if freed(small, done, node, k, i) {
        assert forall|j: int| 0 <= j < arcs.len() && (#[trigger] arcs[j]).1
            == names[i as int] implies out.contains(arcs[j].0) || (arcs[j].0 == names[node as int]
            && j < k) by {
            assert(small[j].1 == i);
        }
    }
    if freed(arcs, out, names[node as int], k, names[i as int]) {
        assert forall|j: int| 0 <= j < small.len() && (#[trigger] small[j]).1 == i implies done.contains(
            small[j].0,
        ) || (small[j].0 == node && j < k) by {
            assert(arcs[j].1 == names[i as int]);
        }
    }
}

/// The roots by their names.
proof fn lemma_named_roots<A>(
    names: Seq<A>,
    small_nodes: Seq<usize>,
    small: Seq<(usize, usize)>,
    nodes: Seq<A>,
    arcs: Seq<(A, A)>,
    n: nat,
)
    requires
        digraph::numbered(names, small, arcs),
        numbered_nodes(names, small_nodes, nodes),
        n <= names.len() <= usize::MAX,
    ensures
        ({
            let order = roots(numbers_below(names.len()), small_nodes, small, n);
            &&& forall|j: int| 0 <= j < order.len() ==> #[trigger] order[j] < names.len()
            &&& named(names, order) == roots(names, nodes, arcs, n)
        }),
    decreases n,
{
    let all = numbers_below(names.len());
    if n > 0 {
        lemma_named_roots(names, small_nodes, small, nodes, arcs, (n - 1) as nat);
        let i = all[n - 1];
        assert(i == n - 1);
        lemma_named_vertex(names, small_nodes, small, nodes, arcs, i);
        let none = Seq::<usize>::empty();
        let nothing = Seq::<A>::empty();
        assert(named(names, none) =~= nothing);
        lemma_named_freed(names, small, arcs, none, i, 0, i);
        assert(freed(small, none, i, 0, i) <==> fed_by(small, none, i));
        assert(freed(arcs, nothing, names[i as int], 0, names[i as int]) <==> fed_by(
            arcs,
            nothing,
            names[i as int],
        ));
        let before = roots(all, small_nodes, small, (n - 1) as nat);
        assert(named(names, before.push(i)) =~= named(names, before).push(names[i as int]));
    } else {
        assert(named(names, Seq::<usize>::empty()) =~= Seq::<A>::empty());
    }
}

/// What one member frees, by the names.
proof fn lemma_named_taken<A>(
    names: Seq<A>,
    small: Seq<(usize, usize)>,
    arcs: Seq<(A, A)>,
    order: Seq<usize>,
    head: int,
    k: nat,
)
    requires
        digraph::numbered(names, small, arcs),
        forall|j: int| 0 <= j < order.len() ==> #[trigger] order[j] < names.len(),
        0 <= head < order.len(),
        k <= small.len(),
    ensures
        ({
            let next = taken(small, order, head, k);
            &&& forall|j: int| 0 <= j < next.len() ==> #[trigger] next[j] < names.len()
            &&& named(names, next) == taken(arcs, named(names, order), head, k)
        }),
    decreases k,
{
    if k > 0 {
        lemma_named_taken(names, small, arcs, order, head, (k - 1) as nat);
        let before = taken(small, order, head, (k - 1) as nat);
        let arc = small[k - 1];
        let out = named(names, order);
        assert(arc.0 < names.len() && arc.1 < names.len());
        assert(arcs[k - 1] == (names[arc.0 as int], names[arc.1 as int]));
        assert(order[head] < names.len());
        assert(arc.0 == order[head] <==> names[arc.0 as int] == out[head]);
        assert(named(names, order.take(head)) =~= out.take(head));
        lemma_named_freed(names, small, arcs, order.take(head), order[head], k as int, arc.1);
        assert(named(names, before.push(arc.1)) =~= named(names, before).push(
            names[arc.1 as int],
        ));
    }
}

/// The order by the names.
proof fn lemma_named_queue<A>(
    names: Seq<A>,
    small_nodes: Seq<usize>,
    small: Seq<(usize, usize)>,
    nodes: Seq<A>,
    arcs: Seq<(A, A)>,
    h: nat,
)
    requires
        digraph::numbered(names, small, arcs),
        numbered_nodes(names, small_nodes, nodes),
        names.len() <= usize::MAX,
    ensures
        ({
            let order = queued(numbers_below(names.len()), small_nodes, small, h);
            &&& forall|j: int| 0 <= j < order.len() ==> #[trigger] order[j] < names.len()
            &&& named(names, order) == queued(names, nodes, arcs, h)
        }),
    decreases h,
{
    let all = numbers_below(names.len());
    if h == 0 {
        lemma_named_roots(names, small_nodes, small, nodes, arcs, names.len());
    } else {
        lemma_named_queue(names, small_nodes, small, nodes, arcs, (h - 1) as nat);
        let before = queued(all, small_nodes, small, (h - 1) as nat);
        if h - 1 < before.len() {
            lemma_named_taken(names, small, arcs, before, h - 1, small.len());
        }
    }
}

/// An order of numbered vertices names an order of the vertices.
proof fn lemma_settles_named<A>(
    names: Seq<A>,
    small_nodes: Seq<usize>,
    small: Seq<(usize, usize)>,
    nodes: Seq<A>,
    arcs: Seq<(A, A)>,
    order: Seq<usize>,
)
    requires
        digraph::numbered(names, small, arcs),
        numbered_nodes(names, small_nodes, nodes),
        settles(small_nodes, small, order),
        forall|j: int| 0 <= j < order.len() ==> #[trigger] order[j] < names.len(),
    ensures
        settles(nodes, arcs, named(names, order)),
{
    let out = named(names, order);
    assert forall|i: int, j: int| 0 <= i < out.len() && 0 <= j < out.len() && i != j implies out[i]
        != out[j] by {
        assert(order[i] != order[j]);
    }
    assert forall|j: int| 0 <= j < out.len() implies is_vertex(nodes, arcs, #[trigger] out[j])
        && fed_by(arcs, out.take(j), out[j]) by {
        assert(is_vertex(small_nodes, small, order[j]));
        if small_nodes.contains(order[j]) {
            let m = small_nodes.index_of(order[j]);
            assert(nodes[m] == out[j]);
        } else {
            let k = choose|k: int| 0 <= k < small.len() && (#[trigger] small[k]).1 == order[j];
            assert(arcs[k].1 == out[j]);
        }
        assert forall|k: int|
            0 <= k < arcs.len() && (#[trigger] arcs[k]).1 == out[j] implies out.take(j).contains(
            arcs[k].0,
        ) by {
            assert(small[k].1 < names.len() && small[k].0 < names.len());
            assert(small[k].1 == order[j]);
            assert(fed_by(small, order.take(j), order[j]));
            assert(order.take(j).contains(small[k].0));
            let m = order.take(j).index_of(small[k].0);
            assert(out.take(j)[m] == arcs[k].0);
        }
    }
    assert forall|v: A| #[trigger]
        is_vertex(nodes, arcs, v) && fed_by(arcs, out, v) implies out.contains(v) by {
        let x: usize = if nodes.contains(v) {
            small_nodes[nodes.index_of(v)]
        } else {
            small[choose|k: int| 0 <= k < arcs.len() && (#[trigger] arcs[k]).1 == v].1
        };
        if nodes.contains(v) {
            let m = nodes.index_of(v);
            assert(small_nodes[m] == x);
            assert(small_nodes.contains(x));
        } else {
            let k = choose|k: int| 0 <= k < arcs.len() && (#[trigger] arcs[k]).1 == v;
            assert(small[k].1 == x);
        }
        assert(x < names.len() && names[x as int] == v);
        assert(is_vertex(small_nodes, small, x));
        assert forall|k: int| 0 <= k < small.len() && (#[trigger] small[k]).1 == x implies order.contains(
            small[k].0,
        ) by {
            assert(arcs[k].1 == v);
            assert(out.contains(arcs[k].0));
            let m = out.index_of(arcs[k].0);
            assert(names[order[m] as int] == names[small[k].0 as int]);
            assert(order[m] == small[k].0);
        }
        assert(order.contains(x));
        let m = order.index_of(x);
        assert(out[m] == v);
    }
}

/// The walk back to `node` that a depth-first search finds, trying the arcs in
/// order: the part of `path` from `node` on, and `node` again.
pub open spec fn search_cycle<A>(arcs: Seq<(A, A)>, path: Seq<A>, node: A) -> Option<Seq<A>>
    decreases arcs.len() + 2 - path.len(), 0nat,
{
    if path.contains(node) {
        Some(path.skip(path.index_of_first(node)->0).push(node))
    } else if path.len() > arcs.len() {
        None
    } else {
        search_arcs(arcs, path.push(node), node, 0)
    }
}

/// The search from `node`, whose arcs before the `k`-th have been tried.
pub open spec fn search_arcs<A>(arcs: Seq<(A, A)>, path: Seq<A>, node: A, k: nat) -> Option<Seq<A>>
    decreases arcs.len() + 2 - path.len(), arcs.len() + 1 - k,
{
    if k >= arcs.len() {
        None
    } else if arcs[k as int].0 == node {
        match search_cycle(arcs, path, arcs[k as int].1) {
            Some(c) => Some(c),
            None => search_arcs(arcs, path, node, k + 1),
        }
    } else {
        search_arcs(arcs, path, node, k + 1)
    }
}

/// The first cycle that a search from one of the vertices, in order, finds.
pub open spec fn first_cycle<A>(nodes: Seq<A>, arcs: Seq<(A, A)>) -> Option<Seq<A>>
    decreases nodes.len(),
{
    if nodes.len() == 0 {
        None
    } else {
        match search_cycle(arcs, Seq::empty(), nodes[0]) {
            Some(c) => Some(c),
            None => first_cycle(nodes.skip(1), arcs),
        }
    }
}

/// How a cycle is written: its vertices, quoted, with arrows between.
pub open spec fn cycle_text(c: Option<Seq<Seq<char>>>) -> Seq<char> {
    match c {
        Some(c) => text::joined(Seq::new(c.len(), |i: int| text::debug_form(c[i])), " -> "@),
        None => "unknown"@,
    }
}

/// Some arc leads to `v`.
spec fn is_head<A>(arcs: Seq<(A, A)>, v: A) -> bool {
    exists|k: int| 0 <= k < arcs.len() && (#[trigger] arcs[k]).1 == v
}

/// A search path: no vertex twice, and all but the first entered by an arc.
spec fn search_path<A>(arcs: Seq<(A, A)>, path: Seq<A>) -> bool {
    &&& path.no_duplicates()
    &&& forall|i: int| 1 <= i < path.len() ==> is_head(arcs, #[trigger] path[i])
}

/// A search path is at most one longer than there are arcs.
proof fn lemma_path_short<A>(arcs: Seq<(A, A)>, path: Seq<A>)
    requires
        search_path(arcs, path),
    ensures
        path.len() <= arcs.len() + 1,
{
    let heads = Seq::new(arcs.len(), |k: int| arcs[k].1);
    if path.len() > 0 {
        let tail = path.skip(1);
        assert forall|j: int| 0 <= j < tail.len() implies heads.contains(#[trigger] tail[j]) by {
            assert(is_head(arcs, path[j + 1]));
            let k = choose|k: int| 0 <= k < arcs.len() && (#[trigger] arcs[k]).1 == path[j + 1];
            assert(heads[k] == tail[j]);
        }
        lemma_fits(tail, heads);
    }
}

/// Writes the part of the path from `start` on, and `node` again.
fn write_cycle<T: Label>(path: &Vec<T>, start: usize, node: &T) -> (r: String)
    requires
        start <= path@.len(),
    ensures
        r@ == cycle_text(Some(labels(path@).skip(start as int).push(node.label()))),
{
    let ghost cycle = labels(path@).skip(start as int).push(node.label());
    let ghost quoted = Seq::new(cycle.len(), |i: int| text::debug_form(cycle[i]));
    let mut parts: Vec<String> = Vec::new();
    let mut i: usize = start;
    while i < path.len()
        invariant
            start <= i <= path@.len(),
            cycle == labels(path@).skip(start as int).push(node.label()),
            quoted == Seq::new(cycle.len(), |i: int| text::debug_form(cycle[i])),
            parts.deep_view() == quoted.take(i - start),
        decreases path@.len() - i,
    {
        let t = path[i].text_label();
        let ghost before = parts.deep_view();
        parts.push(text::debug_text(t.as_str()));
        proof {
            assert(parts.deep_view() =~= before.push(text::debug_form(path@[i as int].label())));
            assert(quoted[i - start] == text::debug_form(path@[i as int].label()));
            assert(quoted.take(i + 1 - start) =~= quoted.take(i - start).push(quoted[i - start]));
        }
        i = i + 1;
    }
    let t = node.text_label();
    let ghost before = parts.deep_view();
    parts.push(text::debug_text(t.as_str()));
    proof {
        assert(parts.deep_view() =~= before.push(text::debug_form(node.label())));
        assert(parts.deep_view() =~= quoted);
    }
    text::join(parts.as_slice(), " -> ")
}

/// Searches for a cycle from `node`, with `path` leading to it.
fn dfs_find_cycle<T: Label>(node: &T, edges: &[(T, T)], path: &mut Vec<T>) -> (r: Option<String>)
    requires
        search_path(label_arcs(edges@), labels(old(path)@)),
        old(path)@.len() > 0 ==> is_head(label_arcs(edges@), node.label()),
    ensures
        match r {
            Some(s) => {
                let c = search_cycle(label_arcs(edges@), labels(old(path)@), node.label());
                c is Some && s@ == cycle_text(c)
            },
            None => {
                &&& search_cycle(label_arcs(edges@), labels(old(path)@), node.label()) is None
                &&& labels(final(path)@) == labels(old(path)@)
            },
        },
    decreases edges@.len() + 2 - old(path)@.len(),
{
    let ghost arcs = label_arcs(edges@);
    let ghost trail = labels(path@);
    let mut i: usize = 0;
    while i < path.len()
        invariant
            i <= path@.len(),
            path@ == old(path)@,
            trail == labels(path@),
            forall|j: int| 0 <= j < i ==> trail[j] != node.label(),
        decreases path@.len() - i,
    {
        if path[i].same_label(node) {
            proof {
                assert(trail[i as int] == node.label());
                trail.index_of_first_ensures(node.label());
            }
            return Some(write_cycle(path, i, node));
        }
        i = i + 1;
    }
    proof {
        assert(!trail.contains(node.label()));
    }
    path.push(node.copy_label());
    let ghost longer = labels(path@);
    proof {
        assert(longer =~= trail.push(node.label()));
        assert(search_path(arcs, longer));
        lemma_path_short(arcs, longer);
    }
    let mut k: usize = 0;
    while k < edges.len()
        invariant
            k <= edges@.len(),
            arcs == label_arcs(edges@),
            trail == labels(old(path)@),
            longer == trail.push(node.label()),
            longer.len() <= arcs.len() + 1,
            search_path(arcs, longer),
            !trail.contains(node.label()),
            labels(path@) == longer,
            search_cycle(arcs, trail, node.label()) == search_arcs(
                arcs,
                longer,
                node.label(),
                k as nat,
            ),
        decreases edges@.len() - k,
    {
        if edges[k].0.same_label(node) {
            proof {
                assert(arcs[k as int] == (edges@[k as int].0.label(), edges@[k as int].1.label()));
                assert(is_head(arcs, edges@[k as int].1.label()));
                assert(path@.len() == longer.len());
            }
            match dfs_find_cycle(&edges[k].1, edges, path) {
                Some(cycle) => {
                    return Some(cycle);
                },
                None => {},
            }
        }
        k = k + 1;
    }
    let ghost full = path@;
    let _ = path.pop();
    proof {
        assert(labels(full).len() == longer.len());
        assert forall|i: int| 0 <= i < trail.len() implies labels(path@)[i] == trail[i] by {
            assert(labels(full)[i] == longer[i]);
        }
        assert(labels(path@) =~= trail);
    }
    None
}

/// The first cycle that a search from the vertices finds, as text, or
/// `unknown` where there is none.
fn find_cycle_path<T: Label>(nodes: &[T], edges: &[(T, T)]) -> (r: String)
    ensures
        r@ == cycle_text(first_cycle(labels(nodes@), label_arcs(edges@))),
{
    let ghost all = labels(nodes@);
    let ghost arcs = label_arcs(edges@);
    let mut path: Vec<T> = Vec::new();
    let mut i: usize = 0;
    proof {
        assert(all.skip(0) =~= all);
        assert(labels(path@) =~= Seq::empty());
    }
    while i < nodes.len()
        invariant
            i <= nodes@.len(),
            all == labels(nodes@),
            arcs == label_arcs(edges@),
            labels(path@) == Seq::<Seq<char>>::empty(),
            first_cycle(all, arcs) == first_cycle(all.skip(i as int), arcs),
        decreases nodes@.len() - i,
    {
        proof {
            assert(all.skip(i as int).skip(1) =~= all.skip(i + 1));
            assert(all.skip(i as int)[0] == nodes@[i as int].label());
            assert(path@.len() == labels(path@).len());
        }
        match dfs_find_cycle(&nodes[i], edges, &mut path) {
            Some(cycle) => {
                return cycle;
            },
            None => {},
        }
        i = i + 1;
    }
    "unknown".to_owned()
}

/// Lists the vertices so that each comes after all its predecessors. Where that
/// is not possible for exactly as many vertices as were given, the error names
/// a cycle.
pub fn topological_sort<T: Label>(nodes: &[T], edges: &[(T, T)]) -> (r: Result<Vec<T>, String>)
    ensures
        match r {
            Ok(order) => {
                &&& labels(order@) == sorted_order(labels(nodes@), label_arcs(edges@))
                &&& settles(labels(nodes@), label_arcs(edges@), labels(order@))
                &&& order@.len() == nodes@.len()
            },
            Err(message) => {
                &&& sorted_order(labels(nodes@), label_arcs(edges@)).len() != nodes@.len()
                &&& settles(
                    labels(nodes@),
                    label_arcs(edges@),
                    sorted_order(labels(nodes@), label_arcs(edges@)),
                )
                &&& message@ == "cycle detected: "@ + cycle_text(
                    first_cycle(labels(nodes@), label_arcs(edges@)),
                )
            },
        },
{
    let g = number_graph(nodes, edges);
    let order = settle_order(g.verts.len(), &g.nodes, &g.arcs);
    let ghost names = labels(g.verts@);
    proof {
        assert forall|i: int| 0 <= i < g.nodes@.len() implies #[trigger] g.nodes@[i]
            < g.verts@.len() by {}
        lemma_settles_named(
            names,
            g.nodes@,
            g.arcs@,
            labels(nodes@),
            label_arcs(edges@),
            order@,
        );
        assert(names.len() == g.verts.len());
        lemma_named_queue(
            names,
            g.nodes@,
            g.arcs@,
            labels(nodes@),
            label_arcs(edges@),
            names.len(),
        );
        assert(named(names, order@) == sorted_order(labels(nodes@), label_arcs(edges@)));
    }
    if order.len() != nodes.len() {
        let mut message = "cycle detected: ".to_owned();
        let path = find_cycle_path(nodes, edges);
        text::push_text(&mut message, path.as_str());
        proof {
            assert(named(names, order@).len() != nodes@.len());
        }
        return Err(message);
    }
    let mut out: Vec<T> = Vec::new();
    let mut j: usize = 0;
    while j < order.len()
        invariant
            j <= order@.len(),
            names == labels(g.verts@),
            forall|i: int| 0 <= i < order@.len() ==> #[trigger] order@[i] < g.verts@.len(),
            labels(out@) == named(names, order@).take(j as int),
        decreases order@.len() - j,
    {
        let ghost before = labels(out@);
        out.push(g.verts[order[j]].copy_label());
        proof {
            assert(labels(out@) =~= before.push(names[order@[j as int] as int]));
            assert(named(names, order@).take(j + 1) =~= named(names, order@).take(j as int).push(
                named(names, order@)[j as int],
            ));
        }
        j = j + 1;
    }
    proof {
        assert(named(names, order@).take(order@.len() as int) =~= named(names, order@));
        assert(labels(out@).len() == out@.len());
    }
    Ok(out)
}

/// The names of the members of each component.
pub open spec fn comp_labels<T: Label>(comps: Seq<Vec<T>>) -> Seq<Seq<Seq<char>>> {
    Seq::new(comps.len(), |i: int| labels(comps[i]@))
}

/// Components of numbered vertices name components of the vertices.
proof fn lemma_components_named<A>(
    names: Seq<A>,
    small_nodes: Seq<usize>,
    small: Seq<(usize, usize)>,
    nodes: Seq<A>,
    arcs: Seq<(A, A)>,
    comps: Seq<Seq<usize>>,
)
    requires
        digraph::numbered(names, small, arcs),
        numbered_nodes(names, small_nodes, nodes),
        digraph::components(small, small_nodes, comps),
        forall|i: int, j: int|
            0 <= i < comps.len() && 0 <= j < comps[i].len() ==> #[trigger] comps[i][j]
                < names.len(),
    ensures
        digraph::components(
            arcs,
            nodes,
            Seq::new(comps.len(), |i: int| named(names, comps[i])),
        ),
{
    let out = Seq::new(comps.len(), |i: int| named(names, comps[i]));
    assert forall|i: int, v: A| 0 <= i < out.len() && #[trigger] out[i].contains(v) implies exists|
        x: usize,
    |
        x < names.len() && names[x as int] == v && #[trigger] comps[i].contains(x) by {
        let j = out[i].index_of(v);
        assert(comps[i].contains(comps[i][j]));
    }
    assert forall|i: int, x: usize| 0 <= i < comps.len() && #[trigger] comps[i].contains(
        x,
    ) implies x < names.len() && out[i].contains(names[x as int]) by {
        let j = comps[i].index_of(x);
        assert(comps[i][j] < names.len());
        assert(out[i][j] == names[x as int]);
    }
    assert forall|i: int| 0 <= i < out.len() implies (#[trigger] out[i]).len() > 0 by {
        assert(comps[i].len() > 0);
    }
    assert forall|i: int| 0 <= i < out.len() implies (#[trigger] out[i]).no_duplicates() by {
        assert(comps[i].no_duplicates());
        assert forall|a: int, b: int|
            0 <= a < out[i].len() && 0 <= b < out[i].len() && a != b implies out[i][a]
            != out[i][b] by {
            assert(comps[i][a] < names.len() && comps[i][b] < names.len());
        }
    }
    assert forall|v: A|
        #![trigger digraph::in_some(out, v)]
        digraph::in_some(out, v) <==> exists|r: A|
            nodes.contains(r) && #[trigger] digraph::reaches(arcs, r, v) by {
        if digraph::in_some(out, v) {
            let i = choose|i: int| 0 <= i < out.len() && (#[trigger] out[i]).contains(v);
            let x = choose|x: usize|
                x < names.len() && names[x as int] == v && #[trigger] comps[i].contains(x);
            assert(digraph::in_some(comps, x));
            let r = choose|r: usize|
                small_nodes.contains(r) && #[trigger] digraph::reaches(small, r, x);
            let m = small_nodes.index_of(r);
            assert(small_nodes[m] == r);
            assert(nodes[m] == names[r as int]);
            digraph::lemma_reaches_numbered(names, small, arcs, r, x);
            assert(nodes.contains(nodes[m]) && digraph::reaches(arcs, nodes[m], v));
        }
        if exists|r: A| nodes.contains(r) && #[trigger] digraph::reaches(arcs, r, v) {
            let r = choose|r: A| nodes.contains(r) && #[trigger] digraph::reaches(arcs, r, v);
            let m = nodes.index_of(r);
            let s = small_nodes[m];
            assert(names[s as int] == r);
            lemma_reached_named(names, small, arcs, s, v);
            let x = choose|x: usize| x < names.len() && #[trigger] names[x as int] == v;
            digraph::lemma_reaches_numbered(names, small, arcs, s, x);
            assert(small_nodes.contains(s));
            assert(digraph::reaches(small, s, x));
            assert(digraph::in_some(comps, x));
            let i = choose|i: int| 0 <= i < comps.len() && (#[trigger] comps[i]).contains(x);
            assert(out[i].contains(v));
        }
    }
    assert forall|i: int, j: int, v: A, w: A|
        #![trigger out[i].contains(v), out[j].contains(w)]
        0 <= i < out.len() && 0 <= j < out.len() && out[i].contains(v) && out[j].contains(
            w,
        ) implies {
        &&& digraph::mutual(arcs, v, w) <==> i == j
        &&& digraph::reaches(arcs, v, w) ==> j <= i
    } by {
        let x = choose|x: usize|
            x < names.len() && names[x as int] == v && #[trigger] comps[i].contains(x);
        let y = choose|y: usize|
            y < names.len() && names[y as int] == w && #[trigger] comps[j].contains(y);
        digraph::lemma_reaches_numbered(names, small, arcs, x, y);
        digraph::lemma_reaches_numbered(names, small, arcs, y, x);
        assert(comps[i].contains(x) && comps[j].contains(y));
        assert(digraph::mutual(small, x, y) <==> i == j);
    }
}

/// Whatever a numbered vertex reaches has a number.
proof fn lemma_reached_named<A>(
    names: Seq<A>,
    small: Seq<(usize, usize)>,
    arcs: Seq<(A, A)>,
    s: usize,
    v: A,
)
    requires
        digraph::numbered(names, small, arcs),
        s < names.len(),
        digraph::reaches(arcs, names[s as int], v),
    ensures
        exists|x: usize| x < names.len() && #[trigger] names[x as int] == v,
{
    let has = |a: A| exists|x: usize| x < names.len() && #[trigger] names[x as int] == a;
    assert forall|k: int| 0 <= k < arcs.len() && has((#[trigger] arcs[k]).0) implies has(
        arcs[k].1,
    ) by {
        assert(small[k].1 < names.len());
        assert(names[small[k].1 as int] == arcs[k].1);
    }
    assert(names[s as int] == names[s as int]);
    assert(has(names[s as int]));
    digraph::lemma_reaches_closed(arcs, has, names[s as int], v);
}

/// The strongly connected components of all that the vertices reach: two
/// vertices are in one component when each reaches the other, and a component
/// comes after those that it reaches.
pub fn tarjan_scc<T: Label>(nodes: &[T], edges: &[(T, T)]) -> (r: Vec<Vec<T>>)
    ensures
        digraph::components(label_arcs(edges@), labels(nodes@), comp_labels(r@)),
{
    let g = number_graph(nodes, edges);
    let comps = digraph::strong_components(g.verts.len(), &g.nodes, &g.arcs);
    let ghost names = labels(g.verts@);
    let ghost small = Seq::new(comps@.len(), |i: int| comps@[i]@);
    let ghost wanted = Seq::new(small.len(), |i: int| named(names, small[i]));
    proof {
        lemma_components_named(names, g.nodes@, g.arcs@, labels(nodes@), label_arcs(edges@), small);
    }
    let mut out: Vec<Vec<T>> = Vec::new();
    let mut i: usize = 0;
    while i < comps.len()
        invariant
            i <= comps@.len(),
            names == labels(g.verts@),
            small == Seq::new(comps@.len(), |i: int| comps@[i]@),
            wanted == Seq::new(small.len(), |i: int| named(names, small[i])),
            forall|a: int, b: int|
                0 <= a < comps@.len() && 0 <= b < comps@[a]@.len() ==> #[trigger] comps@[a]@[b]
                    < g.verts@.len(),
            comp_labels(out@) == wanted.take(i as int),
        decreases comps@.len() - i,
    {
        let mut comp: Vec<T> = Vec::new();
        let mut j: usize = 0;
        while j < comps[i].len()
            invariant
                i < comps@.len(),
                j <= comps@[i as int]@.len(),
                names == labels(g.verts@),
                forall|a: int, b: int|
                    0 <= a < comps@.len() && 0 <= b < comps@[a]@.len() ==> #[trigger] comps@[a]@[b]
                        < g.verts@.len(),
                labels(comp@) == named(names, comps@[i as int]@).take(j as int),
            decreases comps@[i as int]@.len() - j,
        {
            let v: usize = comps[i][j];
            let ghost before = labels(comp@);
            comp.push(g.verts[v].copy_label());
            proof {
                let full = named(names, comps@[i as int]@);
                assert(labels(comp@) =~= before.push(names[v as int]));
                assert(full.take(j + 1) =~= full.take(j as int).push(full[j as int]));
            }
            j = j + 1;
        }
        let ghost before = comp_labels(out@);
        let ghost members = labels(comp@);
        out.push(comp);
        proof {
            let full = named(names, comps@[i as int]@);
            assert(full.take(full.len() as int) =~= full);
            assert(comp_labels(out@) =~= before.push(members));
            assert(wanted.take(i + 1) =~= wanted.take(i as int).push(wanted[i as int]));
        }
        i = i + 1;
    }
    proof {
        assert(wanted.take(wanted.len() as int) =~= wanted);
    }
    out
}

/// A walk of at least one step that ends where it began.
pub open spec fn is_cycle<A>(arcs: Seq<(A, A)>, p: Seq<A>) -> bool {
    digraph::is_walk(arcs, p) && p.len() >= 2 && p[0] == p.last()
}

/// Every arc joins listed vertices.
pub open spec fn closed_over<A>(nodes: Seq<A>, arcs: Seq<(A, A)>) -> bool {
    forall|k: int|
        0 <= k < arcs.len() ==> nodes.contains((#[trigger] arcs[k]).0) && nodes.contains(arcs[k].1)
}

/// Two orders of one graph list the same vertices: which vertices are left out
/// does not depend on the order in which the others were taken.
pub proof fn lemma_settled_vertices_agree<A>(
    nodes: Seq<A>,
    arcs: Seq<(A, A)>,
    one: Seq<A>,
    other: Seq<A>,
)
    requires
        settles(nodes, arcs, one),
        settles(nodes, arcs, other),
    ensures
        forall|v: A| one.contains(v) <==> other.contains(v),
        one.len() == other.len(),
{
    lemma_settled_within(nodes, arcs, one, other, one.len() as int);
    lemma_settled_within(nodes, arcs, other, one, other.len() as int);
    assert(one.take(one.len() as int) =~= one);
    assert(other.take(other.len() as int) =~= other);
    assert forall|v: A| one.contains(v) <==> other.contains(v) by {
        if one.contains(v) {
            assert(one[one.index_of(v)] == v);
        }
        if other.contains(v) {
            assert(other[other.index_of(v)] == v);
        }
    }
    lemma_fits(one, other);
    lemma_fits(other, one);
}

proof fn lemma_settled_within<A>(
    nodes: Seq<A>,
    arcs: Seq<(A, A)>,
    one: Seq<A>,
    other: Seq<A>,
    j: int,
)
    requires
        settles(nodes, arcs, one),
        settles(nodes, arcs, other),
        0 <= j <= one.len(),
    ensures
        forall|i: int| 0 <= i < j ==> other.contains(#[trigger] one[i]),
    decreases j,
{
    if j > 0 {
        lemma_settled_within(nodes, arcs, one, other, j - 1);
        let v = one[j - 1];
        assert(fed_by(arcs, one.take(j - 1), v));
        assert forall|k: int| 0 <= k < arcs.len() && (#[trigger] arcs[k]).1 == v implies other.contains(
            arcs[k].0,
        ) by {
            let m = one.take(j - 1).index_of(arcs[k].0);
            assert(one[m] == arcs[k].0);
        }
        assert(is_vertex(nodes, arcs, v));
    }
}

/// What the search returns is a cycle of the graph.
pub proof fn lemma_found_cycle_is_real<A>(nodes: Seq<A>, arcs: Seq<(A, A)>)
    ensures
        first_cycle(nodes, arcs) matches Some(c) ==> is_cycle(arcs, c),
    decreases nodes.len(),
{
    if nodes.len() > 0 {
        lemma_search_real(arcs, Seq::empty(), nodes[0]);
        lemma_found_cycle_is_real(nodes.skip(1), arcs);
    }
}

/// `path` followed by `node` is a walk, or `path` is empty.
spec fn leads_to<A>(arcs: Seq<(A, A)>, path: Seq<A>, node: A) -> bool {
    digraph::is_walk(arcs, path.push(node))
}

proof fn lemma_search_real<A>(arcs: Seq<(A, A)>, path: Seq<A>, node: A)
    requires
        leads_to(arcs, path, node),
    ensures
        search_cycle(arcs, path, node) matches Some(c) ==> is_cycle(arcs, c),
    decreases arcs.len() + 2 - path.len(), 0nat,
{
    if path.contains(node) {
        path.index_of_first_ensures(node);
        let at = path.index_of_first(node)->0;
        let whole = path.push(node);
        let c = path.skip(at).push(node);
        assert forall|i: int| 0 <= i < c.len() - 1 implies #[trigger] digraph::step(arcs, c, i) by {
            assert(digraph::step(arcs, whole, i + at));
        }
    } else if path.len() > arcs.len() {
    } else {
        lemma_arcs_real(arcs, path.push(node), node, 0);
    }
}

proof fn lemma_arcs_real<A>(arcs: Seq<(A, A)>, path: Seq<A>, node: A, k: nat)
    requires
        digraph::is_walk(arcs, path),
        path.last() == node,
    ensures
        search_arcs(arcs, path, node, k) matches Some(c) ==> is_cycle(arcs, c),
    decreases arcs.len() + 2 - path.len(), arcs.len() + 1 - k,
{
    if k < arcs.len() {
        if arcs[k as int].0 == node {
            let to = arcs[k as int].1;
            let longer = path.push(to);
            assert forall|i: int| 0 <= i < longer.len() - 1 implies #[trigger] digraph::step(
                arcs,
                longer,
                i,
            ) by {
                if i < path.len() - 1 {
                    assert(digraph::step(arcs, path, i));
                } else {
                    assert(arcs.contains(arcs[k as int]));
                }
            }
            lemma_search_real(arcs, path, to);
        }
        lemma_arcs_real(arcs, path, node, k + 1);
    }
}

/// The vertices of a cycle that the search names are distinct: it comes back to its
/// first vertex alone.
pub proof fn lemma_found_cycle_is_simple<A>(nodes: Seq<A>, arcs: Seq<(A, A)>)
    ensures
        first_cycle(nodes, arcs) matches Some(c) ==> is_cycle(arcs, c)
            && c.drop_last().no_duplicates(),
    decreases nodes.len(),
{
    lemma_found_cycle_is_real(nodes, arcs);
    if nodes.len() > 0 {
        lemma_search_simple(arcs, Seq::empty(), nodes[0]);
        lemma_found_cycle_is_simple(nodes.skip(1), arcs);
    }
}

proof fn lemma_search_simple<A>(arcs: Seq<(A, A)>, path: Seq<A>, node: A)
    requires
        path.no_duplicates(),
    ensures
        search_cycle(arcs, path, node) matches Some(c) ==> c.drop_last().no_duplicates(),
    decreases arcs.len() + 2 - path.len(), 0nat,
{
    if path.contains(node) {
        path.index_of_first_ensures(node);
        let at = path.index_of_first(node)->0;
        let rest = path.skip(at);
        assert(rest.push(node).drop_last() =~= rest);
        assert forall|i: int, j: int| 0 <= i < rest.len() && 0 <= j < rest.len() && i
            != j implies rest[i] != rest[j] by {
            assert(path[i + at] != path[j + at]);
        }
    } else if path.len() > arcs.len() {
    } else {
        let longer = path.push(node);
        assert forall|i: int, j: int| 0 <= i < longer.len() && 0 <= j < longer.len() && i
            != j implies longer[i] != longer[j] by {
            if i < path.len() {
                assert(path.contains(path[i]));
            }
            if j < path.len() {
                assert(path.contains(path[j]));
            }
        }
        lemma_arcs_simple(arcs, longer, node, 0);
    }
}

proof fn lemma_arcs_simple<A>(arcs: Seq<(A, A)>, path: Seq<A>, node: A, k: nat)
    requires
        path.no_duplicates(),
    ensures
        search_arcs(arcs, path, node, k) matches Some(c) ==> c.drop_last().no_duplicates(),
    decreases arcs.len() + 2 - path.len(), arcs.len() + 1 - k,
{
    if k < arcs.len() {
        if arcs[k as int].0 == node {
            lemma_search_simple(arcs, path, arcs[k as int].1);
        }
        lemma_arcs_simple(arcs, path, node, k + 1);
    }
}

/// Where the search from `node` finds nothing, no walk from there comes back
/// to itself or to the path.
proof fn lemma_search_complete<A>(arcs: Seq<(A, A)>, path: Seq<A>, node: A, p: Seq<A>)
    requires
        search_path(arcs, path),
        path.len() > 0 ==> is_head(arcs, node),
        search_cycle(arcs, path, node) is None,
        digraph::is_walk(arcs, p),
        p[0] == node,
    ensures
        (path + p).no_duplicates(),
    decreases p.len(),
{
    let longer = path.push(node);
    assert(search_path(arcs, longer));
    lemma_path_short(arcs, longer);
    if p.len() == 1 {
        assert(path + p =~= longer);
    } else {
        let rest = p.skip(1);
        assert(digraph::step(arcs, p, 0));
        let k = arcs.index_of((p[0], p[1]));
        assert(arcs[k] == (p[0], p[1]));
        lemma_arcs_none(arcs, longer, node, 0, k as nat);
        assert forall|i: int| 0 <= i < rest.len() - 1 implies #[trigger] digraph::step(
            arcs,
            rest,
            i,
        ) by {
            assert(digraph::step(arcs, p, i + 1));
        }
        assert(is_head(arcs, p[1]));
        lemma_search_complete(arcs, longer, p[1], rest);
        assert(longer + rest =~= path + p);
    }
}

proof fn lemma_arcs_none<A>(arcs: Seq<(A, A)>, path: Seq<A>, node: A, from: nat, k: nat)
    requires
        search_arcs(arcs, path, node, from) is None,
        from <= k < arcs.len(),
        arcs[k as int].0 == node,
    ensures
        search_cycle(arcs, path, arcs[k as int].1) is None,
    decreases k - from,
{
    if from < k {
        lemma_arcs_none(arcs, path, node, from + 1, k);
    }
}

proof fn lemma_first_none<A>(nodes: Seq<A>, arcs: Seq<(A, A)>, v: A)
    requires
        first_cycle(nodes, arcs) is None,
        nodes.contains(v),
    ensures
        search_cycle(arcs, Seq::empty(), v) is None,
    decreases nodes.len(),
{
    if nodes[0] != v {
        let i = nodes.index_of(v);
        assert(nodes.skip(1)[i - 1] == v);
        lemma_first_none(nodes.skip(1), arcs, v);
    }
}

/// From a vertex that cannot be listed one can walk back as far as one likes.
proof fn lemma_walk_back<A>(
    nodes: Seq<A>,
    arcs: Seq<(A, A)>,
    order: Seq<A>,
    v: A,
    len: nat,
) -> (p: Seq<A>)
    requires
        settles(nodes, arcs, order),
        closed_over(nodes, arcs),
        nodes.contains(v),
        !order.contains(v),
        len >= 1,
    ensures
        p.len() == len,
        digraph::is_walk(arcs, p),
        forall|i: int| 0 <= i < p.len() ==> nodes.contains(#[trigger] p[i]) && !order.contains(p[i]),
    decreases len,
{
    if len == 1 {
        seq![v]
    } else {
        let q = lemma_walk_back(nodes, arcs, order, v, (len - 1) as nat);
        let first = q[0];
        assert(is_vertex(nodes, arcs, first));
        assert(!fed_by(arcs, order, first));
        let k = choose|k: int|
            0 <= k < arcs.len() && (#[trigger] arcs[k]).1 == first && !order.contains(arcs[k].0);
        let p = seq![arcs[k].0] + q;
        assert forall|i: int| 0 <= i < p.len() - 1 implies #[trigger] digraph::step(arcs, p, i) by {
            if i == 0 {
                assert(arcs.contains(arcs[k]));
                assert(p[0] == arcs[k].0 && p[1] == arcs[k].1);
            } else {
                assert(digraph::step(arcs, q, i - 1));
            }
        }
        assert forall|i: int| 0 <= i < p.len() implies nodes.contains(#[trigger] p[i])
            && !order.contains(p[i]) by {
            if i > 0 {
                assert(p[i] == q[i - 1]);
            }
        }
        p
    }
}

/// Vertices that are left out lie on or behind a cycle, and the search finds
/// one.
proof fn lemma_left_out_cycle<A>(nodes: Seq<A>, arcs: Seq<(A, A)>, order: Seq<A>)
    requires
        nodes.no_duplicates(),
        closed_over(nodes, arcs),
        settles(nodes, arcs, order),
        order.len() != nodes.len(),
    ensures
        first_cycle(nodes, arcs) is Some,
{
    assert forall|j: int| 0 <= j < order.len() implies nodes.contains(#[trigger] order[j]) by {
        assert(is_vertex(nodes, arcs, order[j]));
    }
    lemma_fits(order, nodes);
    if forall|j: int| 0 <= j < nodes.len() ==> order.contains(#[trigger] nodes[j]) {
        lemma_fits(nodes, order);
    }
    let j = choose|j: int| 0 <= j < nodes.len() && !order.contains(#[trigger] nodes[j]);
    let p = lemma_walk_back(nodes, arcs, order, nodes[j], nodes.len() + 1);
    if first_cycle(nodes, arcs) is None {
        assert(nodes.contains(p[0]));
        lemma_first_none(nodes, arcs, p[0]);
        lemma_search_complete(arcs, Seq::empty(), p[0], p);
        assert(Seq::empty() + p =~= p);
        lemma_fits(p, nodes);
    }
}

/// Along a walk inside a complete order the places grow.
proof fn lemma_walk_ascends<A>(nodes: Seq<A>, arcs: Seq<(A, A)>, order: Seq<A>, p: Seq<A>, i: int)
    requires
        settles(nodes, arcs, order),
        digraph::is_walk(arcs, p),
        0 <= i < p.len(),
        forall|v: A| nodes.contains(v) ==> #[trigger] order.contains(v),
        closed_over(nodes, arcs),
        order.contains(p[0]),
    ensures
        order.contains(p[i]),
        order.index_of(p[0]) + i <= order.index_of(p[i]),
    decreases i,
{
    if i > 0 {
        lemma_walk_ascends(nodes, arcs, order, p, i - 1);
        assert(digraph::step(arcs, p, i - 1));
        let k = arcs.index_of((p[i - 1], p[i]));
        assert(arcs[k] == (p[i - 1], p[i]));
        assert(nodes.contains(arcs[k].1));
        assert(order.contains(p[i]));
        let at = order.index_of(p[i]);
        assert(order[at] == p[i]);
        assert(fed_by(arcs, order.take(at), order[at]));
        let m = order.take(at).index_of(p[i - 1]);
        assert(order[m] == p[i - 1]);
        assert(order[order.index_of(p[i - 1])] == p[i - 1]);
    }
}

/// Where the vertices are listed once each and every arc joins two of them, all
/// of them can be put in order exactly when the graph has no cycle. Where they
/// cannot, the search finds a cycle to name.
pub proof fn lemma_order_iff_acyclic<A>(nodes: Seq<A>, arcs: Seq<(A, A)>, order: Seq<A>)
    requires
        nodes.no_duplicates(),
        closed_over(nodes, arcs),
        settles(nodes, arcs, order),
    ensures
        order.len() == nodes.len() <==> !exists|p: Seq<A>| is_cycle(arcs, p),
        order.len() != nodes.len() <==> first_cycle(nodes, arcs) is Some,
{
    lemma_found_cycle_is_real(nodes, arcs);
    if order.len() != nodes.len() {
        lemma_left_out_cycle(nodes, arcs, order);
        assert(is_cycle(arcs, first_cycle(nodes, arcs)->0));
    } else if exists|p: Seq<A>| is_cycle(arcs, p) {
        let p = choose|p: Seq<A>| is_cycle(arcs, p);
        assert forall|j: int| 0 <= j < order.len() implies nodes.contains(#[trigger] order[j]) by {
            assert(is_vertex(nodes, arcs, order[j]));
        }
        assert forall|v: A| nodes.contains(v) implies #[trigger] order.contains(v) by {
            if !order.contains(v) {
                let more = order.push(v);
                assert forall|j: int| 0 <= j < more.len() implies nodes.contains(
                    #[trigger] more[j],
                ) by {
                    if j < order.len() {
                        assert(more[j] == order[j]);
                    }
                }
                lemma_fits(more, nodes);
            }
        }
        assert(digraph::step(arcs, p, 0));
        let k = arcs.index_of((p[0], p[1]));
        assert(arcs[k] == (p[0], p[1]));
        assert(nodes.contains(p[0]));
        lemma_walk_ascends(nodes, arcs, order, p, p.len() - 1);
        assert(false);
    }
}

} // verus!
