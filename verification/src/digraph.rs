//! Directed graphs over dense vertex numbers: reachability and strongly
//! connected components.
//!
//! The specification functions are generic in the vertex type, so the same
//! words describe graphs over numbers and graphs over names.
use vstd::prelude::*;

verus! {

/// The `i`-th step of the walk `p` follows an arc.
pub open spec fn step<A>(arcs: Seq<(A, A)>, p: Seq<A>, i: int) -> bool {
    arcs.contains((p[i], p[i + 1]))
}

/// A non-empty walk along arcs.
pub open spec fn is_walk<A>(arcs: Seq<(A, A)>, p: Seq<A>) -> bool {
    &&& p.len() >= 1
    &&& forall|i: int| 0 <= i < p.len() - 1 ==> #[trigger] step(arcs, p, i)
}

/// `p` is a walk from `a` to `b`.
pub open spec fn walk_between<A>(arcs: Seq<(A, A)>, p: Seq<A>, a: A, b: A) -> bool {
    is_walk(arcs, p) && p[0] == a && p.last() == b
}

/// `b` can be reached from `a` along arcs (every vertex reaches itself).
pub open spec fn reaches<A>(arcs: Seq<(A, A)>, a: A, b: A) -> bool {
    exists|p: Seq<A>| walk_between(arcs, p, a, b)
}

/// Each of the two vertices reaches the other.
pub open spec fn mutual<A>(arcs: Seq<(A, A)>, a: A, b: A) -> bool {
    reaches(arcs, a, b) && reaches(arcs, b, a)
}

pub proof fn lemma_reaches_self<A>(arcs: Seq<(A, A)>, a: A)
    ensures
        reaches(arcs, a, a),
{
    assert(walk_between(arcs, seq![a], a, a));
}

pub proof fn lemma_reaches_arc<A>(arcs: Seq<(A, A)>, a: A, b: A)
    requires
        arcs.contains((a, b)),
    ensures
        reaches(arcs, a, b),
{
    let p = seq![a, b];
    assert(step(arcs, p, 0));
    assert(walk_between(arcs, p, a, b));
}

pub proof fn lemma_reaches_trans<A>(arcs: Seq<(A, A)>, a: A, b: A, c: A)
    requires
        reaches(arcs, a, b),
        reaches(arcs, b, c),
    ensures
        reaches(arcs, a, c),
{
    let p = choose|p: Seq<A>| walk_between(arcs, p, a, b);
    let q = choose|q: Seq<A>| walk_between(arcs, q, b, c);
    let r = p + q.skip(1);
    assert forall|i: int| 0 <= i < r.len() - 1 implies #[trigger] step(arcs, r, i) by {
        if i < p.len() - 1 {
            assert(step(arcs, p, i));
        } else {
            assert(step(arcs, q, i - (p.len() - 1)));
            assert(r[i + 1] == q[i + 1 - (p.len() - 1)]);
            assert(r[i] == q[i - (p.len() - 1)]);
        }
    }
    assert(walk_between(arcs, r, a, c));
}

/// What holds of a vertex and is handed on along every arc holds of all that
/// the vertex reaches.
pub proof fn lemma_reaches_closed<A>(arcs: Seq<(A, A)>, inside: spec_fn(A) -> bool, a: A, b: A)
    requires
        inside(a),
        reaches(arcs, a, b),
        forall|k: int| 0 <= k < arcs.len() && inside((#[trigger] arcs[k]).0) ==> inside(arcs[k].1),
    ensures
        inside(b),
{
    let p = choose|p: Seq<A>| walk_between(arcs, p, a, b);
    lemma_walk_closed(arcs, inside, p, p.len() - 1);
}

proof fn lemma_walk_closed<A>(arcs: Seq<(A, A)>, inside: spec_fn(A) -> bool, p: Seq<A>, i: int)
    requires
        is_walk(arcs, p),
        0 <= i < p.len(),
        inside(p[0]),
        forall|k: int| 0 <= k < arcs.len() && inside((#[trigger] arcs[k]).0) ==> inside(arcs[k].1),
    ensures
        inside(p[i]),
    decreases i,
{
    if i > 0 {
        lemma_walk_closed(arcs, inside, p, i - 1);
        assert(step(arcs, p, i - 1));
        let k = arcs.index_of((p[i - 1], p[i]));
        assert(arcs[k] == (p[i - 1], p[i]));
    }
}

/// Numbered arcs `small` are the arcs `arcs` with each vertex written as its
/// place in `names`.
pub open spec fn numbered<A>(names: Seq<A>, small: Seq<(usize, usize)>, arcs: Seq<(A, A)>) -> bool {
    &&& names.no_duplicates()
    &&& small.len() == arcs.len()
    &&& arcs_below(small, names.len() as int)
    &&& forall|k: int|
        0 <= k < small.len() ==> #[trigger] arcs[k] == (
            names[small[k].0 as int],
            names[small[k].1 as int],
        )
}

/// Reachability does not depend on whether vertices are named or numbered.
pub proof fn lemma_reaches_numbered<A>(
    names: Seq<A>,
    small: Seq<(usize, usize)>,
    arcs: Seq<(A, A)>,
    i: usize,
    j: usize,
)
    requires
        numbered(names, small, arcs),
        i < names.len(),
        j < names.len(),
    ensures
        reaches(small, i, j) <==> reaches(arcs, names[i as int], names[j as int]),
{
    if reaches(small, i, j) {
        let inside = |x: usize| x < names.len() && reaches(arcs, names[i as int], names[x as int]);
        lemma_reaches_self(arcs, names[i as int]);
        assert forall|k: int| 0 <= k < small.len() && inside((#[trigger] small[k]).0) implies inside(
            small[k].1,
        ) by {
            assert(arcs[k] == (names[small[k].0 as int], names[small[k].1 as int]));
            assert(arcs.contains(arcs[k]));
            lemma_reaches_arc(arcs, arcs[k].0, arcs[k].1);
            lemma_reaches_trans(arcs, names[i as int], arcs[k].0, arcs[k].1);
        }
        lemma_reaches_closed(small, inside, i, j);
    }
    if reaches(arcs, names[i as int], names[j as int]) {
        let inside = |a: A|
            forall|x: usize|
                x < names.len() && #[trigger] names[x as int] == a ==> reaches(small, i, x);
        lemma_reaches_self(small, i);
        assert forall|k: int| 0 <= k < arcs.len() && inside((#[trigger] arcs[k]).0) implies inside(
            arcs[k].1,
        ) by {
            let u = small[k].0;
            let w = small[k].1;
            assert(small[k] == (u, w));
            assert(names[u as int] == arcs[k].0);
            assert(small.contains(small[k]));
            lemma_reaches_arc(small, u, w);
            lemma_reaches_trans(small, i, u, w);
            assert forall|x: usize|
                x < names.len() && #[trigger] names[x as int] == arcs[k].1 implies reaches(
                small,
                i,
                x,
            ) by {
                assert(x == w);
            }
        }
        assert(inside(names[i as int]));
        lemma_reaches_closed(arcs, inside, names[i as int], names[j as int]);
    }
}

/// The components partition what the roots reach, and are listed so that a
/// component only reaches itself and earlier ones.
pub open spec fn components<A>(arcs: Seq<(A, A)>, roots: Seq<A>, comps: Seq<Seq<A>>) -> bool {
    &&& forall|i: int| 0 <= i < comps.len() ==> (#[trigger] comps[i]).len() > 0
    &&& forall|i: int| 0 <= i < comps.len() ==> (#[trigger] comps[i]).no_duplicates()
    &&& forall|v: A|
        #![trigger in_some(comps, v)]
        in_some(comps, v) <==> exists|r: A| roots.contains(r) && #[trigger] reaches(arcs, r, v)
    &&& forall|i: int, j: int, v: A, w: A|
        #![trigger comps[i].contains(v), comps[j].contains(w)]
        0 <= i < comps.len() && 0 <= j < comps.len() && comps[i].contains(v) && comps[j].contains(w)
            ==> {
            &&& mutual(arcs, v, w) <==> i == j
            &&& reaches(arcs, v, w) ==> j <= i
        }
}

/// `v` is a member of one of the listed components.
pub open spec fn in_some<A>(comps: Seq<Seq<A>>, v: A) -> bool {
    exists|i: int| 0 <= i < comps.len() && (#[trigger] comps[i]).contains(v)
}

/// How many entries are still empty.
pub open spec fn vacant(s: Seq<Option<usize>>) -> nat
    decreases s.len(),
{
    if s.len() == 0 {
        0
    } else {
        vacant(s.drop_last()) + (if s.last() is None {
            1nat
        } else {
            0nat
        })
    }
}

proof fn lemma_vacant_fill(s: Seq<Option<usize>>, i: int, x: usize)
    requires
        0 <= i < s.len(),
        s[i] is None,
    ensures
        vacant(s.update(i, Some(x))) + 1 == vacant(s),
    decreases s.len(),
{
    let t = s.update(i, Some(x));
    if i == s.len() - 1 {
        assert(t.drop_last() =~= s.drop_last());
    } else {
        assert(t.drop_last() =~= s.drop_last().update(i, Some(x)));
        lemma_vacant_fill(s.drop_last(), i, x);
    }
}

proof fn lemma_vacant_all(s: Seq<Option<usize>>)
    requires
        forall|i: int| 0 <= i < s.len() ==> s[i] is None,
    ensures
        vacant(s) == s.len(),
    decreases s.len(),
{
    if s.len() > 0 {
        lemma_vacant_all(s.drop_last());
    }
}

proof fn lemma_vacant_pos(s: Seq<Option<usize>>, i: int)
    requires
        0 <= i < s.len(),
        s[i] is None,
    ensures
        vacant(s) > 0,
    decreases s.len(),
{
    if i < s.len() - 1 {
        lemma_vacant_pos(s.drop_last(), i);
    }
}

/// Every arc joins vertices below `n`.
pub open spec fn arcs_below(arcs: Seq<(usize, usize)>, n: int) -> bool {
    forall|k: int| 0 <= k < arcs.len() ==> (#[trigger] arcs[k]).0 < n && arcs[k].1 < n
}

/// The search state of Tarjan's algorithm.
pub struct TarjanState {
    indices: Vec<Option<usize>>,
    lowlinks: Vec<usize>,
    stack: Vec<usize>,
    on_stack: Vec<bool>,
    sccs: Vec<Vec<usize>>,
    index_counter: usize,
}

impl TarjanState {
    spec fn visited(self, x: usize) -> bool {
        self.indices@[x as int] is Some
    }

    spec fn done(self, x: usize) -> bool {
        self.visited(x) && !self.on_stack@[x as int]
    }

    spec fn num(self, x: usize) -> usize {
        self.indices@[x as int]->0
    }

    spec fn comps(self) -> Seq<Seq<usize>> {
        Seq::new(self.sccs@.len(), |i: int| self.sccs@[i]@)
    }

    /// Shapes, numbering and the stack's membership flags.
    spec fn shaped(self, n: int) -> bool {
        &&& self.indices@.len() == n
        &&& self.lowlinks@.len() == n
        &&& self.on_stack@.len() == n
        &&& self.index_counter + vacant(self.indices@) == n
        &&& self.stack@.no_duplicates()
        &&& forall|i: int| 0 <= i < self.stack@.len() ==> #[trigger] self.stack@[i] < n
        &&& forall|x: usize|
            x < n ==> (#[trigger] self.on_stack@[x as int] <==> self.stack@.contains(x))
        &&& forall|x: usize| x < n && #[trigger] self.on_stack@[x as int] ==> self.visited(x)
        &&& forall|x: usize|
            x < n && #[trigger] self.visited(x) ==> self.num(x) < self.index_counter
        &&& forall|i: int, j: int|
            0 <= i < j < self.stack@.len() ==> self.num(#[trigger] self.stack@[i]) < self.num(
                #[trigger] self.stack@[j],
            )
    }

    /// What the components found so far are.
    spec fn settled(self, arcs: Seq<(usize, usize)>, n: int) -> bool {
        let c = self.comps();
        &&& forall|i: int| 0 <= i < c.len() ==> (#[trigger] c[i]).len() > 0
        &&& forall|i: int| 0 <= i < c.len() ==> (#[trigger] c[i]).no_duplicates()
        &&& forall|x: usize| #[trigger]
            in_some(c, x) <==> x < n && self.done(x)
        &&& forall|i: int, x: usize, y: usize|
            0 <= i < c.len() && #[trigger] c[i].contains(x) && #[trigger] mutual(arcs, x, y)
                ==> c[i].contains(y)
        &&& forall|i: int, x: usize, y: usize|
            0 <= i < c.len() && #[trigger] c[i].contains(x) && #[trigger] c[i].contains(y)
                ==> reaches(arcs, x, y)
        &&& forall|i: int, j: int, x: usize, y: usize|
            0 <= i < c.len() && 0 <= j < c.len() && #[trigger] c[i].contains(x)
                && #[trigger] c[j].contains(y) && reaches(arcs, x, y) ==> j <= i
    }

    /// The invariant of the search; `gray` holds the vertices whose visit has
    /// begun and not ended.
    #[verifier::opaque]
    spec fn inv(self, arcs: Seq<(usize, usize)>, n: int, gray: Set<usize>) -> bool {
        &&& self.shaped(n)
        &&& self.settled(arcs, n)
        &&& forall|g: usize| #[trigger] gray.contains(g) ==> g < n && self.on_stack@[g as int]
        &&& forall|k: int|
            0 <= k < arcs.len() && self.visited((#[trigger] arcs[k]).0) && !gray.contains(arcs[k].0)
                ==> self.visited(arcs[k].1)
        &&& forall|k: int|
            0 <= k < arcs.len() && self.done((#[trigger] arcs[k]).0) ==> self.done(arcs[k].1)
        &&& forall|i: int, j: int|
            0 <= i <= j < self.stack@.len() ==> reaches(
                arcs,
                #[trigger] self.stack@[i],
                #[trigger] self.stack@[j],
            )
        &&& forall|j: int|
            0 <= j < self.stack@.len() ==> self.anchored(arcs, gray, #[trigger] self.stack@[j])
    }

    /// `x` reaches an unfinished vertex that is not above it on the stack.
    spec fn anchored(self, arcs: Seq<(usize, usize)>, gray: Set<usize>, x: usize) -> bool {
        exists|g: usize| #[trigger]
            gray.contains(g) && self.num(g) <= self.num(x) && reaches(arcs, x, g)
    }
}

/// Only the low links differ, and the search invariant does not read them.
proof fn lemma_inv_ignores_lowlinks(
    a: TarjanState,
    b: TarjanState,
    arcs: Seq<(usize, usize)>,
    n: int,
    gray: Set<usize>,
)
    requires
        a.inv(arcs, n, gray),
        b.indices == a.indices,
        b.stack == a.stack,
        b.on_stack == a.on_stack,
        b.sccs == a.sccs,
        b.index_counter == a.index_counter,
        b.lowlinks@.len() == a.lowlinks@.len(),
    ensures
        b.inv(arcs, n, gray),
{
    reveal(TarjanState::inv);
    assert forall|j: int| 0 <= j < b.stack@.len() implies b.anchored(
        arcs,
        gray,
        #[trigger] b.stack@[j],
    ) by {
        assert(a.anchored(arcs, gray, a.stack@[j]));
        let g = choose|g: usize| #[trigger]
            gray.contains(g) && a.num(g) <= a.num(a.stack@[j]) && reaches(arcs, a.stack@[j], g);
        assert(gray.contains(g));
    }
    assert forall|x: usize| x < n && #[trigger] b.on_stack@[x as int] implies b.visited(x) by {
        assert(a.visited(x));
    }
    assert forall|x: usize| x < n && #[trigger] b.visited(x) implies b.num(x)
        < b.index_counter by {
        assert(a.visited(x));
    }
    assert forall|x: usize| #[trigger] in_some(b.comps(), x) <==> x < n && b.done(x) by {
        assert(in_some(a.comps(), x) <==> x < n && a.done(x));
    }
    assert forall|k: int|
        0 <= k < arcs.len() && b.visited((#[trigger] arcs[k]).0) && !gray.contains(
            arcs[k].0,
        ) implies b.visited(arcs[k].1) by {
        assert(a.visited(arcs[k].0));
        assert(a.visited(arcs[k].1));
    }
    assert forall|k: int| 0 <= k < arcs.len() && b.done((#[trigger] arcs[k]).0) implies b.done(
        arcs[k].1,
    ) by {
        assert(a.done(arcs[k].0));
        assert(a.done(arcs[k].1));
    }
}

/// Beginning the visit of `v`.
proof fn lemma_enter(
    a: TarjanState,
    b: TarjanState,
    arcs: Seq<(usize, usize)>,
    n: int,
    gray: Set<usize>,
    v: usize,
)
    requires
        a.inv(arcs, n, gray),
        arcs_below(arcs, n),
        v < n,
        !a.visited(v),
        forall|g: usize| #[trigger] gray.contains(g) ==> reaches(arcs, g, v),
        b.indices@ == a.indices@.update(v as int, Some(a.index_counter)),
        b.lowlinks@.len() == n,
        b.stack@ == a.stack@.push(v),
        b.on_stack@ == a.on_stack@.update(v as int, true),
        b.sccs == a.sccs,
        b.index_counter == a.index_counter + 1,
    ensures
        b.inv(arcs, n, gray.insert(v)),
{
    reveal(TarjanState::inv);
    let gray1 = gray.insert(v);
    lemma_vacant_fill(a.indices@, v as int, a.index_counter);
    assert(!a.on_stack@[v as int]);
    assert(!a.stack@.contains(v));
    assert forall|x: usize| x < n && x != v implies #[trigger] b.visited(x) == a.visited(x)
        && b.num(x) == a.num(x) && b.done(x) == a.done(x) by {}
    assert forall|x: usize| x < n implies (#[trigger] b.on_stack@[x as int]
        <==> b.stack@.contains(x)) by {
        if x == v {
            assert(b.stack@[a.stack@.len() as int] == v);
        } else {
            assert(a.on_stack@[x as int] <==> a.stack@.contains(x));
            if a.stack@.contains(x) {
                let i = a.stack@.index_of(x);
                assert(b.stack@[i] == x);
            }
            if b.stack@.contains(x) {
                let i = b.stack@.index_of(x);
                assert(a.stack@[i] == x);
            }
        }
    }
    assert forall|i: int| 0 <= i < a.stack@.len() implies a.visited(#[trigger] a.stack@[i])
        && a.stack@[i] != v && a.stack@[i] < n by {
        assert(a.stack@.contains(a.stack@[i]));
        assert(a.on_stack@[a.stack@[i] as int]);
    }
    assert forall|i: int, j: int| 0 <= i < j < b.stack@.len() implies b.num(
        #[trigger] b.stack@[i],
    ) < b.num(#[trigger] b.stack@[j]) by {
        assert(b.stack@[i] == a.stack@[i]);
        if j < a.stack@.len() {
            assert(b.stack@[j] == a.stack@[j]);
        }
    }
    assert forall|x: usize| #[trigger] in_some(b.comps(), x) <==> x < n && b.done(x) by {
        assert(in_some(a.comps(), x) <==> x < n && a.done(x));
    }
    assert forall|i: int, j: int| 0 <= i <= j < b.stack@.len() implies reaches(
        arcs,
        #[trigger] b.stack@[i],
        #[trigger] b.stack@[j],
    ) by {
        if i == a.stack@.len() {
            lemma_reaches_self(arcs, v);
        } else if j == a.stack@.len() {
            let x = a.stack@[i];
            assert(a.anchored(arcs, gray, x));
            let g = choose|g: usize| #[trigger]
                gray.contains(g) && a.num(g) <= a.num(x) && reaches(arcs, x, g);
            lemma_reaches_trans(arcs, x, g, v);
        } else {
            assert(b.stack@[i] == a.stack@[i] && b.stack@[j] == a.stack@[j]);
        }
    }
    assert forall|j: int| 0 <= j < b.stack@.len() implies b.anchored(
        arcs,
        gray1,
        #[trigger] b.stack@[j],
    ) by {
        if j == a.stack@.len() {
            lemma_reaches_self(arcs, v);
            assert(gray1.contains(v));
        } else {
            let x = a.stack@[j];
            assert(a.anchored(arcs, gray, x));
            let g = choose|g: usize| #[trigger]
                gray.contains(g) && a.num(g) <= a.num(x) && reaches(arcs, x, g);
            assert(gray1.contains(g));
            assert(g != v);
        }
    }
}

/// Ending the visit of `v` when it reaches something older on the stack.
proof fn lemma_leave(
    a: TarjanState,
    arcs: Seq<(usize, usize)>,
    n: int,
    gray: Set<usize>,
    v: usize,
    s: usize,
)
    requires
        a.inv(arcs, n, gray.insert(v)),
        arcs_below(arcs, n),
        v < n,
        s < n,
        forall|k: int| 0 <= k < arcs.len() && (#[trigger] arcs[k]).0 == v ==> a.visited(arcs[k].1),
        a.stack@.contains(s),
        a.num(s) < a.num(v),
        reaches(arcs, v, s),
    ensures
        a.inv(arcs, n, gray),
{
    reveal(TarjanState::inv);
    let gray1 = gray.insert(v);
    assert forall|g: usize| #[trigger] gray.contains(g) implies g < n && a.on_stack@[g as int] by {
        assert(gray1.contains(g));
    }
    let si = a.stack@.index_of(s);
    assert(a.anchored(arcs, gray1, a.stack@[si]));
    let h = choose|g: usize| #[trigger]
        gray1.contains(g) && a.num(g) <= a.num(s) && reaches(arcs, s, g);
    assert(gray.contains(h));
    lemma_reaches_trans(arcs, v, s, h);
    assert forall|j: int| 0 <= j < a.stack@.len() implies a.anchored(
        arcs,
        gray,
        #[trigger] a.stack@[j],
    ) by {
        let x = a.stack@[j];
        assert(a.anchored(arcs, gray1, x));
        let g = choose|g: usize| #[trigger]
            gray1.contains(g) && a.num(g) <= a.num(x) && reaches(arcs, x, g);
        if g == v {
            lemma_reaches_trans(arcs, x, v, h);
            assert(gray.contains(h));
        } else {
            assert(gray.contains(g));
        }
    }
}

/// Taking the finished component of `v` off the stack.
proof fn lemma_close(
    a: TarjanState,
    b: TarjanState,
    arcs: Seq<(usize, usize)>,
    n: int,
    gray: Set<usize>,
    v: usize,
    base: int,
    scc: Seq<usize>,
)
    requires
        a.inv(arcs, n, gray.insert(v)),
        arcs_below(arcs, n),
        0 <= base < a.stack@.len(),
        a.stack@[base] == v,
        forall|g: usize| #[trigger] gray.contains(g) ==> a.stack@.take(base).contains(g),
        forall|k: int|
            0 <= k < arcs.len() && a.stack@.skip(base).contains((#[trigger] arcs[k]).0)
                ==> a.visited(arcs[k].1) && !a.stack@.take(base).contains(arcs[k].1),
        scc.no_duplicates(),
        forall|x: usize| #[trigger] scc.contains(x) <==> a.stack@.skip(base).contains(x),
        scc.len() > 0,
        b.indices == a.indices,
        b.lowlinks == a.lowlinks,
        b.index_counter == a.index_counter,
        b.stack@ == a.stack@.take(base),
        b.on_stack@.len() == n,
        forall|x: usize|
            x < n ==> #[trigger] b.on_stack@[x as int] == (a.on_stack@[x as int] && !scc.contains(
                x,
            )),
        b.comps() == a.comps().push(scc),
    ensures
        b.inv(arcs, n, gray),
{
    reveal(TarjanState::inv);
    let gray1 = gray.insert(v);
    let low = a.stack@.take(base);
    let top = a.stack@.skip(base);
    assert(top[0] == v);
    assert(scc.contains(v));
    // The stack splits into the two parts.
    assert forall|x: usize| a.stack@.contains(x) <==> low.contains(x) || top.contains(x) by {
        if a.stack@.contains(x) {
            let i = a.stack@.index_of(x);
            if i < base {
                assert(low[i] == x);
            } else {
                assert(top[i - base] == x);
            }
        }
        if low.contains(x) {
            let i = low.index_of(x);
            assert(a.stack@[i] == x);
        }
        if top.contains(x) {
            let i = top.index_of(x);
            assert(a.stack@[i + base] == x);
        }
    }
    assert forall|x: usize| !(low.contains(x) && top.contains(x)) by {
        if low.contains(x) && top.contains(x) {
            let i = low.index_of(x);
            let j = top.index_of(x);
            assert(a.stack@[i] == a.stack@[j + base]);
        }
    }
    assert forall|i: int| 0 <= i < a.stack@.len() implies (#[trigger] a.stack@[i]) < n
        && a.on_stack@[a.stack@[i] as int] by {
        assert(a.stack@.contains(a.stack@[i]));
    }
    assert forall|x: usize| scc.contains(x) implies x < n && a.on_stack@[x as int] && a.visited(
        x,
    ) by {
        let j = top.index_of(x);
        assert(a.stack@[j + base] == x);
    }
    assert forall|x: usize| x < n implies #[trigger] b.done(x) == (a.done(x) || scc.contains(x)) by {
        assert(b.on_stack@[x as int] == (a.on_stack@[x as int] && !scc.contains(x)));
    }
    // The members reach each other.
    assert forall|x: usize| #[trigger] scc.contains(x) implies reaches(arcs, v, x) && reaches(
        arcs,
        x,
        v,
    ) by {
        let j = top.index_of(x) + base;
        assert(a.stack@[j] == x);
        assert(reaches(arcs, a.stack@[base], a.stack@[j]));
        assert(a.anchored(arcs, gray1, a.stack@[j]));
        let g = choose|g: usize| #[trigger]
            gray1.contains(g) && a.num(g) <= a.num(x) && reaches(arcs, x, g);
        if g != v {
            assert(gray.contains(g));
            assert(low.contains(g));
            let i = low.index_of(g);
            assert(a.stack@[i] == g);
            assert(reaches(arcs, a.stack@[i], a.stack@[base]));
            lemma_reaches_trans(arcs, x, g, v);
        }
    }
    // Nothing leads out of the component but into finished ones.
    let inside = |x: usize| x < n && (a.done(x) || scc.contains(x));
    assert forall|k: int| 0 <= k < arcs.len() && inside((#[trigger] arcs[k]).0) implies inside(
        arcs[k].1,
    ) by {
        if scc.contains(arcs[k].0) {
            assert(top.contains(arcs[k].0));
            let y = arcs[k].1;
            if a.on_stack@[y as int] {
                assert(a.stack@.contains(y));
                assert(scc.contains(y));
            } else {
                assert(a.done(y));
            }
        } else {
            assert(a.done(arcs[k].1));
        }
    }
    let finished = |x: usize| x < n && a.done(x);
    assert forall|k: int| 0 <= k < arcs.len() && finished((#[trigger] arcs[k]).0) implies finished(
        arcs[k].1,
    ) by {
        assert(a.done(arcs[k].0));
        assert(a.done(arcs[k].1));
    }
    assert forall|k: int| 0 <= k < arcs.len() && b.done((#[trigger] arcs[k]).0) implies b.done(
        arcs[k].1,
    ) by {
        assert(arcs[k].0 < n && arcs[k].1 < n);
        assert(inside(arcs[k].0));
        assert(inside(arcs[k].1));
    }
    assert forall|k: int|
        0 <= k < arcs.len() && b.visited((#[trigger] arcs[k]).0) && !gray.contains(
            arcs[k].0,
        ) implies b.visited(arcs[k].1) by {
        if arcs[k].0 == v {
            assert(top.contains(v));
        }
    }
    // The stack that is left.
    assert forall|i: int| 0 <= i < b.stack@.len() implies #[trigger] b.stack@[i]
        == a.stack@[i] by {}
    assert forall|x: usize| x < n implies (#[trigger] b.on_stack@[x as int]
        <==> b.stack@.contains(x)) by {
        assert(a.on_stack@[x as int] <==> a.stack@.contains(x));
    }
    assert forall|x: usize| x < n && #[trigger] b.on_stack@[x as int] implies b.visited(x) by {
        assert(a.visited(x));
    }
    assert forall|x: usize| x < n && #[trigger] b.visited(x) implies b.num(x)
        < b.index_counter by {
        assert(a.visited(x));
    }
    assert forall|g: usize| #[trigger] gray.contains(g) implies g < n && b.on_stack@[g as int] by {
        assert(low.contains(g));
        assert(gray1.contains(g));
    }
    assert forall|j: int| 0 <= j < b.stack@.len() implies b.anchored(
        arcs,
        gray,
        #[trigger] b.stack@[j],
    ) by {
        let x = a.stack@[j];
        assert(a.anchored(arcs, gray1, x));
        let g = choose|g: usize| #[trigger]
            gray1.contains(g) && a.num(g) <= a.num(x) && reaches(arcs, x, g);
        if g == v {
            assert(a.num(a.stack@[j]) < a.num(a.stack@[base]));
        }
        assert(gray.contains(g));
    }
    // The list of components.
    let c = a.comps();
    let d = b.comps();
    assert forall|x: usize| #[trigger] in_some(d, x) <==> x < n && b.done(x) by {
        assert(in_some(c, x) <==> x < n && a.done(x));
        if in_some(c, x) {
            let i = choose|i: int| 0 <= i < c.len() && (#[trigger] c[i]).contains(x);
            assert(d[i].contains(x));
        }
        if scc.contains(x) {
            assert(d[c.len() as int].contains(x));
        }
        if in_some(d, x) {
            let i = choose|i: int| 0 <= i < d.len() && (#[trigger] d[i]).contains(x);
            if i < c.len() {
                assert(c[i].contains(x));
            }
        }
    }
    assert forall|i: int, x: usize, y: usize|
        0 <= i < d.len() && #[trigger] d[i].contains(x) && #[trigger] mutual(
            arcs,
            x,
            y,
        ) implies d[i].contains(y) by {
        if i < c.len() {
            assert(c[i].contains(x));
        } else {
            lemma_reaches_closed(arcs, inside, x, y);
            if a.done(y) {
                lemma_reaches_closed(arcs, finished, y, x);
                assert(a.done(x));
                assert(false);
            }
        }
    }
    assert forall|i: int, x: usize, y: usize|
        0 <= i < d.len() && #[trigger] d[i].contains(x) && #[trigger] d[i].contains(
            y,
        ) implies reaches(arcs, x, y) by {
        if i < c.len() {
            assert(c[i].contains(x) && c[i].contains(y));
        } else {
            lemma_reaches_trans(arcs, x, v, y);
        }
    }
    assert forall|i: int, j: int, x: usize, y: usize|
        0 <= i < d.len() && 0 <= j < d.len() && #[trigger] d[i].contains(x)
            && #[trigger] d[j].contains(y) && reaches(arcs, x, y) implies j <= i by {
        if i < c.len() {
            assert(c[i].contains(x));
            assert(in_some(c, x));
            assert(finished(x));
            lemma_reaches_closed(arcs, finished, x, y);
            if j == c.len() {
                assert(scc.contains(y));
                assert(false);
            }
            assert(c[j].contains(y));
        }
    }
}

impl TarjanState {
    /// `self` came from `prev` by visits that have ended: what was visited keeps
    /// its number and the old stack is still at the bottom.
    spec fn grew(self, prev: Self, n: int) -> bool {
        &&& prev.stack@.len() <= self.stack@.len()
        &&& self.stack@.take(prev.stack@.len() as int) == prev.stack@
        &&& prev.index_counter <= self.index_counter
        &&& forall|x: usize| #![trigger self.visited(x)] #![trigger prev.visited(x)]
            x < n && prev.visited(x) ==> self.visited(x) && self.num(x) == prev.num(x)
    }

    /// Where the visit of `v` stands once the first `k` arcs have been looked at:
    /// `start` is the state before the visit, `entry` the one with `v` pushed.
    #[verifier::opaque]
    spec fn scanned(
        self,
        start: Self,
        entry: Self,
        arcs: Seq<(usize, usize)>,
        n: int,
        v: usize,
        k: int,
    ) -> bool {
        let low = self.lowlinks@[v as int];
        let base = start.stack@.len() as int;
        &&& self.grew(entry, n)
        &&& forall|x: usize|
            x < n && start.visited(x) ==> #[trigger] self.lowlinks@[x as int]
                == start.lowlinks@[x as int]
        &&& forall|x: usize|
            x < n && #[trigger] self.visited(x) && !start.visited(x) ==> reaches(arcs, v, x)
        &&& self.visited(v)
        &&& self.num(v) == start.index_counter
        &&& low <= self.num(v)
        &&& exists|s: usize| #[trigger]
            entry.stack@.contains(s) && self.num(s) == low && reaches(arcs, v, s)
        &&& forall|j: int|
            0 <= j < k && (#[trigger] arcs[j]).0 == v ==> self.visited(arcs[j].1) && (
            entry.stack@.contains(arcs[j].1) ==> low <= self.num(arcs[j].1))
        &&& forall|j: int|
            0 <= j < arcs.len() && self.stack@.skip(base + 1).contains((#[trigger] arcs[j]).0)
                && entry.stack@.contains(arcs[j].1) ==> low <= self.num(arcs[j].1)
    }

    /// What a visit of `v` begun in `start` leaves behind.
    #[verifier::opaque]
    spec fn after_visit(self, start: Self, arcs: Seq<(usize, usize)>, n: int, v: usize) -> bool {
        let low = self.lowlinks@[v as int];
        &&& self.grew(start, n)
        &&& forall|x: usize|
            x < n && #[trigger] self.visited(x) && !start.visited(x) ==> reaches(arcs, v, x)
        &&& self.visited(v)
        &&& self.num(v) == start.index_counter
        &&& forall|x: usize|
            x < n && start.visited(x) ==> #[trigger] self.lowlinks@[x as int]
                == start.lowlinks@[x as int]
        &&& forall|k: int|
            0 <= k < arcs.len() && self.stack@.skip(start.stack@.len() as int).contains(
                (#[trigger] arcs[k]).0,
            ) && start.stack@.contains(arcs[k].1) ==> low <= self.num(arcs[k].1)
        &&& self.on_stack@[v as int] ==> exists|s: usize| #[trigger]
            start.stack@.contains(s) && self.num(s) == low && reaches(arcs, v, s)
        &&& !self.on_stack@[v as int] ==> low == self.num(v) && self.stack@ == start.stack@
    }

    /// No vertex visited, for a graph with `n` vertices.
    fn new(n: usize) -> (r: Self)
        ensures
            r.shaped(n as int),
            forall|x: usize| x < n ==> !r.visited(x),
            r.stack@.len() == 0,
            r.comps().len() == 0,
    {
        let mut indices: Vec<Option<usize>> = Vec::new();
        let mut lowlinks: Vec<usize> = Vec::new();
        let mut on_stack: Vec<bool> = Vec::new();
        let mut i: usize = 0;
        while i < n
            invariant
                i <= n,
                indices@.len() == i,
                lowlinks@.len() == i,
                on_stack@.len() == i,
                forall|k: int| 0 <= k < i ==> indices@[k] is None,
                forall|k: int| 0 <= k < i ==> !on_stack@[k],
            decreases n - i,
        {
            indices.push(None);
            lowlinks.push(0);
            on_stack.push(false);
            i = i + 1;
        }
        proof {
            lemma_vacant_all(indices@);
        }
        TarjanState {
            indices,
            lowlinks,
            stack: Vec::new(),
            on_stack,
            sccs: Vec::new(),
            index_counter: 0,
        }
    }

    /// Takes vertices off the stack down to and with position `base`, and lists
    /// them in that order as one component.
    fn pop_component(&mut self, v: usize, Ghost(base): Ghost<int>, Ghost(n): Ghost<int>)
        requires
            old(self).shaped(n),
            0 <= base < old(self).stack@.len(),
            old(self).stack@[base] == v,
        ensures
            final(self).indices == old(self).indices,
            final(self).lowlinks == old(self).lowlinks,
            final(self).index_counter == old(self).index_counter,
            final(self).stack@ == old(self).stack@.take(base),
            final(self).on_stack@.len() == n,
            final(self).comps() == old(self).comps().push(old(self).stack@.skip(base).reverse()),
            forall|x: usize|
                x < n ==> #[trigger] final(self).on_stack@[x as int] == (old(
                    self,
                ).on_stack@[x as int] && !old(self).stack@.skip(base).contains(x)),
    {
        let ghost full = self.stack@;
        let ghost flags = self.on_stack@;
        let mut scc: Vec<usize> = Vec::new();
        let ghost mut at: int = full.len() as int;
        let mut more = true;
        while more
            invariant
                self.indices == old(self).indices,
                self.lowlinks == old(self).lowlinks,
                self.index_counter == old(self).index_counter,
                self.sccs == old(self).sccs,
                full == old(self).stack@,
                flags == old(self).on_stack@,
                old(self).shaped(n),
                0 <= base <= at <= full.len(),
                base < full.len(),
                full[base] == v,
                more <==> base < at,
                self.stack@ == full.take(at),
                scc@ == full.skip(at).reverse(),
                self.on_stack@.len() == n,
                forall|x: usize|
                    x < n ==> #[trigger] self.on_stack@[x as int] == (flags[x as int]
                        && !full.skip(at).contains(x)),
            decreases at,
        {
            let ghost before = self.on_stack@;
            match self.stack.pop() {
                Some(w) => {
                    proof {
                        at = at - 1;
                        assert(w == full[at]);
                        assert(full[at] < n);
                        assert(full.skip(at)[0] == w);
                        assert forall|x: usize| full.skip(at).contains(x) <==> x == w || full.skip(
                            at + 1,
                        ).contains(x) by {
                            if full.skip(at).contains(x) {
                                let i = full.skip(at).index_of(x);
                                if i > 0 {
                                    assert(full.skip(at + 1)[i - 1] == x);
                                }
                            }
                            if full.skip(at + 1).contains(x) {
                                let i = full.skip(at + 1).index_of(x);
                                assert(full.skip(at)[i + 1] == x);
                            }
                        }
                    }
                    self.on_stack.set(w, false);
                    scc.push(w);
                    more = w != v;
                    proof {
                        assert(w == v <==> at == base) by {
                            if w == v {
                                assert(full[at] == full[base]);
                            }
                        }
                        assert(scc@ =~= full.skip(at).reverse());
                        assert(self.stack@ =~= full.take(at));
                    }
                },
                None => {
                    proof {
                        assert(false);
                    }
                    more = false;
                },
            }
        }
        let ghost found = scc@;
        self.sccs.push(scc);
        proof {
            assert(at == base);
            assert(self.comps() =~= old(self).comps().push(found));
        }
    }

    /// Visits `v` and all that it reaches and that was not visited before.
    fn strongconnect(
        &mut self,
        arcs: &Vec<(usize, usize)>,
        v: usize,
        Ghost(n): Ghost<int>,
        Ghost(gray): Ghost<Set<usize>>,
    )
        requires
            old(self).inv(arcs@, n, gray),
            arcs_below(arcs@, n),
            v < n,
            !old(self).visited(v),
            forall|g: usize| #[trigger] gray.contains(g) ==> reaches(arcs@, g, v),
        ensures
            final(self).inv(arcs@, n, gray),
            final(self).after_visit(*old(self), arcs@, n, v),
        decreases vacant(old(self).indices@),
    {
        let ghost start = *self;
        let ghost base = self.stack@.len() as int;
        proof {
            lemma_inv_shaped(*self, arcs@, n, gray);
            assert(self.indices@.len() == self.indices.len());
            lemma_vacant_pos(self.indices@, v as int);
            lemma_vacant_fill(self.indices@, v as int, self.index_counter);
        }
        self.indices.set(v, Some(self.index_counter));
        self.lowlinks.set(v, self.index_counter);
        self.index_counter = self.index_counter + 1;
        self.stack.push(v);
        self.on_stack.set(v, true);
        let ghost entry = *self;
        let ghost gray1 = gray.insert(v);
        proof {
            lemma_enter(start, entry, arcs@, n, gray, v);
            lemma_reaches_self(arcs@, v);
            assert(entry.stack@[base] == v);
            assert(entry.stack@.contains(v));
            assert(entry.stack@.take(entry.stack@.len() as int) =~= entry.stack@);
            lemma_inv_shaped(entry, arcs@, n, gray1);
            lemma_entry_scanned(start, entry, arcs@, n, gray, v);
        }
        let mut k: usize = 0;
        while k < arcs.len()
            invariant
                k <= arcs@.len(),
                arcs_below(arcs@, n),
                v < n,
                gray1 == gray.insert(v),
                forall|g: usize| #[trigger] gray.contains(g) ==> reaches(arcs@, g, v),
                start == *old(self),
                start.inv(arcs@, n, gray),
                start.shaped(n),
                !start.visited(v),
                entry.index_counter == start.index_counter + 1,
                entry.shaped(n),
                base == start.stack@.len(),
                entry.stack@ == start.stack@.push(v),
                entry.indices@ == start.indices@.update(v as int, Some(start.index_counter)),
                self.inv(arcs@, n, gray1),
                self.scanned(start, entry, arcs@, n, v, k as int),
            decreases arcs@.len() - k,
        {
            if arcs[k].0 == v {
                let w: usize = arcs[k].1;
                let ghost before = *self;
                proof {
                    assert(arcs@.contains((v, w)));
                    lemma_reaches_arc(arcs@, v, w);
                    lemma_inv_shaped(*self, arcs@, n, gray1);
                    lemma_scanned_grew(*self, start, entry, arcs@, n, v, k as int);
                }
                if self.indices[w].is_none() {
                    proof {
                        assert forall|g: usize| #[trigger] gray1.contains(g) implies reaches(
                            arcs@,
                            g,
                            w,
                        ) by {
                            if g != v {
                                assert(gray.contains(g));
                                lemma_reaches_trans(arcs@, g, v, w);
                            }
                        }
                    }
                    self.strongconnect(arcs, w, Ghost(n), Ghost(gray1));
                    let ghost mid = *self;
                    proof {
                        lemma_inv_shaped(mid, arcs@, n, gray1);
                    }
                    let w_low: usize = self.lowlinks[w];
                    let v_low: usize = self.lowlinks[v];
                    if w_low < v_low {
                        self.lowlinks.set(v, w_low);
                    }
                    proof {
                        lemma_inv_ignores_lowlinks(mid, *self, arcs@, n, gray1);
                        lemma_after_child(start, entry, before, mid, *self, arcs@, n, v, w, k as int);
                    }
                } else {
                    if self.on_stack[w] {
                        let w_idx: usize = match self.indices[w] {
                            Some(x) => x,
                            None => 0,
                        };
                        let v_low: usize = self.lowlinks[v];
                        if w_idx < v_low {
                            self.lowlinks.set(v, w_idx);
                        }
                        proof {
                            lemma_inv_ignores_lowlinks(before, *self, arcs@, n, gray1);
                        }
                    }
                    proof {
                        lemma_after_seen(start, entry, before, *self, arcs@, n, v, w, k as int);
                    }
                }
            } else {
                proof {
                    reveal(TarjanState::scanned);
                }
            }
            k = k + 1;
        }
        proof {
            lemma_inv_shaped(*self, arcs@, n, gray1);
            lemma_scanned_grew(*self, start, entry, arcs@, n, v, arcs@.len() as int);
        }
        let v_low: usize = self.lowlinks[v];
        let v_idx: usize = match self.indices[v] {
            Some(x) => x,
            None => 0,
        };
        if v_low == v_idx {
            let ghost before = *self;
            proof {
                assert(self.stack@.take(base + 1)[base] == v);
                assert(self.stack@[base] == v);
            }
            self.pop_component(v, Ghost(base), Ghost(n));
            proof {
                lemma_popped(start, entry, before, *self, arcs@, n, gray, v, base);
            }
        } else {
            proof {
                lemma_kept(start, entry, *self, arcs@, n, gray, v, base);
            }
        }
    }
}

/// A vertex on the stack with a smaller number than `v` was there before `v`.
proof fn lemma_in_prefix(cur: TarjanState, entry: TarjanState, n: int, v: usize, w: usize)
    requires
        cur.shaped(n),
        cur.grew(entry, n),
        entry.stack@.len() > 0,
        entry.stack@.last() == v,
        w < n,
        cur.on_stack@[w as int],
        cur.num(w) <= cur.num(v),
    ensures
        entry.stack@.contains(w),
{
    let i = cur.stack@.index_of(w);
    let base = entry.stack@.len() - 1;
    assert(cur.stack@.take(base + 1)[base] == v);
    assert(cur.stack@[base] == v);
    if i > base {
        assert(cur.num(cur.stack@[base]) < cur.num(cur.stack@[i]));
    } else {
        assert(cur.stack@.take(base + 1)[i] == w);
    }
}

proof fn lemma_stack_visited(a: TarjanState, n: int, x: usize)
    requires
        a.shaped(n),
        a.stack@.contains(x),
    ensures
        x < n,
        a.visited(x),
        a.on_stack@[x as int],
{
    let i = a.stack@.index_of(x);
    assert(a.stack@[i] < n);
    assert(a.on_stack@[x as int]);
}

proof fn lemma_inv_shaped(a: TarjanState, arcs: Seq<(usize, usize)>, n: int, gray: Set<usize>)
    requires
        a.inv(arcs, n, gray),
    ensures
        a.shaped(n),
{
    reveal(TarjanState::inv);
}

proof fn lemma_scanned_grew(
    a: TarjanState,
    start: TarjanState,
    entry: TarjanState,
    arcs: Seq<(usize, usize)>,
    n: int,
    v: usize,
    k: int,
)
    requires
        a.scanned(start, entry, arcs, n, v, k),
    ensures
        a.grew(entry, n),
        a.visited(v),
        a.num(v) == start.index_counter,
{
    reveal(TarjanState::scanned);
}

proof fn lemma_entry_scanned(
    start: TarjanState,
    entry: TarjanState,
    arcs: Seq<(usize, usize)>,
    n: int,
    gray: Set<usize>,
    v: usize,
)
    requires
        v < n,
        start.shaped(n),
        !start.visited(v),
        entry.stack@ == start.stack@.push(v),
        entry.indices@ == start.indices@.update(v as int, Some(start.index_counter)),
        entry.lowlinks@ == start.lowlinks@.update(v as int, start.index_counter),
    ensures
        entry.scanned(start, entry, arcs, n, v, 0),
{
    reveal(TarjanState::scanned);
    lemma_reaches_self(arcs, v);
    assert(entry.stack@[start.stack@.len() as int] == v);
    assert(entry.stack@.contains(v));
    assert(entry.stack@.take(entry.stack@.len() as int) =~= entry.stack@);
    assert(entry.stack@.skip(start.stack@.len() as int + 1).len() == 0);
}

/// The arc looked at leads to a vertex visited before.
proof fn lemma_after_seen(
    start: TarjanState,
    entry: TarjanState,
    before: TarjanState,
    now: TarjanState,
    arcs: Seq<(usize, usize)>,
    n: int,
    v: usize,
    w: usize,
    k: int,
)
    requires
        v < n,
        w < n,
        0 <= k < arcs.len(),
        arcs[k] == (v, w),
        entry.stack@ == start.stack@.push(v),
        entry.shaped(n),
        before.shaped(n),
        before.scanned(start, entry, arcs, n, v, k),
        before.visited(w),
        !start.visited(v),
        now.indices == before.indices,
        now.stack == before.stack,
        now.on_stack == before.on_stack,
        now.index_counter == before.index_counter,
        now.lowlinks@ == (if before.on_stack@[w as int] && before.num(w)
            < before.lowlinks@[v as int] {
            before.lowlinks@.update(v as int, before.num(w))
        } else {
            before.lowlinks@
        }),
    ensures
        now.scanned(start, entry, arcs, n, v, k + 1),
{
    reveal(TarjanState::scanned);
    assert(arcs.contains((v, w)));
    lemma_reaches_arc(arcs, v, w);
    let low0 = before.lowlinks@[v as int];
    let low = now.lowlinks@[v as int];
    if before.on_stack@[w as int] && before.num(w) < low0 {
        lemma_in_prefix(before, entry, n, v, w);
        assert(entry.stack@.contains(w));
    } else {
        let s = choose|s: usize| #[trigger]
            entry.stack@.contains(s) && before.num(s) == low0 && reaches(arcs, v, s);
        assert(entry.stack@.contains(s));
    }
    assert forall|x: usize| x < n implies #[trigger] now.visited(x) == before.visited(x)
        && now.num(x) == before.num(x) by {}
    assert forall|x: usize| entry.stack@.contains(x) implies before.on_stack@[x as int] by {
        let i = entry.stack@.index_of(x);
        assert(before.stack@.take(entry.stack@.len() as int)[i] == x);
        assert(before.stack@[i] == x);
        lemma_stack_visited(before, n, x);
    }
    assert forall|x: usize| x < n && start.visited(x) implies #[trigger] now.lowlinks@[x as int]
        == start.lowlinks@[x as int] by {
        assert(x != v);
        assert(before.lowlinks@[x as int] == start.lowlinks@[x as int]);
    }
}

proof fn lemma_after_child(
    start: TarjanState,
    entry: TarjanState,
    before: TarjanState,
    mid: TarjanState,
    now: TarjanState,
    arcs: Seq<(usize, usize)>,
    n: int,
    v: usize,
    w: usize,
    k: int,
)
    requires
        arcs_below(arcs, n),
        v < n,
        w < n,
        0 <= k < arcs.len(),
        arcs[k] == (v, w),
        entry.stack@ == start.stack@.push(v),
        entry.shaped(n),
        before.shaped(n),
        before.scanned(start, entry, arcs, n, v, k),
        !before.visited(w),
        mid.shaped(n),
        mid.after_visit(before, arcs, n, w),
        forall|x: usize| x < n && #[trigger] start.visited(x) ==> entry.visited(x) && x != v,
        now.indices == mid.indices,
        now.stack == mid.stack,
        now.on_stack == mid.on_stack,
        now.index_counter == mid.index_counter,
        now.lowlinks@ == (if mid.lowlinks@[w as int] < mid.lowlinks@[v as int] {
            mid.lowlinks@.update(v as int, mid.lowlinks@[w as int])
        } else {
            mid.lowlinks@
        }),
    ensures
        now.scanned(start, entry, arcs, n, v, k + 1),
{
    reveal(TarjanState::scanned);
    reveal(TarjanState::after_visit);
    let base = start.stack@.len() as int;
    let low0 = before.lowlinks@[v as int];
    let low = now.lowlinks@[v as int];
    let wl = mid.lowlinks@[w as int];
    assert(mid.lowlinks@[v as int] == low0);
    assert(low <= low0 && low <= wl);
    assert(arcs.contains((v, w)));
    lemma_reaches_arc(arcs, v, w);
    assert forall|x: usize| x < n implies #[trigger] now.visited(x) == mid.visited(x) && now.num(x)
        == mid.num(x) by {}
    assert(now.stack@.take(base + 1) =~= entry.stack@) by {
        assert(now.stack@.take(before.stack@.len() as int).take(base + 1) =~= now.stack@.take(
            base + 1,
        ));
    }
    assert forall|x: usize| x < n && entry.visited(x) implies #[trigger] now.visited(x) && now.num(x)
        == entry.num(x) && now.num(x) == before.num(x) by {
        assert(before.visited(x));
        assert(mid.visited(x));
    }
    assert forall|x: usize| entry.stack@.contains(x) implies x < n && entry.visited(x)
        && before.stack@.contains(x) by {
        lemma_stack_visited(entry, n, x);
        let i = entry.stack@.index_of(x);
        assert(before.stack@.take(base + 1)[i] == x);
        assert(before.stack@[i] == x);
    }
    assert forall|x: usize| x < n && start.visited(x) implies #[trigger] now.lowlinks@[x as int]
        == start.lowlinks@[x as int] by {
        assert(entry.visited(x));
        assert(before.visited(x));
        assert(before.lowlinks@[x as int] == start.lowlinks@[x as int]);
        assert(mid.lowlinks@[x as int] == before.lowlinks@[x as int]);
    }
    assert forall|x: usize| x < n && #[trigger] now.visited(x) && !start.visited(
        x,
    ) implies reaches(arcs, v, x) by {
        if before.visited(x) {
        } else {
            assert(mid.visited(x));
            lemma_reaches_trans(arcs, v, w, x);
        }
    }
    // The low link is the number of a vertex that `v` reaches.
    if wl < low0 {
        if mid.on_stack@[w as int] {
            let s = choose|s: usize| #[trigger]
                before.stack@.contains(s) && mid.num(s) == wl && reaches(arcs, w, s);
            lemma_reaches_trans(arcs, v, w, s);
            lemma_stack_visited(before, n, s);
            assert(mid.visited(s));
            lemma_in_prefix(before, entry, n, v, s);
            assert(entry.stack@.contains(s));
        } else {
            assert(before.visited(v));
            assert(mid.num(w) == before.index_counter);
            assert(before.num(v) < before.index_counter);
        }
    } else {
        let s = choose|s: usize| #[trigger]
            entry.stack@.contains(s) && before.num(s) == low0 && reaches(arcs, v, s);
        assert(entry.visited(s));
        assert(now.visited(s));
    }
    assert forall|j: int| 0 <= j < k + 1 && (#[trigger] arcs[j]).0 == v implies now.visited(
        arcs[j].1,
    ) && (entry.stack@.contains(arcs[j].1) ==> low <= now.num(arcs[j].1)) by {
        if j < k {
            assert(before.visited(arcs[j].1));
            assert(mid.visited(arcs[j].1));
        } else if entry.stack@.contains(w) {
            assert(before.stack@.contains(w));
            lemma_stack_visited(before, n, w);
        }
    }
    assert forall|j: int|
        0 <= j < arcs.len() && now.stack@.skip(base + 1).contains((#[trigger] arcs[j]).0)
            && entry.stack@.contains(arcs[j].1) implies low <= now.num(arcs[j].1) by {
        let x = arcs[j].0;
        let i = now.stack@.skip(base + 1).index_of(x) + base + 1;
        assert(now.stack@[i] == x);
        if i < before.stack@.len() {
            assert(now.stack@.take(before.stack@.len() as int)[i] == x);
            assert(before.stack@.skip(base + 1)[i - base - 1] == x);
            assert(entry.visited(arcs[j].1));
        } else {
            assert(mid.stack@.skip(before.stack@.len() as int)[i - before.stack@.len()] == x);
            assert(before.stack@.contains(arcs[j].1));
        }
    }
    assert(now.visited(v) && now.num(v) == start.index_counter) by {
        assert(before.visited(v));
        assert(mid.visited(v));
    }
}

/// The visit of `v` ends with its component popped.
proof fn lemma_popped(
    start: TarjanState,
    entry: TarjanState,
    before: TarjanState,
    now: TarjanState,
    arcs: Seq<(usize, usize)>,
    n: int,
    gray: Set<usize>,
    v: usize,
    base: int,
)
    requires
        arcs_below(arcs, n),
        v < n,
        base == start.stack@.len(),
        entry.stack@ == start.stack@.push(v),
        entry.indices@ == start.indices@.update(v as int, Some(start.index_counter)),
        entry.index_counter == start.index_counter + 1,
        start.inv(arcs, n, gray),
        !start.visited(v),
        before.inv(arcs, n, gray.insert(v)),
        before.scanned(start, entry, arcs, n, v, arcs.len() as int),
        before.lowlinks@[v as int] == before.num(v),
        now.indices == before.indices,
        now.lowlinks == before.lowlinks,
        now.index_counter == before.index_counter,
        now.stack@ == before.stack@.take(base),
        now.on_stack@.len() == n,
        now.comps() == before.comps().push(before.stack@.skip(base).reverse()),
        forall|x: usize|
            x < n ==> #[trigger] now.on_stack@[x as int] == (before.on_stack@[x as int]
                && !before.stack@.skip(base).contains(x)),
    ensures
        now.inv(arcs, n, gray),
        now.after_visit(start, arcs, n, v),
{
    reveal(TarjanState::inv);
    reveal(TarjanState::scanned);
    reveal(TarjanState::after_visit);
    let top = before.stack@.skip(base);
    let scc = top.reverse();
    assert(before.stack@.take(base + 1)[base] == v);
    assert(before.stack@[base] == v);
    assert(top[0] == v);
    assert(before.stack@.take(base) =~= start.stack@) by {
        assert(before.stack@.take(base + 1).take(base) =~= before.stack@.take(base));
        assert(entry.stack@.take(base) =~= start.stack@);
    }
    assert(scc.no_duplicates()) by {
        assert forall|i: int, j: int| 0 <= i < scc.len() && 0 <= j < scc.len() && i
            != j implies scc[i] != scc[j] by {
            assert(scc[i] == before.stack@[base + (top.len() - 1 - i)]);
            assert(scc[j] == before.stack@[base + (top.len() - 1 - j)]);
        }
    }
    assert forall|x: usize| #[trigger] scc.contains(x) <==> top.contains(x) by {
        if scc.contains(x) {
            let i = scc.index_of(x);
            assert(top[top.len() - 1 - i] == x);
        }
        if top.contains(x) {
            let i = top.index_of(x);
            assert(scc[top.len() - 1 - i] == x);
        }
    }
    assert forall|g: usize| #[trigger] gray.contains(g) implies before.stack@.take(base).contains(
        g,
    ) by {
        assert(start.on_stack@[g as int]);
    }
    assert forall|k: int| 0 <= k < arcs.len() && top.contains(
        (#[trigger] arcs[k]).0,
    ) implies before.visited(arcs[k].1) && !before.stack@.take(base).contains(arcs[k].1) by {
        let x = arcs[k].0;
        let y = arcs[k].1;
        let i = top.index_of(x);
        assert(before.stack@[i + base] == x);
        lemma_stack_visited(before, n, x);
        if x != v {
            assert(!gray.contains(x)) by {
                if gray.contains(x) {
                    assert(before.stack@.take(base).contains(x));
                    let j = before.stack@.take(base).index_of(x);
                    assert(before.stack@[j] == before.stack@[i + base]);
                }
            }
            assert(!gray.insert(v).contains(x));
            assert(i != 0);
            assert(before.stack@.skip(base + 1)[i - 1] == x);
        }
        if start.stack@.contains(y) {
            let j = start.stack@.index_of(y);
            assert(entry.stack@[j] == y);
            assert(before.stack@.take(base + 1)[j] == y);
            assert(before.stack@[j] == y);
            assert(before.num(before.stack@[j]) < before.num(before.stack@[base]));
            assert(entry.stack@.contains(y));
        }
    }
    assert forall|x: usize|
        x < n implies #[trigger] now.on_stack@[x as int] == (before.on_stack@[x as int]
        && !scc.contains(x)) by {
        assert(scc.contains(x) <==> top.contains(x));
    }
    lemma_close(before, now, arcs, n, gray, v, base, scc);
    assert forall|x: usize| x < n && #[trigger] start.visited(x) implies now.visited(x)
        && now.num(x) == start.num(x) by {
        assert(entry.visited(x));
        assert(before.visited(x));
    }
    assert forall|x: usize| x < n && #[trigger] now.visited(x) && !start.visited(
        x,
    ) implies reaches(arcs, v, x) by {
        assert(before.visited(x));
    }
    assert(now.stack@.take(base) =~= start.stack@);
    assert(top.contains(v));
    assert(!now.on_stack@[v as int]);
    assert(now.stack@.skip(base).len() == 0);
}

/// The visit of `v` ends with `v` left on the stack.
proof fn lemma_kept(
    start: TarjanState,
    entry: TarjanState,
    now: TarjanState,
    arcs: Seq<(usize, usize)>,
    n: int,
    gray: Set<usize>,
    v: usize,
    base: int,
)
    requires
        arcs_below(arcs, n),
        v < n,
        base == start.stack@.len(),
        entry.stack@ == start.stack@.push(v),
        entry.indices@ == start.indices@.update(v as int, Some(start.index_counter)),
        entry.index_counter == start.index_counter + 1,
        start.inv(arcs, n, gray),
        !start.visited(v),
        now.inv(arcs, n, gray.insert(v)),
        now.scanned(start, entry, arcs, n, v, arcs.len() as int),
        now.lowlinks@[v as int] != now.num(v),
    ensures
        now.inv(arcs, n, gray),
        now.after_visit(start, arcs, n, v),
{
    lemma_inv_shaped(start, arcs, n, gray);
    lemma_inv_shaped(now, arcs, n, gray.insert(v));
    reveal(TarjanState::scanned);
    reveal(TarjanState::after_visit);
    let low = now.lowlinks@[v as int];
    let s = choose|s: usize| #[trigger]
        entry.stack@.contains(s) && now.num(s) == low && reaches(arcs, v, s);
    let i = entry.stack@.index_of(s);
    assert(i < base);
    assert(start.stack@[i] == s);
    assert(now.stack@.take(base + 1)[i] == s);
    assert(now.stack@[i] == s);
    lemma_stack_visited(now, n, s);
    lemma_leave(now, arcs, n, gray, v, s);
    assert(now.stack@.take(base + 1)[base] == v);
    assert(now.stack@[base] == v);
    lemma_stack_visited(now, n, v);
    assert(now.stack@.take(base) =~= start.stack@) by {
        assert(now.stack@.take(base + 1).take(base) =~= now.stack@.take(base));
        assert(entry.stack@.take(base) =~= start.stack@);
    }
    assert forall|x: usize| x < n && #[trigger] start.visited(x) implies now.visited(x)
        && now.num(x) == start.num(x) by {
        assert(entry.visited(x));
    }
    assert(start.stack@.contains(s));
    assert forall|k: int|
        0 <= k < arcs.len() && now.stack@.skip(base).contains((#[trigger] arcs[k]).0)
            && start.stack@.contains(arcs[k].1) implies low <= now.num(arcs[k].1) by {
        let x = arcs[k].0;
        let y = arcs[k].1;
        let j = start.stack@.index_of(y);
        assert(entry.stack@[j] == y);
        let m = now.stack@.skip(base).index_of(x);
        assert(now.stack@[m + base] == x);
        if m > 0 {
            assert(now.stack@.skip(base + 1)[m - 1] == x);
        }
    }
}

/// The strongly connected components of all that the roots reach, each after
/// those that it reaches.
pub fn strong_components(n: usize, roots: &Vec<usize>, arcs: &Vec<(usize, usize)>) -> (r: Vec<
    Vec<usize>,
>)
    requires
        arcs_below(arcs@, n as int),
        forall|i: int| 0 <= i < roots@.len() ==> #[trigger] roots@[i] < n,
    ensures
        components(arcs@, roots@, Seq::new(r@.len(), |i: int| r@[i]@)),
        forall|i: int, j: int|
            0 <= i < r@.len() && 0 <= j < r@[i]@.len() ==> #[trigger] r@[i]@[j] < n,
{
    let mut state = TarjanState::new(n);
    let ghost none = Set::<usize>::empty();
    proof {
        lemma_initial(state, arcs@, n as int);
    }
    let mut i: usize = 0;
    while i < roots.len()
        invariant
            i <= roots@.len(),
            arcs_below(arcs@, n as int),
            none == Set::<usize>::empty(),
            forall|j: int| 0 <= j < roots@.len() ==> #[trigger] roots@[j] < n,
            state.inv(arcs@, n as int, none),
            state.shaped(n as int),
            forall|j: int| 0 <= j < i ==> state.visited(#[trigger] roots@[j]),
            forall|x: usize| x < n && #[trigger] state.visited(x) ==> rooted(arcs@, roots@, x),
        decreases roots@.len() - i,
    {
        let node: usize = roots[i];
        if state.indices[node].is_none() {
            let ghost before = state;
            state.strongconnect(arcs, node, Ghost(n as int), Ghost(none));
            proof {
                lemma_inv_shaped(state, arcs@, n as int, none);
                lemma_after_root(before, state, arcs@, roots@, n as int, i as int);
            }
        }
        i = i + 1;
    }
    proof {
        lemma_final(state, arcs@, roots@, n as int);
    }
    state.sccs
}

/// `x` is reached from one of the roots.
pub open spec fn rooted<A>(arcs: Seq<(A, A)>, roots: Seq<A>, x: A) -> bool {
    exists|r: A| roots.contains(r) && #[trigger] reaches(arcs, r, x)
}

proof fn lemma_initial(a: TarjanState, arcs: Seq<(usize, usize)>, n: int)
    requires
        a.shaped(n),
        arcs_below(arcs, n),
        forall|x: usize| x < n ==> !a.visited(x),
        a.stack@.len() == 0,
        a.comps().len() == 0,
    ensures
        a.inv(arcs, n, Set::empty()),
{
    reveal(TarjanState::inv);
}

/// Outside of any visit everything visited is finished, and what the last
/// visit added is reached from its root.
proof fn lemma_after_root(
    before: TarjanState,
    now: TarjanState,
    arcs: Seq<(usize, usize)>,
    roots: Seq<usize>,
    n: int,
    i: int,
)
    requires
        arcs_below(arcs, n),
        0 <= i < roots.len(),
        roots[i] < n,
        !before.visited(roots[i]),
        now.inv(arcs, n, Set::empty()),
        now.after_visit(before, arcs, n, roots[i]),
        forall|j: int| 0 <= j < roots.len() ==> #[trigger] roots[j] < n,
        forall|j: int| 0 <= j < i ==> before.visited(#[trigger] roots[j]),
        forall|x: usize| x < n && #[trigger] before.visited(x) ==> rooted(arcs, roots, x),
    ensures
        forall|j: int| 0 <= j < i + 1 ==> now.visited(#[trigger] roots[j]),
        forall|x: usize| x < n && #[trigger] now.visited(x) ==> rooted(arcs, roots, x),
{
    reveal(TarjanState::after_visit);
    assert forall|x: usize| x < n && #[trigger] now.visited(x) implies rooted(arcs, roots, x) by {
        if !before.visited(x) {
            assert(roots.contains(roots[i]));
            assert(reaches(arcs, roots[i], x));
        }
    }
}

proof fn lemma_final(a: TarjanState, arcs: Seq<(usize, usize)>, roots: Seq<usize>, n: int)
    requires
        arcs_below(arcs, n),
        a.inv(arcs, n, Set::empty()),
        forall|j: int| 0 <= j < roots.len() ==> #[trigger] roots[j] < n,
        forall|j: int| 0 <= j < roots.len() ==> a.visited(#[trigger] roots[j]),
        forall|x: usize| x < n && #[trigger] a.visited(x) ==> rooted(arcs, roots, x),
    ensures
        components(arcs, roots, a.comps()),
        forall|i: int, j: int|
            0 <= i < a.sccs@.len() && 0 <= j < a.sccs@[i]@.len() ==> #[trigger] a.sccs@[i]@[j] < n,
{
    reveal(TarjanState::inv);
    let c = a.comps();
    assert(a.stack@.len() == 0) by {
        if a.stack@.len() > 0 {
            assert(a.anchored(arcs, Set::empty(), a.stack@[0]));
        }
    }
    let seen = |x: usize| x < n && a.visited(x);
    assert forall|k: int| 0 <= k < arcs.len() && seen((#[trigger] arcs[k]).0) implies seen(
        arcs[k].1,
    ) by {
        assert(!Set::<usize>::empty().contains(arcs[k].0));
        assert(a.visited(arcs[k].0));
    }
    assert forall|x: usize| x < n && #[trigger] a.visited(x) implies a.done(x) by {
        assert(!a.stack@.contains(x));
        assert(!a.on_stack@[x as int]);
    }
    assert forall|v: usize|
        #![trigger in_some(c, v)]
        in_some(c, v) <==> exists|r: usize| roots.contains(r) && #[trigger] reaches(
            arcs,
            r,
            v,
        ) by {
        if in_some(c, v) {
            assert(a.done(v));
            assert(rooted(arcs, roots, v));
        }
        if exists|r: usize| roots.contains(r) && #[trigger] reaches(arcs, r, v) {
            let r = choose|r: usize| roots.contains(r) && #[trigger] reaches(arcs, r, v);
            let j = roots.index_of(r);
            assert(roots[j] == r);
            assert(a.visited(roots[j]));
            assert(seen(r));
            lemma_reaches_closed(arcs, seen, r, v);
            assert(a.visited(v));
        }
    }
    assert forall|i: int, j: int, v: usize, w: usize|
        #![trigger c[i].contains(v), c[j].contains(w)]
        0 <= i < c.len() && 0 <= j < c.len() && c[i].contains(v) && c[j].contains(w) implies {
        &&& mutual(arcs, v, w) <==> i == j
        &&& reaches(arcs, v, w) ==> j <= i
    } by {
        if mutual(arcs, v, w) {
            assert(j <= i);
            assert(i <= j);
        }
    }
    assert forall|i: int, j: int|
        0 <= i < a.sccs@.len() && 0 <= j < a.sccs@[i]@.len() implies #[trigger] a.sccs@[i]@[j]
        < n by {
        assert(c[i] == a.sccs@[i]@);
        assert(c[i].contains(a.sccs@[i]@[j]));
        assert(in_some(c, a.sccs@[i]@[j]));
    }
}

} // verus!
