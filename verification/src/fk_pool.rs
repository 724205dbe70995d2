//! The pools from which foreign keys are drawn.
use crate::text;
use crate::value::{Cell, Value};
use vstd::prelude::*;

verus! {

/// How parent rows are chosen.
#[derive(Debug, Clone, Copy, PartialEq, Eq, Structural)]
pub enum SelectionStrategy {
    Uniform,
    Zipf,
    Weighted,
}

#[verifier::external_type_specification]
#[verifier::external_body]
pub struct ExStdRng(rand::rngs::StdRng);

/// The number below a bound that a generator gives, and the generator after it,
/// on a machine whose words have so many bits.
pub uninterp spec fn below(rng: rand::rngs::StdRng, bound: usize, bits: u32) -> (
    usize,
    rand::rngs::StdRng,
);

/// `rand::Rng::gen_range` on `rand::rngs::StdRng`: a number below the bound, which
/// the state of the generator, the bound and the size of a word fix, as they fix
/// the state after it. It panics on an empty range.
#[verifier::external_body]
pub(crate) fn draw_below(rng: &mut rand::rngs::StdRng, bound: usize) -> (r: usize)
    requires
        bound > 0,
    ensures
        r < bound,
        (r, *final(rng)) == below(*old(rng), bound, usize::BITS),
{
    rand::Rng::gen_range(rng, 0..bound)
}

/// How the next entry of a pool is chosen: evenly, or at a place that was drawn
/// by weight.
#[derive(Debug, Clone, Copy, PartialEq, Eq, Structural)]
pub enum Pick {
    Uniform,
    At(usize),
}

/// Where the weight of a pool's entry comes from: a level of the parent's
/// categorical marginal, or how often the entry occurred.
#[derive(Debug, Clone, Copy, PartialEq, Eq, Structural)]
pub enum Weight {
    Level(usize),
    Count(usize),
}

/// The text by which entries are told apart when they are counted: a string by
/// its characters, anything else by its JSON text.
pub open spec fn cell_key(c: Cell) -> Seq<char> {
    match c {
        Cell::Null => "null"@,
        Cell::Bool(b) => if b {
            "true"@
        } else {
            "false"@
        },
        Cell::Number(s) => s,
        Cell::Text(s) => s,
        Cell::Array(s) => s,
        Cell::Object(s) => s,
    }
}

pub(crate) fn value_key(v: &Value) -> (r: String)
    ensures
        r@ == cell_key(v@),
{
    match v {
        Value::Null => "null".to_owned(),
        Value::Bool(b) => if *b {
            "true".to_owned()
        } else {
            "false".to_owned()
        },
        Value::Number(s) => s.clone(),
        Value::Text(s) => s.clone(),
        Value::Array(s) => s.clone(),
        Value::Object(s) => s.clone(),
    }
}

/// How many of the cells have a key.
pub open spec fn key_count(cells: Seq<Cell>, key: Seq<char>) -> nat
    decreases cells.len(),
{
    if cells.len() == 0 {
        0
    } else {
        key_count(cells.drop_last(), key) + (if cell_key(cells.last()) == key {
            1nat
        } else {
            0nat
        })
    }
}

/// The first cell of each key, in order.
pub open spec fn firsts(cells: Seq<Cell>) -> Seq<Cell>
    decreases cells.len(),
{
    if cells.len() == 0 {
        Seq::empty()
    } else {
        let rest = cells.drop_last();
        if key_count(rest, cell_key(cells.last())) == 0 {
            firsts(rest).push(cells.last())
        } else {
            firsts(rest)
        }
    }
}

/// The weight of an entry: its level, where the parent's levels have it, else
/// its count.
pub open spec fn weight_of(cells: Seq<Cell>, levels: Option<Seq<Seq<char>>>, c: Cell) -> Weight {
    let count = Weight::Count(key_count(cells, cell_key(c)) as usize);
    match levels {
        Some(l) => if l.contains(cell_key(c)) {
            Weight::Level(crate::value::first_place(l, cell_key(c)) as usize)
        } else {
            count
        },
        None => count,
    }
}

/// A list with the entry of a place replaced by the last one.
pub open spec fn swapped_out<A>(s: Seq<A>, i: int) -> Seq<A> {
    s.update(i, s.last()).drop_last()
}

/// Moving the last entry to a place takes out what stood there.
proof fn lemma_swap_remove<A>(s: Seq<A>, i: int)
    requires
        0 <= i < s.len(),
    ensures
        s.to_multiset() == s.update(i, s.last()).drop_last().to_multiset().insert(s[i]),
{
    let t = s.drop_last();
    let last = s.last();
    let after = s.update(i, last).drop_last();
    assert(s =~= t.push(last));
    vstd::seq_lib::to_multiset_build(t, last);
    if i == s.len() - 1 {
        assert(after =~= t);
    } else {
        assert(after =~= t.update(i, last));
        vstd::seq_lib::to_multiset_update(t, i, last);
        vstd::seq_lib::to_multiset_contains(t, t[i]);
        assert(t.contains(t[i]));
        broadcast use vstd::multiset::group_multiset_axioms;

        assert(after.to_multiset().insert(s[i]) =~= t.to_multiset().insert(last));
    }
}

/// A pool of parent keys.
pub struct FkPool {
    values: Vec<Value>,
    weights: Vec<Weight>,
    prepared: bool,
}

impl FkPool {
    /// The entries.
    pub closed spec fn entries(&self) -> Seq<Cell> {
        self.values.deep_view()
    }

    /// The weights, where entries were counted.
    pub closed spec fn weight_list(&self) -> Seq<Weight> {
        self.weights@
    }

    /// Whether the entries were put in the order in which they are to be taken.
    pub closed spec fn is_prepared(&self) -> bool {
        self.prepared
    }

    pub fn new(values: Vec<Value>) -> (r: FkPool)
        ensures
            r.entries() == values.deep_view(),
            r.weight_list().len() == 0,
            !r.is_prepared(),
    {
        FkPool { values, weights: Vec::new(), prepared: false }
    }

    pub fn len(&self) -> (r: usize)
        ensures
            r == self.entries().len(),
    {
        self.values.len()
    }

    pub fn is_empty(&self) -> (r: bool)
        ensures
            r == (self.entries().len() == 0),
    {
        self.values.len() == 0
    }

    /// The weights of the entries, where they were counted.
    pub fn weights(&self) -> (r: &Vec<Weight>)
        ensures
            r@ == self.weight_list(),
    {
        &self.weights
    }

    pub fn prepared(&self) -> (r: bool)
        ensures
            r == self.is_prepared(),
    {
        self.prepared
    }

    /// How many different entries there are.
    pub fn distinct_len(&self) -> (r: usize)
        ensures
            r == self.entries().to_set().len(),
    {
        let ghost all = self.entries();
        let ghost mut seen: Seq<Cell> = Seq::empty();
        let mut n: usize = 0;
        let mut i: usize = 0;
        proof {
            assert(all.take(0).to_set() =~= seen.to_set());
        }
        while i < self.values.len()
            invariant
                i <= self.values@.len(),
                n <= i,
                all == self.entries(),
                seen.no_duplicates(),
                seen.len() == n,
                forall|c: Cell| seen.contains(c) <==> all.take(i as int).contains(c),
            decreases self.values@.len() - i,
        {
            let mut fresh = true;
            let mut j: usize = 0;
            while j < i
                invariant
                    j <= i,
                    i < self.values@.len(),
                    all == self.entries(),
                    fresh <==> forall|k: int| 0 <= k < j ==> #[trigger] all[k] != all[i as int],
                decreases i - j,
            {
                if self.values[j].same(&self.values[i]) {
                    proof {
                        assert(all[j as int] == all[i as int]);
                    }
                    fresh = false;
                }
                j = j + 1;
            }
            proof {
                let c = all[i as int];
                let now = all.take(i + 1);
                let was = all.take(i as int);
                assert(now =~= was.push(c));
                assert forall|d: Cell| now.contains(d) <==> was.contains(d) || d == c by {
                    if was.contains(d) {
                        assert(now[was.index_of(d)] == d);
                    }
                    if d == c {
                        assert(now[i as int] == d);
                    }
                    if now.contains(d) {
                        let k = now.index_of(d);
                        if k < i {
                            assert(was[k] == d);
                        }
                    }
                }
                if fresh {
                    assert(!seen.contains(c)) by {
                        if seen.contains(c) {
                            assert(was.contains(c));
                            assert(all[was.index_of(c)] == c);
                        }
                    }
                    let more = seen.push(c);
                    assert forall|d: Cell| more.contains(d) <==> seen.contains(d) || d == c by {
                        if seen.contains(d) {
                            assert(more[seen.index_of(d)] == d);
                        }
                        if d == c {
                            assert(more[seen.len() as int] == d);
                        }
                        if more.contains(d) {
                            let k = more.index_of(d);
                            if k < seen.len() {
                                assert(seen[k] == d);
                            }
                        }
                    }
                    seen = more;
                } else {
                    let k = choose|k: int| 0 <= k < i && #[trigger] all[k] == all[i as int];
                    assert(was[k] == c);
                }
            }
            if fresh {
                n = n + 1;
            }
            i = i + 1;
        }
        proof {
            assert(all.take(all.len() as int) =~= all);
            assert(seen.to_set() =~= all.to_set());
            seen.unique_seq_to_set();
        }
        n
    }

    /// One entry, which stays in the pool.
    pub fn sample_one(&self, pick: Pick, rng: &mut rand::rngs::StdRng) -> (r: Option<Value>)
        ensures
            match r {
                Some(v) => self.entries().contains(v@),
                None => true,
            },
            match pick {
                Pick::Uniform => match r {
                    Some(v) => {
                        let drawn = below(
                            *old(rng),
                            self.entries().len() as usize,
                            usize::BITS,
                        );
                        &&& v@ == self.entries()[drawn.0 as int]
                        &&& *final(rng) == drawn.1
                    },
                    None => self.entries().len() == 0 && *final(rng) == *old(rng),
                },
                Pick::At(i) => *final(rng) == *old(rng) && match r {
                    Some(v) => i < self.entries().len() && v@ == self.entries()[i as int],
                    None => i >= self.entries().len(),
                },
            },
    {
        if self.values.len() == 0 {
            return None;
        }
        let i: usize = match pick {
            Pick::Uniform => draw_below(rng, self.values.len()),
            Pick::At(i) => i,
        };
        if i < self.values.len() {
            proof {
                assert(self.entries()[i as int] == self.values@[i as int]@);
            }
            Some(self.values[i].copy())
        } else {
            None
        }
    }

    /// One entry, which leaves the pool: an evenly drawn one, or the last where
    /// the entries were put in order.
    pub fn sample_unique(&mut self, rng: &mut rand::rngs::StdRng) -> (r: Option<Value>)
        ensures
            final(self).is_prepared() == old(self).is_prepared(),
            final(self).weight_list() == old(self).weight_list(),
            match r {
                Some(v) => {
                    &&& old(self).entries().len() > 0
                    &&& old(self).entries().to_multiset() == final(self).entries().to_multiset().insert(v@)
                    &&& final(self).entries().len() + 1 == old(self).entries().len()
                    &&& if old(self).is_prepared() {
                        &&& v@ == old(self).entries().last()
                        &&& final(self).entries() == old(self).entries().drop_last()
                        &&& *final(rng) == *old(rng)
                    } else {
                        let drawn = below(
                            *old(rng),
                            old(self).entries().len() as usize,
                            usize::BITS,
                        );
                        &&& v@ == old(self).entries()[drawn.0 as int]
                        &&& final(self).entries() == swapped_out(
                            old(self).entries(),
                            drawn.0 as int,
                        )
                        &&& *final(rng) == drawn.1
                    }
                },
                None => {
                    &&& old(self).entries().len() == 0
                    &&& final(self).entries() == old(self).entries()
                    &&& *final(rng) == *old(rng)
                },
            },
    {
        let ghost before = self.entries();
        if self.values.len() == 0 {
            return None;
        }
        if self.prepared {
            let v = self.values.pop();
            proof {
                assert(self.entries() =~= before.drop_last());
                assert(before =~= self.entries().push(before.last()));
                vstd::seq_lib::to_multiset_build(self.entries(), before.last());
            }
            return v;
        }
        let i: usize = draw_below(rng, self.values.len());
        let v = self.values.swap_remove(i);
        proof {
            assert(self.entries() =~= swapped_out(before, i as int));
            lemma_swap_remove(before, i as int);
        }
        Some(v)
    }
}

/// A list of the places below `n`, each once.
pub open spec fn is_permutation(order: Seq<usize>, n: int) -> bool {
    &&& order.len() == n
    &&& order.no_duplicates()
    &&& forall|i: int| 0 <= i < order.len() ==> #[trigger] order[i] < n
}

/// The entries in another order.
pub open spec fn permuted<A>(s: Seq<A>, order: Seq<usize>) -> Seq<A> {
    Seq::new(order.len(), |i: int| s[order[i] as int])
}

/// A permutation keeps what a list holds.
proof fn lemma_permuted_same<A>(s: Seq<A>, order: Seq<usize>)
    requires
        is_permutation(order, s.len() as int),
    ensures
        permuted(s, order).to_multiset() == s.to_multiset(),
    decreases s.len(),
{
    let out = permuted(s, order);
    if s.len() == 0 {
        assert(out =~= s);
    } else {
        let x = order.last();
        let rest = s.remove(x as int);
        let down = Seq::new(
            (order.len() - 1) as nat,
            |i: int|
                if order[i] > x {
                    (order[i] - 1) as usize
                } else {
                    order[i]
                },
        );
        assert forall|i: int, j: int| 0 <= i < down.len() && 0 <= j < down.len() && i
            != j implies down[i] != down[j] by {
            assert(order[i] != order[j]);
            assert(order[i] != order[order.len() - 1] && order[j] != order[order.len() - 1]);
        }
        assert forall|i: int| 0 <= i < down.len() implies #[trigger] down[i] < rest.len() by {
            assert(order[i] != order[order.len() - 1]);
            assert(order[i] < s.len());
        }
        lemma_permuted_same(rest, down);
        assert(permuted(rest, down) =~= out.drop_last()) by {
            assert forall|i: int| 0 <= i < down.len() implies rest[down[i] as int] == out[i] by {
                assert(order[i] != order[order.len() - 1]);
                assert(order[i] < s.len());
            }
        }
        assert(out =~= out.drop_last().push(s[x as int]));
        vstd::seq_lib::to_multiset_build(out.drop_last(), s[x as int]);
        vstd::seq_lib::to_multiset_remove(s, x as int);
        vstd::seq_lib::to_multiset_contains(s, s[x as int]);
        assert(s.contains(s[x as int]));
        broadcast use vstd::multiset::group_multiset_axioms;

        assert(out.to_multiset() =~= s.to_multiset());
    }
}

/// Whether a list holds the places below `n`, each once.
fn check_permutation(order: &[usize], n: usize) -> (r: bool)
    ensures
        r == is_permutation(order@, n as int),
{
    if order.len() != n {
        return false;
    }
    let mut seen: Vec<bool> = Vec::new();
    let mut k: usize = 0;
    while k < n
        invariant
            k <= n,
            seen@.len() == k,
            forall|j: int| 0 <= j < k ==> !seen@[j],
        decreases n - k,
    {
        seen.push(false);
        k = k + 1;
    }
    let mut i: usize = 0;
    while i < order.len()
        invariant
            i <= order@.len(),
            order@.len() == n,
            seen@.len() == n,
            forall|j: int| 0 <= j < i ==> #[trigger] order@[j] < n && seen@[order@[j] as int],
            forall|v: int|
                0 <= v < n && #[trigger] seen@[v] ==> exists|j: int|
                    0 <= j < i && #[trigger] order@[j] == v,
            forall|a: int, b: int| 0 <= a < b < i ==> #[trigger] order@[a] != #[trigger] order@[b],
        decreases order@.len() - i,
    {
        let p: usize = order[i];
        if p >= n {
            return false;
        }
        if seen[p] {
            proof {
                let j = choose|j: int| 0 <= j < i && #[trigger] order@[j] == p;
                assert(order@[j] == order@[i as int]);
            }
            return false;
        }
        let ghost before = seen@;
        seen.set(p, true);
        proof {
            assert forall|v: int| 0 <= v < n && #[trigger] seen@[v] implies exists|j: int|
                0 <= j < i + 1 && #[trigger] order@[j] == v by {
                if v == p {
                    assert(order@[i as int] == v);
                } else {
                    assert(before[v]);
                    let j = choose|j: int| 0 <= j < i && #[trigger] order@[j] == v;
                    assert(order@[j] == v);
                }
            }
        }
        i = i + 1;
    }
    true
}

impl FkPool {
    /// Puts the entries in the order in which they are to be taken, the first to
    /// be taken last. What is not an order of the entries is refused.
    pub fn prepare(&mut self, order: &[usize]) -> (r: bool)
        ensures
            r == is_permutation(order@, old(self).entries().len() as int),
            r ==> final(self).is_prepared() && final(self).entries() == permuted(
                old(self).entries(),
                order@,
            ) && final(self).entries().to_multiset() == old(self).entries().to_multiset(),
            final(self).weight_list() == old(self).weight_list(),
            !r ==> *final(self) == *old(self),
    {
        if !check_permutation(order, self.values.len()) {
            return false;
        }
        let ghost before = self.entries();
        let mut out: Vec<Value> = Vec::new();
        let mut i: usize = 0;
        while i < order.len()
            invariant
                i <= order@.len(),
                before == self.entries(),
                is_permutation(order@, before.len() as int),
                out.deep_view() == permuted(before, order@).take(i as int),
            decreases order@.len() - i,
        {
            let ghost so_far = out.deep_view();
            proof {
                assert(order@[i as int] < before.len());
            }
            out.push(self.values[order[i]].copy());
            proof {
                let all = permuted(before, order@);
                assert(out.deep_view() =~= so_far.push(all[i as int]));
                assert(all.take(i + 1) =~= all.take(i as int).push(all[i as int]));
            }
            i = i + 1;
        }
        proof {
            let all = permuted(before, order@);
            assert(all.take(all.len() as int) =~= all);
            lemma_permuted_same(before, order@);
        }
        self.values = out;
        self.prepared = true;
        true
    }

    /// Collapses the values to one entry for each key, weighted by how often it
    /// occurs. Where the parent's levels have an entry, its weight is the
    /// level's.
    pub fn from_observed_weights(values: &[Value], levels: Option<&Vec<String>>) -> (r: FkPool)
        ensures
            r.entries() == firsts(values.deep_view()),
            r.weight_list().len() == r.entries().len(),
            forall|i: int|
                0 <= i < r.entries().len() ==> #[trigger] r.weight_list()[i] == weight_of(
                    values.deep_view(),
                    match levels {
                        Some(l) => Some(l.deep_view()),
                        None => None,
                    },
                    r.entries()[i],
                ),
            !r.is_prepared(),
    {
        let ghost all = values.deep_view();
        let mut entries: Vec<Value> = Vec::new();
        let mut i: usize = 0;
        while i < values.len()
            invariant
                i <= values@.len(),
                all == values.deep_view(),
                entries.deep_view() == firsts(all.take(i as int)),
            decreases values@.len() - i,
        {
            let ghost before = entries.deep_view();
            let key = value_key(&values[i]);
            proof {
                assert(all.take(i + 1).drop_last() =~= all.take(i as int));
                assert(all.take(i + 1).last() == all[i as int]);
            }
            if count_key(values, i, &key) == 0 {
                entries.push(values[i].copy());
                proof {
                    assert(entries.deep_view() =~= before.push(all[i as int]));
                }
            }
            i = i + 1;
        }
        proof {
            assert(all.take(all.len() as int) =~= all);
        }
        let mut weights: Vec<Weight> = Vec::new();
        let ghost wanted = match levels {
            Some(l) => Some(l.deep_view()),
            None => None,
        };
        let mut k: usize = 0;
        while k < entries.len()
            invariant
                k <= entries@.len(),
                all == values.deep_view(),
                entries.deep_view() == firsts(all),
                wanted == (match levels {
                    Some(l) => Some(l.deep_view()),
                    None => None,
                }),
                weights@.len() == k,
                forall|i: int|
                    0 <= i < k ==> #[trigger] weights@[i] == weight_of(
                        all,
                        wanted,
                        entries.deep_view()[i],
                    ),
            decreases entries@.len() - k,
        {
            let key = value_key(&entries[k]);
            proof {
                assert(entries.deep_view()[k as int] == entries@[k as int]@);
                assert(all.take(all.len() as int) =~= all);
                lemma_key_count_bound(all, key@);
            }
            let counted = Weight::Count(count_key(values, values.len(), &key));
            let w = match levels {
                Some(l) => match crate::value::find_name(l.as_slice(), key.as_str()) {
                    Some(p) => Weight::Level(p),
                    None => counted,
                },
                None => counted,
            };
            weights.push(w);
            k = k + 1;
        }
        FkPool { values: entries, weights, prepared: false }
    }
}

proof fn lemma_key_count_bound(cells: Seq<Cell>, key: Seq<char>)
    ensures
        key_count(cells, key) <= cells.len(),
    decreases cells.len(),
{
    if cells.len() > 0 {
        lemma_key_count_bound(cells.drop_last(), key);
    }
}

/// How many of the first `n` values have a key.
fn count_key(values: &[Value], n: usize, key: &String) -> (r: usize)
    requires
        n <= values@.len(),
    ensures
        r == key_count(values.deep_view().take(n as int), key@),
{
    let ghost all = values.deep_view();
    let mut count: usize = 0;
    let mut i: usize = 0;
    proof {
        assert(all.take(0) =~= Seq::empty());
    }
    while i < n
        invariant
            i <= n <= values@.len(),
            all == values.deep_view(),
            count <= i,
            count == key_count(all.take(i as int), key@),
        decreases n - i,
    {
        proof {
            assert(all.take(i + 1).drop_last() =~= all.take(i as int));
            assert(all.take(i + 1).last() == all[i as int]);
        }
        let k = value_key(&values[i]);
        if text::same(k.as_str(), key.as_str()) {
            count = count + 1;
        }
        i = i + 1;
    }
    count
}

} // verus!
