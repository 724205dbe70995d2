//! Sets of names, kept in order and without repetition.
use crate::text;
use vstd::prelude::*;

verus! {

/// Each name is before the next.
pub open spec fn ascending(names: Seq<Seq<char>>) -> bool {
    forall|i: int, j: int|
        0 <= i < j < names.len() ==> text::before(#[trigger] names[i], #[trigger] names[j])
}

/// An ascending list holds no name twice.
pub proof fn lemma_ascending_distinct(names: Seq<Seq<char>>)
    requires
        ascending(names),
    ensures
        names.no_duplicates(),
{
    assert forall|i: int, j: int|
        0 <= i < names.len() && 0 <= j < names.len() && i != j implies names[i] != names[j] by {
        text::lemma_before_total(names[i], names[j]);
        if i < j {
            assert(text::before(names[i], names[j]));
        } else {
            assert(text::before(names[j], names[i]));
        }
    }
}

/// Two ascending lists with the same members are the same.
pub proof fn lemma_ascending_unique(a: Seq<Seq<char>>, b: Seq<Seq<char>>)
    requires
        ascending(a),
        ascending(b),
        forall|n: Seq<char>| a.contains(n) <==> b.contains(n),
    ensures
        a == b,
    decreases a.len(),
{
    if a.len() == 0 {
        if b.len() > 0 {
            assert(b.contains(b[0]));
        }
        assert(a =~= b);
    } else {
        assert(a.contains(a.last()));
        assert(b.contains(a.last()));
        assert(b.contains(b.last()));
        assert(a.contains(b.last()));
        let i = a.index_of(b.last());
        let j = b.index_of(a.last());
        text::lemma_before_total(a.last(), b.last());
        if i < a.len() - 1 {
            assert(text::before(a[i], a[a.len() - 1]));
        }
        if j < b.len() - 1 {
            assert(text::before(b[j], b[b.len() - 1]));
        }
        assert(a.last() == b.last());
        let a1 = a.drop_last();
        let b1 = b.drop_last();
        lemma_ascending_distinct(a);
        lemma_ascending_distinct(b);
        assert forall|n: Seq<char>| a1.contains(n) <==> b1.contains(n) by {
            if a1.contains(n) {
                let k = a1.index_of(n);
                assert(a[k] == n);
                assert(a.contains(n));
                assert(b.contains(n));
                let m = b.index_of(n);
                assert(m < b.len() - 1);
                assert(b1[m] == n);
            }
            if b1.contains(n) {
                let k = b1.index_of(n);
                assert(b[k] == n);
                assert(b.contains(n));
                assert(a.contains(n));
                let m = a.index_of(n);
                assert(m < a.len() - 1);
                assert(a1[m] == n);
            }
        }
        lemma_ascending_unique(a1, b1);
        assert(a =~= a1.push(a.last()));
        assert(b =~= b1.push(b.last()));
    }
}

/// Whether a name is among the names.
pub fn has(names: &[String], n: &str) -> (r: bool)
    ensures
        r == names.deep_view().contains(n@),
{
    let ghost all = names.deep_view();
    let mut i: usize = 0;
    while i < names.len()
        invariant
            i <= names@.len(),
            all == names.deep_view(),
            forall|j: int| 0 <= j < i ==> #[trigger] all[j] != n@,
        decreases names@.len() - i,
    {
        if text::same(names[i].as_str(), n) {
            proof {
                assert(all[i as int] == n@);
            }
            return true;
        }
        i = i + 1;
    }
    false
}

/// Adds a name.
pub fn insert(names: &mut Vec<String>, n: &str)
    requires
        ascending(old(names).deep_view()),
    ensures
        ascending(final(names).deep_view()),
        forall|m: Seq<char>|
            final(names).deep_view().contains(m) <==> old(names).deep_view().contains(m) || m
                == n@,
{
    let ghost all = names.deep_view();
    let mut i: usize = 0;
    while i < names.len() && text::is_before(names[i].as_str(), n)
        invariant
            i <= names@.len(),
            names@ == old(names)@,
            all == names.deep_view(),
            forall|j: int| 0 <= j < i ==> text::before(#[trigger] all[j], n@),
        decreases names@.len() - i,
    {
        i = i + 1;
    }
    if i < names.len() && text::same(names[i].as_str(), n) {
        proof {
            assert(all[i as int] == n@);
        }
        return;
    }
    names.insert(i, n.to_owned());
    proof {
        let after = names.deep_view();
        assert(after =~= all.insert(i as int, n@));
        assert forall|a: int, b: int| 0 <= a < b < after.len() implies text::before(
            #[trigger] after[a],
            #[trigger] after[b],
        ) by {
            if i < all.len() {
                text::lemma_before_total(all[i as int], n@);
            }
            if b == i {
                assert(after[a] == all[a]);
            } else if a == i {
                assert(after[b] == all[b - 1]);
                if b - 1 > i {
                    assert(text::before(all[i as int], all[b - 1]));
                    text::lemma_before_trans(n@, all[i as int], all[b - 1]);
                }
            }
        }
        assert forall|m: Seq<char>| after.contains(m) <==> all.contains(m) || m == n@ by {
            if all.contains(m) {
                let k = all.index_of(m);
                if k < i {
                    assert(after[k] == m);
                } else {
                    assert(after[k + 1] == m);
                }
            }
            if m == n@ {
                assert(after[i as int] == m);
            }
            if after.contains(m) && m != n@ {
                let k = after.index_of(m);
                if k < i {
                    assert(all[k] == m);
                } else {
                    assert(all[k - 1] == m);
                }
            }
        }
    }
}

/// The order in which names are listed.
pub open spec fn in_order() -> spec_fn(Seq<char>, Seq<char>) -> bool {
    |a: Seq<char>, b: Seq<char>| a == b || text::before(a, b)
}

/// The names in order; a name that occurs twice is listed twice.
pub open spec fn sorted(names: Seq<Seq<char>>) -> Seq<Seq<char>> {
    names.sort_by(in_order())
}

pub(crate) proof fn lemma_in_order_total()
    ensures
        vstd::relations::total_ordering(in_order()),
{
    let leq = in_order();
    assert forall|a: Seq<char>, b: Seq<char>| #[trigger] leq(a, b) && #[trigger] leq(
        b,
        a,
    ) implies a == b by {
        text::lemma_before_total(a, b);
    }
    assert forall|a: Seq<char>, b: Seq<char>| #[trigger] leq(a, b) || #[trigger] leq(b, a) by {
        text::lemma_before_total(a, b);
    }
    assert forall|a: Seq<char>, b: Seq<char>, c: Seq<char>| #[trigger] leq(a, b) && #[trigger] leq(
        b,
        c,
    ) implies leq(a, c) by {
        if a != b && b != c {
            text::lemma_before_trans(a, b, c);
        }
    }
}

/// Puts names in order.
pub fn sort(names: &[String]) -> (r: Vec<String>)
    ensures
        r.deep_view() == sorted(names.deep_view()),
        r@.len() == names@.len(),
{
    let ghost all = names.deep_view();
    let ghost leq = in_order();
    let mut out: Vec<String> = Vec::new();
    let mut i: usize = 0;
    proof {
        lemma_in_order_total();
        assert(out.deep_view() =~= all.take(0));
    }
    while i < names.len()
        invariant
            i <= names@.len(),
            all == names.deep_view(),
            leq == in_order(),
            vstd::relations::total_ordering(leq),
            vstd::relations::sorted_by(out.deep_view(), leq),
            out.deep_view().to_multiset() == all.take(i as int).to_multiset(),
            out@.len() == i,
        decreases names@.len() - i,
    {
        let ghost before = out.deep_view();
        let ghost n = all[i as int];
        let mut j: usize = 0;
        while j < out.len() && text::is_before(out[j].as_str(), names[i].as_str())
            invariant
                i < names@.len(),
                all == names.deep_view(),
                n == all[i as int],
                before == out.deep_view(),
                j <= out@.len(),
                forall|k: int| 0 <= k < j ==> text::before(#[trigger] before[k], n),
            decreases out@.len() - j,
        {
            j = j + 1;
        }
        out.insert(j, names[i].clone());
        proof {
            let after = out.deep_view();
            assert(after =~= before.insert(j as int, n));
            assert forall|a: int, b: int| 0 <= a < b < after.len() implies #[trigger] leq(
                after[a],
                after[b],
            ) by {
                if a < j && b < j {
                    assert(leq(before[a], before[b]));
                } else if b == j {
                    assert(text::before(before[a], n));
                } else if a == j {
                    text::lemma_before_total(before[j as int], n);
                    if b - 1 > j {
                        assert(leq(before[j as int], before[b - 1]));
                        assert(leq(n, before[j as int]));
                    }
                } else if a < j {
                    assert(leq(before[a], before[b - 1]));
                } else {
                    assert(leq(before[a - 1], before[b - 1]));
                }
            }
            vstd::seq_lib::to_multiset_insert(before, j as int, n);
            assert(all.take(i + 1) =~= all.take(i as int).push(n));
            vstd::seq_lib::to_multiset_build(all.take(i as int), n);
        }
        i = i + 1;
    }
    proof {
        assert(all.take(all.len() as int) =~= all);
        all.lemma_sort_by_ensures(leq);
        vstd::seq_lib::lemma_sorted_unique(out.deep_view(), sorted(all), leq);
    }
    out
}

} // verus!
