//! Frequencies of the levels of a column.
use crate::fk_pool;
use crate::names;
use crate::text;
use crate::value;
use crate::value::Value;
use vstd::prelude::*;

verus! {

/// The levels of a column in order, each with the number of its samples.
#[derive(Debug)]
pub struct LevelCounts {
    pub values: Vec<String>,
    pub counts: Vec<usize>,
    pub total: usize,
}

/// How often a name occurs.
pub open spec fn times(samples: Seq<Seq<char>>, name: Seq<char>) -> nat
    decreases samples.len(),
{
    if samples.len() == 0 {
        0
    } else {
        times(samples.drop_last(), name) + if samples.last() == name {
            1nat
        } else {
            0
        }
    }
}

fn count_times(samples: &[String], name: &str) -> (r: usize)
    ensures
        r == times(samples.deep_view(), name@),
{
    let ghost all = samples.deep_view();
    let mut n: usize = 0;
    let mut i: usize = 0;
    proof {
        assert(all.take(0) =~= Seq::empty());
    }
    while i < samples.len()
        invariant
            i <= samples@.len(),
            n <= i,
            all == samples.deep_view(),
            n == times(all.take(i as int), name@),
        decreases samples@.len() - i,
    {
        proof {
            assert(all.take(i + 1).drop_last() =~= all.take(i as int));
            assert(all.take(i + 1).last() == samples@[i as int]@);
        }
        if text::same(samples[i].as_str(), name) {
            n = n + 1;
        }
        i = i + 1;
    }
    proof {
        assert(all.take(all.len() as int) =~= all);
    }
    n
}

/// Fits the levels of a column.
#[derive(Debug, Clone, Copy)]
pub struct CategoricalFitter;

impl CategoricalFitter {
    /// Counts the levels among samples.
    pub fn fit_strings(&self, samples: &[String]) -> (r: Result<LevelCounts, String>)
        ensures
            match r {
                Ok(f) => {
                    &&& samples@.len() > 0
                    &&& f.total == samples@.len()
                    &&& names::ascending(f.values.deep_view())
                    &&& forall|s: Seq<char>| #[trigger]
                        f.values.deep_view().contains(s) <==> samples.deep_view().contains(s)
                    &&& f.counts@.len() == f.values@.len()
                    &&& forall|i: int|
                        0 <= i < f.values@.len() ==> #[trigger] f.counts@[i] == times(
                            samples.deep_view(),
                            f.values@[i]@,
                        )
                },
                Err(m) => samples@.len() == 0 && m@ == "empty samples"@,
            },
    {
        if samples.len() == 0 {
            return Err("empty samples".to_owned());
        }
        let ghost all = samples.deep_view();
        let mut values: Vec<String> = Vec::new();
        let mut i: usize = 0;
        while i < samples.len()
            invariant
                i <= samples@.len(),
                all == samples.deep_view(),
                names::ascending(values.deep_view()),
                forall|s: Seq<char>| #[trigger]
                    values.deep_view().contains(s) <==> all.take(i as int).contains(s),
            decreases samples@.len() - i,
        {
            let ghost before = values.deep_view();
            names::insert(&mut values, samples[i].as_str());
            proof {
                let was = all.take(i as int);
                let now = all.take(i + 1);
                assert(now =~= was.push(samples@[i as int]@));
                assert forall|s: Seq<char>| #[trigger]
                    values.deep_view().contains(s) <==> now.contains(s) by {
                    assert(values.deep_view().contains(s) <==> before.contains(s) || s
                        == samples@[i as int]@);
                    assert(before.contains(s) <==> was.contains(s));
                    assert(now[i as int] == samples@[i as int]@);
                    if was.contains(s) {
                        let k = choose|k: int| 0 <= k < was.len() && was[k] == s;
                        assert(now[k] == s);
                    }
                    if now.contains(s) {
                        let k = choose|k: int| 0 <= k < now.len() && now[k] == s;
                        if k < i {
                            assert(was[k] == s);
                        }
                    }
                }
            }
            i = i + 1;
        }
        proof {
            assert(all.take(all.len() as int) =~= all);
        }
        let mut counts: Vec<usize> = Vec::new();
        let mut k: usize = 0;
        while k < values.len()
            invariant
                k <= values@.len(),
                counts@.len() == k,
                forall|j: int|
                    0 <= j < k ==> #[trigger] counts@[j] == times(
                        samples.deep_view(),
                        values@[j]@,
                    ),
            decreases values@.len() - k,
        {
            counts.push(count_times(samples, values[k].as_str()));
            k = k + 1;
        }
        Ok(LevelCounts { values, counts, total: samples.len() })
    }
}

/// The counts of the levels, added up.
pub open spec fn counted(samples: Seq<Seq<char>>, levels: Seq<Seq<char>>) -> nat
    decreases levels.len(),
{
    if levels.len() == 0 {
        0
    } else {
        counted(samples, levels.drop_last()) + times(samples, levels.last())
    }
}

proof fn lemma_counted_step(samples: Seq<Seq<char>>, levels: Seq<Seq<char>>)
    requires
        samples.len() > 0,
        levels.no_duplicates(),
    ensures
        counted(samples, levels) == counted(samples.drop_last(), levels) + if levels.contains(
            samples.last(),
        ) {
            1nat
        } else {
            0
        },
    decreases levels.len(),
{
    if levels.len() > 0 {
        let fewer = levels.drop_last();
        assert(fewer.no_duplicates());
        lemma_counted_step(samples, fewer);
        assert(levels[levels.len() - 1] == levels.last());
        if fewer.contains(samples.last()) {
            let k = choose|k: int| 0 <= k < fewer.len() && fewer[k] == samples.last();
            assert(levels[k] == samples.last());
        }
        if levels.contains(samples.last()) && levels.last() != samples.last() {
            let k = choose|k: int| 0 <= k < levels.len() && levels[k] == samples.last();
            assert(fewer[k] == samples.last());
        }
    }
}

proof fn lemma_nothing_counted(levels: Seq<Seq<char>>)
    ensures
        counted(Seq::empty(), levels) == 0,
    decreases levels.len(),
{
    if levels.len() > 0 {
        lemma_nothing_counted(levels.drop_last());
    }
}

/// The counts of all levels add up to the number of samples, so their shares add
/// up to one.
pub proof fn lemma_counts_add_up(samples: Seq<Seq<char>>, levels: Seq<Seq<char>>)
    requires
        names::ascending(levels),
        forall|s: Seq<char>| #[trigger] samples.contains(s) ==> levels.contains(s),
    ensures
        counted(samples, levels) == samples.len(),
    decreases samples.len(),
{
    names::lemma_ascending_distinct(levels);
    if samples.len() == 0 {
        assert(samples =~= Seq::empty());
        lemma_nothing_counted(levels);
    } else {
        let fewer = samples.drop_last();
        assert forall|s: Seq<char>| #[trigger] fewer.contains(s) implies levels.contains(s) by {
            let k = choose|k: int| 0 <= k < fewer.len() && fewer[k] == s;
            assert(samples[k] == s);
            assert(samples.contains(s));
        }
        lemma_counts_add_up(fewer, levels);
        lemma_counted_step(samples, levels);
        assert(samples[samples.len() - 1] == samples.last());
        assert(samples.contains(samples.last()));
    }
}

/// The level of a value: the first one that is written like it.
pub fn level_of(levels: &[String], v: &Value) -> (r: Option<usize>)
    ensures
        match r {
            Some(i) => levels.deep_view().contains(fk_pool::cell_key(v@)) && i
                == value::first_place(levels.deep_view(), fk_pool::cell_key(v@)),
            None => !levels.deep_view().contains(fk_pool::cell_key(v@)),
        },
{
    let key = fk_pool::value_key(v);
    value::find_name(levels, key.as_str())
}

} // verus!
