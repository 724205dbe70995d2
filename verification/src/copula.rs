//! Which dimensions of a joint draw are pinned, and which are free.
use crate::text;
use vstd::prelude::*;

verus! {

/// A pinned dimension: how many values it is pinned to, and whether all of them
/// are finite.
#[derive(Debug, Clone, Copy)]
pub struct Pin {
    pub dimension: usize,
    pub values: usize,
    pub finite: bool,
}

/// A dimension is pinned.
pub open spec fn pinned(pins: Seq<Pin>, d: int) -> bool {
    exists|i: int| 0 <= i < pins.len() && (#[trigger] pins[i]).dimension == d
}

/// What is wrong with a pin, behind those before it.
pub open spec fn pin_fault(dimensions: nat, rows: nat, before: Seq<Pin>, pin: Pin) -> Option<
    Seq<char>,
> {
    let d = text::digits(pin.dimension as nat);
    if pin.dimension >= dimensions {
        Some(
            "fixed dimension "@ + d + " is out of range for a "@ + text::digits(dimensions)
                + "-dimensional copula"@,
        )
    } else if pinned(before, pin.dimension as int) {
        Some("duplicate fixed dimension "@ + d)
    } else if pin.values != rows {
        Some(
            "fixed dimension "@ + d + " has "@ + text::digits(pin.values as nat)
                + " z values but the table has "@ + text::digits(rows) + " rows"@,
        )
    } else if !pin.finite {
        Some("fixed dimension "@ + d + " has a non-finite z"@)
    } else {
        None
    }
}

/// The first pin with a fault.
pub open spec fn faulty(dimensions: nat, rows: nat, pins: Seq<Pin>, m: Seq<char>, i: int) -> bool {
    &&& 0 <= i < pins.len()
    &&& forall|k: int|
        0 <= k < i ==> pin_fault(dimensions, rows, pins.take(k), #[trigger] pins[k]) is None
    &&& pin_fault(dimensions, rows, pins.take(i), pins[i]) == Some(m)
}

pub open spec fn some_faulty(dimensions: nat, rows: nat, pins: Seq<Pin>, m: Seq<char>) -> bool {
    exists|i: int| #[trigger] faulty(dimensions, rows, pins, m, i)
}

/// Numbers below a bound, ascending: the pinned ones, or the others.
pub open spec fn chosen(pins: Seq<Pin>, bound: nat, free: bool) -> Seq<usize>
    decreases bound,
{
    if bound == 0 {
        Seq::empty()
    } else {
        let before = chosen(pins, (bound - 1) as nat, free);
        if pinned(pins, bound - 1) != free {
            before.push((bound - 1) as usize)
        } else {
            before
        }
    }
}

/// The dimensions of a draw: those that are pinned and those that are free, each
/// ascending.
#[derive(Debug)]
pub struct Split {
    pub pinned: Vec<usize>,
    pub free: Vec<usize>,
}

fn is_pinned(pins: &[Pin], count: usize, d: usize) -> (r: bool)
    requires
        count <= pins@.len(),
    ensures
        r == pinned(pins@.take(count as int), d as int),
{
    let mut i: usize = 0;
    while i < count
        invariant
            i <= count <= pins@.len(),
            forall|k: int| 0 <= k < i ==> (#[trigger] pins@[k]).dimension != d,
        decreases count - i,
    {
        if pins[i].dimension == d {
            proof {
                assert(pins@.take(count as int)[i as int].dimension == d);
            }
            return true;
        }
        i = i + 1;
    }
    false
}

fn check_pin(dimensions: usize, rows: usize, pins: &[Pin], at: usize) -> (r: Option<String>)
    requires
        at < pins@.len(),
    ensures
        r.deep_view() == pin_fault(
            dimensions as nat,
            rows as nat,
            pins@.take(at as int),
            pins@[at as int],
        ),
{
    let pin = pins[at];
    let d = text::number_text(pin.dimension);
    if pin.dimension >= dimensions {
        let mut m = text::around("fixed dimension ", d.as_str(), " is out of range for a ");
        text::push_text(&mut m, text::number_text(dimensions).as_str());
        text::push_text(&mut m, "-dimensional copula");
        return Some(m);
    }
    if is_pinned(pins, at, pin.dimension) {
        let mut m = "duplicate fixed dimension ".to_owned();
        text::push_text(&mut m, d.as_str());
        return Some(m);
    }
    if pin.values != rows {
        let mut m = text::around("fixed dimension ", d.as_str(), " has ");
        text::push_text(&mut m, text::number_text(pin.values).as_str());
        text::push_text(&mut m, " z values but the table has ");
        text::push_text(&mut m, text::number_text(rows).as_str());
        text::push_text(&mut m, " rows");
        return Some(m);
    }
    if !pin.finite {
        return Some(text::around("fixed dimension ", d.as_str(), " has a non-finite z"));
    }
    None
}

/// Refuses pins that do not fit a draw, and splits its dimensions into those that
/// are pinned and those that are free.
pub fn split_dimensions(dimensions: usize, rows: usize, pins: &[Pin]) -> (r: Result<Split, String>)
    ensures
        match r {
            Ok(s) => {
                &&& forall|k: int|
                    0 <= k < pins@.len() ==> pin_fault(
                        dimensions as nat,
                        rows as nat,
                        pins@.take(k),
                        #[trigger] pins@[k],
                    ) is None
                &&& s.pinned@ == chosen(pins@, dimensions as nat, false)
                &&& s.free@ == chosen(pins@, dimensions as nat, true)
            },
            Err(m) => some_faulty(dimensions as nat, rows as nat, pins@, m@),
        },
{
    let mut i: usize = 0;
    while i < pins.len()
        invariant
            i <= pins@.len(),
            forall|k: int|
                0 <= k < i ==> pin_fault(
                    dimensions as nat,
                    rows as nat,
                    pins@.take(k),
                    #[trigger] pins@[k],
                ) is None,
        decreases pins@.len() - i,
    {
        match check_pin(dimensions, rows, pins, i) {
            Some(m) => {
                proof {
                    assert(faulty(dimensions as nat, rows as nat, pins@, m@, i as int));
                }
                return Err(m);
            },
            None => {},
        }
        i = i + 1;
    }
    let mut bound: Vec<usize> = Vec::new();
    let mut free: Vec<usize> = Vec::new();
    let mut d: usize = 0;
    proof {
        assert(pins@.take(pins@.len() as int) =~= pins@);
    }
    while d < dimensions
        invariant
            d <= dimensions,
            pins@.take(pins@.len() as int) == pins@,
            bound@ == chosen(pins@, d as nat, false),
            free@ == chosen(pins@, d as nat, true),
        decreases dimensions - d,
    {
        if is_pinned(pins, pins.len(), d) {
            bound.push(d);
        } else {
            free.push(d);
        }
        d = d + 1;
    }
    Ok(Split { pinned: bound, free })
}

proof fn lemma_chosen(pins: Seq<Pin>, bound: nat, free: bool, d: usize)
    requires
        bound <= usize::MAX,
    ensures
        chosen(pins, bound, free).contains(d) <==> d < bound && pinned(pins, d as int) != free,
    decreases bound,
{
    let now = chosen(pins, bound, free);
    if bound > 0 {
        let before = chosen(pins, (bound - 1) as nat, free);
        lemma_chosen(pins, (bound - 1) as nat, free, d);
        if pinned(pins, bound - 1) != free {
            assert(now[now.len() - 1] == bound - 1);
            if before.contains(d) {
                let k = choose|k: int| 0 <= k < before.len() && before[k] == d;
                assert(now[k] == d);
            }
            if now.contains(d) && d != bound - 1 {
                let k = choose|k: int| 0 <= k < now.len() && now[k] == d;
                assert(before[k] == d);
            }
        }
    }
}

/// Every dimension is either pinned or free, and never both.
pub proof fn lemma_split_is_a_partition(pins: Seq<Pin>, dimensions: usize, d: usize)
    ensures
        chosen(pins, dimensions as nat, false).contains(d) <==> d < dimensions && pinned(
            pins,
            d as int,
        ),
        chosen(pins, dimensions as nat, true).contains(d) <==> d < dimensions && !pinned(
            pins,
            d as int,
        ),
        chosen(pins, dimensions as nat, false).len() + chosen(pins, dimensions as nat, true).len()
            == dimensions,
    decreases dimensions,
{
    lemma_chosen(pins, dimensions as nat, false, d);
    lemma_chosen(pins, dimensions as nat, true, d);
    if dimensions > 0 {
        lemma_split_is_a_partition(pins, (dimensions - 1) as usize, d);
    }
}

} // verus!
