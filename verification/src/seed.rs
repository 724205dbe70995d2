//! Seeds: one stream of random numbers for each purpose.
use crate::text;
use vstd::prelude::*;

verus! {

/// The hash of a text's bytes: each step takes 33 times the hash so far and the
/// next byte, within 64 bits.
pub open spec fn label_hash(bytes: Seq<u8>) -> u64
    decreases bytes.len(),
{
    if bytes.len() == 0 {
        5381
    } else {
        ((label_hash(bytes.drop_last()) * 33 + bytes.last()) % 0x1_0000_0000_0000_0000) as u64
    }
}

/// The seed of a label.
pub open spec fn seed_of(base: Option<u64>, label: Seq<char>) -> Option<u64> {
    match base {
        Some(s) => Some(s ^ label_hash(vstd::utf8::encode_utf8(label))),
        None => None,
    }
}

/// The seed of a label, so that streams of one base seed differ by their labels.
pub fn table_seed(base: Option<u64>, table: &str) -> (r: Option<u64>)
    ensures
        r == seed_of(base, table@),
{
    match base {
        Some(s) => {
            let bytes = table.as_bytes();
            let ghost all = bytes@;
            let mut h: u64 = 5381;
            let mut i: usize = 0;
            proof {
                assert(all.take(0) =~= Seq::empty());
            }
            while i < bytes.len()
                invariant
                    i <= bytes@.len(),
                    all == bytes@,
                    h == label_hash(all.take(i as int)),
                decreases bytes@.len() - i,
            {
                proof {
                    assert(all.take(i + 1).drop_last() =~= all.take(i as int));
                    assert(all.take(i + 1).last() == all[i as int]);
                }
                h = h.wrapping_mul(33).wrapping_add(bytes[i] as u64);
                i = i + 1;
            }
            proof {
                assert(all.take(all.len() as int) =~= all);
            }
            Some(s ^ h)
        },
        None => None,
    }
}

/// The label of a column's stream.
pub open spec fn stream_label(table: Seq<char>, column: Seq<char>, purpose: Seq<char>) -> Seq<
    char,
> {
    table + ":"@ + column + ":"@ + purpose
}

/// The seed of a column's stream.
pub fn column_seed(base: Option<u64>, table: &str, column: &str, purpose: &str) -> (r: Option<u64>)
    ensures
        r == seed_of(base, stream_label(table@, column@, purpose@)),
{
    let mut label = text::around(table, ":", column);
    text::push_text(&mut label, ":");
    text::push_text(&mut label, purpose);
    table_seed(base, label.as_str())
}

/// The generator that a seed fixes.
pub uninterp spec fn seeded_stream(seed: u64) -> rand::rngs::StdRng;

/// `rand::SeedableRng::seed_from_u64` on `rand::rngs::StdRng`: a generator that the
/// seed alone fixes.
#[verifier::external_body]
fn seeded(seed: u64) -> (r: rand::rngs::StdRng)
    ensures
        r == seeded_stream(seed),
{
    rand::SeedableRng::seed_from_u64(seed)
}

/// `rand::SeedableRng::from_entropy` on `rand::rngs::StdRng`: a generator that
/// the system seeds. Nothing is claimed of the numbers that it gives.
#[verifier::external_body]
fn unseeded() -> (r: rand::rngs::StdRng)
{
    rand::SeedableRng::from_entropy()
}

/// The stream of a seed, or one that the system seeds.
pub(crate) fn stream(seed: Option<u64>) -> (r: rand::rngs::StdRng)
    ensures
        seed is Some ==> r == seeded_stream(seed->0),
{
    match seed {
        Some(s) => seeded(s),
        None => unseeded(),
    }
}

/// A generator is the one of a seed, where there is one.
pub open spec fn fits(seed: Option<u64>, rng: rand::rngs::StdRng) -> bool {
    seed is Some ==> rng == seeded_stream(seed->0)
}

/// One generator for each column, each that of its own label.
pub open spec fn all_fit(
    base: Option<u64>,
    table: Seq<char>,
    columns: Seq<Seq<char>>,
    purpose: Seq<char>,
    streams: Seq<rand::rngs::StdRng>,
) -> bool {
    &&& streams.len() == columns.len()
    &&& forall|c: int|
        0 <= c < columns.len() ==> fits(
            seed_of(base, stream_label(table, columns[c], purpose)),
            #[trigger] streams[c],
        )
}

/// One generator for each column.
pub fn column_streams(base: Option<u64>, table: &str, columns: &[String], purpose: &str) -> (r: Vec<
    rand::rngs::StdRng,
>)
    ensures
        all_fit(base, table@, columns.deep_view(), purpose@, r@),
{
    let ghost names = columns.deep_view();
    let mut out: Vec<rand::rngs::StdRng> = Vec::new();
    let mut c: usize = 0;
    while c < columns.len()
        invariant
            c <= columns@.len(),
            names == columns.deep_view(),
            out@.len() == c,
            forall|k: int|
                0 <= k < c ==> fits(
                    seed_of(base, stream_label(table@, names[k], purpose@)),
                    #[trigger] out@[k],
                ),
        decreases columns@.len() - c,
    {
        proof {
            assert(names[c as int] == columns@[c as int]@);
        }
        let at = column_seed(base, table, columns[c].as_str(), purpose);
        out.push(stream(at));
        c = c + 1;
    }
    out
}

} // verus!
