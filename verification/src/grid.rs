//! Numbers on the grid of a column: so many digits after the point.
//!
//! A number is a text that writes a double.
use crate::decimal;
use crate::decimal::{Dec, Decimal, Rounding};
use vstd::prelude::*;

verus! {

/// The most digits after the point that a decimal holds.
pub open spec fn places_of(scale: u8) -> nat {
    if scale < 28 {
        scale as nat
    } else {
        28
    }
}

/// A number rounded to a point of the grid. One that no decimal holds stays as it
/// is.
pub open spec fn on_grid(value: Seq<char>, scale: u8, way: Rounding) -> Seq<char> {
    match decimal::of_double(value) {
        Some(d) => match decimal::double_json(decimal::rounded_dec(d, places_of(scale), way)) {
            Some(t) => t,
            None => value,
        },
        None => value,
    }
}

/// A number with no more than `places` digits after the point, at most half a step of the
/// last of them away from another.
pub open spec fn nearest_point(e: Dec, places: nat, v: Dec) -> bool {
    &&& v.scale <= places
    &&& 2 * decimal::size_of(v.units() - e.units()) <= decimal::ten_to((28 - places) as nat)
}

/// A text writes a number with no more digits than the grid has, nearest to the one that
/// another text writes, where a decimal holds that one.
pub open spec fn writes_nearest(value: Seq<char>, places: nat, text: Seq<char>) -> bool {
    decimal::of_double(value) is Some ==> exists|v: Dec| #[trigger]
        nearest_point(decimal::of_double(value)->0, places, v) && decimal::reads_as(v, text)
}

fn round_to_scale(value: &str, scale: u8, way: Rounding) -> (r: String)
    ensures
        r@ == on_grid(value@, scale, way),
        way == Rounding::HalfAway ==> writes_nearest(
            value@,
            if scale < 28 {
                scale as nat
            } else {
                28
            },
            r@,
        ),
{
    match Decimal::from_double(value) {
        Some(d) => {
            proof {
                let places: nat = if scale < 28 {
                    scale as nat
                } else {
                    28
                };
                lemma_rounding_stays_within_a_step(d@, places);
                if way == Rounding::HalfAway {
                    assert(nearest_point(d@, places, decimal::rounded_dec(d@, places, way)));
                }
            }
            let places: u32 = if scale < 28 {
                scale as u32
            } else {
                28
            };
            match d.rounded_to(places, way).write_double() {
                Some(t) => t,
                None => value.to_owned(),
            }
        },
        None => value.to_owned(),
    }
}

/// The nearest point of the grid, and of two equally near the one further from
/// zero.
pub fn quantize(value: &str, scale: u8) -> (r: String)
    ensures
        r@ == on_grid(value@, scale, Rounding::HalfAway),
        writes_nearest(
            value@,
            if scale < 28 {
                scale as nat
            } else {
                28
            },
            r@,
        ),
{
    round_to_scale(value, scale, Rounding::HalfAway)
}

/// The smallest point of the grid that is not below `min` and the largest that is
/// not above `max`.
pub fn grid_bounds(min: &str, max: &str, scale: u8) -> (r: (String, String))
    ensures
        r.0@ == on_grid(min@, scale, Rounding::Up),
        r.1@ == on_grid(max@, scale, Rounding::Down),
{
    (round_to_scale(min, scale, Rounding::Up), round_to_scale(max, scale, Rounding::Down))
}

pub(crate) proof fn lemma_ten_to_adds(a: nat, b: nat)
    ensures
        decimal::ten_to(a + b) == decimal::ten_to(a) * decimal::ten_to(b),
        decimal::ten_to(a) > 0,
    decreases a,
{
    if a > 0 {
        lemma_ten_to_adds((a - 1) as nat, b);
        assert(decimal::ten_to(a + b) == 10 * decimal::ten_to((a + b - 1) as nat));
        assert((a + b - 1) as nat == (a - 1) as nat + b);
        assert(10 * (decimal::ten_to((a - 1) as nat) * decimal::ten_to(b)) == (10
            * decimal::ten_to((a - 1) as nat)) * decimal::ten_to(b)) by (nonlinear_arith);
    } else {
        assert(1 * decimal::ten_to(b) == decimal::ten_to(b)) by (nonlinear_arith);
    }
}

/// Rounding to the grid of `places` digits gives a point of it: the smallest that
/// is not below the number, the largest that is not above it, or the one at most
/// half a step away.
pub proof fn lemma_rounding_stays_within_a_step(d: Dec, places: nat)
    requires
        d.scale <= 28,
        places <= 28,
    ensures
        ({
            let step = decimal::ten_to((28 - places) as nat) as int;
            let up = decimal::rounded_dec(d, places, Rounding::Up);
            let down = decimal::rounded_dec(d, places, Rounding::Down);
            let near = decimal::rounded_dec(d, places, Rounding::HalfAway);
            &&& up.scale <= places && down.scale <= places && near.scale <= places
            &&& d.units() <= up.units() < d.units() + step
            &&& d.units() - step < down.units() <= d.units()
            &&& -step <= 2 * (near.units() - d.units()) <= step
        }),
{
    let step = decimal::ten_to((28 - places) as nat) as int;
    lemma_ten_to_adds((28 - places) as nat, 0);
    if d.scale > places {
        let unit = decimal::ten_to((28 - d.scale) as nat) as int;
        let p = decimal::ten_to((d.scale - places) as nat) as int;
        lemma_ten_to_adds((d.scale - places) as nat, (28 - d.scale) as nat);
        lemma_ten_to_adds((28 - d.scale) as nat, 0);
        assert(step == p * unit);
        let m = d.magnitude as int;
        let q = m / p;
        let rest = m % p;
        assert(m == p * q + rest && 0 <= rest < p) by {
            vstd::arithmetic::div_mod::lemma_fundamental_div_mod(m, p);
        }
        assert(q >= 0) by (nonlinear_arith)
            requires
                m >= 0,
                p > 0,
                m == p * q + rest,
                rest < p,
        ;
        assert(m == 0 ==> q == 0 && rest == 0) by (nonlinear_arith)
            requires
                m == p * q + rest,
                rest >= 0,
                q >= 0,
                p > 0,
        ;
        assert(m * unit == q * step + rest * unit) by (nonlinear_arith)
            requires
                m == p * q + rest,
                step == p * unit,
        ;
        assert((q + 1) * step == q * step + step) by (nonlinear_arith);
        assert(0 <= rest * unit < step) by (nonlinear_arith)
            requires
                0 <= rest < p,
                step == p * unit,
                unit > 0,
        ;
        assert(2 * rest >= p ==> 2 * (rest * unit) >= step) by (nonlinear_arith)
            requires
                step == p * unit,
                unit > 0,
        ;
        assert(2 * rest < p ==> 2 * (rest * unit) < step) by (nonlinear_arith)
            requires
                step == p * unit,
                unit > 0,
        ;
        assert(rest > 0 ==> rest * unit > 0) by (nonlinear_arith)
            requires
                unit > 0,
        ;
        assert(-m * unit == -(m * unit)) by (nonlinear_arith);
        assert(-q * step == -(q * step)) by (nonlinear_arith);
        assert(-(q + 1) * step == -((q + 1) * step)) by (nonlinear_arith);
        assert(0 * unit == 0 && 0 * step == 0) by (nonlinear_arith);
        assert(d.units() == if d.negative {
            -(m * unit)
        } else {
            m * unit
        });
        assert forall|way: Rounding|
            #![trigger decimal::rounded_dec(d, places, way)]
            ({
                let r = decimal::rounded_dec(d, places, way);
                let n = if d.magnitude == 0 {
                    0
                } else {
                    decimal::rounded_magnitude(d.magnitude, p as nat, d.negative, way) as int
                };
                &&& r.scale == places
                &&& n == q || n == q + 1
                &&& r.units() == if d.negative {
                    -(n * step)
                } else {
                    n * step
                }
            }) by {
            let r = decimal::rounded_dec(d, places, way);
            let n = r.magnitude as int;
            assert(-n * step == -(n * step)) by (nonlinear_arith);
        }
    }
}

} // verus!
