//! Exact decimal numbers.
//!
//! A number is a sign, a whole magnitude below two to the 96th and a count of
//! digits after the point, at most 28. The arithmetic is that of the crate
//! `rust_decimal`.
use vstd::prelude::*;

verus! {

/// A decimal number as the arithmetic sees it. Zero may carry a sign.
#[derive(Debug, Clone, Copy, PartialEq, Eq, Structural)]
pub struct Decimal {
    lo: u32,
    mid: u32,
    hi: u32,
    negative: bool,
    scale: u32,
}

/// What a decimal number is: the magnitude with `scale` digits after the point.
pub struct Dec {
    pub negative: bool,
    pub magnitude: nat,
    pub scale: nat,
}

/// One more than the largest magnitude.
pub open spec fn magnitude_limit() -> nat {
    0x1_0000_0000_0000_0000_0000_0000nat
}

/// Ten to the power of `n`.
pub open spec fn ten_to(n: nat) -> nat
    decreases n,
{
    if n == 0 {
        1
    } else {
        10 * ten_to((n - 1) as nat)
    }
}

impl Dec {
    /// The magnitude with its sign.
    pub open spec fn signed(self) -> int {
        if self.negative {
            -(self.magnitude as int)
        } else {
            self.magnitude as int
        }
    }

    /// The value counted in units of the 28th digit after the point.
    pub open spec fn units(self) -> int {
        self.signed() * ten_to((28 - self.scale) as nat)
    }

    pub open spec fn negated(self) -> Dec {
        Dec { negative: !self.negative, ..self }
    }
}

impl View for Decimal {
    type V = Dec;

    closed spec fn view(&self) -> Dec {
        Dec {
            negative: self.negative,
            magnitude: (self.lo + self.mid * 0x1_0000_0000 + self.hi * 0x1_0000_0000_0000_0000) as nat,
            scale: self.scale as nat,
        }
    }
}

impl Decimal {
    #[verifier::type_invariant]
    spec fn scaled(self) -> bool {
        self.scale <= 28
    }
}

/// How two numbers compare.
#[derive(Debug, Clone, Copy, PartialEq, Eq, Structural)]
pub enum Order {
    Less,
    Equal,
    Greater,
}

/// The order of two whole numbers.
pub open spec fn order_of(a: int, b: int) -> Order {
    if a < b {
        Order::Less
    } else if a == b {
        Order::Equal
    } else {
        Order::Greater
    }
}

/// What `rust_decimal` reads from a text, where it reads a number at all.
pub uninterp spec fn parsed(text: Seq<char>) -> Option<Dec>;

/// What `rust_decimal` gives for a sum, where it does not overflow.
pub uninterp spec fn sum(a: Dec, b: Dec) -> Option<Dec>;

/// What `rust_decimal` gives for a difference, where it does not overflow.
pub uninterp spec fn difference(a: Dec, b: Dec) -> Option<Dec>;

/// What `rust_decimal` gives for a product, where it does not overflow.
pub uninterp spec fn product(a: Dec, b: Dec) -> Option<Dec>;

/// What `rust_decimal` gives for a quotient, where there is one.
pub uninterp spec fn quotient(a: Dec, b: Dec) -> Option<Dec>;

/// What `rust_decimal` gives for a remainder, where there is one.
pub uninterp spec fn remainder(a: Dec, b: Dec) -> Option<Dec>;

/// How `rust_decimal` writes a number.
pub uninterp spec fn written(d: Dec) -> Seq<char>;

/// The JSON text of the double nearest to a number.
pub uninterp spec fn double_json(d: Dec) -> Option<Seq<char>>;

/// What `rust_decimal` makes of the double that a text writes, where it holds it.
pub uninterp spec fn of_double(text: Seq<char>) -> Option<Dec>;

/// The value of a number counted in units of the `scale`-th digit after the point.
pub open spec fn aligned(d: Dec, scale: nat) -> int {
    d.signed() * ten_to((scale - d.scale) as nat)
}

/// The digits after the point of the operand that has more of them.
pub open spec fn wider(a: Dec, b: Dec) -> nat {
    if a.scale < b.scale {
        b.scale
    } else {
        a.scale
    }
}

/// A whole number is a magnitude with a sign.
pub open spec fn fits(n: int) -> bool {
    -(magnitude_limit() as int) < n < magnitude_limit()
}

/// The distance of a whole number from zero.
pub open spec fn size_of(n: int) -> int {
    if n < 0 {
        -n
    } else {
        n
    }
}

/// A number multiplied by the divisor gives the dividend.
pub open spec fn exact_quotient(a: Dec, b: Dec, q: Dec) -> bool {
    &&& b.magnitude != 0
    &&& q.magnitude < magnitude_limit()
    &&& q.scale <= 28
    &&& q.signed() * b.signed() * ten_to(a.scale) == a.signed() * ten_to(q.scale + b.scale)
}

/// A number multiplied by the divisor misses the dividend by no more than half a unit of
/// its last digit would.
pub open spec fn nearest_quotient(a: Dec, b: Dec, q: Dec) -> bool {
    2 * size_of(
        a.signed() * ten_to(q.scale + b.scale) - q.signed() * b.signed() * ten_to(a.scale),
    ) <= size_of(b.signed()) * ten_to(a.scale)
}

/// A number misses a product by no more than half a unit of its last digit.
pub open spec fn nearest_product(a: Dec, b: Dec, d: Dec) -> bool {
    &&& d.scale <= a.scale + b.scale
    &&& 2 * size_of(
        d.signed() * ten_to((a.scale + b.scale - d.scale) as nat) - a.signed() * b.signed(),
    ) <= ten_to((a.scale + b.scale - d.scale) as nat)
}

/// What a division leaves: as much as takes the dividend down to a multiple of the
/// divisor, less than the divisor, and on the dividend's side of zero.
pub open spec fn leaves(a: Dec, b: Dec, r: Dec) -> bool {
    &&& size_of(r.units()) < size_of(b.units())
    &&& (a.units() - r.units()) % size_of(b.units()) == 0
    &&& a.units() >= 0 ==> r.units() >= 0
    &&& a.units() <= 0 ==> r.units() <= 0
}

/// Two numbers differ by no more than a part in ten to the 14th, and a unit of the last
/// digit that there can be.
pub open spec fn close_to(a: Dec, b: Dec) -> bool {
    ten_to(14) * size_of(a.units() - b.units()) <= size_of(a.units()) + ten_to(14)
}

/// A text writes a number as a double. Of a number below ten to the 15th without its
/// point, and with no more than 22 digits behind it, what is read from the text is close
/// to the number.
pub open spec fn reads_as(d: Dec, text: Seq<char>) -> bool {
    &&& double_json(d) == Some(text)
    &&& d.magnitude < ten_to(15) && d.scale <= 22 ==> of_double(text) is Some && close_to(
        d,
        of_double(text)->0,
    )
}

/// Which of the two neighbours with fewer digits a number is rounded to.
#[derive(Debug, Clone, Copy, PartialEq, Eq, Structural)]
pub enum Rounding {
    /// The nearer one, and of two equally near the one further from zero.
    HalfAway,
    /// The greater one.
    Up,
    /// The smaller one.
    Down,
}

/// `m` divided by `p`, rounded.
pub open spec fn rounded_magnitude(m: nat, p: nat, negative: bool, way: Rounding) -> nat {
    let rest = m % p;
    let more = match way {
        Rounding::HalfAway => 2 * rest >= p,
        Rounding::Up => !negative && rest > 0,
        Rounding::Down => negative && rest > 0,
    };
    if more {
        m / p + 1
    } else {
        m / p
    }
}

/// A number rounded to `places` digits after the point. A number that became zero
/// has no sign.
pub open spec fn rounded_dec(d: Dec, places: nat, way: Rounding) -> Dec {
    if d.scale <= places {
        d
    } else if d.magnitude == 0 {
        Dec { scale: places, ..d }
    } else {
        let m = rounded_magnitude(
            d.magnitude,
            ten_to((d.scale - places) as nat),
            d.negative,
            way,
        );
        Dec { negative: d.negative && m != 0, magnitude: m, scale: places }
    }
}

/// `m` divided by `p`, rounded to the nearest whole number and to the even one
/// of two equally near.
pub open spec fn half_even(m: nat, p: nat) -> nat {
    let q = m / p;
    let rest = m % p;
    if 2 * rest > p || (2 * rest == p && q % 2 == 1) {
        q + 1
    } else {
        q
    }
}

/// A decimal digit.
pub open spec fn is_digit(c: char) -> bool {
    '0' <= c && c <= '9'
}

/// The whole number that a run of digits writes.
pub open spec fn numeral(s: Seq<char>) -> nat
    decreases s.len(),
{
    if s.len() == 0 {
        0
    } else {
        numeral(s.drop_last()) * 10 + (s.last() as nat - '0' as nat) as nat
    }
}

/// `text` is `whole` or `whole.fraction`, both of digits.
pub open spec fn is_literal(text: Seq<char>, whole: Seq<char>, fraction: Seq<char>) -> bool {
    &&& whole.len() > 0
    &&& forall|i: int| 0 <= i < whole.len() ==> is_digit(#[trigger] whole[i])
    &&& forall|i: int| 0 <= i < fraction.len() ==> is_digit(#[trigger] fraction[i])
    &&& text == whole || (fraction.len() > 0 && text == whole + seq!['.'] + fraction)
    &&& text == whole ==> fraction.len() == 0
}

impl Decimal {
    /// `<rust_decimal::Decimal as FromStr>::from_str`: the result depends on the
    /// text alone. Digits, with or without a point and up to 28 digits behind
    /// it, are read exactly where the number without its point stays below the
    /// magnitude limit.
    #[verifier::external_body]
    fn from_text(text: &str) -> (r: Option<Decimal>)
        ensures
            match r {
                Some(d) => parsed(text@) == Some(d@),
                None => parsed(text@) is None,
            },
            forall|whole: Seq<char>, fraction: Seq<char>| #[trigger]
                is_literal(text@, whole, fraction) && fraction.len() <= 28 && numeral(
                    whole + fraction,
                ) < magnitude_limit() ==> r is Some && r->0@ == (Dec {
                    negative: false,
                    magnitude: numeral(whole + fraction),
                    scale: fraction.len(),
                }),
    {
        let d: rust_decimal::Decimal = text.parse().ok()?;
        let u = d.unpack();
        Some(Decimal { lo: u.lo, mid: u.mid, hi: u.hi, negative: u.negative, scale: u.scale })
    }

    /// `rust_decimal::Decimal::checked_add`: the result depends on the operands
    /// alone. Nothing is added by zero, and operands of one scale whose sum
    /// stays below the magnitude limit are added exactly. So are operands of two
    /// scales that stay below it, and whose sum does, with the digits of the one that
    /// has more.
    #[verifier::external_body]
    pub(crate) fn checked_plus(self, other: Decimal) -> (r: Option<Decimal>)
        ensures
            match r {
                Some(d) => sum(self@, other@) == Some(d@),
                None => sum(self@, other@) is None,
            },
            self@.magnitude == 0 ==> r is Some && r->0@ == other@,
            self@.magnitude != 0 && other@.magnitude == 0 ==> r is Some && r->0@ == self@,
            self@.magnitude != 0 && other@.magnitude != 0 && self@.scale == other@.scale && -(
            magnitude_limit() as int) < self@.signed() + other@.signed() < magnitude_limit()
                ==> r is Some && r->0@.scale == self@.scale && r->0@.signed() == self@.signed()
                + other@.signed(),
            ({
                let s = wider(self@, other@);
                fits(aligned(self@, s)) && fits(aligned(other@, s)) && fits(
                    aligned(self@, s) + aligned(other@, s),
                ) ==> r is Some && r->0@.units() == self@.units() + other@.units()
            }),
    {
        let mut a = rust_decimal::Decimal::from_parts(
            self.lo, self.mid, self.hi, self.negative, self.scale);
        a.set_sign_negative(self.negative);
        let mut b = rust_decimal::Decimal::from_parts(
            other.lo, other.mid, other.hi, other.negative, other.scale);
        b.set_sign_negative(other.negative);
        let u = a.checked_add(b)?.unpack();
        Some(Decimal { lo: u.lo, mid: u.mid, hi: u.hi, negative: u.negative, scale: u.scale })
    }

    /// `rust_decimal::Decimal::checked_sub`: the result depends on the operands
    /// alone. Taking away zero changes nothing, taking from zero turns the sign
    /// of what is not zero, and operands of one scale whose difference stays
    /// below the magnitude limit are subtracted exactly. So are operands of two scales
    /// that stay below it, and whose difference does, with the digits of the one that
    /// has more.
    #[verifier::external_body]
    pub(crate) fn checked_minus(self, other: Decimal) -> (r: Option<Decimal>)
        ensures
            match r {
                Some(d) => difference(self@, other@) == Some(d@),
                None => difference(self@, other@) is None,
            },
            self@.magnitude == 0 && other@.magnitude == 0 ==> r is Some && r->0@ == other@,
            self@.magnitude == 0 && other@.magnitude != 0 ==> r is Some && r->0@
                == other@.negated(),
            self@.magnitude != 0 && other@.magnitude == 0 ==> r is Some && r->0@ == self@,
            self@.magnitude != 0 && other@.magnitude != 0 && self@.scale == other@.scale && -(
            magnitude_limit() as int) < self@.signed() - other@.signed() < magnitude_limit()
                ==> r is Some && r->0@.scale == self@.scale && r->0@.signed() == self@.signed()
                - other@.signed(),
            ({
                let s = wider(self@, other@);
                fits(aligned(self@, s)) && fits(aligned(other@, s)) && fits(
                    aligned(self@, s) - aligned(other@, s),
                ) ==> r is Some && r->0@.units() == self@.units() - other@.units()
            }),
    {
        let mut a = rust_decimal::Decimal::from_parts(
            self.lo, self.mid, self.hi, self.negative, self.scale);
        a.set_sign_negative(self.negative);
        let mut b = rust_decimal::Decimal::from_parts(
            other.lo, other.mid, other.hi, other.negative, other.scale);
        b.set_sign_negative(other.negative);
        let u = a.checked_sub(b)?.unpack();
        Some(Decimal { lo: u.lo, mid: u.mid, hi: u.hi, negative: u.negative, scale: u.scale })
    }

    /// `rust_decimal::Decimal::checked_mul`: the result depends on the operands
    /// alone. A product with zero is plain zero, and other operands are
    /// multiplied exactly where the magnitudes' product stays below the limit
    /// and the scales add up to no more than 28. Any other product is rounded to the
    /// nearest number with the digits that it has.
    #[verifier::external_body]
    pub(crate) fn checked_times(self, other: Decimal) -> (r: Option<Decimal>)
        ensures
            match r {
                Some(d) => product(self@, other@) == Some(d@),
                None => product(self@, other@) is None,
            },
            self@.magnitude == 0 || other@.magnitude == 0 ==> r is Some && r->0@ == (Dec {
                negative: false,
                magnitude: 0,
                scale: 0,
            }),
            self@.magnitude != 0 && other@.magnitude != 0 && self@.magnitude * other@.magnitude
                < magnitude_limit() && self@.scale + other@.scale <= 28 ==> r is Some && r->0@ == (
            Dec {
                negative: self@.negative != other@.negative,
                magnitude: self@.magnitude * other@.magnitude,
                scale: self@.scale + other@.scale,
            }),
            r is Some ==> nearest_product(self@, other@, r->0@),
    {
        let mut a = rust_decimal::Decimal::from_parts(
            self.lo, self.mid, self.hi, self.negative, self.scale);
        a.set_sign_negative(self.negative);
        let mut b = rust_decimal::Decimal::from_parts(
            other.lo, other.mid, other.hi, other.negative, other.scale);
        b.set_sign_negative(other.negative);
        let u = a.checked_mul(b)?.unpack();
        Some(Decimal { lo: u.lo, mid: u.mid, hi: u.hi, negative: u.negative, scale: u.scale })
    }

    /// `rust_decimal::Decimal::checked_div`: the result depends on the operands
    /// alone, and there is none for a divisor of zero. Zero over anything else
    /// is plain zero. Where a decimal number multiplied by the divisor gives the dividend,
    /// the quotient has the value of that number; any other quotient is rounded to the
    /// nearest number with the digits that it has.
    #[verifier::external_body]
    pub(crate) fn checked_over(self, other: Decimal) -> (r: Option<Decimal>)
        ensures
            match r {
                Some(d) => quotient(self@, other@) == Some(d@),
                None => quotient(self@, other@) is None,
            },
            other@.magnitude == 0 ==> r is None,
            self@.magnitude == 0 && other@.magnitude != 0 ==> r is Some && r->0@ == (Dec {
                negative: false,
                magnitude: 0,
                scale: 0,
            }),
            forall|q: Dec| #[trigger]
                exact_quotient(self@, other@, q) ==> r is Some && r->0@.units() == q.units(),
            r is Some ==> nearest_quotient(self@, other@, r->0@),
    {
        let mut a = rust_decimal::Decimal::from_parts(
            self.lo, self.mid, self.hi, self.negative, self.scale);
        a.set_sign_negative(self.negative);
        let mut b = rust_decimal::Decimal::from_parts(
            other.lo, other.mid, other.hi, other.negative, other.scale);
        b.set_sign_negative(other.negative);
        let u = a.checked_div(b)?.unpack();
        Some(Decimal { lo: u.lo, mid: u.mid, hi: u.hi, negative: u.negative, scale: u.scale })
    }

    /// `rust_decimal::Decimal::checked_rem`: the result depends on the operands
    /// alone, and there is none for a divisor of zero. The remainder of zero is
    /// plain zero. Any other remainder is what the dividend is more than a multiple of
    /// the divisor, less than the divisor, with the dividend's sign.
    #[verifier::external_body]
    pub(crate) fn checked_modulo(self, other: Decimal) -> (r: Option<Decimal>)
        ensures
            match r {
                Some(d) => remainder(self@, other@) == Some(d@),
                None => remainder(self@, other@) is None,
            },
            other@.magnitude == 0 ==> r is None,
            self@.magnitude == 0 && other@.magnitude != 0 ==> r is Some && r->0@ == (Dec {
                negative: false,
                magnitude: 0,
                scale: 0,
            }),
            other@.magnitude != 0 ==> r is Some && leaves(self@, other@, r->0@),
    {
        let mut a = rust_decimal::Decimal::from_parts(
            self.lo, self.mid, self.hi, self.negative, self.scale);
        a.set_sign_negative(self.negative);
        let mut b = rust_decimal::Decimal::from_parts(
            other.lo, other.mid, other.hi, other.negative, other.scale);
        b.set_sign_negative(other.negative);
        let u = a.checked_rem(b)?.unpack();
        Some(Decimal { lo: u.lo, mid: u.mid, hi: u.hi, negative: u.negative, scale: u.scale })
    }

    /// `<rust_decimal::Decimal as Ord>::cmp`: numbers compare by value, whatever
    /// their scales and the sign of a zero.
    #[verifier::external_body]
    pub(crate) fn compare(self, other: Decimal) -> (r: Order)
        ensures
            r == order_of(self@.units(), other@.units()),
    {
        let a = rust_decimal::Decimal::from_parts(
            self.lo, self.mid, self.hi, self.negative, self.scale);
        let b = rust_decimal::Decimal::from_parts(
            other.lo, other.mid, other.hi, other.negative, other.scale);
        match a.cmp(&b) {
            std::cmp::Ordering::Less => Order::Less,
            std::cmp::Ordering::Equal => Order::Equal,
            std::cmp::Ordering::Greater => Order::Greater,
        }
    }

    /// `<rust_decimal::Decimal as ToString>::to_string`: the text depends on the
    /// number alone.
    #[verifier::external_body]
    pub(crate) fn write_text(self) -> (r: String)
        ensures
            r@ == written(self@),
    {
        let mut a = rust_decimal::Decimal::from_parts(
            self.lo, self.mid, self.hi, self.negative, self.scale);
        a.set_sign_negative(self.negative);
        a.to_string()
    }

    /// `rust_decimal::Decimal::round`: the nearest whole number, of two equally
    /// near ones the even one. The sign of a result of zero is not claimed.
    #[verifier::external_body]
    pub(crate) fn rounded(self) -> (r: Decimal)
        ensures
            r@.scale == 0,
            r@.magnitude == half_even(self@.magnitude, ten_to(self@.scale)),
            r@.magnitude != 0 ==> r@.negative == self@.negative,
    {
        let mut a = rust_decimal::Decimal::from_parts(
            self.lo, self.mid, self.hi, self.negative, self.scale);
        a.set_sign_negative(self.negative);
        let u = a.round().unpack();
        Decimal { lo: u.lo, mid: u.mid, hi: u.hi, negative: u.negative, scale: u.scale }
    }

    /// `rust_decimal`'s `to_f64` and `serde_json::Number::from_f64`: the number
    /// as the nearest double, in JSON. The text depends on the number alone, and there
    /// always is one. Of a number below ten to the 15th without its point, and with no
    /// more than 22 digits behind it, `str::parse` and `rust_decimal`'s `from_f64` read
    /// from the text what differs from the number by no more than a double does.
    #[verifier::external_body]
    pub(crate) fn write_double(self) -> (r: Option<String>)
        ensures
            match r {
                Some(s) => double_json(self@) == Some(s@),
                None => double_json(self@) is None,
            },
            r is Some,
            reads_as(self@, r->0@),
    {
        let mut a = rust_decimal::Decimal::from_parts(
            self.lo, self.mid, self.hi, self.negative, self.scale);
        a.set_sign_negative(self.negative);
        let v = rust_decimal::prelude::ToPrimitive::to_f64(&a)?;
        serde_json::Number::from_f64(v).map(|n| n.to_string())
    }

    /// `str::parse` of a text as a double, and `rust_decimal`'s `from_f64` of it:
    /// the result depends on the text alone.
    #[verifier::external_body]
    pub(crate) fn from_double(text: &str) -> (r: Option<Decimal>)
        ensures
            match r {
                Some(d) => of_double(text@) == Some(d@) && d@.scale <= 28,
                None => of_double(text@) is None,
            },
    {
        let d: rust_decimal::Decimal = rust_decimal::prelude::FromPrimitive::from_f64(
            text.parse().ok()?)?;
        let u = d.unpack();
        Some(Decimal { lo: u.lo, mid: u.mid, hi: u.hi, negative: u.negative, scale: u.scale })
    }

    /// `rust_decimal::Decimal::round_dp_with_strategy`: the number with at most
    /// `places` digits after the point, rounded to one of its two neighbours.
    #[verifier::external_body]
    pub(crate) fn rounded_to(self, places: u32, way: Rounding) -> (r: Decimal)
        requires
            places <= 28,
        ensures
            r@ == rounded_dec(self@, places as nat, way),
    {
        let mut a = rust_decimal::Decimal::from_parts(
            self.lo, self.mid, self.hi, self.negative, self.scale);
        a.set_sign_negative(self.negative);
        let s = match way {
            Rounding::HalfAway => rust_decimal::RoundingStrategy::MidpointAwayFromZero,
            Rounding::Up => rust_decimal::RoundingStrategy::ToPositiveInfinity,
            Rounding::Down => rust_decimal::RoundingStrategy::ToNegativeInfinity,
        };
        let u = a.round_dp_with_strategy(places, s).unpack();
        Decimal { lo: u.lo, mid: u.mid, hi: u.hi, negative: u.negative, scale: u.scale }
    }

    /// The whole number, where it is one and fits.
    pub(crate) fn to_integer(self) -> (r: Option<i64>)
        requires
            self@.scale == 0,
        ensures
            r == (if i64::MIN <= self@.signed() <= i64::MAX {
                Some(self@.signed() as i64)
            } else {
                None::<i64>
            }),
    {
        if self.hi != 0 {
            return None;
        }
        let m: u64 = self.lo as u64 + self.mid as u64 * 0x1_0000_0000;
        if self.negative {
            if m < 0x8000_0000_0000_0000 {
                Some(-(m as i64))
            } else if m == 0x8000_0000_0000_0000 {
                Some(i64::MIN)
            } else {
                None
            }
        } else if m < 0x8000_0000_0000_0000 {
            Some(m as i64)
        } else {
            None
        }
    }

    /// How many digits the number has after the point, at most 28.
    pub fn digits(self) -> (r: u32)
        ensures
            r == self@.scale,
            r <= 28,
    {
        proof {
            use_type_invariant(self);
        }
        self.scale
    }

    /// The number that a text writes.
    pub fn parse(text: &str) -> (r: Option<Decimal>)
        ensures
            match r {
                Some(d) => parsed(text@) == Some(d@),
                None => parsed(text@) is None,
            },
            forall|whole: Seq<char>, fraction: Seq<char>| #[trigger]
                is_literal(text@, whole, fraction) && fraction.len() <= 28 && numeral(
                    whole + fraction,
                ) < magnitude_limit() ==> r is Some && r->0@ == (Dec {
                    negative: false,
                    magnitude: numeral(whole + fraction),
                    scale: fraction.len(),
                }),
    {
        Decimal::from_text(text)
    }

    /// A whole number.
    pub fn whole(n: u32) -> (r: Decimal)
        ensures
            r@ == (Dec { negative: false, magnitude: n as nat, scale: 0 }),
    {
        Decimal { lo: n, mid: 0, hi: 0, negative: false, scale: 0 }
    }

    /// The number with the other sign.
    pub fn negate(self) -> (r: Decimal)
        ensures
            r@ == self@.negated(),
    {
        proof {
            use_type_invariant(self);
        }
        Decimal { negative: !self.negative, ..self }
    }
}

} // verus!
