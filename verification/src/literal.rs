//! Literals written in rules, and the cell values they stand for.
use crate::decimal;
use crate::text;
use crate::value::{Cell, Value};
use vstd::prelude::*;

verus! {

/// The sign and the digits of a written whole number.
pub open spec fn sign_and_digits(s: Seq<char>) -> (bool, Seq<char>) {
    if s.len() > 0 && (s[0] == '-' || s[0] == '+') {
        (s[0] == '-', s.skip(1))
    } else {
        (false, s)
    }
}

/// The whole number that a text writes: an optional sign and one or more digits.
pub open spec fn integer_of(s: Seq<char>) -> Option<int> {
    let (negative, d) = sign_and_digits(s);
    if d.len() > 0 && (forall|i: int| 0 <= i < d.len() ==> decimal::is_digit(#[trigger] d[i])) {
        Some(
            if negative {
                -(decimal::numeral(d) as int)
            } else {
                decimal::numeral(d) as int
            },
        )
    } else {
        None
    }
}

/// The whole number that a text writes, where it fits 64 bits.
pub open spec fn fitting_integer(s: Seq<char>) -> Option<int> {
    match integer_of(s) {
        Some(n) => if i64::MIN <= n <= i64::MAX {
            Some(n)
        } else {
            None
        },
        None => None,
    }
}

/// Reads the sign and the magnitude of a whole number, up to that of the smallest
/// number of 64 bits.
pub(crate) fn read_whole(s: &str) -> (r: Option<(bool, u64)>)
    ensures
        match r {
            Some((negative, m)) => m <= 0x8000_0000_0000_0000 && integer_of(s@) == Some(
                if negative {
                    -(m as int)
                } else {
                    m as int
                },
            ),
            None => match integer_of(s@) {
                Some(n) => n < i64::MIN || n > i64::MAX + 1,
                None => true,
            },
        },
{
    let chars = text::to_chars(s);
    let negative = chars.len() > 0 && chars[0] == '-';
    let start: usize = if chars.len() > 0 && (chars[0] == '-' || chars[0] == '+') {
        1
    } else {
        0
    };
    let ghost d = sign_and_digits(s@).1;
    proof {
        assert(d =~= chars@.skip(start as int));
    }
    if start == chars.len() {
        return None;
    }
    // The magnitude so far, or one more than any that fits once it got too large.
    let mut m: u64 = 0;
    let mut large = false;
    let mut i: usize = start;
    while i < chars.len()
        invariant
            start <= i <= chars@.len(),
            chars@ == s@,
            d == chars@.skip(start as int),
            d == sign_and_digits(s@).1,
            forall|k: int| 0 <= k < i - start ==> decimal::is_digit(#[trigger] d[k]),
            large ==> decimal::numeral(d.take(i - start)) > 0x8000_0000_0000_0000,
            !large ==> decimal::numeral(d.take(i - start)) == m && m <= 0x8000_0000_0000_0000,
        decreases chars@.len() - i,
    {
        let c: char = chars[i];
        proof {
            assert(d[i - start] == c);
            assert(d.take(i + 1 - start).drop_last() =~= d.take(i - start));
        }
        if !('0' <= c && c <= '9') {
            proof {
                assert(!decimal::is_digit(d[i - start]));
            }
            return None;
        }
        if !large {
            let digit: u64 = (text::code(c) - 48) as u64;
            if m > 0x0CCC_CCCC_CCCC_CCCC {
                large = true;
            } else {
                m = m * 10 + digit;
                if m > 0x8000_0000_0000_0000 {
                    large = true;
                }
            }
        }
        i = i + 1;
    }
    proof {
        assert(d.take(d.len() as int) =~= d);
    }
    if large {
        return None;
    }
    Some((negative, m))
}

/// Reads a whole number.
pub fn parse_integer(s: &str) -> (r: Option<i64>)
    ensures
        match r {
            Some(n) => fitting_integer(s@) == Some(n as int),
            None => fitting_integer(s@) is None,
        },
{
    match read_whole(s) {
        Some((true, m)) => {
            if m == 0x8000_0000_0000_0000 {
                Some(i64::MIN)
            } else {
                Some(-(m as i64))
            }
        },
        Some((false, m)) => {
            if m == 0x8000_0000_0000_0000 {
                None
            } else {
                Some(m as i64)
            }
        },
        None => None,
    }
}

/// What a text writes, where it is a number at all: the JSON text of the double,
/// where that is finite.
pub uninterp spec fn double_of(s: Seq<char>) -> Option<Option<Seq<char>>>;

/// `str::parse` of a text as a double, and `serde_json::Number::from_f64` of it:
/// the result depends on the text alone. A whole number is a number.
#[verifier::external_body]
fn read_double(s: &str) -> (r: Option<Option<String>>)
    ensures
        match r {
            Some(Some(d)) => double_of(s@) == Some(Some(d@)),
            Some(None) => double_of(s@) == Some(None::<Seq<char>>),
            None => double_of(s@) is None,
        },
        integer_of(s@) is Some ==> r is Some,
{
    let x = s.parse().ok()?;
    Some(serde_json::Number::from_f64(x).map(|n| n.to_string()))
}

/// Whether a text writes a number, if only an infinite one.
pub fn is_number(s: &str) -> (r: bool)
    ensures
        r == (double_of(s@) is Some),
{
    read_double(s).is_some()
}

/// The cell of a literal in a numerical column, given the double that it writes:
/// a whole number where it writes one that fits, else the double, else the text.
pub open spec fn numeric_cell(s: Seq<char>, double: Option<Seq<char>>) -> Cell {
    match fitting_integer(s) {
        Some(n) => Cell::Number(text::integer_text(n)),
        None => match double {
            Some(d) => Cell::Number(d),
            None => Cell::Text(s),
        },
    }
}

/// The finite double that a text writes.
pub open spec fn finite_double(s: Seq<char>) -> Option<Seq<char>> {
    match double_of(s) {
        Some(d) => d,
        None => None,
    }
}

/// The cell of a literal in a column: numbers only in numerical columns.
pub open spec fn literal_cell(s: Seq<char>, numerical: bool) -> Cell {
    if numerical {
        numeric_cell(s, finite_double(s))
    } else {
        Cell::Text(s)
    }
}

/// The value of a literal in a numerical column, given the double that it writes.
pub fn numeric_value(s: &str, double: Option<&str>) -> (r: Value)
    ensures
        r@ == numeric_cell(s@, double.deep_view()),
{
    match parse_integer(s) {
        Some(n) => Value::Number(text::signed_text(n)),
        None => match double {
            Some(d) => Value::Number(d.to_owned()),
            None => Value::Text(s.to_owned()),
        },
    }
}

/// The value of a literal in a numerical column.
pub fn numeric_value_or_string(s: &str) -> (r: Value)
    ensures
        r@ == numeric_cell(s@, finite_double(s@)),
{
    match read_double(s) {
        Some(Some(d)) => numeric_value(s, Some(d.as_str())),
        _ => numeric_value(s, None),
    }
}

/// The finite double that a text writes.
pub fn double_text(s: &str) -> (r: Option<String>)
    ensures
        r.deep_view() == finite_double(s@),
{
    match read_double(s) {
        Some(d) => d,
        None => None,
    }
}

/// The value of a literal in a column: numbers only in numerical columns.
pub fn typed_literal(s: &str, numerical: bool) -> (r: Value)
    ensures
        r@ == literal_cell(s@, numerical),
{
    if numerical {
        numeric_value_or_string(s)
    } else {
        Value::Text(s.to_owned())
    }
}

} // verus!
