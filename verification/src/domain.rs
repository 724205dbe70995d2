//! Literals of rules in the numeric domain of a column: numbers, or instants for
//! datetime columns.
use crate::datetime;
use crate::decimal::Rounding;
use crate::fk_pool;
use crate::grid;
use crate::literal;
use crate::model;
use crate::model::{ColumnModel, LogicalType, TableModel};
use crate::text;
use crate::value::{Cell, Value};
use vstd::prelude::*;

verus! {

/// A point on the axis of a column's distribution.
#[derive(Debug)]
pub enum Point {
    /// A number as it is written.
    Number(String),
    /// Microseconds since 1970.
    Instant(i64),
}

/// What a point is.
pub enum Mark {
    Number(Seq<char>),
    Instant(i64),
}

impl View for Point {
    type V = Mark;

    open spec fn view(&self) -> Mark {
        match self {
            Point::Number(s) => Mark::Number(s@),
            Point::Instant(n) => Mark::Instant(*n),
        }
    }
}

impl Point {
    /// A copy of the point.
    pub fn copy(&self) -> (r: Point)
        ensures
            r@ == self@,
    {
        match self {
            Point::Number(s) => Point::Number(s.clone()),
            Point::Instant(n) => Point::Instant(*n),
        }
    }
}

impl DeepView for Point {
    type V = Mark;

    open spec fn deep_view(&self) -> Mark {
        self@
    }
}

/// How messages about a column begin.
pub open spec fn column_heading(table: Seq<char>, column: Seq<char>) -> Seq<char> {
    "table '"@ + table + "' column '"@ + column + "': "@
}

pub(crate) fn write_column_heading(table: &str, column: &str) -> (r: String)
    ensures
        r@ == column_heading(table@, column@),
{
    let mut r = text::around("table '", table, "' column '");
    text::push_text(&mut r, column);
    text::push_text(&mut r, "': ");
    r
}

/// The instant of a datetime literal: a number is one already, a text is read by
/// the column's format, else by any that reads it.
pub open spec fn literal_instant(cell: Cell, format: Option<Seq<char>>) -> Option<Mark> {
    match cell {
        Cell::Number(s) => Some(Mark::Number(s)),
        _ => match datetime::either(
            datetime::cell_instant(cell, format),
            datetime::cell_instant(cell, None),
        ) {
            Some(n) => Some(Mark::Instant(n)),
            None => None,
        },
    }
}

/// The instant of a datetime literal.
pub fn datetime_literal_epoch(literal: &Value, format: Option<&str>) -> (r: Option<Point>)
    ensures
        match r {
            Some(p) => literal_instant(literal@, format.deep_view()) == Some(p@),
            None => literal_instant(literal@, format.deep_view()) is None,
        },
{
    match literal {
        Value::Number(s) => {
            return Some(Point::Number(s.clone()));
        },
        _ => {},
    }
    match datetime::parse_to_epoch(literal, format) {
        Some(n) => Some(Point::Instant(n)),
        None => match datetime::parse_to_epoch(literal, None) {
            Some(n) => Some(Point::Instant(n)),
            None => None,
        },
    }
}

/// How a point lies to another.
#[derive(Debug, Clone, Copy, PartialEq, Eq, Structural)]
pub enum Rank {
    Below,
    Same,
    Above,
}

/// Where a cell lies on the axis of a column: at an instant, where the column has
/// a datetime format, else at a number.
pub open spec fn axis_mark(cell: Cell, format: Option<Seq<char>>) -> Option<Mark> {
    match format {
        Some(_) => literal_instant(cell, format),
        None => match cell {
            Cell::Number(s) => Some(Mark::Number(s)),
            Cell::Text(s) => Some(Mark::Number(s)),
            _ => None,
        },
    }
}

/// Where a value lies on the axis of a column.
pub fn axis_point(value: &Value, format: Option<&str>) -> (r: Option<Point>)
    ensures
        match r {
            Some(p) => axis_mark(value@, format.deep_view()) == Some(p@),
            None => axis_mark(value@, format.deep_view()) is None,
        },
{
    match format {
        Some(_) => datetime_literal_epoch(value, format),
        None => match value {
            Value::Number(s) => Some(Point::Number(s.clone())),
            Value::Text(s) => Some(Point::Number(s.clone())),
            _ => None,
        },
    }
}

/// How the double of a JSON number lies to that of another. `None` where one of the
/// texts is no JSON number.
pub uninterp spec fn json_rank(a: Seq<char>, b: Seq<char>) -> Option<Rank>;

/// How the double that a text writes lies to the one that another writes, blanks
/// around them aside. `None` where one of them writes none, or they cannot be compared.
pub uninterp spec fn plain_rank(a: Seq<char>, b: Seq<char>) -> Option<Rank>;

/// How the number that a text writes lies to the one that another writes: as JSON
/// numbers where both are, else as texts that write doubles.
pub open spec fn number_rank(a: Seq<char>, b: Seq<char>) -> Option<Rank> {
    match json_rank(a, b) {
        Some(r) => Some(r),
        None => plain_rank(a, b),
    }
}

/// How two whole numbers lie to each other.
pub open spec fn order_rank(x: int, y: int) -> Rank {
    if x < y {
        Rank::Below
    } else if x == y {
        Rank::Same
    } else {
        Rank::Above
    }
}

/// Up to this, every whole number is a double.
pub open spec fn exact_limit() -> int {
    0x20_0000_0000_0000
}

/// A text writes a whole number that is a double.
pub open spec fn exact_integer(s: Seq<char>, n: int) -> bool {
    literal::integer_of(s) == Some(n) && -exact_limit() <= n <= exact_limit()
}

/// `serde_json::Number::as_f64` of both texts, and `PartialOrd::partial_cmp` of the
/// two: the result depends on the texts alone. Whole numbers that doubles hold exactly
/// compare by their order.
#[verifier::external_body]
fn compare_json(a: &str, b: &str) -> (r: Option<Rank>)
    ensures
        r == json_rank(a@, b@),
        forall|x: int, y: int| #[trigger]
            exact_integer(a@, x) && #[trigger] exact_integer(b@, y) && r is Some ==> r == Some(
                order_rank(x, y),
            ),
{
    let read = |s: &str| serde_json::from_str::<serde_json::Number>(s).ok()?.as_f64();
    match read(a)?.partial_cmp(&read(b)?)? {
        std::cmp::Ordering::Less => Some(Rank::Below),
        std::cmp::Ordering::Equal => Some(Rank::Same),
        std::cmp::Ordering::Greater => Some(Rank::Above),
    }
}

/// `str::parse` of both texts, trimmed, as doubles, and `PartialOrd::partial_cmp` of
/// the two: the result depends on the texts alone. Whole numbers that doubles hold
/// exactly compare by their order.
#[verifier::external_body]
fn compare_plain(a: &str, b: &str) -> (r: Option<Rank>)
    ensures
        r == plain_rank(a@, b@),
        forall|x: int, y: int| #[trigger]
            exact_integer(a@, x) && #[trigger] exact_integer(b@, y) ==> r == Some(order_rank(x, y)),
{
    let (x, y) = (a.trim().parse().ok()?, b.trim().parse().ok()?);
    // Only doubles can be handed to `from_f64`: it tells `parse` what to read.
    let _ = serde_json::Number::from_f64(x);
    match x.partial_cmp(&y)? {
        std::cmp::Ordering::Less => Some(Rank::Below),
        std::cmp::Ordering::Equal => Some(Rank::Same),
        std::cmp::Ordering::Greater => Some(Rank::Above),
    }
}

/// How the number that a text writes lies to the one that another writes. Whole
/// numbers that doubles hold exactly compare by their order.
fn compare_numbers(a: &str, b: &str) -> (r: Option<Rank>)
    ensures
        r == number_rank(a@, b@),
        forall|x: int, y: int| #[trigger]
            exact_integer(a@, x) && #[trigger] exact_integer(b@, y) ==> r == Some(order_rank(x, y)),
{
    match compare_json(a, b) {
        Some(r) => Some(r),
        None => compare_plain(a, b),
    }
}

/// A mark as a number: an instant in seconds.
pub open spec fn mark_text(m: Mark) -> Seq<char> {
    match m {
        Mark::Number(s) => s,
        Mark::Instant(n) => text::integer_text(n as int) + "e-6"@,
    }
}

/// How a mark lies to another: instants by their order, others as numbers.
pub open spec fn mark_rank(a: Mark, b: Mark) -> Option<Rank> {
    match (a, b) {
        (Mark::Instant(x), Mark::Instant(y)) => Some(order_rank(x as int, y as int)),
        _ => number_rank(mark_text(a), mark_text(b)),
    }
}

fn point_text(p: &Point) -> (r: String)
    ensures
        r@ == mark_text(p@),
{
    match p {
        Point::Number(s) => s.clone(),
        Point::Instant(n) => {
            let mut r = text::signed_text(*n);
            text::push_text(&mut r, "e-6");
            r
        },
    }
}

/// How a point lies to another.
pub fn place_of(a: &Point, b: &Point) -> (r: Option<Rank>)
    ensures
        r == mark_rank(a@, b@),
{
    match (a, b) {
        (Point::Instant(x), Point::Instant(y)) => {
            if *x < *y {
                Some(Rank::Below)
            } else if *x == *y {
                Some(Rank::Same)
            } else {
                Some(Rank::Above)
            }
        },
        _ => compare_numbers(point_text(a).as_str(), point_text(b).as_str()),
    }
}

/// Whether a value lies in a range, from how the low end lies to it and how it
/// lies to the high end; `None` where one of them cannot be said.
pub open spec fn between_ranks(low: Option<Rank>, high: Option<Rank>) -> Option<bool> {
    match (low, high) {
        (Some(a), Some(b)) => Some(a != Rank::Above && b != Rank::Above),
        _ => None,
    }
}

/// Whether a value lies in a range, from how the low end lies to it and how it
/// lies to the high end.
pub fn between(low: Option<Rank>, high: Option<Rank>) -> (r: Option<bool>)
    ensures
        r == between_ranks(low, high),
{
    match (low, high) {
        (Some(a), Some(b)) => Some(a != Rank::Above && b != Rank::Above),
        _ => None,
    }
}

/// Whether a cell lies between two others, these included, on the axis of a
/// datetime format or of numbers; `None` where they cannot be compared.
pub open spec fn in_range(
    low: Cell,
    high: Cell,
    format: Option<Seq<char>>,
    cell: Cell,
) -> Option<bool> {
    match (axis_mark(low, format), axis_mark(high, format), axis_mark(cell, format)) {
        (Some(a), Some(b), Some(v)) => between_ranks(mark_rank(a, v), mark_rank(v, b)),
        _ => None,
    }
}

/// A cell lies in a range.
pub open spec fn within(low: Cell, high: Cell, format: Option<Seq<char>>, cell: Cell) -> bool {
    in_range(low, high, format, cell) == Some(true)
}

/// Where a text literal lies in a column's domain, or what is wrong with it.
pub open spec fn literal_mark(
    table: Seq<char>,
    column: Seq<char>,
    literal: Seq<char>,
    number: bool,
    trained: Option<ColumnModel>,
) -> Result<Mark, Seq<char>> {
    match trained {
        None => Err(
            column_heading(table, column) + "no trained column model, cannot condition on '"@
                + literal + "'"@,
        ),
        Some(c) => if c.logical_type == LogicalType::Datetime {
            let format = c.datetime_format.deep_view();
            match literal_instant(Cell::Text(literal), format) {
                Some(m) => Ok(m),
                None => Err(
                    column_heading(table, column) + "cannot read '"@ + literal
                        + "' as a datetime"@ + (match format {
                        Some(f) => " with format '"@ + f + "'"@,
                        None => ""@,
                    }),
                ),
            }
        } else if number {
            Ok(Mark::Number(literal))
        } else {
            Err(column_heading(table, column) + "'"@ + literal + "' is not a number"@)
        },
    }
}

/// Where a text lies in a column's domain, given whether it writes a number.
pub fn text_in_marginal_domain(
    table: &str,
    column: &str,
    literal: &str,
    number: bool,
    trained: Option<&ColumnModel>,
) -> (r: Result<Point, String>)
    ensures
        match r {
            Ok(p) => literal_mark(table@, column@, literal@, number, match trained {
                Some(c) => Some(*c),
                None => None,
            }) == Ok::<Mark, Seq<char>>(p@),
            Err(m) => literal_mark(table@, column@, literal@, number, match trained {
                Some(c) => Some(*c),
                None => None,
            }) == Err::<Mark, Seq<char>>(m@),
        },
{
    let mut heading = write_column_heading(table, column);
    let c: &ColumnModel = match trained {
        Some(c) => c,
        None => {
            text::push_text(&mut heading, "no trained column model, cannot condition on '");
            text::push_text(&mut heading, literal);
            text::push_text(&mut heading, "'");
            return Err(heading);
        },
    };
    match c.logical_type {
        LogicalType::Datetime => {
            let format: Option<&str> = match &c.datetime_format {
                Some(f) => Some(f.as_str()),
                None => None,
            };
            let value = Value::Text(literal.to_owned());
            match datetime_literal_epoch(&value, format) {
                Some(p) => Ok(p),
                None => {
                    text::push_text(&mut heading, "cannot read '");
                    text::push_text(&mut heading, literal);
                    text::push_text(&mut heading, "' as a datetime");
                    match format {
                        Some(f) => {
                            let with = text::around(" with format '", f, "'");
                            text::push_text(&mut heading, with.as_str());
                        },
                        None => {
                            text::push_text(&mut heading, "");
                        },
                    }
                    Err(heading)
                },
            }
        },
        _ => {
            if number {
                Ok(Point::Number(literal.to_owned()))
            } else {
                text::push_text(&mut heading, "'");
                text::push_text(&mut heading, literal);
                text::push_text(&mut heading, "' is not a number");
                Err(heading)
            }
        },
    }
}

/// Where a literal lies in a column's domain.
pub fn literal_in_marginal_domain(
    table: &str,
    column: &str,
    literal: &str,
    trained: Option<&ColumnModel>,
) -> (r: Result<Point, String>)
    ensures
        match r {
            Ok(p) => literal_mark(
                table@,
                column@,
                literal@,
                literal::double_of(literal@) is Some,
                match trained {
                    Some(c) => Some(*c),
                    None => None,
                },
            ) == Ok::<Mark, Seq<char>>(p@),
            Err(m) => literal_mark(
                table@,
                column@,
                literal@,
                literal::double_of(literal@) is Some,
                match trained {
                    Some(c) => Some(*c),
                    None => None,
                },
            ) == Err::<Mark, Seq<char>>(m@),
        },
{
    text_in_marginal_domain(table, column, literal, literal::is_number(literal), trained)
}

/// Where an end of a range lies in a column's domain, or what is wrong with it.
pub open spec fn endpoint_mark(
    table: Seq<char>,
    column: Seq<char>,
    end: Cell,
    trained: Option<ColumnModel>,
) -> Result<Mark, Seq<char>> {
    match end {
        Cell::Number(s) => Ok(Mark::Number(s)),
        Cell::Text(s) => literal_mark(table, column, s, literal::double_of(s) is Some, trained),
        other => Err(
            column_heading(table, column) + "fixed_range endpoint "@ + fk_pool::cell_key(other)
                + " must be a number or a string"@,
        ),
    }
}

/// Where an end of a range lies in a column's domain: a number as it is, a text
/// as a literal.
pub fn range_endpoint_in_marginal_domain(
    table: &str,
    column: &str,
    end: &Value,
    trained: Option<&ColumnModel>,
) -> (r: Result<Point, String>)
    ensures
        match r {
            Ok(p) => endpoint_mark(
                table@,
                column@,
                end@,
                match trained {
                    Some(c) => Some(*c),
                    None => None,
                },
            ) == Ok::<Mark, Seq<char>>(p@),
            Err(m) => endpoint_mark(
                table@,
                column@,
                end@,
                match trained {
                    Some(c) => Some(*c),
                    None => None,
                },
            ) == Err::<Mark, Seq<char>>(m@),
        },
{
    match end {
        Value::Number(s) => Ok(Point::Number(s.clone())),
        Value::Text(s) => literal_in_marginal_domain(table, column, s.as_str(), trained),
        other => {
            let mut m = write_column_heading(table, column);
            text::push_text(&mut m, "fixed_range endpoint ");
            text::push_text(&mut m, fk_pool::value_key(other).as_str());
            text::push_text(&mut m, " must be a number or a string");
            Err(m)
        },
    }
}

/// What was drawn for a cell.
#[derive(Debug)]
pub enum Drawn {
    /// The level of a dictionary.
    Level(String),
    /// A point of a distribution: an instant for a column that has a datetime
    /// format, else a number.
    Real(Point),
}

/// What a draw is.
pub enum Draw {
    Level(Seq<char>),
    Real(Mark),
}

impl View for Drawn {
    type V = Draw;

    open spec fn view(&self) -> Draw {
        match self {
            Drawn::Level(level) => Draw::Level(level@),
            Drawn::Real(p) => Draw::Real(p@),
        }
    }
}

/// Of two marks the greater one. What is no number gives way to one.
pub open spec fn at_least(m: Mark, low: Mark) -> Mark {
    match mark_rank(m, low) {
        Some(Rank::Below) => low,
        Some(_) => m,
        None => if mark_rank(m, m) is None {
            low
        } else {
            m
        },
    }
}

/// Of two marks the smaller one. What is no number gives way to one.
pub open spec fn at_most(m: Mark, high: Mark) -> Mark {
    match mark_rank(m, high) {
        Some(Rank::Above) => high,
        Some(_) => m,
        None => if mark_rank(m, m) is None {
            high
        } else {
            m
        },
    }
}

/// A mark between the smallest and the largest value that were seen.
pub open spec fn clipped(c: ColumnModel, m: Mark) -> Mark {
    let low = match c.min {
        Some(p) => at_least(m, p@),
        None => m,
    };
    match c.max {
        Some(p) => at_most(low, p@),
        None => low,
    }
}

fn clip(c: &ColumnModel, p: Point) -> (r: Point)
    ensures
        r@ == clipped(*c, p@),
{
    let low = match &c.min {
        Some(m) => match place_of(&p, m) {
            Some(Rank::Below) => m.copy(),
            Some(_) => p,
            None => if place_of(&p, &p).is_none() {
                m.copy()
            } else {
                p
            },
        },
        None => p,
    };
    match &c.max {
        Some(m) => match place_of(&low, m) {
            Some(Rank::Above) => m.copy(),
            Some(_) => low,
            None => if place_of(&low, &low).is_none() {
                m.copy()
            } else {
                low
            },
        },
        None => low,
    }
}

/// A number that was rounded to the grid of a column, moved onto the grid points
/// between the smallest and the largest value that were seen, where there are any.
pub open spec fn snapped(c: ColumnModel, x: Seq<char>, scale: u8) -> Seq<char> {
    match (c.min, c.max) {
        (Some(min), Some(max)) => {
            let low = grid::on_grid(mark_text(min@), scale, Rounding::Up);
            let high = grid::on_grid(mark_text(max@), scale, Rounding::Down);
            match number_rank(low, high) {
                Some(r) => if r == Rank::Above {
                    x
                } else if number_rank(x, low) == Some(Rank::Below) {
                    low
                } else if number_rank(x, high) == Some(Rank::Above) {
                    high
                } else {
                    x
                },
                None => x,
            }
        },
        _ => x,
    }
}

fn snap(c: &ColumnModel, x: String, scale: u8) -> (r: String)
    ensures
        r@ == snapped(*c, x@, scale),
{
    match (&c.min, &c.max) {
        (Some(min), Some(max)) => {
            let (low, high) = grid::grid_bounds(
                point_text(min).as_str(),
                point_text(max).as_str(),
                scale,
            );
            match compare_numbers(low.as_str(), high.as_str()) {
                Some(Rank::Above) => x,
                Some(_) => {
                    if matches!(compare_numbers(x.as_str(), low.as_str()), Some(Rank::Below)) {
                        low
                    } else if matches!(
                        compare_numbers(x.as_str(), high.as_str()),
                        Some(Rank::Above)
                    ) {
                        high
                    } else {
                        x
                    }
                },
                None => x,
            }
        },
        _ => x,
    }
}

/// The whole number nearest to the one that a text writes, where it writes a
/// finite one.
pub uninterp spec fn nearest_whole(s: Seq<char>) -> Option<Seq<char>>;

/// `serde_json::Number::as_f64` of a text, and the double's `round`, written by
/// `Display`: the result depends on the text alone.
#[verifier::external_body]
fn round_number(s: &str) -> (r: Option<String>)
    ensures
        match r {
            Some(n) => nearest_whole(s@) == Some(n@),
            None => nearest_whole(s@) is None,
        },
{
    let n = serde_json::from_str::<serde_json::Number>(s).ok()?;
    Some(n.as_f64()?.round().to_string())
}

/// A number rounded to a whole one; what is not finite stays as it is.
pub open spec fn whole_text(s: Seq<char>) -> Seq<char> {
    match nearest_whole(s) {
        Some(n) => n,
        None => s,
    }
}

fn to_whole(s: &str) -> (r: String)
    ensures
        r@ == whole_text(s@),
{
    match round_number(s) {
        Some(n) => n,
        None => s.to_owned(),
    }
}

/// A number as a whole one of 64 bits: the nearest of these.
pub open spec fn saturated(s: Seq<char>) -> int {
    let n = whole_text(s);
    match literal::fitting_integer(n) {
        Some(i) => i,
        None => match number_rank(n, "0"@) {
            Some(Rank::Above) => i64::MAX as int,
            Some(Rank::Below) => i64::MIN as int,
            _ => 0,
        },
    }
}

fn to_integer(s: &str) -> (r: i64)
    ensures
        r == saturated(s@),
{
    let n = to_whole(s);
    match literal::parse_integer(n.as_str()) {
        Some(i) => i,
        None => match compare_numbers(n.as_str(), "0") {
            Some(Rank::Above) => i64::MAX,
            Some(Rank::Below) => i64::MIN,
            _ => 0,
        },
    }
}

/// The cell of a number: NULL where it is not finite.
pub open spec fn double_cell(s: Seq<char>) -> Cell {
    match literal::finite_double(s) {
        Some(t) => Cell::Number(t),
        None => Cell::Null,
    }
}

/// The cell of a number in a column: a whole number, or one with the digits of the
/// column, where it has such.
pub open spec fn number_cell(c: ColumnModel, x: Seq<char>, enforce: bool) -> Cell {
    if c.whole() {
        let n = whole_text(x);
        Cell::Number(
            text::integer_text(
                saturated(
                    if enforce {
                        snapped(c, n, 0)
                    } else {
                        n
                    },
                ),
            ),
        )
    } else if c.logical_type == LogicalType::Numerical && c.decimal_scale is Some {
        let n = grid::on_grid(x, c.decimal_scale->0, Rounding::HalfAway);
        double_cell(
            if enforce {
                snapped(c, n, c.decimal_scale->0)
            } else {
                n
            },
        )
    } else {
        double_cell(x)
    }
}

fn write_number(c: &ColumnModel, x: &str, enforce: bool) -> (r: Value)
    ensures
        r@ == number_cell(*c, x@, enforce),
{
    if c.is_integer() {
        let mut n = to_whole(x);
        if enforce {
            n = snap(c, n, 0);
        }
        return Value::Number(text::signed_text(to_integer(n.as_str())));
    }
    let mut n = x.to_owned();
    if c.logical_type == LogicalType::Numerical {
        match c.decimal_scale {
            Some(scale) => {
                n = grid::quantize(x, scale);
                if enforce {
                    n = snap(c, n, scale);
                }
            },
            None => {},
        }
    }
    match literal::double_text(n.as_str()) {
        Some(t) => Value::Number(t),
        None => Value::Null,
    }
}

/// The product of the doubles of two JSON numbers, as a JSON number; nothing where one
/// of the texts is none, or the product is not finite.
pub uninterp spec fn double_product(a: Seq<char>, b: Seq<char>) -> Option<Seq<char>>;

/// `Mul` of the doubles that `serde_json::Number::as_f64` gives for two texts, written by
/// `serde_json::Number::from_f64`: the result depends on the texts alone.
#[verifier::external_body]
fn multiply(a: &str, b: &str) -> (r: Option<String>)
    ensures
        match r {
            Some(p) => double_product(a@, b@) == Some(p@),
            None => double_product(a@, b@) is None,
        },
{
    let read = |s: &str| serde_json::from_str::<serde_json::Number>(s).ok()?.as_f64();
    serde_json::Number::from_f64(read(a)? * read(b)?).map(|n| n.to_string())
}

/// The instant of a whole number of microseconds. One more than the largest counts as
/// the largest: doubles cannot tell the two apart.
pub open spec fn whole_instant(n: Seq<char>) -> Option<i64> {
    match literal::integer_of(n) {
        Some(i) => if i64::MIN <= i <= i64::MAX {
            Some(i as i64)
        } else if i == i64::MAX + 1 {
            Some(i64::MAX)
        } else {
            None
        },
        None => None,
    }
}

/// Reads the instant of a whole number of microseconds.
pub fn read_micros(n: &str) -> (r: Option<i64>)
    ensures
        r == whole_instant(n@),
{
    match literal::read_whole(n) {
        Some((true, m)) => {
            if m == 0x8000_0000_0000_0000 {
                Some(i64::MIN)
            } else {
                Some(-(m as i64))
            }
        },
        Some((false, m)) => {
            if m == 0x8000_0000_0000_0000 {
                Some(i64::MAX)
            } else {
                Some(m as i64)
            }
        },
        None => None,
    }
}

/// The instant that so many seconds since 1970 are: the microsecond nearest to their
/// product with a million, where it can be counted.
pub open spec fn seconds_instant(s: Seq<char>) -> Option<i64> {
    match literal::finite_double(s) {
        Some(x) => match double_product(x, "1000000"@) {
            Some(p) => match nearest_whole(p) {
                Some(n) => whole_instant(n),
                None => None,
            },
            None => None,
        },
        None => None,
    }
}

fn read_seconds(s: &str) -> (r: Option<i64>)
    ensures
        r == seconds_instant(s@),
{
    match literal::double_text(s) {
        Some(x) => match multiply(x.as_str(), "1000000") {
            Some(p) => match round_number(p.as_str()) {
                Some(n) => read_micros(n.as_str()),
                None => None,
            },
            None => None,
        },
        None => None,
    }
}

/// The cell of a point in a column with a datetime format: NULL where it cannot be
/// written.
pub open spec fn instant_cell(m: Mark, format: Seq<char>) -> Cell {
    let at = match m {
        Mark::Instant(n) => Some(n),
        Mark::Number(s) => seconds_instant(s),
    };
    match at {
        Some(n) => match datetime::instant_text(n, format) {
            Some(s) => Cell::Text(s),
            None => Cell::Null,
        },
        None => Cell::Null,
    }
}

fn write_instant_cell(p: &Point, format: &str) -> (r: Value)
    ensures
        r@ == instant_cell(p@, format@),
{
    let at: Option<i64> = match p {
        Point::Instant(n) => Some(*n),
        Point::Number(s) => read_seconds(s.as_str()),
    };
    match at {
        Some(n) => match datetime::format_epoch(n, format) {
            Some(s) => Value::Text(s),
            None => Value::Null,
        },
        None => Value::Null,
    }
}

/// A column in which no value was ever seen.
pub open spec fn never_filled(c: ColumnModel) -> bool {
    match c.null_rate {
        Some(rate) => match number_rank(rate.text@, "1"@) {
            Some(r) => r != Rank::Below,
            None => false,
        },
        None => false,
    }
}

fn is_never_filled(c: &ColumnModel) -> (r: bool)
    ensures
        r == never_filled(*c),
{
    match &c.null_rate {
        Some(rate) => match compare_numbers(rate.text.as_str(), "1") {
            Some(Rank::Below) => false,
            Some(_) => true,
            None => false,
        },
        None => false,
    }
}

/// The cell of a column, from what was drawn for it. A column that is not known,
/// or that was never filled, stays NULL. Where bounds are enforced, a point lies
/// between the smallest and the largest value that were seen.
pub open spec fn drawn_cell(trained: Option<ColumnModel>, drawn: Draw, enforce: bool) -> Cell {
    match trained {
        None => Cell::Null,
        Some(c) => if never_filled(c) {
            Cell::Null
        } else {
            match drawn {
                Draw::Level(level) => literal::literal_cell(
                    level,
                    c.logical_type == LogicalType::Numerical,
                ),
                Draw::Real(p) => {
                    let m = if enforce {
                        clipped(c, p)
                    } else {
                        p
                    };
                    if c.logical_type == LogicalType::Datetime && c.datetime_format is Some {
                        instant_cell(m, c.datetime_format->0@)
                    } else {
                        number_cell(c, mark_text(m), enforce)
                    }
                },
            }
        },
    }
}

/// The value of a cell, from what was drawn for it.
pub fn gen_column_value(trained: Option<&ColumnModel>, drawn: Drawn, enforce: bool) -> (r: Value)
    ensures
        r@ == drawn_cell(
            match trained {
                Some(c) => Some(*c),
                None => None,
            },
            drawn@,
            enforce,
        ),
{
    let c: &ColumnModel = match trained {
        Some(c) => c,
        None => {
            return Value::Null;
        },
    };
    if is_never_filled(c) {
        return Value::Null;
    }
    match drawn {
        Drawn::Level(level) => literal::typed_literal(
            level.as_str(),
            c.logical_type == LogicalType::Numerical,
        ),
        Drawn::Real(p) => {
            let m = if enforce {
                clip(c, p)
            } else {
                p
            };
            if c.logical_type == LogicalType::Datetime {
                match &c.datetime_format {
                    Some(f) => {
                        return write_instant_cell(&m, f.as_str());
                    },
                    None => {},
                }
            }
            write_number(c, point_text(&m).as_str(), enforce)
        },
    }
}

/// Where the values of a column are drawn from.
pub struct Source {
    pub trained: Option<ColumnModel>,
    /// Values stay between the smallest and the largest that were seen.
    pub enforce: bool,
}

/// Where the values of a table's column are drawn from.
pub open spec fn source_of(table: TableModel, column: Seq<char>, enforce: bool) -> Source {
    Source { trained: model::column_model(table.columns@, column), enforce }
}

/// A cell is what some draw gives.
pub open spec fn is_draw(s: Source, cell: Cell) -> bool {
    exists|d: Draw| #[trigger] drawn_cell(s.trained, d, s.enforce) == cell
}

/// The value of a table's column, from what was drawn for it.
pub(crate) fn draw_value(table: &TableModel, column: &str, drawn: Drawn, enforce: bool) -> (r:
    Value)
    ensures
        r@ == drawn_cell(model::column_model(table.columns@, column@), drawn@, enforce),
        is_draw(source_of(*table, column@, enforce), r@),
{
    let ghost s = source_of(*table, column@, enforce);
    let ghost d = drawn@;
    let r = gen_column_value(table.column(column), drawn, enforce);
    proof {
        assert(drawn_cell(s.trained, d, s.enforce) == r@);
    }
    r
}

/// What is drawn for a numerical column with a number of digits is a point of its
/// grid. With bounds, it is not outside of those that lie on the grid, where there
/// are any.
pub proof fn lemma_draws_lie_on_the_grid(c: ColumnModel, p: Mark, enforce: bool) -> (r: (
    Seq<char>,
    Rounding,
))
    requires
        c.logical_type == LogicalType::Numerical,
        !c.whole(),
        c.decimal_scale is Some,
        !never_filled(c),
    ensures
        drawn_cell(Some(c), Draw::Real(p), enforce) == double_cell(
            grid::on_grid(r.0, c.decimal_scale->0, r.1),
        ),
        enforce && c.min is Some && c.max is Some ==> {
            let low = grid::on_grid(mark_text(c.min->0@), c.decimal_scale->0, Rounding::Up);
            let high = grid::on_grid(mark_text(c.max->0@), c.decimal_scale->0, Rounding::Down);
            let s = grid::on_grid(r.0, c.decimal_scale->0, r.1);
            number_rank(low, high) == Some(Rank::Below) || number_rank(low, high) == Some(Rank::Same)
                ==> {
                ||| s == low
                ||| s == high
                ||| number_rank(s, low) != Some(Rank::Below) && number_rank(s, high) != Some(
                    Rank::Above,
                )
            }
        },
{
    let scale = c.decimal_scale->0;
    let m = if enforce {
        clipped(c, p)
    } else {
        p
    };
    let x = mark_text(m);
    let n = grid::on_grid(x, scale, Rounding::HalfAway);
    if enforce && snapped(c, n, scale) != n {
        let min = mark_text(c.min->0@);
        let max = mark_text(c.max->0@);
        if snapped(c, n, scale) == grid::on_grid(min, scale, Rounding::Up) {
            (min, Rounding::Up)
        } else {
            (max, Rounding::Down)
        }
    } else {
        (x, Rounding::HalfAway)
    }
}

} // verus!
