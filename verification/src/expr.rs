//! Derivation expressions and predicates over the columns of a row.
use crate::decimal;
use crate::decimal::{Dec, Decimal, Order};
use crate::names;
use crate::parser;
use crate::parser::{ArithOp, Ast, CmpOp, Node};
use crate::text;
use crate::value::{Cell, Columns, Value};
use vstd::prelude::*;

verus! {

/// Everything that can go wrong while parsing, validating or evaluating an
/// expression.
#[derive(Debug, PartialEq, Eq)]
pub enum ExprError {
    /// Lexical or grammar violation, with the byte offset of the offender.
    Syntax { message: String, position: usize },
    /// A recognizable construct that expressions do not have.
    Disallowed {
        /// The kind of construct, e.g. `"function call"`.
        construct: &'static str,
        /// The offending text, e.g. the callee or base identifier.
        detail: String,
    },
    /// A referenced column is not part of the declaring table.
    UnknownColumn { name: String },
    /// Division where the divisor evaluated to zero.
    DivisionByZero { op: &'static str },
    /// Remainder where the divisor evaluated to zero.
    RemainderByZero { op: &'static str },
    /// Operands of different types were compared.
    MixedTypeComparison { left: &'static str, right: &'static str },
    /// An operator was applied to an operand of the wrong type.
    TypeMismatch { op: &'static str, kind: &'static str },
    /// A predicate did not evaluate to a boolean.
    NonBooleanPredicate { found: &'static str },
    /// The expression evaluated to NULL and cannot be used as a decimal.
    NullResult,
}

/// What an error is.
pub enum Fault {
    Syntax { message: Seq<char>, position: nat },
    Disallowed { construct: Seq<char>, detail: Seq<char> },
    UnknownColumn { name: Seq<char> },
    DivisionByZero { op: Seq<char> },
    RemainderByZero { op: Seq<char> },
    MixedTypeComparison { left: Seq<char>, right: Seq<char> },
    TypeMismatch { op: Seq<char>, kind: Seq<char> },
    NonBooleanPredicate { found: Seq<char> },
    NullResult,
}

impl View for ExprError {
    type V = Fault;

    open spec fn view(&self) -> Fault {
        match self {
            ExprError::Syntax { message, position } => Fault::Syntax {
                message: message@,
                position: *position as nat,
            },
            ExprError::Disallowed { construct, detail } => Fault::Disallowed {
                construct: construct@,
                detail: detail@,
            },
            ExprError::UnknownColumn { name } => Fault::UnknownColumn { name: name@ },
            ExprError::DivisionByZero { op } => Fault::DivisionByZero { op: op@ },
            ExprError::RemainderByZero { op } => Fault::RemainderByZero { op: op@ },
            ExprError::MixedTypeComparison { left, right } => Fault::MixedTypeComparison {
                left: left@,
                right: right@,
            },
            ExprError::TypeMismatch { op, kind } => Fault::TypeMismatch { op: op@, kind: kind@ },
            ExprError::NonBooleanPredicate { found } => Fault::NonBooleanPredicate {
                found: found@,
            },
            ExprError::NullResult => Fault::NullResult,
        }
    }
}

/// The message of an error.
pub open spec fn fault_text(f: Fault) -> Seq<char> {
    match f {
        Fault::Syntax { message, position } => "syntax error at position "@ + text::digits(
            position,
        ) + ": "@ + message,
        Fault::Disallowed { construct, detail } => construct + " `"@ + detail
            + "` is not permitted in synth expressions"@,
        Fault::UnknownColumn { name } => "unknown column `"@ + name
            + "` referenced in expression"@,
        Fault::DivisionByZero { op } => "division by zero in expression (operator `"@ + op
            + "`)"@,
        Fault::RemainderByZero { op } => "remainder by zero in expression (operator `"@ + op
            + "`)"@,
        Fault::MixedTypeComparison { left, right } => "cannot compare "@ + left + " with "@ + right
            + " in expression"@,
        Fault::TypeMismatch { op, kind } => "operator `"@ + op + "` cannot be applied to "@ + kind,
        Fault::NonBooleanPredicate { found } => "predicate must evaluate to a boolean, got "@
            + found,
        Fault::NullResult => "expression evaluated to NULL"@,
    }
}

impl ExprError {
    /// The message of the error.
    pub fn to_string(&self) -> (r: String)
        ensures
            r@ == fault_text(self@),
    {
        match self {
            ExprError::Syntax { message, position } => {
                let mut r = "syntax error at position ".to_owned();
                let n = text::number_text(*position);
                text::push_text(&mut r, n.as_str());
                text::push_text(&mut r, ": ");
                text::push_text(&mut r, message.as_str());
                r
            },
            ExprError::Disallowed { construct, detail } => {
                let mut r = (*construct).to_owned();
                text::push_text(&mut r, " `");
                text::push_text(&mut r, detail.as_str());
                text::push_text(&mut r, "` is not permitted in synth expressions");
                r
            },
            ExprError::UnknownColumn { name } => text::around(
                "unknown column `",
                name.as_str(),
                "` referenced in expression",
            ),
            ExprError::DivisionByZero { op } => text::around(
                "division by zero in expression (operator `",
                op,
                "`)",
            ),
            ExprError::RemainderByZero { op } => text::around(
                "remainder by zero in expression (operator `",
                op,
                "`)",
            ),
            ExprError::MixedTypeComparison { left, right } => {
                let mut r = text::around("cannot compare ", left, " with ");
                text::push_text(&mut r, right);
                text::push_text(&mut r, " in expression");
                r
            },
            ExprError::TypeMismatch { op, kind } => {
                let mut r = text::around("operator `", op, "` cannot be applied to ");
                text::push_text(&mut r, kind);
                r
            },
            ExprError::NonBooleanPredicate { found } => {
                let mut r = "predicate must evaluate to a boolean, got ".to_owned();
                text::push_text(&mut r, found);
                r
            },
            ExprError::NullResult => "expression evaluated to NULL".to_owned(),
        }
    }
}

/// A value during evaluation, over the kinds of number and of text it holds.
pub enum Scalar<N, S> {
    Null,
    Bool(bool),
    Number(N),
    Str(S),
}

/// What a value during evaluation is.
pub type Sc = Scalar<Dec, Seq<char>>;

impl View for Scalar<Decimal, String> {
    type V = Sc;

    open spec fn view(&self) -> Sc {
        match self {
            Scalar::Null => Scalar::Null,
            Scalar::Bool(b) => Scalar::Bool(*b),
            Scalar::Number(d) => Scalar::Number(d@),
            Scalar::Str(s) => Scalar::Str(s@),
        }
    }
}

/// Why an evaluation ends without a value: a fault, or a sum, difference or
/// product that the decimal arithmetic cannot hold.
pub enum Stop {
    Fault(Fault),
    Overflow,
}

/// How the kind of a value is named.
pub open spec fn kind_of(v: Sc) -> Seq<char> {
    match v {
        Scalar::Null => "null"@,
        Scalar::Bool(_) => "boolean"@,
        Scalar::Number(_) => "number"@,
        Scalar::Str(_) => "string"@,
    }
}

/// A cell as an operand. A number counts by its literal text.
pub open spec fn operand(cell: Cell) -> Result<Sc, Fault> {
    let op = "coerce column value"@;
    match cell {
        Cell::Null => Ok(Scalar::Null),
        Cell::Bool(b) => Ok(Scalar::Bool(b)),
        Cell::Number(s) => match decimal::parsed(s) {
            Some(d) => Ok(Scalar::Number(d)),
            None => Err(Fault::TypeMismatch { op, kind: "number"@ }),
        },
        Cell::Text(s) => Ok(Scalar::Str(s)),
        Cell::Array(_) => Err(Fault::TypeMismatch { op, kind: "array"@ }),
        Cell::Object(_) => Err(Fault::TypeMismatch { op, kind: "object"@ }),
    }
}

/// The value of an arithmetic operator. NULL makes the result NULL; numbers are
/// computed in exact decimals.
pub open spec fn arith(op: ArithOp, left: Sc, right: Sc) -> Result<Sc, Stop> {
    match (left, right) {
        (Scalar::Number(a), Scalar::Number(b)) => {
            let found = match op {
                ArithOp::Add => decimal::sum(a, b),
                ArithOp::Sub => decimal::difference(a, b),
                ArithOp::Mul => decimal::product(a, b),
                ArithOp::Div => decimal::quotient(a, b),
                ArithOp::Rem => decimal::remainder(a, b),
            };
            match (found, op) {
                (Some(d), _) => Ok(Scalar::Number(d)),
                (None, ArithOp::Div) => Err(Stop::Fault(Fault::DivisionByZero { op: "/"@ })),
                (None, ArithOp::Rem) => Err(Stop::Fault(Fault::RemainderByZero { op: "%"@ })),
                (None, _) => Err(Stop::Overflow),
            }
        },
        (Scalar::Null, _) => Ok(Scalar::Null),
        (_, Scalar::Null) => Ok(Scalar::Null),
        _ => Err(
            Stop::Fault(
                Fault::TypeMismatch {
                    op: parser::arith_symbol(op),
                    kind: kind_of(
                        if left is Number {
                            right
                        } else {
                            left
                        },
                    ),
                },
            ),
        ),
    }
}

/// What is promised of one step of arithmetic on numbers: a divisor of zero is
/// an error, and so is no other. Sums and differences that fit are exact, and products
/// that fit; others are the nearest numbers. Division is the inverse of multiplication:
/// where a decimal number multiplied by the divisor gives the dividend, the quotient is
/// that number, and otherwise the nearest one. A remainder is what the dividend is more
/// than a multiple of the divisor, less than it, and on the dividend's side of zero.
pub open spec fn promised(op: ArithOp, a: Dec, b: Dec, found: Result<Sc, Stop>) -> bool {
    let limit = decimal::magnitude_limit() as int;
    let s = decimal::wider(a, b);
    match op {
        ArithOp::Mul => {
            &&& a.magnitude * b.magnitude < limit && a.scale + b.scale <= 28 ==> {
                &&& found is Ok
                &&& found->Ok_0 is Number
                &&& found->Ok_0->Number_0.signed() == a.signed() * b.signed()
                &&& a.magnitude != 0 && b.magnitude != 0 ==> found->Ok_0->Number_0.scale
                    == a.scale + b.scale
            }
            &&& found is Ok ==> found->Ok_0 is Number && decimal::nearest_product(
                a,
                b,
                found->Ok_0->Number_0,
            )
            &&& found is Err ==> found == Err::<Sc, Stop>(Stop::Overflow)
        },
        ArithOp::Add => {
            &&& a.scale == b.scale && -limit < a.signed() + b.signed() < limit ==> {
                &&& found is Ok
                &&& found->Ok_0 is Number
                &&& found->Ok_0->Number_0.signed() == a.signed() + b.signed()
                &&& found->Ok_0->Number_0.scale == a.scale
            }
            &&& decimal::fits(decimal::aligned(a, s)) && decimal::fits(decimal::aligned(b, s))
                && decimal::fits(decimal::aligned(a, s) + decimal::aligned(b, s)) ==> {
                &&& found is Ok
                &&& found->Ok_0 is Number
                &&& found->Ok_0->Number_0.units() == a.units() + b.units()
            }
            &&& found is Err ==> found == Err::<Sc, Stop>(Stop::Overflow)
        },
        ArithOp::Sub => {
            &&& a.scale == b.scale && -limit < a.signed() - b.signed() < limit ==> {
                &&& found is Ok
                &&& found->Ok_0 is Number
                &&& found->Ok_0->Number_0.signed() == a.signed() - b.signed()
                &&& found->Ok_0->Number_0.scale == a.scale
            }
            &&& decimal::fits(decimal::aligned(a, s)) && decimal::fits(decimal::aligned(b, s))
                && decimal::fits(decimal::aligned(a, s) - decimal::aligned(b, s)) ==> {
                &&& found is Ok
                &&& found->Ok_0 is Number
                &&& found->Ok_0->Number_0.units() == a.units() - b.units()
            }
            &&& found is Err ==> found == Err::<Sc, Stop>(Stop::Overflow)
        },
        ArithOp::Div => {
            &&& b.magnitude == 0 ==> found == Err::<Sc, Stop>(
                Stop::Fault(Fault::DivisionByZero { op: "/"@ }),
            )
            &&& forall|q: Dec| #[trigger]
                decimal::exact_quotient(a, b, q) ==> {
                    &&& found is Ok
                    &&& found->Ok_0 is Number
                    &&& found->Ok_0->Number_0.units() == q.units()
                }
            &&& found is Ok ==> found->Ok_0 is Number && decimal::nearest_quotient(
                a,
                b,
                found->Ok_0->Number_0,
            )
        },
        ArithOp::Rem => {
            &&& b.magnitude == 0 ==> found == Err::<Sc, Stop>(
                Stop::Fault(Fault::RemainderByZero { op: "%"@ }),
            )
            &&& b.magnitude != 0 ==> found is Ok && found->Ok_0 is Number && decimal::leaves(
                a,
                b,
                found->Ok_0->Number_0,
            )
        },
    }
}

/// Where an expression is an operator on two numbers, what is promised of it
/// holds.
pub open spec fn promised_of(tree: Ast, row: Map<Seq<char>, Cell>) -> bool {
    match tree {
        Node::Arith(op, left, right) => match (eval(*left, row), eval(*right, row)) {
            (Ok(Scalar::Number(a)), Ok(Scalar::Number(b))) => promised(op, a, b, eval(tree, row)),
            _ => true,
        },
        _ => true,
    }
}

/// The order of two texts.
pub open spec fn text_order(a: Seq<char>, b: Seq<char>) -> Order {
    if text::before(a, b) {
        Order::Less
    } else if a == b {
        Order::Equal
    } else {
        Order::Greater
    }
}

/// Whether an order satisfies a comparison.
pub open spec fn holds(op: CmpOp, order: Order) -> bool {
    match op {
        CmpOp::Eq => order == Order::Equal,
        CmpOp::Ne => order != Order::Equal,
        CmpOp::Lt => order == Order::Less,
        CmpOp::Le => order != Order::Greater,
        CmpOp::Gt => order == Order::Greater,
        CmpOp::Ge => order != Order::Less,
    }
}

/// The value of a comparison. With NULL it is false; numbers compare by value,
/// texts by their characters, booleans only for equality.
pub open spec fn relation(op: CmpOp, left: Sc, right: Sc) -> Result<Sc, Fault> {
    match (left, right) {
        (Scalar::Null, _) => Ok(Scalar::Bool(false)),
        (_, Scalar::Null) => Ok(Scalar::Bool(false)),
        (Scalar::Number(a), Scalar::Number(b)) => Ok(
            Scalar::Bool(holds(op, decimal::order_of(a.units(), b.units()))),
        ),
        (Scalar::Str(a), Scalar::Str(b)) => Ok(Scalar::Bool(holds(op, text_order(a, b)))),
        (Scalar::Bool(a), Scalar::Bool(b)) => match op {
            CmpOp::Eq => Ok(Scalar::Bool(a == b)),
            CmpOp::Ne => Ok(Scalar::Bool(a != b)),
            _ => Err(
                Fault::TypeMismatch { op: parser::relation_symbol(op), kind: "boolean"@ },
            ),
        },
        _ => Err(Fault::MixedTypeComparison { left: kind_of(left), right: kind_of(right) }),
    }
}

/// The value of `&&` (`end` false) or `||` (`end` true) once the left operand
/// is known: `end` decides alone, else the right operand must be a boolean.
pub open spec fn decided(end: bool, left: Sc, right: Result<Sc, Stop>) -> Result<Sc, Stop> {
    match left {
        Scalar::Bool(b) => if b == end {
            Ok(Scalar::Bool(end))
        } else {
            match right {
                Err(s) => Err(s),
                Ok(Scalar::Bool(c)) => Ok(Scalar::Bool(c)),
                Ok(other) => Err(Stop::Fault(Fault::NonBooleanPredicate { found: kind_of(other) })),
            }
        },
        other => Err(Stop::Fault(Fault::NonBooleanPredicate { found: kind_of(other) })),
    }
}

/// The value of an expression on a row. A column that the row does not have is
/// NULL.
pub open spec fn eval(tree: Ast, row: Map<Seq<char>, Cell>) -> Result<Sc, Stop>
    decreases tree,
{
    match tree {
        Node::Number(d) => Ok(Scalar::Number(d)),
        Node::Str(s) => Ok(Scalar::Str(s)),
        Node::Column(name) => if row.contains_key(name) {
            match operand(row[name]) {
                Ok(v) => Ok(v),
                Err(f) => Err(Stop::Fault(f)),
            }
        } else {
            Ok(Scalar::Null)
        },
        Node::Negate(inner) => match eval(*inner, row) {
            Err(s) => Err(s),
            Ok(Scalar::Number(d)) => Ok(Scalar::Number(d.negated())),
            Ok(Scalar::Null) => Ok(Scalar::Null),
            Ok(other) => Err(
                Stop::Fault(Fault::TypeMismatch { op: "negate"@, kind: kind_of(other) }),
            ),
        },
        Node::Arith(op, left, right) => match eval(*left, row) {
            Err(s) => Err(s),
            Ok(a) => match eval(*right, row) {
                Err(s) => Err(s),
                Ok(b) => arith(op, a, b),
            },
        },
        Node::Compare(op, left, right) => match eval(*left, row) {
            Err(s) => Err(s),
            Ok(a) => match eval(*right, row) {
                Err(s) => Err(s),
                Ok(b) => match relation(op, a, b) {
                    Ok(v) => Ok(v),
                    Err(f) => Err(Stop::Fault(f)),
                },
            },
        },
        Node::And(left, right) => match eval(*left, row) {
            Err(s) => Err(s),
            Ok(a) => decided(false, a, eval(*right, row)),
        },
        Node::Or(left, right) => match eval(*left, row) {
            Err(s) => Err(s),
            Ok(a) => decided(true, a, eval(*right, row)),
        },
    }
}

/// Why an evaluation ended without a value.
pub enum Halt {
    Error(ExprError),
    Overflow,
}

impl View for Halt {
    type V = Stop;

    open spec fn view(&self) -> Stop {
        match self {
            Halt::Error(e) => Stop::Fault(e@),
            Halt::Overflow => Stop::Overflow,
        }
    }
}

/// The outcome of an evaluation.
pub open spec fn outcome(r: Result<Scalar<Decimal, String>, Halt>) -> Result<Sc, Stop> {
    match r {
        Ok(v) => Ok(v@),
        Err(h) => Err(h@),
    }
}

impl Scalar<Decimal, String> {
    fn kind(&self) -> (r: &'static str)
        ensures
            r@ == kind_of(self@),
    {
        match self {
            Scalar::Null => "null",
            Scalar::Bool(_) => "boolean",
            Scalar::Number(_) => "number",
            Scalar::Str(_) => "string",
        }
    }

    fn from_value(value: &Value) -> (r: Result<Scalar<Decimal, String>, ExprError>)
        ensures
            match r {
                Ok(v) => operand(value@) == Ok::<Sc, Fault>(v@),
                Err(e) => operand(value@) == Err::<Sc, Fault>(e@),
            },
    {
        match value {
            Value::Null => Ok(Scalar::Null),
            Value::Bool(b) => Ok(Scalar::Bool(*b)),
            Value::Number(s) => match Decimal::parse(s.as_str()) {
                Some(d) => Ok(Scalar::Number(d)),
                None => Err(
                    ExprError::TypeMismatch { op: "coerce column value", kind: "number" },
                ),
            },
            Value::Text(s) => Ok(Scalar::Str(s.clone())),
            Value::Array(_) => Err(
                ExprError::TypeMismatch { op: "coerce column value", kind: "array" },
            ),
            Value::Object(_) => Err(
                ExprError::TypeMismatch { op: "coerce column value", kind: "object" },
            ),
        }
    }
}

proof fn lemma_signed_product(left: Sc, right: Sc)
    ensures
        left is Number && right is Number ==> {
            let a = left->Number_0;
            let b = right->Number_0;
            let m = (a.magnitude * b.magnitude) as int;
            &&& a.signed() * b.signed() == (if a.negative != b.negative {
                -m
            } else {
                m
            })
            &&& (a.magnitude == 0 || b.magnitude == 0) <==> m == 0
        },
{
    if left is Number && right is Number {
        let x = left->Number_0.magnitude as int;
        let y = right->Number_0.magnitude as int;
        assert((-x) * y == -(x * y)) by (nonlinear_arith);
        assert(x * (-y) == -(x * y)) by (nonlinear_arith);
        assert((-x) * (-y) == x * y) by (nonlinear_arith);
        assert(x * y == 0 <==> x == 0 || y == 0) by (nonlinear_arith);
    }
}

fn eval_arith(
    op: ArithOp,
    left: Scalar<Decimal, String>,
    right: Scalar<Decimal, String>,
) -> (r: Result<Scalar<Decimal, String>, Halt>)
    ensures
        outcome(r) == arith(op, left@, right@),
        left@ is Number && right@ is Number ==> promised(
            op,
            left@->Number_0,
            right@->Number_0,
            outcome(r),
        ),
{
    proof {
        lemma_signed_product(left@, right@);
    }
    match (left, right) {
        (Scalar::Number(a), Scalar::Number(b)) => {
            let found = match op {
                ArithOp::Add => a.checked_plus(b),
                ArithOp::Sub => a.checked_minus(b),
                ArithOp::Mul => a.checked_times(b),
                ArithOp::Div => a.checked_over(b),
                ArithOp::Rem => a.checked_modulo(b),
            };
            match found {
                Some(d) => Ok(Scalar::Number(d)),
                None => match op {
                    ArithOp::Div => Err(Halt::Error(ExprError::DivisionByZero { op: "/" })),
                    ArithOp::Rem => Err(Halt::Error(ExprError::RemainderByZero { op: "%" })),
                    _ => Err(Halt::Overflow),
                },
            }
        },
        (Scalar::Null, _) => Ok(Scalar::Null),
        (_, Scalar::Null) => Ok(Scalar::Null),
        (left, right) => {
            let kind = match left {
                Scalar::Number(_) => right.kind(),
                _ => left.kind(),
            };
            Err(Halt::Error(ExprError::TypeMismatch { op: op.symbol(), kind }))
        },
    }
}

fn order_of_texts(a: &str, b: &str) -> (r: Order)
    ensures
        r == text_order(a@, b@),
{
    proof {
        text::lemma_before_total(a@, b@);
    }
    if text::is_before(a, b) {
        Order::Less
    } else if text::same(a, b) {
        Order::Equal
    } else {
        Order::Greater
    }
}

/// Compares two values. With NULL the result is false; a number is not compared with a
/// text, and booleans only for equality.
pub fn compare(
    op: CmpOp,
    left: Scalar<Decimal, String>,
    right: Scalar<Decimal, String>,
) -> (r: Result<Scalar<Decimal, String>, ExprError>)
    ensures
        match r {
            Ok(v) => relation(op, left@, right@) == Ok::<Sc, Fault>(v@),
            Err(e) => relation(op, left@, right@) == Err::<Sc, Fault>(e@),
        },
{
    let order = match (&left, &right) {
        (Scalar::Null, _) => {
            return Ok(Scalar::Bool(false));
        },
        (_, Scalar::Null) => {
            return Ok(Scalar::Bool(false));
        },
        (Scalar::Number(a), Scalar::Number(b)) => (*a).compare(*b),
        (Scalar::Str(a), Scalar::Str(b)) => order_of_texts(a.as_str(), b.as_str()),
        (Scalar::Bool(a), Scalar::Bool(b)) => {
            return match op {
                CmpOp::Eq => Ok(Scalar::Bool(*a == *b)),
                CmpOp::Ne => Ok(Scalar::Bool(*a != *b)),
                _ => Err(ExprError::TypeMismatch { op: op.symbol(), kind: "boolean" }),
            };
        },
        _ => {
            return Err(
                ExprError::MixedTypeComparison { left: left.kind(), right: right.kind() },
            );
        },
    };
    let result = match op {
        CmpOp::Eq => order == Order::Equal,
        CmpOp::Ne => order != Order::Equal,
        CmpOp::Lt => order == Order::Less,
        CmpOp::Le => order != Order::Greater,
        CmpOp::Gt => order == Order::Greater,
        CmpOp::Ge => order != Order::Less,
    };
    Ok(Scalar::Bool(result))
}

fn eval_node<R: Columns>(node: &Node<Decimal, String>, row: &R) -> (r: Result<
    Scalar<Decimal, String>,
    Halt,
>)
    ensures
        outcome(r) == eval(parser::ast(*node), row.cells()),
        promised_of(parser::ast(*node), row.cells()),
    decreases node,
{
    match node {
        Node::Number(d) => Ok(Scalar::Number(*d)),
        Node::Str(s) => Ok(Scalar::Str(s.clone())),
        Node::Column(name) => match row.get(name.as_str()) {
            Some(value) => match Scalar::from_value(&value) {
                Ok(v) => Ok(v),
                Err(e) => Err(Halt::Error(e)),
            },
            None => Ok(Scalar::Null),
        },
        Node::Negate(inner) => match eval_node(inner, row) {
            Err(h) => Err(h),
            Ok(Scalar::Number(d)) => Ok(Scalar::Number(d.negate())),
            Ok(Scalar::Null) => Ok(Scalar::Null),
            Ok(other) => Err(
                Halt::Error(ExprError::TypeMismatch { op: "negate", kind: other.kind() }),
            ),
        },
        Node::Arith(op, left, right) => match eval_node(left, row) {
            Err(h) => Err(h),
            Ok(a) => match eval_node(right, row) {
                Err(h) => Err(h),
                Ok(b) => eval_arith(*op, a, b),
            },
        },
        Node::Compare(op, left, right) => match eval_node(left, row) {
            Err(h) => Err(h),
            Ok(a) => match eval_node(right, row) {
                Err(h) => Err(h),
                Ok(b) => match compare(*op, a, b) {
                    Ok(v) => Ok(v),
                    Err(e) => Err(Halt::Error(e)),
                },
            },
        },
        Node::And(left, right) => match eval_node(left, row) {
            Err(h) => Err(h),
            Ok(Scalar::Bool(false)) => Ok(Scalar::Bool(false)),
            Ok(Scalar::Bool(true)) => match eval_node(right, row) {
                Err(h) => Err(h),
                Ok(Scalar::Bool(flag)) => Ok(Scalar::Bool(flag)),
                Ok(other) => Err(
                    Halt::Error(ExprError::NonBooleanPredicate { found: other.kind() }),
                ),
            },
            Ok(other) => Err(Halt::Error(ExprError::NonBooleanPredicate { found: other.kind() })),
        },
        Node::Or(left, right) => match eval_node(left, row) {
            Err(h) => Err(h),
            Ok(Scalar::Bool(true)) => Ok(Scalar::Bool(true)),
            Ok(Scalar::Bool(false)) => match eval_node(right, row) {
                Err(h) => Err(h),
                Ok(Scalar::Bool(flag)) => Ok(Scalar::Bool(flag)),
                Ok(other) => Err(
                    Halt::Error(ExprError::NonBooleanPredicate { found: other.kind() }),
                ),
            },
            Ok(other) => Err(Halt::Error(ExprError::NonBooleanPredicate { found: other.kind() })),
        },
    }
}

/// Whether a column occurs in an expression.
pub open spec fn mentions(tree: Ast, name: Seq<char>) -> bool
    decreases tree,
{
    match tree {
        Node::Number(_) => false,
        Node::Str(_) => false,
        Node::Column(n) => n == name,
        Node::Negate(a) => mentions(*a, name),
        Node::Arith(_, a, b) => mentions(*a, name) || mentions(*b, name),
        Node::Compare(_, a, b) => mentions(*a, name) || mentions(*b, name),
        Node::And(a, b) => mentions(*a, name) || mentions(*b, name),
        Node::Or(a, b) => mentions(*a, name) || mentions(*b, name),
    }
}

fn collect_columns(node: &Node<Decimal, String>, out: &mut Vec<String>)
    requires
        names::ascending(old(out).deep_view()),
    ensures
        names::ascending(final(out).deep_view()),
        forall|n: Seq<char>|
            #![trigger final(out).deep_view().contains(n)]
            final(out).deep_view().contains(n) <==> old(out).deep_view().contains(n) || mentions(
                parser::ast(*node),
                n,
            ),
    decreases node,
{
    match node {
        Node::Column(name) => names::insert(out, name.as_str()),
        Node::Negate(a) => collect_columns(a, out),
        Node::Arith(_, a, b) => {
            collect_columns(a, out);
            collect_columns(b, out);
        },
        Node::Compare(_, a, b) => {
            collect_columns(a, out);
            collect_columns(b, out);
        },
        Node::And(a, b) => {
            collect_columns(a, out);
            collect_columns(b, out);
        },
        Node::Or(a, b) => {
            collect_columns(a, out);
            collect_columns(b, out);
        },
        Node::Number(_) => {},
        Node::Str(_) => {},
    }
}

/// What evaluating as a predicate gives, for an evaluation that does not
/// overflow.
pub open spec fn as_predicate(r: Result<Sc, Stop>) -> Result<bool, Fault> {
    match r {
        Ok(Scalar::Bool(b)) => Ok(b),
        Ok(other) => Err(Fault::NonBooleanPredicate { found: kind_of(other) }),
        Err(Stop::Fault(f)) => Err(f),
        Err(Stop::Overflow) => arbitrary(),
    }
}

/// What evaluating as a decimal gives, for an evaluation that does not
/// overflow.
pub open spec fn as_decimal(r: Result<Sc, Stop>) -> Result<Dec, Fault> {
    match r {
        Ok(Scalar::Number(d)) => Ok(d),
        Ok(Scalar::Null) => Err(Fault::NullResult),
        Ok(other) => Err(Fault::TypeMismatch { op: "decimal result"@, kind: kind_of(other) }),
        Err(Stop::Fault(f)) => Err(f),
        Err(Stop::Overflow) => arbitrary(),
    }
}

/// A parsed expression.
#[derive(Debug, PartialEq)]
pub struct Expr {
    root: Node<Decimal, String>,
}

impl Expr {
    /// The tree of the expression.
    pub closed spec fn tree(&self) -> Ast {
        parser::ast(self.root)
    }

    /// Parses `src`. Column names are not looked at here; see
    /// [`Expr::check_columns`].
    pub fn parse(src: &str) -> (r: Result<Expr, ExprError>)
        ensures
            match r {
                Ok(e) => parser::parsed_text(src@) == Ok::<Ast, Fault>(e.tree()),
                Err(e) => parser::parsed_text(src@) == Err::<Ast, Fault>(e@),
            },
    {
        match parser::parse_node(src) {
            Ok(root) => Ok(Expr { root }),
            Err(e) => Err(e),
        }
    }

    /// A copy of the expression.
    pub fn copy(&self) -> (r: Expr)
        ensures
            r.tree() == self.tree(),
    {
        Expr { root: parser::copy_node(&self.root) }
    }

    /// Every referenced column must be among `known`. The error names the first
    /// missing column, in the order of names.
    pub fn check_columns(&self, known: &[String]) -> (r: Result<(), ExprError>)
        ensures
            match r {
                Ok(_) => forall|n: Seq<char>| #[trigger]
                    mentions(self.tree(), n) ==> known.deep_view().contains(n),
                Err(e) => {
                    let missing = e@->UnknownColumn_name;
                    &&& e@ is UnknownColumn
                    &&& mentions(self.tree(), missing)
                    &&& !known.deep_view().contains(missing)
                    &&& forall|n: Seq<char>| #[trigger]
                        mentions(self.tree(), n) && text::before(n, missing)
                            ==> known.deep_view().contains(n)
                },
            },
    {
        let referenced = self.referenced_columns();
        let ghost all = referenced.deep_view();
        let mut i: usize = 0;
        while i < referenced.len()
            invariant
                i <= referenced@.len(),
                all == referenced.deep_view(),
                names::ascending(all),
                forall|n: Seq<char>| #[trigger] all.contains(n) <==> mentions(self.tree(), n),
                forall|j: int| 0 <= j < i ==> known.deep_view().contains(#[trigger] all[j]),
            decreases referenced@.len() - i,
        {
            if !names::has(known, referenced[i].as_str()) {
                proof {
                    let missing = all[i as int];
                    assert(all.contains(missing));
                    assert forall|n: Seq<char>| #[trigger]
                        mentions(self.tree(), n) && text::before(
                            n,
                            missing,
                        ) implies known.deep_view().contains(n) by {
                        assert(all.contains(n));
                        let j = all.index_of(n);
                        text::lemma_before_total(n, missing);
                        if j > i {
                            assert(text::before(all[i as int], all[j]));
                        }
                        assert(known.deep_view().contains(all[j]));
                    }
                }
                return Err(ExprError::UnknownColumn { name: referenced[i].clone() });
            }
            i = i + 1;
        }
        proof {
            assert forall|n: Seq<char>| #[trigger]
                mentions(self.tree(), n) implies known.deep_view().contains(n) by {
                assert(all.contains(n));
                assert(known.deep_view().contains(all[all.index_of(n)]));
            }
        }
        Ok(())
    }

    /// The columns that the expression refers to, in order and each once.
    pub fn referenced_columns(&self) -> (r: Vec<String>)
        ensures
            names::ascending(r.deep_view()),
            forall|n: Seq<char>| #[trigger]
                r.deep_view().contains(n) <==> mentions(self.tree(), n),
    {
        let mut out: Vec<String> = Vec::new();
        collect_columns(&self.root, &mut out);
        out
    }

    /// Whether the expression can be evaluated on the row without a number
    /// that the decimal arithmetic cannot hold.
    pub fn fits<R: Columns>(&self, row: &R) -> (r: bool)
        ensures
            r == (eval(self.tree(), row.cells()) != Err::<Sc, Stop>(Stop::Overflow)),
    {
        match eval_node(&self.root, row) {
            Err(Halt::Overflow) => false,
            _ => true,
        }
    }

    /// Evaluates as a predicate. The result must be a boolean.
    pub fn eval_bool<R: Columns>(&self, row: &R) -> (r: Result<bool, ExprError>)
        requires
            eval(self.tree(), row.cells()) != Err::<Sc, Stop>(Stop::Overflow),
        ensures
            match r {
                Ok(b) => as_predicate(eval(self.tree(), row.cells())) == Ok::<bool, Fault>(b),
                Err(e) => as_predicate(eval(self.tree(), row.cells())) == Err::<bool, Fault>(e@),
            },
            promised_of(self.tree(), row.cells()),
    {
        match eval_node(&self.root, row) {
            Ok(Scalar::Bool(flag)) => Ok(flag),
            Ok(other) => Err(ExprError::NonBooleanPredicate { found: other.kind() }),
            Err(Halt::Error(e)) => Err(e),
            Err(Halt::Overflow) => {
                proof {
                    assert(false);
                }
                Err(ExprError::NullResult)
            },
        }
    }

    /// Evaluates as a predicate, with no result where the decimal arithmetic
    /// overflows.
    pub fn try_eval_bool<R: Columns>(&self, row: &R) -> (r: Option<Result<bool, ExprError>>)
        ensures
            match r {
                Some(Ok(b)) => as_predicate(eval(self.tree(), row.cells())) == Ok::<bool, Fault>(b),
                Some(Err(e)) => as_predicate(eval(self.tree(), row.cells())) == Err::<bool, Fault>(
                    e@,
                ),
                None => eval(self.tree(), row.cells()) == Err::<Sc, Stop>(Stop::Overflow),
            },
            r is Some ==> eval(self.tree(), row.cells()) != Err::<Sc, Stop>(Stop::Overflow),
    {
        if self.fits(row) {
            Some(self.eval_bool(row))
        } else {
            None
        }
    }

    /// Evaluates as an exact decimal, for `derive` targets.
    pub fn eval_decimal<R: Columns>(&self, row: &R) -> (r: Result<Decimal, ExprError>)
        requires
            eval(self.tree(), row.cells()) != Err::<Sc, Stop>(Stop::Overflow),
        ensures
            match r {
                Ok(d) => as_decimal(eval(self.tree(), row.cells())) == Ok::<Dec, Fault>(d@),
                Err(e) => as_decimal(eval(self.tree(), row.cells())) == Err::<Dec, Fault>(e@),
            },
            promised_of(self.tree(), row.cells()),
    {
        match eval_node(&self.root, row) {
            Ok(Scalar::Number(value)) => Ok(value),
            Ok(Scalar::Null) => Err(ExprError::NullResult),
            Ok(other) => Err(
                ExprError::TypeMismatch { op: "decimal result", kind: other.kind() },
            ),
            Err(Halt::Error(e)) => Err(e),
            Err(Halt::Overflow) => {
                proof {
                    assert(false);
                }
                Err(ExprError::NullResult)
            },
        }
    }

    /// Evaluates as an exact decimal, with no result where the decimal
    /// arithmetic overflows.
    pub fn try_eval_decimal<R: Columns>(&self, row: &R) -> (r: Option<Result<Decimal, ExprError>>)
        ensures
            match r {
                Some(Ok(d)) => as_decimal(eval(self.tree(), row.cells())) == Ok::<Dec, Fault>(d@),
                Some(Err(e)) => as_decimal(eval(self.tree(), row.cells())) == Err::<Dec, Fault>(
                    e@,
                ),
                None => eval(self.tree(), row.cells()) == Err::<Sc, Stop>(Stop::Overflow),
            },
            r is Some ==> eval(self.tree(), row.cells()) != Err::<Sc, Stop>(Stop::Overflow),
    {
        if self.fits(row) {
            Some(self.eval_decimal(row))
        } else {
            None
        }
    }
}

/// A relation that holds of two values.
pub open spec fn related(op: CmpOp, left: Sc, right: Sc) -> bool {
    relation(op, left, right) == Ok::<Sc, Fault>(Scalar::Bool(true))
}

/// How values compare. With NULL, whichever side it is on, all six comparisons are
/// false. Of two numbers, and of two texts, exactly one of `<`, `==` and `>` holds, and
/// `>=`, `!=` and `<=` are their opposites. A number against a text is refused in
/// either order, and the kinds are named in that order.
pub proof fn lemma_comparisons(op: CmpOp, left: Sc, right: Sc)
    ensures
        left is Null || right is Null ==> relation(op, left, right) == Ok::<Sc, Fault>(
            Scalar::Bool(false),
        ),
        left is Number && right is Number || left is Str && right is Str ==> {
            &&& relation(op, left, right) == Ok::<Sc, Fault>(
                Scalar::Bool(related(op, left, right)),
            )
            &&& related(CmpOp::Lt, left, right) || related(CmpOp::Eq, left, right) || related(
                CmpOp::Gt,
                left,
                right,
            )
            &&& !(related(CmpOp::Lt, left, right) && related(CmpOp::Eq, left, right))
            &&& !(related(CmpOp::Lt, left, right) && related(CmpOp::Gt, left, right))
            &&& !(related(CmpOp::Eq, left, right) && related(CmpOp::Gt, left, right))
            &&& related(CmpOp::Ge, left, right) == !related(CmpOp::Lt, left, right)
            &&& related(CmpOp::Ne, left, right) == !related(CmpOp::Eq, left, right)
            &&& related(CmpOp::Le, left, right) == !related(CmpOp::Gt, left, right)
        },
        left is Number && right is Str ==> relation(op, left, right) == Err::<Sc, Fault>(
            Fault::MixedTypeComparison { left: "number"@, right: "string"@ },
        ),
        left is Str && right is Number ==> relation(op, left, right) == Err::<Sc, Fault>(
            Fault::MixedTypeComparison { left: "string"@, right: "number"@ },
        ),
{
}

/// A comparison with NULL is false, whichever side it is on.
pub proof fn lemma_null_compares_false(op: CmpOp, a: Ast, b: Ast, row: Map<Seq<char>, Cell>)
    requires
        eval(a, row) is Ok,
        eval(b, row) is Ok,
        eval(a, row) == Ok::<Sc, Stop>(Scalar::Null) || eval(b, row) == Ok::<Sc, Stop>(Scalar::Null),
    ensures
        eval(comparison(op, a, b), row) == Ok::<Sc, Stop>(Scalar::Bool(false)),
{
}

/// A comparison of two expressions.
pub open spec fn comparison(op: CmpOp, a: Ast, b: Ast) -> Ast {
    Node::Compare(op, Box::new(a), Box::new(b))
}

/// A comparison that holds.
pub open spec fn is_true(op: CmpOp, a: Ast, b: Ast, row: Map<Seq<char>, Cell>) -> bool {
    eval(comparison(op, a, b), row) == Ok::<Sc, Stop>(Scalar::Bool(true))
}

/// Of two numbers, and of two texts, exactly one of `<`, `==` and `>` holds; `>=`,
/// `!=` and `<=` are their opposites, and none of the six fails.
pub proof fn lemma_exactly_one_order_holds(a: Ast, b: Ast, row: Map<Seq<char>, Cell>)
    requires
        match (eval(a, row), eval(b, row)) {
            (Ok(Scalar::Number(_)), Ok(Scalar::Number(_))) => true,
            (Ok(Scalar::Str(_)), Ok(Scalar::Str(_))) => true,
            _ => false,
        },
    ensures
        is_true(CmpOp::Lt, a, b, row) || is_true(CmpOp::Eq, a, b, row) || is_true(
            CmpOp::Gt,
            a,
            b,
            row,
        ),
        !(is_true(CmpOp::Lt, a, b, row) && is_true(CmpOp::Eq, a, b, row)),
        !(is_true(CmpOp::Lt, a, b, row) && is_true(CmpOp::Gt, a, b, row)),
        !(is_true(CmpOp::Eq, a, b, row) && is_true(CmpOp::Gt, a, b, row)),
        is_true(CmpOp::Ge, a, b, row) == !is_true(CmpOp::Lt, a, b, row),
        is_true(CmpOp::Ne, a, b, row) == !is_true(CmpOp::Eq, a, b, row),
        is_true(CmpOp::Le, a, b, row) == !is_true(CmpOp::Gt, a, b, row),
        forall|op: CmpOp|
            !is_true(op, a, b, row) ==> #[trigger] eval(comparison(op, a, b), row) == Ok::<
                Sc,
                Stop,
            >(Scalar::Bool(false)),
{
}

/// A number is not compared with a text, whichever comes first; the message names
/// both kinds in their order.
pub proof fn lemma_number_and_text_do_not_compare(
    op: CmpOp,
    a: Ast,
    b: Ast,
    row: Map<Seq<char>, Cell>,
)
    ensures
        match (eval(a, row), eval(b, row)) {
            (Ok(Scalar::Number(_)), Ok(Scalar::Str(_))) => eval(comparison(op, a, b), row) == Err::<
                Sc,
                Stop,
            >(Stop::Fault(Fault::MixedTypeComparison { left: "number"@, right: "string"@ })),
            (Ok(Scalar::Str(_)), Ok(Scalar::Number(_))) => eval(comparison(op, a, b), row) == Err::<
                Sc,
                Stop,
            >(Stop::Fault(Fault::MixedTypeComparison { left: "string"@, right: "number"@ })),
            _ => true,
        },
{
}

/// NULL goes through arithmetic and is refused as a decimal result.
pub proof fn lemma_null_propagates(op: ArithOp, a: Ast, b: Ast, row: Map<Seq<char>, Cell>)
    requires
        eval(a, row) is Ok,
        eval(b, row) is Ok,
        eval(a, row) == Ok::<Sc, Stop>(Scalar::Null) || eval(b, row) == Ok::<Sc, Stop>(Scalar::Null),
    ensures
        eval(Node::Arith(op, Box::new(a), Box::new(b)), row) == Ok::<Sc, Stop>(Scalar::Null),
        as_decimal(eval(Node::Arith(op, Box::new(a), Box::new(b)), row)) == Err::<Dec, Fault>(
            Fault::NullResult,
        ),
{
}

/// `&&` and `||` do not look at the right operand once the left decides.
pub proof fn lemma_short_circuit(a: Ast, b: Ast, row: Map<Seq<char>, Cell>)
    ensures
        eval(a, row) == Ok::<Sc, Stop>(Scalar::Bool(false)) ==> eval(
            Node::And(Box::new(a), Box::new(b)),
            row,
        ) == Ok::<Sc, Stop>(Scalar::Bool(false)),
        eval(a, row) == Ok::<Sc, Stop>(Scalar::Bool(true)) ==> eval(
            Node::Or(Box::new(a), Box::new(b)),
            row,
        ) == Ok::<Sc, Stop>(Scalar::Bool(true)),
{
}

/// An expression reads only the columns that it mentions: rows that agree on
/// them give the same value.
pub proof fn lemma_reads_only_mentioned(
    tree: Ast,
    one: Map<Seq<char>, Cell>,
    other: Map<Seq<char>, Cell>,
)
    requires
        forall|n: Seq<char>| #[trigger]
            mentions(tree, n) ==> one.contains_key(n) == other.contains_key(n) && (
            one.contains_key(n) ==> one[n] == other[n]),
    ensures
        eval(tree, one) == eval(tree, other),
    decreases tree,
{
    match tree {
        Node::Number(_) => {},
        Node::Str(_) => {},
        Node::Column(n) => {
            assert(mentions(tree, n));
        },
        Node::Negate(a) => {
            assert forall|n: Seq<char>| #[trigger] mentions(*a, n) implies one.contains_key(n)
                == other.contains_key(n) && (one.contains_key(n) ==> one[n] == other[n]) by {
                assert(mentions(tree, n));
            }
            lemma_reads_only_mentioned(*a, one, other);
        },
        Node::Arith(_, a, b) | Node::Compare(_, a, b) | Node::And(a, b) | Node::Or(a, b) => {
            assert forall|n: Seq<char>| #[trigger] mentions(*a, n) implies one.contains_key(n)
                == other.contains_key(n) && (one.contains_key(n) ==> one[n] == other[n]) by {
                assert(mentions(tree, n));
            }
            assert forall|n: Seq<char>| #[trigger] mentions(*b, n) implies one.contains_key(n)
                == other.contains_key(n) && (one.contains_key(n) ==> one[n] == other[n]) by {
                assert(mentions(tree, n));
            }
            lemma_reads_only_mentioned(*a, one, other);
            lemma_reads_only_mentioned(*b, one, other);
        },
    }
}

} // verus!
