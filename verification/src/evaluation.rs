//! What expressions come to.
use crate::decimal;
use crate::decimal::Dec;
use crate::derivation;
use crate::expr;
use crate::expr::{Fault, Sc, Scalar, Stop};
use crate::grid;
use crate::model::TableModel;
use crate::parser::{ArithOp, Ast, CmpOp, Node};
use crate::rules::DeriveRule;
use crate::text;
use crate::value;
use crate::value::Cell;
use crate::values;
use vstd::prelude::*;

verus! {

/// Division is the inverse of multiplication: where a number that can be written, times
/// the divisor, is the dividend, the quotient has the value of that number. Whatever else
/// comes out misses the dividend, once multiplied by the divisor, by at most half a unit
/// of its last digit times the divisor. Nothing is divided by zero.
pub proof fn lemma_division_inverts_multiplication(
    left: Ast,
    right: Ast,
    row: Map<Seq<char>, Cell>,
    a: Dec,
    b: Dec,
    q: Dec,
)
    requires
        expr::promised_of(Node::Arith(ArithOp::Div, Box::new(left), Box::new(right)), row),
        expr::eval(left, row) == Ok::<Sc, Stop>(Scalar::Number(a)),
        expr::eval(right, row) == Ok::<Sc, Stop>(Scalar::Number(b)),
    ensures
        ({
            let found = expr::eval(
                Node::Arith(ArithOp::Div, Box::new(left), Box::new(right)),
                row,
            );
            &&& b.magnitude == 0 ==> found is Err
            &&& b.magnitude != 0 && q.magnitude < decimal::magnitude_limit() && q.scale <= 28
                && q.signed() * b.signed() * decimal::ten_to(a.scale) == a.signed()
                * decimal::ten_to(q.scale + b.scale) ==> {
                &&& found is Ok
                &&& found->Ok_0 is Number
                &&& found->Ok_0->Number_0.units() == q.units()
            }
            &&& found is Ok ==> {
                let d = found->Ok_0->Number_0;
                let miss = a.signed() * decimal::ten_to(d.scale + b.scale) - d.signed()
                    * b.signed() * decimal::ten_to(a.scale);
                let most = (if b.signed() < 0 {
                    -b.signed()
                } else {
                    b.signed()
                }) * decimal::ten_to(a.scale);
                found->Ok_0 is Number && -most <= 2 * miss <= most
            }
        }),
{
    assert(expr::promised(
        ArithOp::Div,
        a,
        b,
        expr::eval(Node::Arith(ArithOp::Div, Box::new(left), Box::new(right)), row),
    ));
    if b.magnitude != 0 && q.magnitude < decimal::magnitude_limit() && q.scale <= 28 && q.signed()
        * b.signed() * decimal::ten_to(a.scale) == a.signed() * decimal::ten_to(
        q.scale + b.scale,
    ) {
        assert(decimal::exact_quotient(a, b, q));
    }
}

/// Sums, differences and products of numbers with few enough digits are exact.
pub proof fn lemma_arithmetic_is_exact(
    left: Ast,
    right: Ast,
    row: Map<Seq<char>, Cell>,
    a: Dec,
    b: Dec,
    op: ArithOp,
)
    requires
        expr::promised_of(Node::Arith(op, Box::new(left), Box::new(right)), row),
        expr::eval(left, row) == Ok::<Sc, Stop>(Scalar::Number(a)),
        expr::eval(right, row) == Ok::<Sc, Stop>(Scalar::Number(b)),
        a.scale == b.scale,
        2 * a.scale <= 28,
        a.magnitude * b.magnitude < decimal::magnitude_limit(),
        a.magnitude + b.magnitude < decimal::magnitude_limit(),
    ensures
        ({
            let found = expr::eval(Node::Arith(op, Box::new(left), Box::new(right)), row);
            &&& op is Add ==> found is Ok && found->Ok_0 is Number
                && found->Ok_0->Number_0.signed() == a.signed() + b.signed()
                && found->Ok_0->Number_0.scale == a.scale
            &&& op is Sub ==> found is Ok && found->Ok_0 is Number
                && found->Ok_0->Number_0.signed() == a.signed() - b.signed()
                && found->Ok_0->Number_0.scale == a.scale
            &&& op is Mul ==> found is Ok && found->Ok_0 is Number
                && found->Ok_0->Number_0.signed() == a.signed() * b.signed()
        }),
{
    assert(expr::promised(
        op,
        a,
        b,
        expr::eval(Node::Arith(op, Box::new(left), Box::new(right)), row),
    ));
}

/// What is left of a division is less than the divisor, has the sign of the dividend, and
/// taken from the dividend leaves a multiple of the divisor.
pub proof fn lemma_remainder_is_what_is_left(
    left: Ast,
    right: Ast,
    row: Map<Seq<char>, Cell>,
    a: Dec,
    b: Dec,
)
    requires
        expr::promised_of(Node::Arith(ArithOp::Rem, Box::new(left), Box::new(right)), row),
        expr::eval(left, row) == Ok::<Sc, Stop>(Scalar::Number(a)),
        expr::eval(right, row) == Ok::<Sc, Stop>(Scalar::Number(b)),
        b.magnitude != 0,
    ensures
        ({
            let found = expr::eval(
                Node::Arith(ArithOp::Rem, Box::new(left), Box::new(right)),
                row,
            );
            let r = found->Ok_0->Number_0.units();
            let by = if b.units() < 0 {
                -b.units()
            } else {
                b.units()
            };
            &&& found is Ok
            &&& found->Ok_0 is Number
            &&& -by < r < by
            &&& (a.units() - r) % by == 0
            &&& a.units() >= 0 ==> r >= 0
            &&& a.units() <= 0 ==> r <= 0
        }),
{
    assert(expr::promised(
        ArithOp::Rem,
        a,
        b,
        expr::eval(Node::Arith(ArithOp::Rem, Box::new(left), Box::new(right)), row),
    ));
}

/// Numbers compare by their values.
pub proof fn lemma_numbers_compare_by_value(
    left: Ast,
    right: Ast,
    row: Map<Seq<char>, Cell>,
    a: Dec,
    b: Dec,
)
    requires
        expr::eval(left, row) == Ok::<Sc, Stop>(Scalar::Number(a)),
        expr::eval(right, row) == Ok::<Sc, Stop>(Scalar::Number(b)),
    ensures
        ({
            let x = a.units();
            let y = b.units();
            let says = |op: CmpOp, v: bool|
                expr::eval(Node::Compare(op, Box::new(left), Box::new(right)), row) == Ok::<
                    Sc,
                    Stop,
                >(Scalar::Bool(v));
            &&& says(CmpOp::Eq, x == y)
            &&& says(CmpOp::Ne, x != y)
            &&& says(CmpOp::Lt, x < y)
            &&& says(CmpOp::Le, x <= y)
            &&& says(CmpOp::Gt, x > y)
            &&& says(CmpOp::Ge, x >= y)
        }),
{
}

/// One text stands before another where the two agree up to some place at which the first
/// ends, or has the smaller character.
pub open spec fn lexical(a: Seq<char>, b: Seq<char>) -> bool {
    exists|k: int| #[trigger] parts_at(a, b, k)
}

/// Two texts agree up to a place at which the first ends, or has the smaller character.
pub open spec fn parts_at(a: Seq<char>, b: Seq<char>, k: int) -> bool {
    &&& 0 <= k <= a.len()
    &&& k < b.len()
    &&& a.take(k) == b.take(k)
    &&& k == a.len() || (k < a.len() && (a[k] as int) < (b[k] as int))
}

/// The order of texts is that of a dictionary.
pub proof fn lemma_before_is_lexical(a: Seq<char>, b: Seq<char>)
    ensures
        text::before(a, b) <==> lexical(a, b),
    decreases b.len(),
{
    if b.len() > 0 {
        if a.len() == 0 {
            assert(a.take(0) =~= b.take(0));
            assert(parts_at(a, b, 0));
        } else {
            let x = a.skip(1);
            let y = b.skip(1);
            lemma_before_is_lexical(x, y);
            if (a[0] as int) < (b[0] as int) {
                assert(a.take(0) =~= b.take(0));
                assert(parts_at(a, b, 0));
            } else if a[0] == b[0] && text::before(x, y) {
                let k = choose|k: int| parts_at(x, y, k);
                assert(a.take(k + 1) =~= seq![a[0]] + x.take(k));
                assert(b.take(k + 1) =~= seq![b[0]] + y.take(k));
                assert(parts_at(a, b, k + 1));
            }
            if lexical(a, b) {
                let k = choose|k: int| parts_at(a, b, k);
                if k > 0 {
                    assert(a.take(k)[0] == b.take(k)[0]);
                    assert(x.take(k - 1) =~= a.take(k).skip(1));
                    assert(y.take(k - 1) =~= b.take(k).skip(1));
                    assert(parts_at(x, y, k - 1));
                }
            }
        }
    } else {
        assert(!lexical(a, b));
    }
}

/// Texts compare as they stand in a dictionary.
pub proof fn lemma_texts_compare_by_their_characters(
    left: Ast,
    right: Ast,
    row: Map<Seq<char>, Cell>,
    a: Seq<char>,
    b: Seq<char>,
)
    requires
        expr::eval(left, row) == Ok::<Sc, Stop>(Scalar::Str(a)),
        expr::eval(right, row) == Ok::<Sc, Stop>(Scalar::Str(b)),
    ensures
        ({
            let says = |op: CmpOp, v: bool|
                expr::eval(Node::Compare(op, Box::new(left), Box::new(right)), row) == Ok::<
                    Sc,
                    Stop,
                >(Scalar::Bool(v));
            &&& says(CmpOp::Eq, a == b)
            &&& says(CmpOp::Ne, a != b)
            &&& says(CmpOp::Lt, lexical(a, b))
            &&& says(CmpOp::Le, lexical(a, b) || a == b)
            &&& says(CmpOp::Gt, lexical(b, a))
            &&& says(CmpOp::Ge, lexical(b, a) || a == b)
        }),
{
    lemma_before_is_lexical(a, b);
    lemma_before_is_lexical(b, a);
    text::lemma_before_total(a, b);
}

/// Of two truth values, `&&` gives whether both are true and `||` whether one is; two
/// truth values are only ever the same or not.
pub proof fn lemma_truth_values(left: Ast, right: Ast, row: Map<Seq<char>, Cell>, a: bool, b: bool)
    requires
        expr::eval(left, row) == Ok::<Sc, Stop>(Scalar::Bool(a)),
        expr::eval(right, row) == Ok::<Sc, Stop>(Scalar::Bool(b)),
    ensures
        expr::eval(Node::And(Box::new(left), Box::new(right)), row) == Ok::<Sc, Stop>(
            Scalar::Bool(a && b),
        ),
        expr::eval(Node::Or(Box::new(left), Box::new(right)), row) == Ok::<Sc, Stop>(
            Scalar::Bool(a || b),
        ),
        expr::eval(Node::Compare(CmpOp::Eq, Box::new(left), Box::new(right)), row) == Ok::<
            Sc,
            Stop,
        >(Scalar::Bool(a == b)),
        expr::eval(Node::Compare(CmpOp::Ne, Box::new(left), Box::new(right)), row) == Ok::<
            Sc,
            Stop,
        >(Scalar::Bool(a != b)),
        expr::eval(Node::Compare(CmpOp::Lt, Box::new(left), Box::new(right)), row) is Err,
        expr::eval(Node::Compare(CmpOp::Ge, Box::new(left), Box::new(right)), row) is Err,
{
}

/// A minus sign turns a number into the one as far on the other side of zero, and two of
/// them leave it as it is; what is no number has no opposite.
pub proof fn lemma_opposites(inner: Ast, row: Map<Seq<char>, Cell>, d: Dec)
    ensures
        expr::eval(inner, row) == Ok::<Sc, Stop>(Scalar::Number(d)) ==> {
            let once = expr::eval(Node::Negate(Box::new(inner)), row);
            &&& once is Ok
            &&& once->Ok_0 is Number
            &&& once->Ok_0->Number_0.units() == -d.units()
            &&& expr::eval(Node::Negate(Box::new(Node::Negate(Box::new(inner)))), row)
                == expr::eval(inner, row)
        },
        expr::eval(inner, row) matches Ok(Scalar::Str(_)) ==> expr::eval(
            Node::Negate(Box::new(inner)),
            row,
        ) is Err,
        expr::eval(inner, row) matches Ok(Scalar::Bool(_)) ==> expr::eval(
            Node::Negate(Box::new(inner)),
            row,
        ) is Err,
{
    if expr::eval(inner, row) == Ok::<Sc, Stop>(Scalar::Number(d)) {
        let once = Node::Negate(Box::new(inner));
        assert(expr::eval(once, row) == Ok::<Sc, Stop>(Scalar::Number(d.negated())));
        assert(d.negated().signed() == -d.signed());
        let p = decimal::ten_to((28 - d.scale) as nat) as int;
        assert((-d.signed()) * p == -(d.signed() * p)) by (nonlinear_arith);
        assert(d.negated().negated() == d);
    }
}

/// A column stands for the last cell of its name: a text for itself, NULL for NULL, a
/// truth value for itself. A column that the row lacks is NULL.
pub proof fn lemma_columns_stand_for_their_cells(
    name: Seq<char>,
    columns: Seq<Seq<char>>,
    row: Seq<Cell>,
    c: int,
)
    requires
        columns.len() == row.len(),
    ensures
        ({
            let found = expr::eval(Node::Column(name), value::table_cells(columns, row));
            &&& 0 <= c < columns.len() && columns[c] == name && (forall|j: int|
                c < j < columns.len() ==> #[trigger] columns[j] != name) ==> {
                &&& row[c] is Null ==> found == Ok::<Sc, Stop>(Scalar::Null)
                &&& row[c] is Text ==> found == Ok::<Sc, Stop>(Scalar::Str(row[c]->Text_0))
                &&& row[c] is Bool ==> found == Ok::<Sc, Stop>(Scalar::Bool(row[c]->Bool_0))
                &&& row[c] is Number && decimal::parsed(row[c]->Number_0) is Some ==> found == Ok::<
                    Sc,
                    Stop,
                >(Scalar::Number(decimal::parsed(row[c]->Number_0)->0))
                &&& row[c] is Array || row[c] is Object ==> found is Err
            }
            &&& (forall|j: int| 0 <= j < columns.len() ==> #[trigger] columns[j] != name)
                ==> found == Ok::<Sc, Stop>(Scalar::Null)
        }),
{
    value::lemma_last_place(columns, name);
    let at = value::last_place(columns, name);
    if 0 <= c < columns.len() && columns[c] == name && (forall|j: int|
        c < j < columns.len() ==> #[trigger] columns[j] != name) {
        assert(at == c);
    }
}

/// A number and a text have no common order, and arithmetic takes numbers only.
pub proof fn lemma_kinds_do_not_mix(
    left: Ast,
    right: Ast,
    row: Map<Seq<char>, Cell>,
    op: ArithOp,
    by: CmpOp,
    d: Dec,
    s: Seq<char>,
)
    requires
        expr::eval(left, row) == Ok::<Sc, Stop>(Scalar::Number(d)),
        expr::eval(right, row) == Ok::<Sc, Stop>(Scalar::Str(s)),
    ensures
        expr::eval(Node::Compare(by, Box::new(left), Box::new(right)), row) is Err,
        expr::eval(Node::Compare(by, Box::new(right), Box::new(left)), row) is Err,
        expr::eval(Node::Arith(op, Box::new(left), Box::new(right)), row) is Err,
        expr::eval(Node::Arith(op, Box::new(right), Box::new(left)), row) is Err,
        expr::eval(Node::And(Box::new(left), Box::new(right)), row) is Err,
        expr::eval(Node::Or(Box::new(right), Box::new(left)), row) is Err,
{
}

/// A computed column is written with the digits that its model has: as whole numbers where
/// it is rounded to none, else to its scale; and into the column of its name.
pub proof fn lemma_computed_columns_keep_their_digits(
    rules: Seq<DeriveRule>,
    table: TableModel,
    columns: Seq<Seq<char>>,
    name: Seq<char>,
    k: int,
)
    requires
        0 <= k < table.columns@.len(),
        table.columns@[k].0@ == name,
        forall|j: int| 0 <= j < k ==> (#[trigger] table.columns@[j]).0@ != name,
        columns.contains(name),
    ensures
        ({
            let step = derivation::step_of(rules, table, columns, name);
            let m = table.columns@[k].1;
            &&& step.whole == (m.rounding == Some(0u32))
            &&& step.places == m.decimal_scale
            &&& 0 <= step.index < columns.len()
            &&& columns[step.index] == name
            &&& step.column == name
        }),
{
    values::lemma_model_of(table.columns@, name, k);
    value::lemma_last_place(columns, name);
}

/// A computed column is NULL where its expression is, holds a whole number at most half a
/// unit away where it holds those, and a number on its grid otherwise.
pub proof fn lemma_computed_cells(
    step: derivation::Step,
    columns: Seq<Seq<char>>,
    row: Seq<Cell>,
    d: Dec,
)
    requires
        d.scale <= 28,
    ensures
        ({
            let found = expr::eval(step.tree, value::table_cells(columns, row));
            let cell = derivation::step_cell(step, columns, row);
            &&& found == Ok::<Sc, Stop>(Scalar::Null) ==> cell == Ok::<Cell, Seq<char>>(Cell::Null)
            &&& found is Err && found != Err::<Sc, Stop>(Stop::Fault(Fault::NullResult)) ==> cell is Err
            &&& found matches Ok(Scalar::Str(_)) ==> cell is Err
            &&& found matches Ok(Scalar::Bool(_)) ==> cell is Err
            &&& found == Ok::<Sc, Stop>(Scalar::Number(d)) && step.whole && cell is Ok
                ==> exists|n: int|
                #![trigger text::integer_text(n)]
                cell->Ok_0 == Cell::Number(text::integer_text(n)) && -decimal::ten_to(28) <= 2 * (n
                    * decimal::ten_to(28) - d.units()) <= decimal::ten_to(28)
            &&& found == Ok::<Sc, Stop>(Scalar::Number(d)) && !step.whole && step.places is None
                && decimal::double_json(d) is Some ==> cell == Ok::<Cell, Seq<char>>(
                Cell::Number(decimal::double_json(d)->0),
            )
            &&& found == Ok::<Sc, Stop>(Scalar::Number(d)) && !step.whole && step.places is Some
                && decimal::double_json(d) is Some ==> cell == Ok::<Cell, Seq<char>>(
                Cell::Number(
                    grid::on_grid(
                        decimal::double_json(d)->0,
                        step.places->0,
                        decimal::Rounding::HalfAway,
                    ),
                ),
            )
        }),
{
    let found = expr::eval(step.tree, value::table_cells(columns, row));
    if found == Ok::<Sc, Stop>(Scalar::Number(d)) && step.whole {
        derivation::lemma_whole_is_nearest(d);
        let n = derivation::whole_of(d).signed();
        assert(text::integer_text(n) == text::integer_text(n));
    }
}

/// A number halfway between two whole ones is written as the even one of them, and one
/// halfway between two points of a grid as the one further from zero.
pub proof fn lemma_halves(d: Dec, q: nat, places: nat)
    requires
        d.magnitude > 0,
    ensures
        2 * d.magnitude == (2 * q + 1) * decimal::ten_to(d.scale) ==> {
            let n = derivation::whole_of(d).magnitude;
            n % 2 == 0 && (n == q || n == q + 1)
        },
        d.scale > places && 2 * d.magnitude == (2 * q + 1) * decimal::ten_to(
            (d.scale - places) as nat,
        ) ==> decimal::rounded_dec(d, places, decimal::Rounding::HalfAway).magnitude == q + 1,
{
    if 2 * d.magnitude == (2 * q + 1) * decimal::ten_to(d.scale) {
        lemma_half(d.magnitude, q, decimal::ten_to(d.scale));
    }
    if d.scale > places && 2 * d.magnitude == (2 * q + 1) * decimal::ten_to(
        (d.scale - places) as nat,
    ) {
        lemma_half(d.magnitude, q, decimal::ten_to((d.scale - places) as nat));
    }
}

proof fn lemma_half(m: nat, q: nat, p: nat)
    requires
        m > 0,
        2 * m == (2 * q + 1) * p,
    ensures
        m / p == q,
        2 * (m % p) == p,
{
    assert(p > 0) by (nonlinear_arith)
        requires
            m > 0,
            2 * m == (2 * q + 1) * p,
    ;
    let rest = m - q * p;
    assert(2 * rest == p) by (nonlinear_arith)
        requires
            rest == m - q * p,
            2 * m == (2 * q + 1) * p,
    ;
    vstd::arithmetic::div_mod::lemma_fundamental_div_mod_converse(
        m as int,
        p as int,
        q as int,
        rest,
    );
}

} // verus!
