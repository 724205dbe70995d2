use synth::decimal::Decimal;
use synth::expr::{compare, Expr, ExprError, Scalar};
use synth::parser::CmpOp;
use synth::value::{TableRow, Value};

fn names(list: &[&str]) -> Vec<String> {
    list.iter().map(|n| n.to_string()).collect()
}

fn whole(v: i64) -> Value {
    Value::Number(v.to_string())
}

fn text(s: &str) -> Value {
    Value::Text(s.to_string())
}

fn dec(text: &str) -> Decimal {
    Decimal::parse(text).expect("literal must parse as decimal")
}

fn split(pairs: &[(&str, Value)]) -> (Vec<String>, Vec<Value>) {
    (
        pairs.iter().map(|(key, _)| key.to_string()).collect(),
        pairs.iter().map(|(_, value)| value.copy()).collect(),
    )
}

fn eval_decimal(src: &str, pairs: &[(&str, Value)]) -> Result<Decimal, ExprError> {
    let (columns, row) = split(pairs);
    let row = TableRow { columns: &columns, row: &row };
    Expr::parse(src)
        .expect("expression must parse")
        .try_eval_decimal(&row)
        .expect("no overflow")
}

fn eval_bool(src: &str, pairs: &[(&str, Value)]) -> Result<bool, ExprError> {
    let (columns, row) = split(pairs);
    let row = TableRow { columns: &columns, row: &row };
    Expr::parse(src)
        .expect("expression must parse")
        .try_eval_bool(&row)
        .expect("no overflow")
}

fn refused(src: &str) -> ExprError {
    match Expr::parse(src) {
        Ok(_) => panic!("must reject {src}"),
        Err(e) => e,
    }
}

#[test]
fn should_evaluate_decimal_without_binary_tail() {
    assert_eq!(eval_decimal("0.1 * 3", &[]).expect("eval"), dec("0.3"));
    assert_ne!(
        eval_decimal("0.1 * 3", &[]).expect("eval"),
        dec("0.30000004")
    );
    assert_eq!(
        eval_decimal("price * 1.005", &[("price", whole(1000))]).expect("eval"),
        dec("1005.000")
    );
}

#[test]
fn should_reject_function_call_node() {
    let err = refused("min(price, qty)");
    match &err {
        ExprError::Disallowed { construct, detail } => {
            assert_eq!(*construct, "function call");
            assert_eq!(detail, "min");
        }
        other => panic!("expected disallowed node, got {other:?}"),
    }
    assert!(err.to_string().contains("min"), "message: {err:?}");
}

#[test]
fn should_reject_attribute_access_node() {
    let err = refused("price.__class__");
    match &err {
        ExprError::Disallowed { construct, detail } => {
            assert_eq!(*construct, "attribute access");
            assert_eq!(detail, "price");
        }
        other => panic!("expected disallowed node, got {other:?}"),
    }
    assert!(err.to_string().contains("price"), "message: {err:?}");
}

#[test]
fn should_reject_empty_parenthesized_attribute_access() {
    let err = refused("().__class__");
    assert!(
        matches!(err, ExprError::Syntax { .. }),
        "expected syntax error, got {err:?}"
    );
}

#[test]
fn should_reject_subscript_node() {
    let err = refused("cols[0]");
    match &err {
        ExprError::Disallowed { construct, detail } => {
            assert_eq!(*construct, "subscript access");
            assert_eq!(detail, "cols");
        }
        other => panic!("expected disallowed node, got {other:?}"),
    }
    assert!(err.to_string().contains("cols"), "message: {err:?}");
}

#[test]
fn should_reject_unknown_column_at_load_time() {
    let expr = Expr::parse("ghost + 1").expect("parse");
    let err = expr
        .check_columns(&names(&["price", "qty"]))
        .expect_err("unknown column must fail validation");
    match &err {
        ExprError::UnknownColumn { name } => assert_eq!(name, "ghost"),
        other => panic!("expected unknown column, got {other:?}"),
    }
    assert!(err.to_string().contains("ghost"), "message: {err:?}");
    let ok = Expr::parse("price * qty").expect("parse");
    assert!(ok.check_columns(&names(&["price", "qty"])).is_ok());
}

#[test]
fn should_report_referenced_columns() {
    let expr = Expr::parse("price * qty + price").expect("parse");
    assert_eq!(
        expr.referenced_columns(),
        names(&["price", "qty"]),
        "duplicates collapse into one entry"
    );
}

#[test]
fn should_report_division_by_zero_as_error() {
    let err = eval_decimal("price / qty", &[("price", whole(10)), ("qty", whole(0))])
        .expect_err("division by zero must be an error, not a panic");
    assert!(matches!(err, ExprError::DivisionByZero { .. }));
    assert!(
        err.to_string().contains("division by zero"),
        "message: {err:?}"
    );
    let err = eval_decimal("price % qty", &[("price", whole(10)), ("qty", whole(0))])
        .expect_err("modulo by zero must be an error");
    assert!(matches!(err, ExprError::RemainderByZero { .. }));
    assert!(
        err.to_string().contains("remainder by zero"),
        "message: {err:?}"
    );
}

#[test]
fn should_treat_null_comparison_as_false() {
    assert!(!eval_bool("qty > 5", &[("qty", Value::Null)]).expect("eval"));
    assert!(!eval_bool("qty == 5", &[("qty", Value::Null)]).expect("eval"));
    assert!(!eval_bool("qty != 5", &[("qty", Value::Null)]).expect("eval"));
    assert!(!eval_bool("status == 'A'", &[("status", Value::Null)]).expect("eval"));
    assert!(!eval_bool("qty == 5", &[]).expect("eval"));
}

#[test]
fn should_reject_mixed_type_comparison() {
    let err = eval_bool("name == 1", &[("name", text("abc"))]).expect_err("must reject");
    match &err {
        ExprError::MixedTypeComparison { left, right } => {
            assert_eq!(*left, "string");
            assert_eq!(*right, "number");
        }
        other => panic!("expected mixed type comparison, got {other:?}"),
    }
    assert!(err.to_string().contains("string"), "message: {err:?}");
    assert!(err.to_string().contains("number"), "message: {err:?}");
}

#[test]
fn should_honor_operator_precedence() {
    assert_eq!(eval_decimal("1 + 2 * 3", &[]).expect("eval"), dec("7"));
    assert_eq!(eval_decimal("(1 + 2) * 3", &[]).expect("eval"), dec("9"));
    assert_eq!(eval_decimal("10 - 2 - 3", &[]).expect("eval"), dec("5"));
    assert_eq!(eval_decimal("-2 * 3", &[]).expect("eval"), dec("-6"));
    assert_eq!(eval_decimal("8 % 3", &[]).expect("eval"), dec("2"));
    assert_eq!(
        eval_decimal("price - qty * 2", &[("price", whole(10)), ("qty", whole(3))]).expect("eval"),
        dec("4")
    );
}

#[test]
fn should_evaluate_logical_operators_for_predicates() {
    let pairs = [("status", text("A")), ("qty", whole(5))];
    assert!(eval_bool("status == 'A' && qty > 2", &pairs).expect("eval"));
    assert!(eval_bool("status == 'A' || qty > 100", &pairs).expect("eval"));
    assert!(!eval_bool("status == 'A' && qty > 100", &pairs).expect("eval"));
    assert!(!eval_bool("status != 'A'", &pairs).expect("eval"));
    assert!(eval_bool("status == 'A' || status == 'B' && qty > 100", &pairs).expect("eval"));
    assert!(!eval_bool("status == 'B' || status == 'C' && qty > 100", &pairs).expect("eval"));
}

#[test]
fn should_propagate_null_through_arithmetic() {
    let err = eval_decimal("price * qty", &[("price", whole(2)), ("qty", Value::Null)])
        .expect_err("NULL result cannot be a decimal");
    assert!(matches!(err, ExprError::NullResult));
    assert!(
        !eval_bool("price * qty == 0", &[("price", whole(2)), ("qty", Value::Null)]).expect("eval")
    );
}

#[test]
fn should_reject_arithmetic_on_non_numbers() {
    let err = eval_decimal("name + 1", &[("name", text("abc"))]).expect_err("must reject");
    match &err {
        ExprError::TypeMismatch { op, kind } => {
            assert_eq!(*op, "+");
            assert_eq!(*kind, "string");
        }
        other => panic!("expected type mismatch, got {other:?}"),
    }
    let err = eval_decimal("-'abc'", &[]).expect_err("must reject");
    assert!(matches!(err, ExprError::TypeMismatch { op: "negate", .. }));
}

#[test]
fn should_reject_non_boolean_predicate() {
    let err = eval_bool("qty + 1", &[("qty", whole(1))]).expect_err("must reject");
    match &err {
        ExprError::NonBooleanPredicate { found } => assert_eq!(*found, "number"),
        other => panic!("expected non boolean predicate, got {other:?}"),
    }
    let err = eval_bool("status && true", &[("status", text("A"))]).expect_err("must reject");
    assert!(matches!(err, ExprError::NonBooleanPredicate { .. }));
}

#[test]
fn should_report_syntax_errors_with_position() {
    let err = refused("1 + 2 foo");
    match &err {
        ExprError::Syntax { position, .. } => assert_eq!(*position, 6),
        other => panic!("expected syntax error, got {other:?}"),
    }
    let err = refused("name == 'abc");
    assert!(err.to_string().contains("unterminated"), "message: {err:?}");
    let err = refused("");
    assert!(
        err.to_string().contains("end of expression"),
        "message: {err:?}"
    );
    let err = refused("price = 1");
    assert!(err.to_string().contains("=="), "message: {err:?}");
}

#[test]
fn the_left_operand_may_decide_alone() {
    assert!(!eval_bool("1 == 2 && name + 1 == 0", &[("name", text("abc"))]).expect("eval"));
    assert!(eval_bool("1 == 1 || name + 1 == 0", &[("name", text("abc"))]).expect("eval"));
}

#[test]
fn a_number_beyond_the_arithmetic_gives_no_result() {
    let big = "79228162514264337593543950335";
    let (columns, row) = split(&[("n", Value::Number(big.to_string()))]);
    let row = TableRow { columns: &columns, row: &row };
    let expr = Expr::parse("n * n").expect("parse");
    assert!(!expr.fits(&row));
    assert!(expr.try_eval_decimal(&row).is_none());
    assert!(Expr::parse("n * n == 1").expect("parse").try_eval_bool(&row).is_none());
}

#[test]
fn columns_that_are_not_mentioned_do_not_matter() {
    let one = eval_decimal("a + 1", &[("a", whole(1)), ("b", text("x"))]).expect("eval");
    let other = eval_decimal("a + 1", &[("b", Value::Null), ("a", whole(1))]).expect("eval");
    assert_eq!(one, other);
}

#[test]
fn comparisons_follow_the_order_of_numbers_and_texts() {
    assert!(eval_bool("2.50 == 2.5", &[]).expect("eval"));
    assert!(eval_bool("9 < 10", &[]).expect("eval"));
    assert!(!eval_bool("'9' < '10'", &[]).expect("eval"));
    assert!(eval_bool("'a' <= 'a' && 'b' >= 'a' && 'b' > 'a'", &[]).expect("eval"));
}

#[test]
fn decimals_are_read_and_turned_around() {
    assert_eq!(dec("1.50").negate(), dec("-1.50"));
    assert!(Decimal::parse("4x").is_none());
}

#[test]
fn exactly_one_order_holds_of_two_numbers_and_of_two_texts() {
    let pairs = [
        (whole(1), whole(2)),
        (whole(2), whole(2)),
        (whole(3), whole(2)),
        (text("a"), text("b")),
        (text("b"), text("b")),
        (text("c"), text("b")),
    ];
    for (a, b) in &pairs {
        let holds =
            |op: &str| eval_bool(&format!("a {op} b"), &[("a", a.copy()), ("b", b.copy())]).expect("eval");
        let [less, same, more] = ["<", "==", ">"].map(holds);
        assert_eq!([less, same, more].iter().filter(|h| **h).count(), 1, "{a:?} {b:?}");
        assert_eq!([holds(">="), holds("!="), holds("<=")], [!less, !same, !more], "{a:?} {b:?}");
    }
}

#[test]
fn a_number_and_a_text_do_not_compare() {
    for op in ["==", "!=", "<", "<=", ">", ">="] {
        let ask = |a: Value, b: Value| eval_bool(&format!("a {op} b"), &[("a", a), ("b", b)]);
        assert_eq!(
            ask(whole(1), text("x")).unwrap_err().to_string(),
            "cannot compare number with string in expression"
        );
        assert_eq!(
            ask(text("x"), whole(1)).unwrap_err().to_string(),
            "cannot compare string with number in expression"
        );
        assert_eq!(ask(Value::Null, whole(1)), Ok(false));
        assert_eq!(ask(text("x"), Value::Null), Ok(false));
    }
}

#[test]
fn values_compare_by_their_kinds() {
    let ops = [CmpOp::Eq, CmpOp::Ne, CmpOp::Lt, CmpOp::Le, CmpOp::Gt, CmpOp::Ge];
    let one = || Scalar::Number(dec("1"));
    let word = || Scalar::Str("x".to_string());
    let holds = |op, a, b| match compare(op, a, b) {
        Ok(Scalar::Bool(b)) => b,
        _ => panic!("a comparison must be a boolean"),
    };
    for op in ops {
        assert!(!holds(op, Scalar::Null, one()));
        assert!(!holds(op, word(), Scalar::Null));
        assert!(matches!(
            compare(op, one(), word()),
            Err(ExprError::MixedTypeComparison { left: "number", right: "string" })
        ));
        assert!(matches!(
            compare(op, word(), one()),
            Err(ExprError::MixedTypeComparison { left: "string", right: "number" })
        ));
    }
    let same = || Scalar::Number(dec("1.00"));
    assert!(holds(CmpOp::Eq, one(), same()) && !holds(CmpOp::Ne, one(), same()));
    assert!(holds(CmpOp::Le, one(), same()) && holds(CmpOp::Ge, one(), same()));
    assert!(!holds(CmpOp::Lt, one(), same()) && !holds(CmpOp::Gt, one(), same()));
}
