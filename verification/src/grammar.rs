//! What holds of every expression that parses.
use crate::lexer;
use crate::lexer::{Placed, Tok, Token};
use crate::parser;
use crate::parser::{ArithOp, Ast, CmpOp, Node, Parse};
use crate::text;
use vstd::prelude::*;

verus! {

/// Brackets, commas and dots never stand in an expression, and nothing that
/// opens a call, a subscript or an attribute stands behind a name or a group.
pub open spec fn clean(ts: Seq<Placed>, from: int, to: int) -> bool {
    forall|i: int| from <= i < to ==> #[trigger] clean_at(ts, i)
}

pub open spec fn clean_at(ts: Seq<Placed>, i: int) -> bool {
    let t = ts[i].0;
    &&& t !is LBracket
    &&& t !is RBracket
    &&& t !is Comma
    &&& t !is Dot
    &&& (t is Ident || t is RParen) ==> parser::suffix(parser::tok(ts, i + 1)) is None
}

spec fn good(ts: Seq<Placed>, pos: int, r: Parse) -> bool {
    r matches Ok((_, next)) ==> parser::ahead(ts, pos, next) && clean(ts, pos, next)
}

proof fn lemma_or_clean(ts: Seq<Placed>, pos: int, end: nat)
    requires
        0 <= pos <= ts.len(),
    ensures
        good(ts, pos, parser::parse_or(ts, pos, end)),
    decreases ts.len() - pos, 12int,
{
    lemma_and_clean(ts, pos, end);
    if let Ok((left, next)) = parser::parse_and(ts, pos, end) {
        lemma_or_rest_clean(ts, pos, next, end, left);
    }
}

proof fn lemma_or_rest_clean(ts: Seq<Placed>, from: int, pos: int, end: nat, left: Ast)
    requires
        0 <= from,
        parser::ahead(ts, from, pos),
        clean(ts, from, pos),
    ensures
        good(ts, from, parser::parse_or_rest(ts, pos, end, left)),
    decreases ts.len() - pos, 11int,
{
    if parser::tok(ts, pos) == Some(Tok::OrOr) {
        lemma_and_clean(ts, pos + 1, end);
        if let Ok((right, next)) = parser::parse_and(ts, pos + 1, end) {
            assert(clean_at(ts, pos));
            assert forall|i: int| from <= i < next implies #[trigger] clean_at(ts, i) by {}
            lemma_or_rest_clean(
                ts,
                from,
                next,
                end,
                Node::Or(Box::new(left), Box::new(right)),
            );
        }
    }
}

proof fn lemma_and_clean(ts: Seq<Placed>, pos: int, end: nat)
    requires
        0 <= pos <= ts.len(),
    ensures
        good(ts, pos, parser::parse_and(ts, pos, end)),
    decreases ts.len() - pos, 10int,
{
    lemma_relation_clean(ts, pos, end);
    if let Ok((left, next)) = parser::parse_relation(ts, pos, end) {
        lemma_and_rest_clean(ts, pos, next, end, left);
    }
}

proof fn lemma_and_rest_clean(ts: Seq<Placed>, from: int, pos: int, end: nat, left: Ast)
    requires
        0 <= from,
        parser::ahead(ts, from, pos),
        clean(ts, from, pos),
    ensures
        good(ts, from, parser::parse_and_rest(ts, pos, end, left)),
    decreases ts.len() - pos, 9int,
{
    if parser::tok(ts, pos) == Some(Tok::AndAnd) {
        lemma_relation_clean(ts, pos + 1, end);
        if let Ok((right, next)) = parser::parse_relation(ts, pos + 1, end) {
            assert(clean_at(ts, pos));
            assert forall|i: int| from <= i < next implies #[trigger] clean_at(ts, i) by {}
            lemma_and_rest_clean(
                ts,
                from,
                next,
                end,
                Node::And(Box::new(left), Box::new(right)),
            );
        }
    }
}

proof fn lemma_relation_clean(ts: Seq<Placed>, pos: int, end: nat)
    requires
        0 <= pos <= ts.len(),
    ensures
        good(ts, pos, parser::parse_relation(ts, pos, end)),
    decreases ts.len() - pos, 8int,
{
    lemma_add_clean(ts, pos, end);
    if let Ok((left, next)) = parser::parse_add(ts, pos, end) {
        if parser::relation_op(parser::tok(ts, next)) is Some {
            lemma_add_clean(ts, next + 1, end);
            if let Ok((right, behind)) = parser::parse_add(ts, next + 1, end) {
                assert(clean_at(ts, next));
                assert forall|i: int| pos <= i < behind implies #[trigger] clean_at(ts, i) by {}
            }
        }
    }
}

proof fn lemma_add_clean(ts: Seq<Placed>, pos: int, end: nat)
    requires
        0 <= pos <= ts.len(),
    ensures
        good(ts, pos, parser::parse_add(ts, pos, end)),
    decreases ts.len() - pos, 7int,
{
    lemma_mul_clean(ts, pos, end);
    if let Ok((left, next)) = parser::parse_mul(ts, pos, end) {
        lemma_add_rest_clean(ts, pos, next, end, left);
    }
}

proof fn lemma_add_rest_clean(ts: Seq<Placed>, from: int, pos: int, end: nat, left: Ast)
    requires
        0 <= from,
        parser::ahead(ts, from, pos),
        clean(ts, from, pos),
    ensures
        good(ts, from, parser::parse_add_rest(ts, pos, end, left)),
    decreases ts.len() - pos, 6int,
{
    if let Some(op) = parser::add_op(parser::tok(ts, pos)) {
        lemma_mul_clean(ts, pos + 1, end);
        if let Ok((right, next)) = parser::parse_mul(ts, pos + 1, end) {
            assert(clean_at(ts, pos));
            assert forall|i: int| from <= i < next implies #[trigger] clean_at(ts, i) by {}
            lemma_add_rest_clean(
                ts,
                from,
                next,
                end,
                Node::Arith(op, Box::new(left), Box::new(right)),
            );
        }
    }
}

proof fn lemma_mul_clean(ts: Seq<Placed>, pos: int, end: nat)
    requires
        0 <= pos <= ts.len(),
    ensures
        good(ts, pos, parser::parse_mul(ts, pos, end)),
    decreases ts.len() - pos, 5int,
{
    lemma_unary_clean(ts, pos, end);
    if let Ok((left, next)) = parser::parse_unary(ts, pos, end) {
        lemma_mul_rest_clean(ts, pos, next, end, left);
    }
}

proof fn lemma_mul_rest_clean(ts: Seq<Placed>, from: int, pos: int, end: nat, left: Ast)
    requires
        0 <= from,
        parser::ahead(ts, from, pos),
        clean(ts, from, pos),
    ensures
        good(ts, from, parser::parse_mul_rest(ts, pos, end, left)),
    decreases ts.len() - pos, 4int,
{
    if let Some(op) = parser::mul_op(parser::tok(ts, pos)) {
        lemma_unary_clean(ts, pos + 1, end);
        if let Ok((right, next)) = parser::parse_unary(ts, pos + 1, end) {
            assert(clean_at(ts, pos));
            assert forall|i: int| from <= i < next implies #[trigger] clean_at(ts, i) by {}
            lemma_mul_rest_clean(
                ts,
                from,
                next,
                end,
                Node::Arith(op, Box::new(left), Box::new(right)),
            );
        }
    }
}

proof fn lemma_unary_clean(ts: Seq<Placed>, pos: int, end: nat)
    requires
        0 <= pos <= ts.len(),
    ensures
        good(ts, pos, parser::parse_unary(ts, pos, end)),
    decreases ts.len() - pos, 3int,
{
    if parser::tok(ts, pos) == Some(Tok::Minus) {
        lemma_unary_clean(ts, pos + 1, end);
        if let Ok((inner, next)) = parser::parse_unary(ts, pos + 1, end) {
            assert(clean_at(ts, pos));
            assert forall|i: int| pos <= i < next implies #[trigger] clean_at(ts, i) by {}
        }
    } else {
        lemma_primary_clean(ts, pos, end);
    }
}

proof fn lemma_primary_clean(ts: Seq<Placed>, pos: int, end: nat)
    requires
        0 <= pos <= ts.len(),
    ensures
        good(ts, pos, parser::parse_primary(ts, pos, end)),
    decreases ts.len() - pos, 2int,
{
    if let Ok((tree, behind)) = parser::parse_primary(ts, pos, end) {
        assert(pos < ts.len());
        if ts[pos].0 is LParen {
            lemma_or_clean(ts, pos + 1, end);
            let next = parser::parse_or(ts, pos + 1, end)->Ok_0.1;
            assert(clean_at(ts, pos));
            assert(clean_at(ts, next));
            assert forall|i: int| pos <= i < behind implies #[trigger] clean_at(ts, i) by {}
        } else {
            assert(clean_at(ts, pos));
            assert forall|i: int| pos <= i < behind implies #[trigger] clean_at(ts, i) by {}
        }
    }
}

/// A text that parses holds no call, no subscript and no attribute access: none
/// of their brackets, commas and dots, and no opening parenthesis behind a name
/// or a group.
pub proof fn lemma_parsed_is_clean(s: Seq<char>)
    requires
        parser::parsed_text(s) is Ok,
    ensures
        lexer::lexed(s) is Ok,
        clean(lexer::lexed(s)->Ok_0, 0, lexer::lexed(s)->Ok_0.len() as int),
{
    reveal(parser::parsed_text);
    let ts = lexer::lexed(s)->Ok_0;
    lemma_or_clean(ts, 0, text::byte_len(s));
}

/// The tokens of a tree with every operator in parentheses.
pub open spec fn tokens_of(tree: Ast) -> Seq<Tok>
    decreases tree,
{
    match tree {
        Node::Number(d) => seq![Token::Number(d)],
        Node::Str(s) => seq![Token::Str(s)],
        Node::Column(n) => seq![Token::Ident(n)],
        Node::Negate(a) => seq![Tok::LParen, Tok::Minus] + tokens_of(*a) + seq![Tok::RParen],
        Node::Arith(op, a, b) => grouped(
            tokens_of(*a),
            match op {
                ArithOp::Add => Tok::Plus,
                ArithOp::Sub => Tok::Minus,
                ArithOp::Mul => Tok::Star,
                ArithOp::Div => Tok::Slash,
                ArithOp::Rem => Tok::Percent,
            },
            tokens_of(*b),
        ),
        Node::Compare(op, a, b) => grouped(
            tokens_of(*a),
            match op {
                CmpOp::Eq => Tok::EqEq,
                CmpOp::Ne => Tok::NotEq,
                CmpOp::Lt => Tok::Lt,
                CmpOp::Le => Tok::Le,
                CmpOp::Gt => Tok::Gt,
                CmpOp::Ge => Tok::Ge,
            },
            tokens_of(*b),
        ),
        Node::And(a, b) => grouped(tokens_of(*a), Tok::AndAnd, tokens_of(*b)),
        Node::Or(a, b) => grouped(tokens_of(*a), Tok::OrOr, tokens_of(*b)),
    }
}

/// A group of two operands with an operator between.
pub open spec fn grouped(a: Seq<Tok>, op: Tok, b: Seq<Tok>) -> Seq<Tok> {
    seq![Tok::LParen] + a + seq![op] + b + seq![Tok::RParen]
}

/// The tokens without their places.
pub open spec fn bare(ts: Seq<Placed>) -> Seq<Tok> {
    Seq::new(ts.len(), |i: int| ts[i].0)
}

/// The tokens `want` stand at `pos`.
pub open spec fn stand_at(ts: Seq<Placed>, pos: int, want: Seq<Tok>) -> bool {
    &&& 0 <= pos
    &&& pos + want.len() <= ts.len()
    &&& forall|i: int| 0 <= i < want.len() ==> (#[trigger] ts[pos + i]).0 == want[i]
}

/// A finished operand with no operator of a level behind it is all that the
/// level reads.
proof fn lemma_levels(ts: Seq<Placed>, pos: int, end: nat, tree: Ast, next: int)
    requires
        parser::parse_unary(ts, pos, end) == Parse::Ok((tree, next)),
        parser::ahead(ts, pos, next),
    ensures
        parser::mul_op(parser::tok(ts, next)) is None ==> parser::parse_mul(ts, pos, end)
            == Parse::Ok((tree, next)),
        parser::mul_op(parser::tok(ts, next)) is None && parser::add_op(parser::tok(ts, next))
            is None ==> parser::parse_add(ts, pos, end) == Parse::Ok((tree, next)),
        parser::mul_op(parser::tok(ts, next)) is None && parser::add_op(parser::tok(ts, next))
            is None && parser::relation_op(parser::tok(ts, next)) is None
            ==> parser::parse_relation(ts, pos, end) == Parse::Ok((tree, next)),
        parser::mul_op(parser::tok(ts, next)) is None && parser::add_op(parser::tok(ts, next))
            is None && parser::relation_op(parser::tok(ts, next)) is None && parser::tok(ts, next)
            != Some(Tok::AndAnd) ==> parser::parse_and(ts, pos, end) == Parse::Ok((tree, next)),
        parser::mul_op(parser::tok(ts, next)) is None && parser::add_op(parser::tok(ts, next))
            is None && parser::relation_op(parser::tok(ts, next)) is None && parser::tok(ts, next)
            != Some(Tok::AndAnd) && parser::tok(ts, next) != Some(Tok::OrOr) ==> parser::parse_or(
            ts,
            pos,
            end,
        ) == Parse::Ok((tree, next)),
{
    if parser::mul_op(parser::tok(ts, next)) is None {
        assert(parser::parse_mul_rest(ts, next, end, tree) == Parse::Ok((tree, next)));
        if parser::add_op(parser::tok(ts, next)) is None {
            assert(parser::parse_add_rest(ts, next, end, tree) == Parse::Ok((tree, next)));
            if parser::relation_op(parser::tok(ts, next)) is None && parser::tok(ts, next) != Some(
                Tok::AndAnd,
            ) {
                assert(parser::parse_and_rest(ts, next, end, tree) == Parse::Ok((tree, next)));
                if parser::tok(ts, next) != Some(Tok::OrOr) {
                    assert(parser::parse_or_rest(ts, next, end, tree) == Parse::Ok((tree, next)));
                }
            }
        }
    }
}

/// Two operands with an operator between, up to a closing parenthesis, are read
/// as that operator applied to them.
proof fn lemma_operator(
    ts: Seq<Placed>,
    pos: int,
    end: nat,
    tree: Ast,
    a: Ast,
    b: Ast,
    mid: int,
    last: int,
)
    requires
        0 <= pos,
        parser::parse_unary(ts, pos, end) == Parse::Ok((a, mid)),
        parser::ahead(ts, pos, mid),
        parser::parse_unary(ts, mid + 1, end) == Parse::Ok((b, last)),
        parser::ahead(ts, mid + 1, last),
        parser::tok(ts, last) == Some(Tok::RParen),
        match tree {
            Node::Arith(op, x, y) => *x == a && *y == b && (parser::mul_op(parser::tok(ts, mid))
                == Some(op) || parser::add_op(parser::tok(ts, mid)) == Some(op)),
            Node::Compare(op, x, y) => *x == a && *y == b && parser::relation_op(
                parser::tok(ts, mid),
            ) == Some(op),
            Node::And(x, y) => *x == a && *y == b && parser::tok(ts, mid) == Some(Tok::AndAnd),
            Node::Or(x, y) => *x == a && *y == b && parser::tok(ts, mid) == Some(Tok::OrOr),
            _ => false,
        },
    ensures
        parser::parse_or(ts, pos, end) == Parse::Ok((tree, last)),
{
    lemma_levels(ts, pos, end, a, mid);
    lemma_levels(ts, mid + 1, end, b, last);
    assert(parser::parse_mul_rest(ts, last, end, tree) == Parse::Ok((tree, last)));
    assert(parser::parse_add_rest(ts, last, end, tree) == Parse::Ok((tree, last)));
    assert(parser::parse_and_rest(ts, last, end, tree) == Parse::Ok((tree, last)));
    assert(parser::parse_or_rest(ts, last, end, tree) == Parse::Ok((tree, last)));
    match tree {
        Node::Arith(op, x, y) => {
            assert(tree == Ast::Arith(op, Box::new(a), Box::new(b)));
            if parser::mul_op(parser::tok(ts, mid)) == Some(op) {
                assert(parser::parse_mul_rest(ts, mid, end, a) == Parse::Ok((tree, last)));
                assert(parser::parse_mul(ts, pos, end) == Parse::Ok((tree, last)));
            } else {
                assert(parser::parse_add_rest(ts, mid, end, a) == Parse::Ok((tree, last)));
            }
            assert(parser::parse_add(ts, pos, end) == Parse::Ok((tree, last)));
            assert(parser::parse_relation(ts, pos, end) == Parse::Ok((tree, last)));
            assert(parser::parse_and(ts, pos, end) == Parse::Ok((tree, last)));
        },
        Node::Compare(op, x, y) => {
            assert(tree == Ast::Compare(op, Box::new(a), Box::new(b)));
            assert(parser::parse_relation(ts, pos, end) == Parse::Ok((tree, last)));
            assert(parser::parse_and(ts, pos, end) == Parse::Ok((tree, last)));
        },
        Node::And(x, y) => {
            assert(tree == Ast::And(Box::new(a), Box::new(b)));
            assert(parser::parse_and_rest(ts, mid, end, a) == Parse::Ok((tree, last)));
            assert(parser::parse_and(ts, pos, end) == Parse::Ok((tree, last)));
        },
        Node::Or(x, y) => {
            assert(tree == Ast::Or(Box::new(a), Box::new(b)));
            assert(parser::parse_or_rest(ts, mid, end, a) == Parse::Ok((tree, last)));
        },
        _ => {},
    }
}

pub(crate) proof fn lemma_stand_split(ts: Seq<Placed>, pos: int, a: Seq<Tok>, b: Seq<Tok>)
    requires
        stand_at(ts, pos, a + b),
    ensures
        stand_at(ts, pos, a),
        stand_at(ts, pos + a.len(), b),
{
    assert forall|i: int| 0 <= i < a.len() implies (#[trigger] ts[pos + i]).0 == a[i] by {
        assert((a + b)[i] == a[i]);
    }
    assert forall|i: int| 0 <= i < b.len() implies (#[trigger] ts[pos + a.len() + i]).0 == b[i] by {
        assert((a + b)[a.len() + i] == b[i]);
        assert(ts[pos + (a.len() + i)].0 == (a + b)[a.len() + i]);
    }
}

/// The tokens of a tree, with nothing behind them that would be a suffix, are
/// read back as that tree.
pub(crate) proof fn lemma_reads_back(ts: Seq<Placed>, pos: int, end: nat, tree: Ast)
    requires
        stand_at(ts, pos, tokens_of(tree)),
        parser::suffix(parser::tok(ts, pos + tokens_of(tree).len())) is None,
    ensures
        tokens_of(tree).len() > 0,
        parser::parse_unary(ts, pos, end) == Parse::Ok(
            (tree, pos + tokens_of(tree).len() as int),
        ),
    decreases tree,
{
    let all = tokens_of(tree);
    match tree {
        Node::Number(_) | Node::Str(_) | Node::Column(_) => {
            assert(ts[pos + 0].0 == all[0]);
        },
        Node::Negate(a) => {
            let inner = tokens_of(*a);
            let head = seq![Tok::LParen, Tok::Minus];
            let tail = seq![Tok::RParen];
            lemma_stand_split(ts, pos, head + inner, tail);
            lemma_stand_split(ts, pos, head, inner);
            assert(ts[pos + 0].0 == head[0]);
            assert(ts[pos + 1].0 == head[1]);
            let last = pos + 2 + inner.len();
            assert(ts[last + 0].0 == tail[0]);
            assert(parser::tok(ts, last) == Some(Tok::RParen));
            lemma_reads_back(ts, pos + 2, end, *a);
            assert(parser::parse_unary(ts, pos + 1, end) == Parse::Ok((tree, last)));
            lemma_levels(ts, pos + 1, end, tree, last);
            assert(parser::parse_or(ts, pos + 1, end) == Parse::Ok((tree, last)));
            assert(parser::parse_primary(ts, pos, end) == Parse::Ok((tree, last + 1)));
        },
        Node::Arith(_, a, b) | Node::Compare(_, a, b) | Node::And(a, b) | Node::Or(a, b) => {
            let x = tokens_of(*a);
            let y = tokens_of(*b);
            let op = operator(tree);
            assert(all == grouped(x, op, y));
            lemma_group_places(ts, pos, x, op, y);
            let mid = pos + 1 + x.len();
            let last = mid + 1 + y.len();
            lemma_reads_back(ts, pos + 1, end, *a);
            lemma_reads_back(ts, mid + 1, end, *b);
            lemma_group_reads(ts, pos, end, tree, *a, *b, mid, last);
        },
    }
}

/// The operator token of a tree.
spec fn operator(tree: Ast) -> Tok {
    match tree {
        Node::Arith(op, _, _) => match op {
            ArithOp::Add => Tok::Plus,
            ArithOp::Sub => Tok::Minus,
            ArithOp::Mul => Tok::Star,
            ArithOp::Div => Tok::Slash,
            ArithOp::Rem => Tok::Percent,
        },
        Node::Compare(op, _, _) => match op {
            CmpOp::Eq => Tok::EqEq,
            CmpOp::Ne => Tok::NotEq,
            CmpOp::Lt => Tok::Lt,
            CmpOp::Le => Tok::Le,
            CmpOp::Gt => Tok::Gt,
            CmpOp::Ge => Tok::Ge,
        },
        Node::And(_, _) => Tok::AndAnd,
        _ => Tok::OrOr,
    }
}

proof fn lemma_group_places(ts: Seq<Placed>, pos: int, x: Seq<Tok>, op: Tok, y: Seq<Tok>)
    requires
        stand_at(ts, pos, grouped(x, op, y)),
    ensures
        grouped(x, op, y).len() == x.len() + y.len() + 3,
        parser::tok(ts, pos) == Some(Tok::LParen),
        stand_at(ts, pos + 1, x),
        parser::tok(ts, pos + 1 + x.len()) == Some(op),
        stand_at(ts, pos + 1 + x.len() + 1, y),
        parser::tok(ts, pos + 1 + x.len() + 1 + y.len()) == Some(Tok::RParen),
{
    let open = seq![Tok::LParen];
    let sign = seq![op];
    let tail = seq![Tok::RParen];
    lemma_stand_split(ts, pos, open + x + sign + y, tail);
    lemma_stand_split(ts, pos, open + x + sign, y);
    lemma_stand_split(ts, pos, open + x, sign);
    lemma_stand_split(ts, pos, open, x);
    assert(ts[pos + 0].0 == open[0]);
    assert(ts[pos + (open + x).len() + 0].0 == sign[0]);
    assert(ts[pos + (open + x + sign + y).len() + 0].0 == tail[0]);
}

proof fn lemma_group_reads(
    ts: Seq<Placed>,
    pos: int,
    end: nat,
    tree: Ast,
    a: Ast,
    b: Ast,
    mid: int,
    last: int,
)
    requires
        0 <= pos,
        match tree {
            Node::Arith(_, x, y) => *x == a && *y == b,
            Node::Compare(_, x, y) => *x == a && *y == b,
            Node::And(x, y) => *x == a && *y == b,
            Node::Or(x, y) => *x == a && *y == b,
            _ => false,
        },
        parser::tok(ts, pos) == Some(Tok::LParen),
        parser::parse_unary(ts, pos + 1, end) == Parse::Ok((a, mid)),
        parser::ahead(ts, pos + 1, mid),
        parser::tok(ts, mid) == Some(operator(tree)),
        parser::parse_unary(ts, mid + 1, end) == Parse::Ok((b, last)),
        parser::ahead(ts, mid + 1, last),
        parser::tok(ts, last) == Some(Tok::RParen),
        parser::suffix(parser::tok(ts, last + 1)) is None,
    ensures
        parser::parse_unary(ts, pos, end) == Parse::Ok((tree, last + 1)),
{
    lemma_operator(ts, pos + 1, end, tree, a, b, mid, last);
    assert(parser::parse_primary(ts, pos, end) == Parse::Ok((tree, last + 1)));
}

/// Every tree can be written, and is read back as itself: the tokens of a tree
/// with all operators in parentheses parse to that tree and leave nothing over.
pub proof fn lemma_writes_and_reads_back(ts: Seq<Placed>, end: nat, tree: Ast)
    requires
        bare(ts) == tokens_of(tree),
    ensures
        parser::parse_or(ts, 0, end) == Parse::Ok((tree, ts.len() as int)),
{
    assert forall|i: int| 0 <= i < tokens_of(tree).len() implies (#[trigger] ts[0 + i]).0
        == tokens_of(tree)[i] by {
        assert(bare(ts)[i] == ts[i].0);
    }
    assert(bare(ts).len() == ts.len());
    lemma_reads_back(ts, 0, end, tree);
    lemma_levels(ts, 0, end, tree, ts.len() as int);
}

} // verus!
