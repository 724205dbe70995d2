//! From tokens to an expression tree.
//!
//! ```text
//! or      := and ( "||" and )*
//! and     := cmp ( "&&" cmp )*
//! cmp     := add ( ("==" | "!=" | "<=" | ">=" | "<" | ">") add )?
//! add     := mul ( ("+" | "-") mul )*
//! mul     := unary ( ("*" | "/" | "%") unary )*
//! unary   := "-" unary | primary
//! primary := number | string | column | "(" or ")"
//! ```
use crate::decimal::{Dec, Decimal};
use crate::expr::{ExprError, Fault};
use crate::lexer;
use crate::lexer::{Placed, Spanned, Tok, Token};
use crate::text;
use vstd::prelude::*;

verus! {

#[derive(Debug, Clone, Copy, PartialEq, Eq, Structural)]
pub enum ArithOp {
    Add,
    Sub,
    Mul,
    Div,
    Rem,
}

/// How an arithmetic operator is written.
pub open spec fn arith_symbol(op: ArithOp) -> Seq<char> {
    match op {
        ArithOp::Add => "+"@,
        ArithOp::Sub => "-"@,
        ArithOp::Mul => "*"@,
        ArithOp::Div => "/"@,
        ArithOp::Rem => "%"@,
    }
}

impl ArithOp {
    pub fn symbol(self) -> (r: &'static str)
        ensures
            r@ == arith_symbol(self),
    {
        match self {
            ArithOp::Add => "+",
            ArithOp::Sub => "-",
            ArithOp::Mul => "*",
            ArithOp::Div => "/",
            ArithOp::Rem => "%",
        }
    }
}

#[derive(Debug, Clone, Copy, PartialEq, Eq, Structural)]
pub enum CmpOp {
    Eq,
    Ne,
    Lt,
    Le,
    Gt,
    Ge,
}

/// How a comparison is written.
pub open spec fn relation_symbol(op: CmpOp) -> Seq<char> {
    match op {
        CmpOp::Eq => "=="@,
        CmpOp::Ne => "!="@,
        CmpOp::Lt => "<"@,
        CmpOp::Le => "<="@,
        CmpOp::Gt => ">"@,
        CmpOp::Ge => ">="@,
    }
}

impl CmpOp {
    pub fn symbol(self) -> (r: &'static str)
        ensures
            r@ == relation_symbol(self),
    {
        match self {
            CmpOp::Eq => "==",
            CmpOp::Ne => "!=",
            CmpOp::Lt => "<",
            CmpOp::Le => "<=",
            CmpOp::Gt => ">",
            CmpOp::Ge => ">=",
        }
    }
}

/// An expression tree, over the kinds of number and of text that it holds.
/// There is no node for calls, attribute access or subscripts.
#[derive(Debug, PartialEq)]
pub enum Node<N, S> {
    Number(N),
    Str(S),
    Column(S),
    Negate(Box<Node<N, S>>),
    Arith(ArithOp, Box<Node<N, S>>, Box<Node<N, S>>),
    Compare(CmpOp, Box<Node<N, S>>, Box<Node<N, S>>),
    And(Box<Node<N, S>>, Box<Node<N, S>>),
    Or(Box<Node<N, S>>, Box<Node<N, S>>),
}

/// What an expression tree is.
pub type Ast = Node<Dec, Seq<char>>;

/// The tree of a node.
pub open spec fn ast(n: Node<Decimal, String>) -> Ast
    decreases n,
{
    match n {
        Node::Number(d) => Node::Number(d@),
        Node::Str(s) => Node::Str(s@),
        Node::Column(s) => Node::Column(s@),
        Node::Negate(a) => Node::Negate(Box::new(ast(*a))),
        Node::Arith(op, a, b) => Node::Arith(op, Box::new(ast(*a)), Box::new(ast(*b))),
        Node::Compare(op, a, b) => Node::Compare(op, Box::new(ast(*a)), Box::new(ast(*b))),
        Node::And(a, b) => Node::And(Box::new(ast(*a)), Box::new(ast(*b))),
        Node::Or(a, b) => Node::Or(Box::new(ast(*a)), Box::new(ast(*b))),
    }
}

/// A copy of a node.
pub fn copy_node(n: &Node<Decimal, String>) -> (r: Node<Decimal, String>)
    ensures
        ast(r) == ast(*n),
    decreases n,
{
    match n {
        Node::Number(d) => Node::Number(*d),
        Node::Str(s) => Node::Str(s.clone()),
        Node::Column(s) => Node::Column(s.clone()),
        Node::Negate(a) => Node::Negate(Box::new(copy_node(a))),
        Node::Arith(op, a, b) => Node::Arith(
            *op,
            Box::new(copy_node(a)),
            Box::new(copy_node(b)),
        ),
        Node::Compare(op, a, b) => Node::Compare(
            *op,
            Box::new(copy_node(a)),
            Box::new(copy_node(b)),
        ),
        Node::And(a, b) => Node::And(Box::new(copy_node(a)), Box::new(copy_node(b))),
        Node::Or(a, b) => Node::Or(Box::new(copy_node(a)), Box::new(copy_node(b))),
    }
}

/// A tree and the place of the first token behind it, or a fault.
pub type Parse = Result<(Ast, int), Fault>;

/// The token at a place.
pub open spec fn tok(ts: Seq<Placed>, pos: int) -> Option<Tok> {
    if 0 <= pos < ts.len() {
        Some(ts[pos].0)
    } else {
        None
    }
}

/// The byte at which the token at a place begins, or at which the text ends.
pub open spec fn byte_at(ts: Seq<Placed>, pos: int, end: nat) -> nat {
    if 0 <= pos < ts.len() {
        ts[pos].1
    } else {
        end
    }
}

pub open spec fn ahead(ts: Seq<Placed>, pos: int, next: int) -> bool {
    pos < next <= ts.len()
}

pub open spec fn mul_op(t: Option<Tok>) -> Option<ArithOp> {
    match t {
        Some(Token::Star) => Some(ArithOp::Mul),
        Some(Token::Slash) => Some(ArithOp::Div),
        Some(Token::Percent) => Some(ArithOp::Rem),
        _ => None,
    }
}

pub open spec fn add_op(t: Option<Tok>) -> Option<ArithOp> {
    match t {
        Some(Token::Plus) => Some(ArithOp::Add),
        Some(Token::Minus) => Some(ArithOp::Sub),
        _ => None,
    }
}

pub open spec fn relation_op(t: Option<Tok>) -> Option<CmpOp> {
    match t {
        Some(Token::EqEq) => Some(CmpOp::Eq),
        Some(Token::NotEq) => Some(CmpOp::Ne),
        Some(Token::Lt) => Some(CmpOp::Lt),
        Some(Token::Le) => Some(CmpOp::Le),
        Some(Token::Gt) => Some(CmpOp::Gt),
        Some(Token::Ge) => Some(CmpOp::Ge),
        _ => None,
    }
}

/// The construct that a token behind a finished value would begin, and that
/// expressions do not have.
pub open spec fn suffix(t: Option<Tok>) -> Option<Seq<char>> {
    match t {
        Some(Token::LParen) => Some("function call"@),
        Some(Token::LBracket) => Some("subscript access"@),
        Some(Token::Dot) => Some("attribute access"@),
        _ => None,
    }
}

pub open spec fn parse_or(ts: Seq<Placed>, pos: int, end: nat) -> Parse
    decreases ts.len() - pos, 12int,
{
    match parse_and(ts, pos, end) {
        Err(f) => Err(f),
        Ok((left, next)) => if ahead(ts, pos, next) {
            parse_or_rest(ts, next, end, left)
        } else {
            Ok((left, next))
        },
    }
}

pub open spec fn parse_or_rest(ts: Seq<Placed>, pos: int, end: nat, left: Ast) -> Parse
    decreases ts.len() - pos, 11int,
{
    if tok(ts, pos) == Some(Tok::OrOr) {
        match parse_and(ts, pos + 1, end) {
            Err(f) => Err(f),
            Ok((right, next)) => if ahead(ts, pos + 1, next) {
                parse_or_rest(ts, next, end, Node::Or(Box::new(left), Box::new(right)))
            } else {
                Ok((left, pos))
            },
        }
    } else {
        Ok((left, pos))
    }
}

pub open spec fn parse_and(ts: Seq<Placed>, pos: int, end: nat) -> Parse
    decreases ts.len() - pos, 10int,
{
    match parse_relation(ts, pos, end) {
        Err(f) => Err(f),
        Ok((left, next)) => if ahead(ts, pos, next) {
            parse_and_rest(ts, next, end, left)
        } else {
            Ok((left, next))
        },
    }
}

pub open spec fn parse_and_rest(ts: Seq<Placed>, pos: int, end: nat, left: Ast) -> Parse
    decreases ts.len() - pos, 9int,
{
    if tok(ts, pos) == Some(Tok::AndAnd) {
        match parse_relation(ts, pos + 1, end) {
            Err(f) => Err(f),
            Ok((right, next)) => if ahead(ts, pos + 1, next) {
                parse_and_rest(ts, next, end, Node::And(Box::new(left), Box::new(right)))
            } else {
                Ok((left, pos))
            },
        }
    } else {
        Ok((left, pos))
    }
}

pub open spec fn parse_relation(ts: Seq<Placed>, pos: int, end: nat) -> Parse
    decreases ts.len() - pos, 8int,
{
    match parse_add(ts, pos, end) {
        Err(f) => Err(f),
        Ok((left, next)) => if ahead(ts, pos, next) {
            match relation_op(tok(ts, next)) {
                None => Ok((left, next)),
                Some(op) => match parse_add(ts, next + 1, end) {
                    Err(f) => Err(f),
                    Ok((right, behind)) => Ok(
                        (Node::Compare(op, Box::new(left), Box::new(right)), behind),
                    ),
                },
            }
        } else {
            Ok((left, next))
        },
    }
}

pub open spec fn parse_add(ts: Seq<Placed>, pos: int, end: nat) -> Parse
    decreases ts.len() - pos, 7int,
{
    match parse_mul(ts, pos, end) {
        Err(f) => Err(f),
        Ok((left, next)) => if ahead(ts, pos, next) {
            parse_add_rest(ts, next, end, left)
        } else {
            Ok((left, next))
        },
    }
}

pub open spec fn parse_add_rest(ts: Seq<Placed>, pos: int, end: nat, left: Ast) -> Parse
    decreases ts.len() - pos, 6int,
{
    match add_op(tok(ts, pos)) {
        None => Ok((left, pos)),
        Some(op) => match parse_mul(ts, pos + 1, end) {
            Err(f) => Err(f),
            Ok((right, next)) => if ahead(ts, pos + 1, next) {
                parse_add_rest(ts, next, end, Node::Arith(op, Box::new(left), Box::new(right)))
            } else {
                Ok((left, pos))
            },
        },
    }
}

pub open spec fn parse_mul(ts: Seq<Placed>, pos: int, end: nat) -> Parse
    decreases ts.len() - pos, 5int,
{
    match parse_unary(ts, pos, end) {
        Err(f) => Err(f),
        Ok((left, next)) => if ahead(ts, pos, next) {
            parse_mul_rest(ts, next, end, left)
        } else {
            Ok((left, next))
        },
    }
}

pub open spec fn parse_mul_rest(ts: Seq<Placed>, pos: int, end: nat, left: Ast) -> Parse
    decreases ts.len() - pos, 4int,
{
    match mul_op(tok(ts, pos)) {
        None => Ok((left, pos)),
        Some(op) => match parse_unary(ts, pos + 1, end) {
            Err(f) => Err(f),
            Ok((right, next)) => if ahead(ts, pos + 1, next) {
                parse_mul_rest(ts, next, end, Node::Arith(op, Box::new(left), Box::new(right)))
            } else {
                Ok((left, pos))
            },
        },
    }
}

pub open spec fn parse_unary(ts: Seq<Placed>, pos: int, end: nat) -> Parse
    decreases ts.len() - pos, 3int,
{
    if tok(ts, pos) == Some(Tok::Minus) {
        match parse_unary(ts, pos + 1, end) {
            Err(f) => Err(f),
            Ok((inner, next)) => Ok((Node::Negate(Box::new(inner)), next)),
        }
    } else {
        parse_primary(ts, pos, end)
    }
}

pub open spec fn parse_primary(ts: Seq<Placed>, pos: int, end: nat) -> Parse
    decreases ts.len() - pos, 2int,
{
    match tok(ts, pos) {
        None => Err(
            Fault::Syntax {
                message:
                    "unexpected end of expression; expected a value, column, number, string, or `(...)`"@,
                position: end,
            },
        ),
        Some(Token::Number(d)) => Ok((Node::Number(d), pos + 1)),
        Some(Token::Str(s)) => Ok((Node::Str(s), pos + 1)),
        Some(Token::Ident(name)) => match suffix(tok(ts, pos + 1)) {
            Some(construct) => Err(Fault::Disallowed { construct, detail: name }),
            None => Ok((Node::Column(name), pos + 1)),
        },
        Some(Token::LParen) => match parse_or(ts, pos + 1, end) {
            Err(f) => Err(f),
            Ok((inner, next)) => match tok(ts, next) {
                Some(Token::RParen) => match suffix(tok(ts, next + 1)) {
                    Some(construct) => Err(Fault::Disallowed { construct, detail: "(...)"@ }),
                    None => Ok((inner, next + 1)),
                },
                Some(found) => Err(
                    Fault::Syntax {
                        message: "expected `)` to close the group, found `"@ + lexer::token_text(
                            found,
                        ) + "`"@,
                        position: byte_at(ts, next, end),
                    },
                ),
                None => Err(
                    Fault::Syntax {
                        message: "expected `)` to close the group, found end of expression"@,
                        position: byte_at(ts, next, end),
                    },
                ),
            },
        },
        Some(found) => Err(
            Fault::Syntax {
                message: "unexpected token `"@ + lexer::token_text(found)
                    + "`; expected a value, column, number, string, or `(...)`"@,
                position: byte_at(ts, pos, end),
            },
        ),
    }
}

/// The tree of a text.
#[verifier::opaque]
pub open spec fn parsed_text(s: Seq<char>) -> Result<Ast, Fault> {
    match lexer::lexed(s) {
        Err(f) => Err(f),
        Ok(ts) => match parse_or(ts, 0, text::byte_len(s)) {
            Err(f) => Err(f),
            Ok((tree, next)) => match tok(ts, next) {
                None => Ok(tree),
                Some(found) => Err(
                    Fault::Syntax {
                        message: "unexpected trailing token `"@ + lexer::token_text(found)
                            + "`; expression must end here"@,
                        position: ts[next].1,
                    },
                ),
            },
        },
    }
}

/// The outcome of a parsing function is what `want` says, and it moved on.
spec fn agrees(
    r: Result<(Node<Decimal, String>, usize), ExprError>,
    want: Parse,
    ts: Seq<Placed>,
    pos: int,
) -> bool {
    match r {
        Ok((node, next)) => want == Parse::Ok((ast(node), next as int)) && ahead(
            ts,
            pos,
            next as int,
        ),
        Err(e) => want == Parse::Err(e@),
    }
}

pub struct Parser<'a> {
    pub tokens: &'a Vec<Spanned>,
    pub end: usize,
}

impl<'a> Parser<'a> {
    pub open spec fn ts(&self) -> Seq<Placed> {
        self.tokens.deep_view()
    }

    fn peek(&self, pos: usize) -> (r: Option<&Token<Decimal, String>>)
        ensures
            match r {
                Some(t) => pos < self.ts().len() && pos < usize::MAX && tok(self.ts(), pos as int)
                    == Some(t@),
                None => pos >= self.ts().len() && tok(self.ts(), pos as int) is None,
            },
    {
        if pos < self.tokens.len() {
            Some(&self.tokens[pos].token)
        } else {
            None
        }
    }

    fn position(&self, pos: usize) -> (r: usize)
        ensures
            r == byte_at(self.ts(), pos as int, self.end as nat),
    {
        if pos < self.tokens.len() {
            self.tokens[pos].position
        } else {
            self.end
        }
    }

    /// The construct that the token would begin behind a finished value.
    fn reject_suffix(&self, pos: usize) -> (r: Option<&'static str>)
        ensures
            match r {
                Some(c) => suffix(tok(self.ts(), pos as int)) == Some(c@),
                None => suffix(tok(self.ts(), pos as int)) is None,
            },
    {
        match self.peek(pos) {
            Some(Token::LParen) => Some("function call"),
            Some(Token::LBracket) => Some("subscript access"),
            Some(Token::Dot) => Some("attribute access"),
            _ => None,
        }
    }

    fn parse_or(&self, pos: usize) -> (r: Result<(Node<Decimal, String>, usize), ExprError>)
        requires
            pos <= self.ts().len(),
        ensures
            agrees(r, parse_or(self.ts(), pos as int, self.end as nat), self.ts(), pos as int),
        decreases self.ts().len() - pos, 12int,
    {
        let (mut left, mut at) = match self.parse_and(pos) {
            Ok(found) => found,
            Err(e) => {
                return Err(e);
            },
        };
        let ghost whole = parse_or(self.ts(), pos as int, self.end as nat);
        loop
            invariant
                ahead(self.ts(), pos as int, at as int),
                whole == parse_or(self.ts(), pos as int, self.end as nat),
                whole == parse_or_rest(self.ts(), at as int, self.end as nat, ast(left)),
            decreases self.ts().len() - at,
        {
            match self.peek(at) {
                Some(Token::OrOr) => {},
                _ => {
                    return Ok((left, at));
                },
            }
            match self.parse_and(at + 1) {
                Ok((right, next)) => {
                    left = Node::Or(Box::new(left), Box::new(right));
                    at = next;
                },
                Err(e) => {
                    return Err(e);
                },
            }
        }
    }

    fn parse_and(&self, pos: usize) -> (r: Result<(Node<Decimal, String>, usize), ExprError>)
        requires
            pos <= self.ts().len(),
        ensures
            agrees(r, parse_and(self.ts(), pos as int, self.end as nat), self.ts(), pos as int),
        decreases self.ts().len() - pos, 10int,
    {
        let (mut left, mut at) = match self.parse_relation(pos) {
            Ok(found) => found,
            Err(e) => {
                return Err(e);
            },
        };
        let ghost whole = parse_and(self.ts(), pos as int, self.end as nat);
        loop
            invariant
                ahead(self.ts(), pos as int, at as int),
                whole == parse_and(self.ts(), pos as int, self.end as nat),
                whole == parse_and_rest(self.ts(), at as int, self.end as nat, ast(left)),
            decreases self.ts().len() - at,
        {
            match self.peek(at) {
                Some(Token::AndAnd) => {},
                _ => {
                    return Ok((left, at));
                },
            }
            match self.parse_relation(at + 1) {
                Ok((right, next)) => {
                    left = Node::And(Box::new(left), Box::new(right));
                    at = next;
                },
                Err(e) => {
                    return Err(e);
                },
            }
        }
    }

    #[verifier::spinoff_prover]
    #[verifier::rlimit(40)]
    fn parse_relation(&self, pos: usize) -> (r: Result<(Node<Decimal, String>, usize), ExprError>)
        requires
            pos <= self.ts().len(),
        ensures
            agrees(
                r,
                parse_relation(self.ts(), pos as int, self.end as nat),
                self.ts(),
                pos as int,
            ),
        decreases self.ts().len() - pos, 8int,
    {
        let (left, at) = match self.parse_add(pos) {
            Ok(found) => found,
            Err(e) => {
                return Err(e);
            },
        };
        let op = match self.peek(at) {
            Some(Token::EqEq) => CmpOp::Eq,
            Some(Token::NotEq) => CmpOp::Ne,
            Some(Token::Lt) => CmpOp::Lt,
            Some(Token::Le) => CmpOp::Le,
            Some(Token::Gt) => CmpOp::Gt,
            Some(Token::Ge) => CmpOp::Ge,
            _ => {
                return Ok((left, at));
            },
        };
        match self.parse_add(at + 1) {
            Ok((right, next)) => Ok((Node::Compare(op, Box::new(left), Box::new(right)), next)),
            Err(e) => Err(e),
        }
    }

    fn parse_add(&self, pos: usize) -> (r: Result<(Node<Decimal, String>, usize), ExprError>)
        requires
            pos <= self.ts().len(),
        ensures
            agrees(r, parse_add(self.ts(), pos as int, self.end as nat), self.ts(), pos as int),
        decreases self.ts().len() - pos, 7int,
    {
        let (mut left, mut at) = match self.parse_mul(pos) {
            Ok(found) => found,
            Err(e) => {
                return Err(e);
            },
        };
        let ghost whole = parse_add(self.ts(), pos as int, self.end as nat);
        loop
            invariant
                ahead(self.ts(), pos as int, at as int),
                whole == parse_add(self.ts(), pos as int, self.end as nat),
                whole == parse_add_rest(self.ts(), at as int, self.end as nat, ast(left)),
            decreases self.ts().len() - at,
        {
            let op = match self.peek(at) {
                Some(Token::Plus) => ArithOp::Add,
                Some(Token::Minus) => ArithOp::Sub,
                _ => {
                    return Ok((left, at));
                },
            };
            match self.parse_mul(at + 1) {
                Ok((right, next)) => {
                    left = Node::Arith(op, Box::new(left), Box::new(right));
                    at = next;
                },
                Err(e) => {
                    return Err(e);
                },
            }
        }
    }

    fn parse_mul(&self, pos: usize) -> (r: Result<(Node<Decimal, String>, usize), ExprError>)
        requires
            pos <= self.ts().len(),
        ensures
            agrees(r, parse_mul(self.ts(), pos as int, self.end as nat), self.ts(), pos as int),
        decreases self.ts().len() - pos, 5int,
    {
        let (mut left, mut at) = match self.parse_unary(pos) {
            Ok(found) => found,
            Err(e) => {
                return Err(e);
            },
        };
        let ghost whole = parse_mul(self.ts(), pos as int, self.end as nat);
        loop
            invariant
                ahead(self.ts(), pos as int, at as int),
                whole == parse_mul(self.ts(), pos as int, self.end as nat),
                whole == parse_mul_rest(self.ts(), at as int, self.end as nat, ast(left)),
            decreases self.ts().len() - at,
        {
            let op = match self.peek(at) {
                Some(Token::Star) => ArithOp::Mul,
                Some(Token::Slash) => ArithOp::Div,
                Some(Token::Percent) => ArithOp::Rem,
                _ => {
                    return Ok((left, at));
                },
            };
            match self.parse_unary(at + 1) {
                Ok((right, next)) => {
                    left = Node::Arith(op, Box::new(left), Box::new(right));
                    at = next;
                },
                Err(e) => {
                    return Err(e);
                },
            }
        }
    }

    fn parse_unary(&self, pos: usize) -> (r: Result<(Node<Decimal, String>, usize), ExprError>)
        requires
            pos <= self.ts().len(),
        ensures
            agrees(r, parse_unary(self.ts(), pos as int, self.end as nat), self.ts(), pos as int),
        decreases self.ts().len() - pos, 3int,
    {
        match self.peek(pos) {
            Some(Token::Minus) => match self.parse_unary(pos + 1) {
                Ok((inner, next)) => Ok((Node::Negate(Box::new(inner)), next)),
                Err(e) => Err(e),
            },
            _ => self.parse_primary(pos),
        }
    }

    fn parse_primary(&self, pos: usize) -> (r: Result<(Node<Decimal, String>, usize), ExprError>)
        requires
            pos <= self.ts().len(),
        ensures
            agrees(
                r,
                parse_primary(self.ts(), pos as int, self.end as nat),
                self.ts(),
                pos as int,
            ),
        decreases self.ts().len() - pos, 2int,
    {
        match self.peek(pos) {
            None => Err(
                ExprError::Syntax {
                    message:
                        "unexpected end of expression; expected a value, column, number, string, or `(...)`".to_owned(),
                    position: self.end,
                },
            ),
            Some(Token::Number(d)) => Ok((Node::Number(*d), pos + 1)),
            Some(Token::Str(s)) => Ok((Node::Str(s.clone()), pos + 1)),
            Some(Token::Ident(name)) => match self.reject_suffix(pos + 1) {
                Some(construct) => Err(
                    ExprError::Disallowed { construct, detail: name.clone() },
                ),
                None => Ok((Node::Column(name.clone()), pos + 1)),
            },
            Some(Token::LParen) => match self.parse_or(pos + 1) {
                Err(e) => Err(e),
                Ok((inner, next)) => {
                    let position = self.position(next);
                    match self.peek(next) {
                        Some(Token::RParen) => match self.reject_suffix(next + 1) {
                            Some(construct) => Err(
                                ExprError::Disallowed { construct, detail: "(...)".to_owned() },
                            ),
                            None => Ok((inner, next + 1)),
                        },
                        Some(found) => {
                            let t = found.to_text();
                            Err(
                                ExprError::Syntax {
                                    message: text::around(
                                        "expected `)` to close the group, found `",
                                        t.as_str(),
                                        "`",
                                    ),
                                    position,
                                },
                            )
                        },
                        None => Err(
                            ExprError::Syntax {
                                message:
                                    "expected `)` to close the group, found end of expression".to_owned(),
                                position,
                            },
                        ),
                    }
                },
            },
            Some(found) => {
                let t = found.to_text();
                let position = self.position(pos);
                Err(
                    ExprError::Syntax {
                        message: text::around(
                            "unexpected token `",
                            t.as_str(),
                            "`; expected a value, column, number, string, or `(...)`",
                        ),
                        position,
                    },
                )
            },
        }
    }
}

/// Parses a text.
pub fn parse_node(src: &str) -> (r: Result<Node<Decimal, String>, ExprError>)
    ensures
        match r {
            Ok(node) => parsed_text(src@) == Ok::<Ast, Fault>(ast(node)),
            Err(e) => parsed_text(src@) == Err::<Ast, Fault>(e@),
        },
{
    proof {
        reveal(parsed_text);
    }
    let tokens = match lexer::lex(src) {
        Ok(tokens) => tokens,
        Err(e) => {
            return Err(e);
        },
    };
    let parser = Parser { tokens: &tokens, end: text::text_bytes(src) };
    match parser.parse_or(0) {
        Err(e) => Err(e),
        Ok((node, next)) => match parser.peek(next) {
            None => Ok(node),
            Some(found) => {
                let t = found.to_text();
                Err(
                    ExprError::Syntax {
                        message: text::around(
                            "unexpected trailing token `",
                            t.as_str(),
                            "`; expression must end here",
                        ),
                        position: tokens[next].position,
                    },
                )
            },
        },
    }
}

} // verus!
