//! How expressions are read.
use crate::decimal;
use crate::expr::Fault;
use crate::grammar;
use crate::lexer;
use crate::lexer::{Placed, Tok, Token};
use crate::parser;
use crate::parser::{ArithOp, Ast, CmpOp, Node, Parse};
use crate::text;
use vstd::prelude::*;

verus! {

/// How strongly an operator binds: `||` least, then `&&`, comparisons, sums, and products
/// most.
pub open spec fn strength(t: Option<Tok>) -> int {
    match t {
        Some(Token::OrOr) => 1,
        Some(Token::AndAnd) => 2,
        Some(Token::EqEq) | Some(Token::NotEq) | Some(Token::Lt) | Some(Token::Le) | Some(
            Token::Gt,
        ) | Some(Token::Ge) => 3,
        Some(Token::Plus) | Some(Token::Minus) => 4,
        Some(Token::Star) | Some(Token::Slash) | Some(Token::Percent) => 5,
        _ => 0,
    }
}

/// An operator applied to two operands.
pub open spec fn applied(t: Tok, a: Ast, b: Ast) -> Ast {
    match t {
        Token::OrOr => Node::Or(Box::new(a), Box::new(b)),
        Token::AndAnd => Node::And(Box::new(a), Box::new(b)),
        Token::EqEq => Node::Compare(CmpOp::Eq, Box::new(a), Box::new(b)),
        Token::NotEq => Node::Compare(CmpOp::Ne, Box::new(a), Box::new(b)),
        Token::Lt => Node::Compare(CmpOp::Lt, Box::new(a), Box::new(b)),
        Token::Le => Node::Compare(CmpOp::Le, Box::new(a), Box::new(b)),
        Token::Gt => Node::Compare(CmpOp::Gt, Box::new(a), Box::new(b)),
        Token::Ge => Node::Compare(CmpOp::Ge, Box::new(a), Box::new(b)),
        Token::Plus => Node::Arith(ArithOp::Add, Box::new(a), Box::new(b)),
        Token::Minus => Node::Arith(ArithOp::Sub, Box::new(a), Box::new(b)),
        Token::Star => Node::Arith(ArithOp::Mul, Box::new(a), Box::new(b)),
        Token::Slash => Node::Arith(ArithOp::Div, Box::new(a), Box::new(b)),
        _ => Node::Arith(ArithOp::Rem, Box::new(a), Box::new(b)),
    }
}

/// What is read at a place by operators that bind at least so strongly.
spec fn read_at(k: int, ts: Seq<Placed>, pos: int, end: nat) -> Parse {
    if k == 1 {
        parser::parse_or(ts, pos, end)
    } else if k == 2 {
        parser::parse_and(ts, pos, end)
    } else if k == 3 {
        parser::parse_relation(ts, pos, end)
    } else if k == 4 {
        parser::parse_add(ts, pos, end)
    } else if k == 5 {
        parser::parse_mul(ts, pos, end)
    } else {
        parser::parse_unary(ts, pos, end)
    }
}

proof fn lemma_lift(ts: Seq<Placed>, pos: int, end: nat, tree: Ast, next: int, from: int, to: int)
    requires
        1 <= to <= from <= 6,
        read_at(from, ts, pos, end) == Parse::Ok((tree, next)),
        parser::ahead(ts, pos, next),
        strength(parser::tok(ts, next)) < to || strength(parser::tok(ts, next)) >= from,
    ensures
        read_at(to, ts, pos, end) == Parse::Ok((tree, next)),
    decreases from - to,
{
    if to < from {
        let k = from - 1;
        let t = parser::tok(ts, next);
        assert(strength(t) != k);
        if k == 5 {
            assert(parser::mul_op(t) is None);
            assert(parser::parse_mul_rest(ts, next, end, tree) == Parse::Ok((tree, next)));
        } else if k == 4 {
            assert(parser::add_op(t) is None);
            assert(parser::parse_add_rest(ts, next, end, tree) == Parse::Ok((tree, next)));
        } else if k == 3 {
            assert(parser::relation_op(t) is None);
        } else if k == 2 {
            assert(parser::parse_and_rest(ts, next, end, tree) == Parse::Ok((tree, next)));
        } else {
            assert(parser::parse_or_rest(ts, next, end, tree) == Parse::Ok((tree, next)));
        }
        assert(read_at(k, ts, pos, end) == Parse::Ok((tree, next)));
        lemma_lift(ts, pos, end, tree, next, k, to);
    }
}

proof fn lemma_step(
    ts: Seq<Placed>,
    pos: int,
    end: nat,
    k: int,
    a: Ast,
    mid: int,
    b: Ast,
    next: int,
)
    requires
        1 <= k <= 5,
        read_at(k + 1, ts, pos, end) == Parse::Ok((a, mid)),
        parser::ahead(ts, pos, mid),
        strength(parser::tok(ts, mid)) == k,
        read_at(k + 1, ts, mid + 1, end) == Parse::Ok((b, next)),
        parser::ahead(ts, mid + 1, next),
        k == 3 || strength(parser::tok(ts, next)) != k,
    ensures
        read_at(k, ts, pos, end) == Parse::Ok((applied(parser::tok(ts, mid)->0, a, b), next)),
{
    let t = parser::tok(ts, mid);
    let u = parser::tok(ts, next);
    let tree = applied(t->0, a, b);
    if k == 5 {
        assert(parser::mul_op(t) is Some);
        assert(parser::mul_op(u) is None);
        assert(parser::parse_mul_rest(ts, next, end, tree) == Parse::Ok((tree, next)));
        assert(parser::parse_mul_rest(ts, mid, end, a) == Parse::Ok((tree, next)));
    } else if k == 4 {
        assert(parser::add_op(t) is Some);
        assert(parser::add_op(u) is None);
        assert(parser::parse_add_rest(ts, next, end, tree) == Parse::Ok((tree, next)));
        assert(parser::parse_add_rest(ts, mid, end, a) == Parse::Ok((tree, next)));
    } else if k == 3 {
        assert(parser::relation_op(t) is Some);
    } else if k == 2 {
        assert(parser::parse_and_rest(ts, next, end, tree) == Parse::Ok((tree, next)));
        assert(parser::parse_and_rest(ts, mid, end, a) == Parse::Ok((tree, next)));
    } else {
        assert(parser::parse_or_rest(ts, next, end, tree) == Parse::Ok((tree, next)));
        assert(parser::parse_or_rest(ts, mid, end, a) == Parse::Ok((tree, next)));
    }
}

proof fn lemma_steps(
    ts: Seq<Placed>,
    pos: int,
    end: nat,
    k: int,
    a: Ast,
    mid: int,
    b: Ast,
    next: int,
    c: Ast,
    last: int,
)
    requires
        1 <= k <= 5,
        k != 3,
        read_at(k + 1, ts, pos, end) == Parse::Ok((a, mid)),
        parser::ahead(ts, pos, mid),
        strength(parser::tok(ts, mid)) == k,
        read_at(k + 1, ts, mid + 1, end) == Parse::Ok((b, next)),
        parser::ahead(ts, mid + 1, next),
        strength(parser::tok(ts, next)) == k,
        read_at(k + 1, ts, next + 1, end) == Parse::Ok((c, last)),
        parser::ahead(ts, next + 1, last),
        strength(parser::tok(ts, last)) != k,
    ensures
        read_at(k, ts, pos, end) == Parse::Ok(
            (
                applied(
                    parser::tok(ts, next)->0,
                    applied(parser::tok(ts, mid)->0, a, b),
                    c,
                ),
                last,
            ),
        ),
{
    let t = parser::tok(ts, mid);
    let u = parser::tok(ts, next);
    let v = parser::tok(ts, last);
    let one = applied(t->0, a, b);
    let two = applied(u->0, one, c);
    if k == 5 {
        assert(parser::mul_op(t) is Some && parser::mul_op(u) is Some && parser::mul_op(v) is None);
        assert(parser::parse_mul_rest(ts, last, end, two) == Parse::Ok((two, last)));
        assert(parser::parse_mul_rest(ts, next, end, one) == Parse::Ok((two, last)));
        assert(parser::parse_mul_rest(ts, mid, end, a) == Parse::Ok((two, last)));
    } else if k == 4 {
        assert(parser::add_op(t) is Some && parser::add_op(u) is Some && parser::add_op(v) is None);
        assert(parser::parse_add_rest(ts, last, end, two) == Parse::Ok((two, last)));
        assert(parser::parse_add_rest(ts, next, end, one) == Parse::Ok((two, last)));
        assert(parser::parse_add_rest(ts, mid, end, a) == Parse::Ok((two, last)));
    } else if k == 2 {
        assert(parser::parse_and_rest(ts, last, end, two) == Parse::Ok((two, last)));
        assert(parser::parse_and_rest(ts, next, end, one) == Parse::Ok((two, last)));
        assert(parser::parse_and_rest(ts, mid, end, a) == Parse::Ok((two, last)));
    } else {
        assert(parser::parse_or_rest(ts, last, end, two) == Parse::Ok((two, last)));
        assert(parser::parse_or_rest(ts, next, end, one) == Parse::Ok((two, last)));
        assert(parser::parse_or_rest(ts, mid, end, a) == Parse::Ok((two, last)));
    }
}

/// Of two operators, the one that binds more strongly takes the operand between them; of
/// two that bind alike, the first does. There is no chain of comparisons.
pub proof fn lemma_operators_bind(
    s: Seq<char>,
    ts: Seq<Placed>,
    a: Ast,
    p: Tok,
    b: Ast,
    q: Tok,
    c: Ast,
)
    requires
        lexer::lexed(s) == Ok::<Seq<Placed>, Fault>(ts),
        grammar::bare(ts) == grammar::tokens_of(a) + seq![p] + grammar::tokens_of(b) + seq![q]
            + grammar::tokens_of(c),
        strength(Some(p)) > 0,
        strength(Some(q)) > 0,
    ensures
        strength(Some(q)) > strength(Some(p)) ==> parser::parsed_text(s) == Ok::<Ast, Fault>(
            applied(p, a, applied(q, b, c)),
        ),
        strength(Some(q)) < strength(Some(p)) ==> parser::parsed_text(s) == Ok::<Ast, Fault>(
            applied(q, applied(p, a, b), c),
        ),
        strength(Some(q)) == strength(Some(p)) && strength(Some(p)) != 3 ==> parser::parsed_text(s)
            == Ok::<Ast, Fault>(applied(q, applied(p, a, b), c)),
        strength(Some(q)) == 3 && strength(Some(p)) == 3 ==> parser::parsed_text(s) is Err,
{
    reveal(parser::parsed_text);
    let end = text::byte_len(s);
    let x = grammar::tokens_of(a);
    let y = grammar::tokens_of(b);
    let z = grammar::tokens_of(c);
    let all = x + seq![p] + y + seq![q] + z;
    assert(grammar::bare(ts).len() == ts.len());
    assert(grammar::stand_at(ts, 0, all)) by {
        assert forall|i: int| 0 <= i < all.len() implies (#[trigger] ts[0 + i]).0 == all[i] by {
            assert(grammar::bare(ts)[i] == ts[i].0);
        }
    }
    grammar::lemma_stand_split(ts, 0, x + seq![p] + y + seq![q], z);
    grammar::lemma_stand_split(ts, 0, x + seq![p] + y, seq![q]);
    grammar::lemma_stand_split(ts, 0, x + seq![p], y);
    grammar::lemma_stand_split(ts, 0, x, seq![p]);
    let m = x.len() as int;
    let n = m + 1 + y.len();
    let l = n + 1 + z.len();
    assert(ts[m + 0].0 == seq![p][0]);
    assert(ts[n + 0].0 == seq![q][0]);
    assert(parser::tok(ts, m) == Some(p));
    assert(parser::tok(ts, n) == Some(q));
    assert(parser::tok(ts, l) is None);
    grammar::lemma_reads_back(ts, 0, end, a);
    grammar::lemma_reads_back(ts, m + 1, end, b);
    grammar::lemma_reads_back(ts, n + 1, end, c);
    let sp = strength(Some(p));
    let sq = strength(Some(q));
    assert(read_at(6, ts, 0, end) == Parse::Ok((a, m)));
    assert(read_at(6, ts, m + 1, end) == Parse::Ok((b, n)));
    assert(read_at(6, ts, n + 1, end) == Parse::Ok((c, l)));
    if sq > sp {
        lemma_lift(ts, m + 1, end, b, n, 6, sq + 1);
        lemma_lift(ts, n + 1, end, c, l, 6, sq + 1);
        lemma_step(ts, m + 1, end, sq, b, n, c, l);
        let right = applied(q, b, c);
        lemma_lift(ts, m + 1, end, right, l, sq, sp + 1);
        lemma_lift(ts, 0, end, a, m, 6, sp + 1);
        lemma_step(ts, 0, end, sp, a, m, right, l);
        lemma_lift(ts, 0, end, applied(p, a, right), l, sp, 1);
    } else if sq < sp {
        lemma_lift(ts, 0, end, a, m, 6, sp + 1);
        lemma_lift(ts, m + 1, end, b, n, 6, sp + 1);
        lemma_step(ts, 0, end, sp, a, m, b, n);
        let left = applied(p, a, b);
        lemma_lift(ts, 0, end, left, n, sp, sq + 1);
        lemma_lift(ts, n + 1, end, c, l, 6, sq + 1);
        lemma_step(ts, 0, end, sq, left, n, c, l);
        lemma_lift(ts, 0, end, applied(q, left, c), l, sq, 1);
    } else {
        lemma_lift(ts, 0, end, a, m, 6, sp + 1);
        lemma_lift(ts, m + 1, end, b, n, 6, sp + 1);
        lemma_lift(ts, n + 1, end, c, l, 6, sp + 1);
        if sp != 3 {
            lemma_steps(ts, 0, end, sp, a, m, b, n, c, l);
            lemma_lift(ts, 0, end, applied(q, applied(p, a, b), c), l, sp, 1);
        } else {
            lemma_step(ts, 0, end, sp, a, m, b, n);
            lemma_lift(ts, 0, end, applied(p, a, b), n, 3, 1);
        }
    }
}

/// A minus sign binds more strongly than any operator between two operands.
pub proof fn lemma_signs_bind(
    s: Seq<char>,
    ts: Seq<Placed>,
    a: Ast,
    p: Tok,
    b: Ast,
)
    requires
        lexer::lexed(s) == Ok::<Seq<Placed>, Fault>(ts),
        grammar::bare(ts) == seq![Tok::Minus] + grammar::tokens_of(a) + seq![p]
            + grammar::tokens_of(b),
        strength(Some(p)) > 0,
    ensures
        parser::parsed_text(s) == Ok::<Ast, Fault>(applied(p, Node::Negate(Box::new(a)), b)),
{
    reveal(parser::parsed_text);
    let end = text::byte_len(s);
    let sign = seq![Tok::Minus];
    let x = grammar::tokens_of(a);
    let y = grammar::tokens_of(b);
    let all = sign + x + seq![p] + y;
    assert(grammar::bare(ts).len() == ts.len());
    assert(grammar::stand_at(ts, 0, all)) by {
        assert forall|i: int| 0 <= i < all.len() implies (#[trigger] ts[0 + i]).0 == all[i] by {
            assert(grammar::bare(ts)[i] == ts[i].0);
        }
    }
    grammar::lemma_stand_split(ts, 0, sign + x + seq![p], y);
    grammar::lemma_stand_split(ts, 0, sign + x, seq![p]);
    grammar::lemma_stand_split(ts, 0, sign, x);
    let m = 1 + x.len() as int;
    let l = m + 1 + y.len();
    let zero: int = 0;
    assert(ts[zero + 0].0 == sign[0]);
    assert(ts[m + 0].0 == seq![p][0]);
    assert(parser::tok(ts, m) == Some(p));
    assert(parser::tok(ts, l) is None);
    grammar::lemma_reads_back(ts, 1, end, a);
    grammar::lemma_reads_back(ts, m + 1, end, b);
    let k = strength(Some(p));
    let left = Node::Negate(Box::new(a));
    assert(parser::parse_unary(ts, 0, end) == Parse::Ok((left, m)));
    assert(read_at(6, ts, 0, end) == Parse::Ok((left, m)));
    assert(read_at(6, ts, m + 1, end) == Parse::Ok((b, l)));
    lemma_lift(ts, 0, end, left, m, 6, k + 1);
    lemma_lift(ts, m + 1, end, b, l, 6, k + 1);
    lemma_step(ts, 0, end, k, left, m, b, l);
    lemma_lift(ts, 0, end, applied(p, left, b), l, k, 1);
}

/// The tokens that are one character, and the operators that are two.
pub proof fn lemma_symbols(s: Seq<char>, i: int)
    requires
        0 <= i < s.len(),
    ensures
        ({
            let one = |t: Tok| lexer::lex_one(s, i) == Ok::<(Tok, int), Fault>((t, i + 1));
            let two = |t: Tok| lexer::lex_one(s, i) == Ok::<(Tok, int), Fault>((t, i + 2));
            let next = |c: char| i + 1 < s.len() && s[i + 1] == c;
            &&& s[i] == '(' ==> one(Token::LParen)
            &&& s[i] == ')' ==> one(Token::RParen)
            &&& s[i] == '+' ==> one(Token::Plus)
            &&& s[i] == '-' ==> one(Token::Minus)
            &&& s[i] == '*' ==> one(Token::Star)
            &&& s[i] == '/' ==> one(Token::Slash)
            &&& s[i] == '%' ==> one(Token::Percent)
            &&& s[i] == '<' && !next('=') ==> one(Token::Lt)
            &&& s[i] == '<' && next('=') ==> two(Token::Le)
            &&& s[i] == '>' && !next('=') ==> one(Token::Gt)
            &&& s[i] == '>' && next('=') ==> two(Token::Ge)
            &&& s[i] == '=' && next('=') ==> two(Token::EqEq)
            &&& s[i] == '!' && next('=') ==> two(Token::NotEq)
            &&& s[i] == '&' && next('&') ==> two(Token::AndAnd)
            &&& s[i] == '|' && next('|') ==> two(Token::OrOr)
            &&& (s[i] == '=' || s[i] == '!') && !next('=') ==> lexer::lex_one(s, i) is Err
            &&& s[i] == '&' && !next('&') ==> lexer::lex_one(s, i) is Err
            &&& s[i] == '|' && !next('|') ==> lexer::lex_one(s, i) is Err
        }),
{
}

proof fn lemma_run(run: lexer::Run, s: Seq<char>, i: int, j: int)
    requires
        0 <= i <= j <= s.len(),
        forall|k: int| i <= k < j ==> lexer::in_run(run, #[trigger] s[k]),
        j < s.len() ==> !lexer::in_run(run, s[j]),
    ensures
        lexer::run_end(run, s, i) == j,
    decreases j - i,
{
    if i < j {
        lemma_run(run, s, i + 1, j);
    }
}

/// A name is a letter or an underscore and what follows of letters, digits and underscores.
pub proof fn lemma_names(before: Seq<char>, name: Seq<char>, rest: Seq<char>)
    requires
        name.len() > 0,
        !('0' <= name[0] <= '9'),
        forall|k: int|
            0 <= k < name.len() ==> 'a' <= #[trigger] name[k] <= 'z' || 'A' <= name[k] <= 'Z'
                || '0' <= name[k] <= '9' || name[k] == '_',
        rest.len() > 0 ==> !('a' <= rest[0] <= 'z' || 'A' <= rest[0] <= 'Z' || '0' <= rest[0] <= '9'
            || rest[0] == '_'),
    ensures
        lexer::lex_one(before + name + rest, before.len() as int) == Ok::<(Tok, int), Fault>(
            (Token::Ident(name), (before.len() + name.len()) as int),
        ),
{
    let s = before + name + rest;
    let i = before.len() as int;
    let j = i + name.len();
    assert(s[i] == name[0]);
    assert forall|k: int| i <= k < j implies lexer::in_run(lexer::Run::Word, #[trigger] s[k]) by {
        assert(s[k] == name[k - i]);
    }
    if j < s.len() {
        assert(s[j] == rest[0]);
    }
    lemma_run(lexer::Run::Word, s, i, j);
    assert(s.subrange(i, j) =~= name);
}

/// A text in an expression is what stands between two quotes.
pub proof fn lemma_quoted_texts(before: Seq<char>, body: Seq<char>, rest: Seq<char>)
    requires
        !body.contains('\''),
    ensures
        lexer::lex_one(
            before + seq!['\''] + body + seq!['\''] + rest,
            before.len() as int,
        ) == Ok::<(Tok, int), Fault>(
            (Token::Str(body), (before.len() + body.len() + 2) as int),
        ),
{
    let s = before + seq!['\''] + body + seq!['\''] + rest;
    let i = before.len() as int;
    let j = i + 1 + body.len();
    assert(s[i] == '\'');
    assert(s[j] == '\'');
    assert forall|k: int| i + 1 <= k < j implies lexer::in_run(
        lexer::Run::Quoted,
        #[trigger] s[k],
    ) by {
        assert(s[k] == body[k - i - 1]);
    }
    lemma_run(lexer::Run::Quoted, s, i + 1, j);
    assert(s.subrange(i + 1, j) =~= body);
}

/// A number is its digits, and those behind a point where there are any.
pub proof fn lemma_numbers(
    before: Seq<char>,
    whole: Seq<char>,
    fraction: Seq<char>,
    rest: Seq<char>,
)
    requires
        whole.len() > 0,
        forall|k: int| 0 <= k < whole.len() ==> '0' <= #[trigger] whole[k] <= '9',
        forall|k: int| 0 <= k < fraction.len() ==> '0' <= #[trigger] fraction[k] <= '9',
        rest.len() > 0 ==> !('0' <= rest[0] <= '9') && rest[0] != '.',
    ensures
        ({
            let number = if fraction.len() == 0 {
                whole
            } else {
                whole + seq!['.'] + fraction
            };
            let found = lexer::lex_one(before + number + rest, before.len() as int);
            &&& decimal::parsed(number) is Some ==> found == Ok::<(Tok, int), Fault>(
                (
                    Token::Number(decimal::parsed(number)->0),
                    (before.len() + number.len()) as int,
                ),
            )
            &&& decimal::parsed(number) is None ==> found is Err
        }),
{
    let number = if fraction.len() == 0 {
        whole
    } else {
        whole + seq!['.'] + fraction
    };
    let s = before + number + rest;
    let i = before.len() as int;
    let w = i + whole.len();
    let j = i + number.len();
    assert(s[i] == whole[0]);
    assert forall|k: int| i <= k < w implies lexer::in_run(lexer::Run::Digits, #[trigger] s[k]) by {
        assert(s[k] == whole[k - i]);
    }
    if fraction.len() == 0 {
        if j < s.len() {
            assert(s[j] == rest[0]);
        }
        lemma_run(lexer::Run::Digits, s, i, w);
    } else {
        assert(s[w] == '.');
        assert(s[w + 1] == fraction[0]);
        assert forall|k: int| w + 1 <= k < j implies lexer::in_run(
            lexer::Run::Digits,
            #[trigger] s[k],
        ) by {
            assert(s[k] == fraction[k - w - 1]);
        }
        if j < s.len() {
            assert(s[j] == rest[0]);
        }
        lemma_run(lexer::Run::Digits, s, i, w);
        lemma_run(lexer::Run::Digits, s, w + 1, j);
    }
    assert(s.subrange(i, j) =~= number);
}

/// Tokens follow each other, with or without white space between them.
pub proof fn lemma_tokens_follow(s: Seq<char>, i: int, t: Tok, j: int)
    requires
        0 <= i < s.len(),
    ensures
        s[i] == ' ' || s[i] == '\t' || s[i] == '\n' ==> lexer::lex_from(s, i) == lexer::lex_from(
            s,
            i + 1,
        ),
        s[i] != ' ' && s[i] != '\t' && s[i] != '\n' && s[i] != '\x0C' && s[i] != '\r'
            && lexer::lex_one(s, i) == Ok::<(Tok, int), Fault>((t, j)) && i < j <= s.len()
            && lexer::lex_from(s, j) is Ok ==> lexer::lex_from(s, i) is Ok && grammar::bare(
            lexer::lex_from(s, i)->Ok_0,
        ) == seq![t] + grammar::bare(lexer::lex_from(s, j)->Ok_0),
        s[i] != ' ' && s[i] != '\t' && s[i] != '\n' && s[i] != '\x0C' && s[i] != '\r'
            && lexer::lex_one(s, i) is Err ==> lexer::lex_from(s, i) is Err,
{
    if !lexer::is_space(s[i]) && lexer::lex_one(s, i) == Ok::<(Tok, int), Fault>((t, j)) && i < j
        <= s.len() && lexer::lex_from(s, j) is Ok {
        let rest = lexer::lex_from(s, j)->Ok_0;
        assert(grammar::bare(lexer::lex_from(s, i)->Ok_0) =~= seq![t] + grammar::bare(rest));
    }
}

} // verus!
