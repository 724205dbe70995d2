//! Splitting an expression into tokens.
use crate::decimal;
use crate::decimal::{Dec, Decimal};
use crate::expr::{ExprError, Fault};
use crate::text;
use vstd::prelude::*;

verus! {

/// A token, over the kinds of number and of text that it holds.
pub enum Token<N, S> {
    Number(N),
    Str(S),
    Ident(S),
    LParen,
    RParen,
    LBracket,
    RBracket,
    Comma,
    Dot,
    Plus,
    Minus,
    Star,
    Slash,
    Percent,
    EqEq,
    NotEq,
    Lt,
    Le,
    Gt,
    Ge,
    AndAnd,
    OrOr,
}

/// What a token is.
pub type Tok = Token<Dec, Seq<char>>;

impl View for Token<Decimal, String> {
    type V = Tok;

    open spec fn view(&self) -> Tok {
        match self {
            Token::Number(d) => Token::Number(d@),
            Token::Str(s) => Token::Str(s@),
            Token::Ident(s) => Token::Ident(s@),
            Token::LParen => Token::LParen,
            Token::RParen => Token::RParen,
            Token::LBracket => Token::LBracket,
            Token::RBracket => Token::RBracket,
            Token::Comma => Token::Comma,
            Token::Dot => Token::Dot,
            Token::Plus => Token::Plus,
            Token::Minus => Token::Minus,
            Token::Star => Token::Star,
            Token::Slash => Token::Slash,
            Token::Percent => Token::Percent,
            Token::EqEq => Token::EqEq,
            Token::NotEq => Token::NotEq,
            Token::Lt => Token::Lt,
            Token::Le => Token::Le,
            Token::Gt => Token::Gt,
            Token::Ge => Token::Ge,
            Token::AndAnd => Token::AndAnd,
            Token::OrOr => Token::OrOr,
        }
    }
}

/// A token and the byte at which it begins.
pub struct Spanned {
    pub token: Token<Decimal, String>,
    pub position: usize,
}

/// What a token with its place is.
pub type Placed = (Tok, nat);

impl View for Spanned {
    type V = Placed;

    open spec fn view(&self) -> Placed {
        (self.token@, self.position as nat)
    }
}

impl DeepView for Spanned {
    type V = Placed;

    open spec fn deep_view(&self) -> Placed {
        self@
    }
}

/// How a token is written in a message.
pub open spec fn token_text(t: Tok) -> Seq<char> {
    match t {
        Token::Number(d) => decimal::written(d),
        Token::Str(s) => "'"@ + s + "'"@,
        Token::Ident(s) => s,
        Token::LParen => "("@,
        Token::RParen => ")"@,
        Token::LBracket => "["@,
        Token::RBracket => "]"@,
        Token::Comma => ","@,
        Token::Dot => "."@,
        Token::Plus => "+"@,
        Token::Minus => "-"@,
        Token::Star => "*"@,
        Token::Slash => "/"@,
        Token::Percent => "%"@,
        Token::EqEq => "=="@,
        Token::NotEq => "!="@,
        Token::Lt => "<"@,
        Token::Le => "<="@,
        Token::Gt => ">"@,
        Token::Ge => ">="@,
        Token::AndAnd => "&&"@,
        Token::OrOr => "||"@,
    }
}

impl Token<Decimal, String> {
    /// The token as messages write it.
    pub fn to_text(&self) -> (r: String)
        ensures
            r@ == token_text(self@),
    {
        match self {
            Token::Number(d) => d.write_text(),
            Token::Str(s) => {
                let mut r = "'".to_owned();
                text::push_text(&mut r, s.as_str());
                text::push_text(&mut r, "'");
                r
            },
            Token::Ident(s) => s.clone(),
            Token::LParen => "(".to_owned(),
            Token::RParen => ")".to_owned(),
            Token::LBracket => "[".to_owned(),
            Token::RBracket => "]".to_owned(),
            Token::Comma => ",".to_owned(),
            Token::Dot => ".".to_owned(),
            Token::Plus => "+".to_owned(),
            Token::Minus => "-".to_owned(),
            Token::Star => "*".to_owned(),
            Token::Slash => "/".to_owned(),
            Token::Percent => "%".to_owned(),
            Token::EqEq => "==".to_owned(),
            Token::NotEq => "!=".to_owned(),
            Token::Lt => "<".to_owned(),
            Token::Le => "<=".to_owned(),
            Token::Gt => ">".to_owned(),
            Token::Ge => ">=".to_owned(),
            Token::AndAnd => "&&".to_owned(),
            Token::OrOr => "||".to_owned(),
        }
    }
}

/// White space between tokens: space, tab, line feed, form feed and carriage
/// return.
pub open spec fn is_space(c: char) -> bool {
    c == ' ' || c == '\t' || c == '\n' || c == '\x0C' || c == '\r'
}

/// A letter, or an underscore.
pub open spec fn is_word_start(c: char) -> bool {
    ('a' <= c && c <= 'z') || ('A' <= c && c <= 'Z') || c == '_'
}

/// A letter, a digit, or an underscore.
pub open spec fn is_word(c: char) -> bool {
    is_word_start(c) || decimal::is_digit(c)
}

/// The kinds of characters that run on.
#[derive(Clone, Copy, PartialEq, Eq, Structural)]
pub enum Run {
    Digits,
    Word,
    Quoted,
}

/// Whether a character belongs to a run.
pub open spec fn in_run(run: Run, c: char) -> bool {
    match run {
        Run::Digits => decimal::is_digit(c),
        Run::Word => is_word(c),
        Run::Quoted => c != '\'',
    }
}

/// Where the run that begins at `i` ends.
pub open spec fn run_end(run: Run, s: Seq<char>, i: int) -> int
    decreases s.len() - i,
{
    if 0 <= i < s.len() && in_run(run, s[i]) {
        run_end(run, s, i + 1)
    } else {
        i
    }
}

/// Where the number that begins at `i` ends: digits, and a point with digits
/// behind it.
pub open spec fn number_end(s: Seq<char>, i: int) -> int {
    let w = run_end(Run::Digits, s, i);
    if w + 1 < s.len() && s[w] == '.' && decimal::is_digit(s[w + 1]) {
        run_end(Run::Digits, s, w + 1)
    } else {
        w
    }
}

/// The tokens that are one character by themselves.
pub open spec fn single(c: char) -> Option<Tok> {
    if c == '(' {
        Some(Token::LParen)
    } else if c == ')' {
        Some(Token::RParen)
    } else if c == '[' {
        Some(Token::LBracket)
    } else if c == ']' {
        Some(Token::RBracket)
    } else if c == ',' {
        Some(Token::Comma)
    } else if c == '.' {
        Some(Token::Dot)
    } else if c == '+' {
        Some(Token::Plus)
    } else if c == '-' {
        Some(Token::Minus)
    } else if c == '*' {
        Some(Token::Star)
    } else if c == '/' {
        Some(Token::Slash)
    } else if c == '%' {
        Some(Token::Percent)
    } else {
        None
    }
}

pub open spec fn syntax_at(s: Seq<char>, i: int, message: Seq<char>) -> Fault {
    Fault::Syntax { message, position: text::byte_len(s.take(i)) }
}

/// The token that begins at `i`, and where it ends.
pub open spec fn lex_one(s: Seq<char>, i: int) -> Result<(Tok, int), Fault> {
    let c = s[i];
    let eq = i + 1 < s.len() && s[i + 1] == '=';
    if single(c) is Some {
        Ok((single(c)->0, i + 1))
    } else if c == '\'' {
        let j = run_end(Run::Quoted, s, i + 1);
        if j < s.len() {
            Ok((Token::Str(s.subrange(i + 1, j)), j + 1))
        } else {
            Err(syntax_at(s, i, "unterminated string literal (missing closing `'`)"@))
        }
    } else if decimal::is_digit(c) {
        let j = number_end(s, i);
        match decimal::parsed(s.subrange(i, j)) {
            Some(d) => Ok((Token::Number(d), j)),
            None => Err(
                syntax_at(s, i, "invalid numeric literal `"@ + s.subrange(i, j) + "`"@),
            ),
        }
    } else if is_word_start(c) {
        let j = run_end(Run::Word, s, i);
        Ok((Token::Ident(s.subrange(i, j)), j))
    } else if c == '=' {
        if eq {
            Ok((Token::EqEq, i + 2))
        } else {
            Err(syntax_at(s, i, "unexpected `=`; use `==` for equality"@))
        }
    } else if c == '!' {
        if eq {
            Ok((Token::NotEq, i + 2))
        } else {
            Err(syntax_at(s, i, "unexpected `!`; use `!=` for inequality"@))
        }
    } else if c == '<' {
        if eq {
            Ok((Token::Le, i + 2))
        } else {
            Ok((Token::Lt, i + 1))
        }
    } else if c == '>' {
        if eq {
            Ok((Token::Ge, i + 2))
        } else {
            Ok((Token::Gt, i + 1))
        }
    } else if c == '&' {
        if i + 1 < s.len() && s[i + 1] == '&' {
            Ok((Token::AndAnd, i + 2))
        } else {
            Err(syntax_at(s, i, "unexpected `&`; use `&&` for logical and"@))
        }
    } else if c == '|' {
        if i + 1 < s.len() && s[i + 1] == '|' {
            Ok((Token::OrOr, i + 2))
        } else {
            Err(syntax_at(s, i, "unexpected `|`; use `||` for logical or"@))
        }
    } else {
        Err(syntax_at(s, i, "unexpected character `"@ + seq![c] + "`"@))
    }
}

/// The tokens from `i` on, or the first fault.
pub open spec fn lex_from(s: Seq<char>, i: int) -> Result<Seq<Placed>, Fault>
    decreases s.len() - i,
{
    if i < 0 || i >= s.len() {
        Ok(Seq::empty())
    } else if is_space(s[i]) {
        lex_from(s, i + 1)
    } else {
        match lex_one(s, i) {
            Err(f) => Err(f),
            Ok((t, j)) => if !(i < j <= s.len()) {
                Ok(Seq::empty())
            } else {
                match lex_from(s, j) {
                    Err(f) => Err(f),
                    Ok(rest) => Ok(seq![(t, text::byte_len(s.take(i)))] + rest),
                }
            },
        }
    }
}

/// The tokens of an expression, or the first fault.
pub open spec fn lexed(s: Seq<char>) -> Result<Seq<Placed>, Fault> {
    lex_from(s, 0)
}

/// What was read before `rest`.
spec fn after(read: Seq<Placed>, rest: Result<Seq<Placed>, Fault>) -> Result<Seq<Placed>, Fault> {
    match rest {
        Err(f) => Err(f),
        Ok(more) => Ok(read + more),
    }
}

proof fn lemma_run_end(run: Run, s: Seq<char>, i: int)
    requires
        0 <= i <= s.len(),
    ensures
        i <= run_end(run, s, i) <= s.len(),
        i < s.len() && in_run(run, s[i]) ==> i < run_end(run, s, i),
    decreases s.len() - i,
{
    if i < s.len() && in_run(run, s[i]) {
        lemma_run_end(run, s, i + 1);
    }
}

fn belongs(run: Run, c: char) -> (r: bool)
    ensures
        r == in_run(run, c),
{
    match run {
        Run::Digits => '0' <= c && c <= '9',
        Run::Word => ('a' <= c && c <= 'z') || ('A' <= c && c <= 'Z') || c == '_' || ('0' <= c && c
            <= '9'),
        Run::Quoted => c != '\'',
    }
}

/// Where the run that begins at `i` ends.
fn find_run_end(run: Run, s: &Vec<char>, i: usize) -> (r: usize)
    requires
        i <= s@.len(),
    ensures
        r == run_end(run, s@, i as int),
        i <= r <= s@.len(),
{
    let mut j: usize = i;
    while j < s.len() && belongs(run, s[j])
        invariant
            i <= j <= s@.len(),
            run_end(run, s@, i as int) == run_end(run, s@, j as int),
        decreases s@.len() - j,
    {
        j = j + 1;
    }
    j
}

fn single_token(c: char) -> (r: Option<Token<Decimal, String>>)
    ensures
        match r {
            Some(t) => single(c) == Some(t@),
            None => single(c) is None,
        },
{
    match c {
        '(' => Some(Token::LParen),
        ')' => Some(Token::RParen),
        '[' => Some(Token::LBracket),
        ']' => Some(Token::RBracket),
        ',' => Some(Token::Comma),
        '.' => Some(Token::Dot),
        '+' => Some(Token::Plus),
        '-' => Some(Token::Minus),
        '*' => Some(Token::Star),
        '/' => Some(Token::Slash),
        '%' => Some(Token::Percent),
        _ => None,
    }
}

fn syntax(message: String, position: usize) -> (r: ExprError)
    ensures
        r@ == (Fault::Syntax { message: message@, position: position as nat }),
{
    ExprError::Syntax { message, position }
}

/// The characters of a part.
fn part(s: &Vec<char>, i: usize, j: usize) -> (r: String)
    requires
        i <= j <= s@.len(),
    ensures
        r@ == s@.subrange(i as int, j as int),
{
    let mut r = String::new();
    let mut k: usize = i;
    while k < j
        invariant
            i <= k <= j <= s@.len(),
            r@ == s@.subrange(i as int, k as int),
        decreases j - k,
    {
        r.push(s[k]);
        k = k + 1;
        proof {
            assert(s@.subrange(i as int, k as int) =~= s@.subrange(i as int, k - 1).push(
                s@[k - 1],
            ));
        }
    }
    r
}

/// The token of two characters where `second` follows, else what `alone` says.
fn pair(
    s: &Vec<char>,
    i: usize,
    second: char,
    both: Token<Decimal, String>,
    alone: Result<Token<Decimal, String>, ExprError>,
) -> (r: Result<(Token<Decimal, String>, usize), ExprError>)
    requires
        i < s@.len(),
    ensures
        if i + 1 < s@.len() && s@[i + 1] == second {
            r == Ok::<(Token<Decimal, String>, usize), ExprError>((both, (i + 2) as usize))
        } else {
            match alone {
                Ok(t) => r == Ok::<(Token<Decimal, String>, usize), ExprError>(
                    (t, (i + 1) as usize),
                ),
                Err(e) => r == Err::<(Token<Decimal, String>, usize), ExprError>(e),
            }
        },
{
    proof {
        assert(s@.len() == s.len());
    }
    if i + 1 < s.len() && s[i + 1] == second {
        Ok((both, i + 2))
    } else {
        match alone {
            Ok(t) => Ok((t, i + 1)),
            Err(e) => Err(e),
        }
    }
}

/// The token that begins at `i`, which is the byte `start`.
fn read_token(s: &Vec<char>, i: usize, start: usize) -> (r: Result<
    (Token<Decimal, String>, usize),
    ExprError,
>)
    requires
        i < s@.len(),
        start == text::byte_len(s@.take(i as int)),
    ensures
        match r {
            Ok((t, j)) => lex_one(s@, i as int) == Ok::<(Tok, int), Fault>((t@, j as int)) && i < j
                <= s@.len(),
            Err(e) => lex_one(s@, i as int) == Err::<(Tok, int), Fault>(e@),
        },
{
    let c: char = s[i];
    proof {
        assert(s@.len() == s.len());
    }
    match single_token(c) {
        Some(t) => {
            return Ok((t, i + 1));
        },
        None => {},
    }
    if c == '\'' {
        let end: usize = find_run_end(Run::Quoted, s, i + 1);
        if end < s.len() {
            return Ok((Token::Str(part(s, i + 1, end)), end + 1));
        }
        return Err(
            syntax("unterminated string literal (missing closing `'`)".to_owned(), start),
        );
    }
    if belongs(Run::Digits, c) {
        proof {
            lemma_run_end(Run::Digits, s@, i as int);
        }
        let mut j: usize = find_run_end(Run::Digits, s, i);
        if j < s.len() && j + 1 < s.len() && s[j] == '.' && belongs(Run::Digits, s[j + 1]) {
            j = find_run_end(Run::Digits, s, j + 1);
        }
        let literal = part(s, i, j);
        return match Decimal::parse(literal.as_str()) {
            Some(d) => Ok((Token::Number(d), j)),
            None => Err(
                syntax(text::around("invalid numeric literal `", literal.as_str(), "`"), start),
            ),
        };
    }
    if belongs(Run::Word, c) {
        proof {
            lemma_run_end(Run::Word, s@, i as int);
        }
        let j: usize = find_run_end(Run::Word, s, i);
        return Ok((Token::Ident(part(s, i, j)), j));
    }
    match c {
        '=' => pair(
            s,
            i,
            '=',
            Token::EqEq,
            Err(syntax("unexpected `=`; use `==` for equality".to_owned(), start)),
        ),
        '!' => pair(
            s,
            i,
            '=',
            Token::NotEq,
            Err(syntax("unexpected `!`; use `!=` for inequality".to_owned(), start)),
        ),
        '<' => pair(s, i, '=', Token::Le, Ok(Token::Lt)),
        '>' => pair(s, i, '=', Token::Ge, Ok(Token::Gt)),
        '&' => pair(
            s,
            i,
            '&',
            Token::AndAnd,
            Err(syntax("unexpected `&`; use `&&` for logical and".to_owned(), start)),
        ),
        '|' => pair(
            s,
            i,
            '|',
            Token::OrOr,
            Err(syntax("unexpected `|`; use `||` for logical or".to_owned(), start)),
        ),
        _ => {
            let mut message = "unexpected character `".to_owned();
            message.push(c);
            text::push_text(&mut message, "`");
            proof {
                assert(message@ =~= "unexpected character `"@ + seq![c] + "`"@);
            }
            Err(syntax(message, start))
        },
    }
}

/// Splits an expression into tokens. Every character belongs to a token or is
/// white space; anything else is a syntax error that names the character.
pub fn lex(src: &str) -> (r: Result<Vec<Spanned>, ExprError>)
    ensures
        match r {
            Ok(tokens) => lexed(src@) == Ok::<Seq<Placed>, Fault>(tokens.deep_view()),
            Err(e) => lexed(src@) == Err::<Seq<Placed>, Fault>(e@),
        },
{
    let s = text::to_chars(src);
    let total: usize = text::text_bytes(src);
    let mut out: Vec<Spanned> = Vec::new();
    let mut i: usize = 0;
    let mut at: usize = 0;
    proof {
        assert(s@.take(0) =~= Seq::empty());
        assert(lexed(s@) == after(out.deep_view(), lex_from(s@, 0))) by {
            match lex_from(s@, 0) {
                Ok(more) => {
                    assert(out.deep_view() + more =~= more);
                },
                Err(f) => {},
            }
        }
    }
    while i < s.len()
        invariant
            s@ == src@,
            i <= s@.len(),
            at == text::byte_len(s@.take(i as int)),
            total == text::byte_len(s@),
            lexed(s@) == after(out.deep_view(), lex_from(s@, i as int)),
        decreases s@.len() - i,
    {
        let c: char = s[i];
        if c == ' ' || c == '\t' || c == '\n' || c == '\x0C' || c == '\r' {
            proof {
                text::lemma_byte_len_take(s@, i as int);
            }
            at = at + text::char_width(c);
            i = i + 1;
        } else {
            let ghost before = out.deep_view();
            match read_token(&s, i, at) {
                Ok((token, next)) => {
                    let ghost t = token@;
                    out.push(Spanned { token, position: at });
                    proof {
                        assert(out.deep_view() =~= before.push((t, at as nat)));
                        match lex_from(s@, next as int) {
                            Ok(more) => {
                                assert(before + (seq![(t, at as nat)] + more) =~= out.deep_view()
                                    + more);
                            },
                            Err(f) => {},
                        }
                    }
                    let mut k: usize = i;
                    while k < next
                        invariant
                            i <= k <= next <= s@.len(),
                            at == text::byte_len(s@.take(k as int)),
                            total == text::byte_len(s@),
                        decreases next - k,
                    {
                        proof {
                            text::lemma_byte_len_take(s@, k as int);
                        }
                        at = at + text::char_width(s[k]);
                        k = k + 1;
                    }
                    i = next;
                },
                Err(e) => {
                    return Err(e);
                },
            }
        }
    }
    proof {
        assert(out.deep_view() + Seq::<Placed>::empty() =~= out.deep_view());
    }
    Ok(out)
}

} // verus!
