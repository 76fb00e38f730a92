//! Tokenizing, parsing and evaluating arithmetic expressions.
//!
//! The grammar, with `*` and `/` binding tighter than `+` and `-`, unary
//! negation tighter still, and both binary levels left-associative:
//!
//! ```text
//! Start      -> Expression End
//! Expression -> Term { ('+' | '-') Term }
//! Term       -> Factor { ('*' | '/') Factor }
//! Factor     -> Number | '(' Expression ')' | '-' Factor
//! ```

use vstd::prelude::*;

verus! {

use crate::big_num::BigNum;
use crate::common::Value;
use crate::error::EvalError;
use crate::frac::Rat;
use crate::frac::frac_str;
use crate::frac::rat_add;
use crate::frac::rat_div;
use crate::frac::rat_int;
use crate::frac::rat_mul;
use crate::frac::rat_neg;
use crate::frac::rat_sub;
use crate::text::char_digit;
use crate::text::chars_value;
use crate::text::digit_of_char;
use crate::text::int_str;
use crate::text::is_digit_char;
use vstd::string::StrSliceExecFns;

/// A lexical token. `End` is the synthetic terminator the lexer appends once
/// at the end of the stream.
#[derive(Debug)]
pub enum Token {
    Plus,
    Dash,
    Star,
    Slash,
    RightParen,
    LeftParen,
    End,
    Number(Value),
}

/// The shape of a token as contracts speak of it, a number abstracted to the
/// rational it holds.
pub enum Lexeme {
    Plus,
    Dash,
    Star,
    Slash,
    RightParen,
    LeftParen,
    End,
    Number(Rat),
}

/// The shape of one token.
pub open spec fn token_model(t: Token) -> Lexeme {
    match t {
        Token::Plus => Lexeme::Plus,
        Token::Dash => Lexeme::Dash,
        Token::Star => Lexeme::Star,
        Token::Slash => Lexeme::Slash,
        Token::RightParen => Lexeme::RightParen,
        Token::LeftParen => Lexeme::LeftParen,
        Token::End => Lexeme::End,
        Token::Number(v) => Lexeme::Number(v.rat()),
    }
}

/// The shapes of a whole token sequence.
pub open spec fn token_models(ts: Seq<Token>) -> Seq<Lexeme> {
    ts.map_values(|t: Token| token_model(t))
}

/// A value carried by a token satisfies the numeric invariant.
pub open spec fn token_ok(t: Token) -> bool {
    match t {
        Token::Number(v) => v.wf(),
        _ => true,
    }
}

/// What the lexer guarantees of its output: at least the terminator, the
/// terminator exactly once and last, and every number in canonical form.
pub open spec fn stream_wf(ts: Seq<Token>) -> bool {
    &&& ts.len() >= 1
    &&& ts.last() is End
    &&& forall|i: int| 0 <= i < ts.len() ==> token_ok(#[trigger] ts[i])
    &&& forall|i: int| 0 <= i < ts.len() - 1 ==> !((#[trigger] ts[i]) is End)
}

/// The number of leading decimal-digit characters.
pub open spec fn digit_run_len(s: Seq<char>) -> int
    decreases s.len(),
{
    if s.len() == 0 || !is_digit_char(s[0]) {
        0
    } else {
        1 + digit_run_len(s.drop_first())
    }
}

/// The leading digit run is a well-defined prefix: its characters are digits
/// and it cannot be extended.
pub proof fn lemma_digit_run_len(s: Seq<char>)
    ensures
        0 <= digit_run_len(s) <= s.len(),
        forall|i: int| 0 <= i < digit_run_len(s) ==> is_digit_char(#[trigger] s[i]),
        digit_run_len(s) < s.len() ==> !is_digit_char(s[digit_run_len(s)]),
    decreases s.len(),
{
    if s.len() > 0 && is_digit_char(s[0]) {
        lemma_digit_run_len(s.drop_first());
        assert forall|i: int| 0 <= i < digit_run_len(s) implies is_digit_char(s[i]) by {
            if i >= 1 {
                assert(s[i] == s.drop_first()[i - 1]);
            }
        }
        if digit_run_len(s) < s.len() {
            assert(s[digit_run_len(s)] == s.drop_first()[digit_run_len(s.drop_first())]);
        }
    }
}

/// A maximal digit prefix is the leading digit run.
pub proof fn lemma_digit_run_len_unique(s: Seq<char>, k: int)
    requires
        0 <= k <= s.len(),
        forall|i: int| 0 <= i < k ==> is_digit_char(#[trigger] s[i]),
        k < s.len() ==> !is_digit_char(s[k]),
    ensures
        digit_run_len(s) == k,
    decreases k,
{
    if k == 0 {
    } else {
        assert(is_digit_char(s[0]));
        lemma_digit_run_len_unique(s.drop_first(), k - 1);
    }
}

/// Tokenization, character by character: spaces are skipped, the six
/// single-character tokens map to their shapes, a maximal digit run becomes
/// one number, and any other character is the lexical error it reports.
pub open spec fn lex_spec(s: Seq<char>) -> Result<Seq<Lexeme>, char>
    decreases s.len(),
    via lex_spec_decreases
{
    if s.len() == 0 {
        Ok(seq![])
    } else {
        let c = s[0];
        if c == ' ' {
            lex_spec(s.drop_first())
        } else if c == '+' {
            lex_cons(Lexeme::Plus, lex_spec(s.drop_first()))
        } else if c == '-' {
            lex_cons(Lexeme::Dash, lex_spec(s.drop_first()))
        } else if c == '*' {
            lex_cons(Lexeme::Star, lex_spec(s.drop_first()))
        } else if c == '/' {
            lex_cons(Lexeme::Slash, lex_spec(s.drop_first()))
        } else if c == '(' {
            lex_cons(Lexeme::LeftParen, lex_spec(s.drop_first()))
        } else if c == ')' {
            lex_cons(Lexeme::RightParen, lex_spec(s.drop_first()))
        } else if is_digit_char(c) {
            let k = digit_run_len(s);
            lex_cons(Lexeme::Number(rat_int(chars_value(s.take(k)))), lex_spec(s.skip(k)))
        } else {
            Err(c)
        }
    }
}

#[via_fn]
proof fn lex_spec_decreases(s: Seq<char>) {
    lemma_digit_run_len(s);
}

/// Prepends a lexeme to a tokenization outcome.
pub open spec fn lex_cons(l: Lexeme, rest: Result<Seq<Lexeme>, char>) -> Result<
    Seq<Lexeme>,
    char,
> {
    match rest {
        Ok(ls) => Ok(seq![l] + ls),
        Err(c) => Err(c),
    }
}

/// Negation of an evaluation outcome; an error stays an error.
pub open spec fn neg_opt(v: Option<Rat>) -> Option<Rat> {
    match v {
        Some(q) => Some(rat_neg(q)),
        None => None,
    }
}

/// Addition of evaluation outcomes; an error on either side wins.
pub open spec fn add_opt(a: Option<Rat>, b: Option<Rat>) -> Option<Rat> {
    match (a, b) {
        (Some(x), Some(y)) => Some(rat_add(x, y)),
        _ => None,
    }
}

/// Subtraction of evaluation outcomes; an error on either side wins.
pub open spec fn sub_opt(a: Option<Rat>, b: Option<Rat>) -> Option<Rat> {
    match (a, b) {
        (Some(x), Some(y)) => Some(rat_sub(x, y)),
        _ => None,
    }
}

/// Multiplication of evaluation outcomes; an error on either side wins.
pub open spec fn mul_opt(a: Option<Rat>, b: Option<Rat>) -> Option<Rat> {
    match (a, b) {
        (Some(x), Some(y)) => Some(rat_mul(x, y)),
        _ => None,
    }
}

/// Division of evaluation outcomes; a zero divisor is an error.
pub open spec fn div_opt(a: Option<Rat>, b: Option<Rat>) -> Option<Rat> {
    match (a, b) {
        (Some(x), Some(y)) => if y.num == 0 {
            None
        } else {
            Some(rat_div(x, y))
        },
        _ => None,
    }
}

/// What one step of recursive descent produces: a parse failure, or the
/// value of the consumed phrase (with a division by zero recorded as `None`)
/// together with the position just past it.
pub enum ParseStep {
    Fail,
    Step(Option<Rat>, int),
}

/// What a whole parse produces.
pub enum ParseOutcome {
    Fail,
    Done(Option<Rat>),
}

/// Grammar rule `Factor -> Number | '(' Expression ')' | '-' Factor`, with
/// its value.
pub open spec fn sp_primary(t: Seq<Lexeme>, i: int) -> ParseStep
    decreases t.len() - i, 0int,
{
    if i < 0 || i >= t.len() {
        ParseStep::Fail
    } else {
        match t[i] {
            Lexeme::Number(q) => ParseStep::Step(Some(q), i + 1),
            Lexeme::LeftParen => match sp_expression(t, i + 1) {
                ParseStep::Step(v, j) => if 0 <= j < t.len() && t[j] is RightParen {
                    ParseStep::Step(v, j + 1)
                } else {
                    ParseStep::Fail
                },
                ParseStep::Fail => ParseStep::Fail,
            },
            Lexeme::Dash => match sp_factor(t, i + 1) {
                ParseStep::Step(v, j) => ParseStep::Step(neg_opt(v), j),
                ParseStep::Fail => ParseStep::Fail,
            },
            _ => ParseStep::Fail,
        }
    }
}

/// A factor is a primary expression.
pub open spec fn sp_factor(t: Seq<Lexeme>, i: int) -> ParseStep
    decreases t.len() - i, 1int,
{
    sp_primary(t, i)
}

/// Grammar rule `Term -> Factor { ('*' | '/') Factor }`, left-associative.
pub open spec fn sp_term(t: Seq<Lexeme>, i: int) -> ParseStep
    decreases t.len() - i, 2int,
{
    match sp_factor(t, i) {
        ParseStep::Step(v, j) => if i < j <= t.len() {
            sp_term_rest(t, v, j)
        } else {
            ParseStep::Fail
        },
        ParseStep::Fail => ParseStep::Fail,
    }
}

/// The left-associative tail of a term.
pub open spec fn sp_term_rest(t: Seq<Lexeme>, acc: Option<Rat>, i: int) -> ParseStep
    decreases t.len() - i, 3int,
{
    if i < 0 || i >= t.len() {
        ParseStep::Fail
    } else if t[i] is Star {
        match sp_factor(t, i + 1) {
            ParseStep::Step(v, j) => if i + 1 < j <= t.len() {
                sp_term_rest(t, mul_opt(acc, v), j)
            } else {
                ParseStep::Fail
            },
            ParseStep::Fail => ParseStep::Fail,
        }
    } else if t[i] is Slash {
        match sp_factor(t, i + 1) {
            ParseStep::Step(v, j) => if i + 1 < j <= t.len() {
                sp_term_rest(t, div_opt(acc, v), j)
            } else {
                ParseStep::Fail
            },
            ParseStep::Fail => ParseStep::Fail,
        }
    } else {
        ParseStep::Step(acc, i)
    }
}

/// Grammar rule `Expression -> Term { ('+' | '-') Term }`, left-associative.
pub open spec fn sp_expression(t: Seq<Lexeme>, i: int) -> ParseStep
    decreases t.len() - i, 4int,
{
    match sp_term(t, i) {
        ParseStep::Step(v, j) => if i < j <= t.len() {
            sp_expr_rest(t, v, j)
        } else {
            ParseStep::Fail
        },
        ParseStep::Fail => ParseStep::Fail,
    }
}

/// The left-associative tail of an expression.
pub open spec fn sp_expr_rest(t: Seq<Lexeme>, acc: Option<Rat>, i: int) -> ParseStep
    decreases t.len() - i, 5int,
{
    if i < 0 || i >= t.len() {
        ParseStep::Fail
    } else if t[i] is Plus {
        match sp_term(t, i + 1) {
            ParseStep::Step(v, j) => if i + 1 < j <= t.len() {
                sp_expr_rest(t, add_opt(acc, v), j)
            } else {
                ParseStep::Fail
            },
            ParseStep::Fail => ParseStep::Fail,
        }
    } else if t[i] is Dash {
        match sp_term(t, i + 1) {
            ParseStep::Step(v, j) => if i + 1 < j <= t.len() {
                sp_expr_rest(t, sub_opt(acc, v), j)
            } else {
                ParseStep::Fail
            },
            ParseStep::Fail => ParseStep::Fail,
        }
    } else {
        ParseStep::Step(acc, i)
    }
}

/// Grammar rule `Start -> Expression End`, with the expression's value.
pub open spec fn sp_parse(t: Seq<Lexeme>) -> ParseOutcome {
    match sp_expression(t, 0) {
        ParseStep::Step(v, j) => if 0 <= j < t.len() && t[j] is End {
            ParseOutcome::Done(v)
        } else {
            ParseOutcome::Fail
        },
        ParseStep::Fail => ParseOutcome::Fail,
    }
}

/// An operator of the expression language.
#[derive(Debug)]
pub enum Operator {
    Add,
    Multiply,
    Divide,
    Subtract,
    Negative,
}

/// A parsed expression: a binary operation, a unary negation, or a literal
/// value.
#[derive(Debug)]
pub enum Expr {
    BinExpr(Operator, Box<Expr>, Box<Expr>),
    UnaryExpr(Operator, Box<Expr>),
    ValExpr(Value),
}

/// Shape of the trees the parser builds: negation is the only unary operator
/// and never a binary one, and every literal satisfies the numeric invariant.
pub open spec fn expr_wf(e: Expr) -> bool
    decreases e,
{
    match e {
        Expr::ValExpr(v) => v.wf(),
        Expr::UnaryExpr(op, inner) => op is Negative && expr_wf(*inner),
        Expr::BinExpr(op, l, r) => !(op is Negative) && expr_wf(*l) && expr_wf(*r),
    }
}

/// The value a tree evaluates to; `None` records a division by zero.
pub open spec fn eval_expr_spec(e: Expr) -> Option<Rat>
    decreases e,
{
    match e {
        Expr::ValExpr(v) => Some(v.rat()),
        Expr::UnaryExpr(_, inner) => neg_opt(eval_expr_spec(*inner)),
        Expr::BinExpr(op, l, r) => {
            let lv = eval_expr_spec(*l);
            let rv = eval_expr_spec(*r);
            match op {
                Operator::Add => add_opt(lv, rv),
                Operator::Subtract => sub_opt(lv, rv),
                Operator::Multiply => mul_opt(lv, rv),
                Operator::Divide => div_opt(lv, rv),
                Operator::Negative => None,
            }
        },
    }
}

impl Expr {
    /// Walks the tree and computes its value. The divisor of every division
    /// is evaluated first and checked: a zero divisor stops the whole
    /// evaluation with a division-by-zero error, and that is the only
    /// possible failure.
    pub fn eval(&self) -> (r: Result<Value, EvalError>)
        requires
            expr_wf(*self),
        ensures
            match eval_expr_spec(*self) {
                Some(q) => r is Ok && r.unwrap().wf() && r.unwrap().rat() == q,
                None => r == Err::<Value, EvalError>(EvalError::DivisionByZero),
            },
        decreases self,
    {
        match self {
            Expr::ValExpr(v) => Ok(v.clone()),
            Expr::UnaryExpr(_, inner) => match inner.eval() {
                Ok(v) => Ok(v.neg()),
                Err(e) => Err(e),
            },
            Expr::BinExpr(op, l, r) => match op {
                Operator::Divide => {
                    let rv = match r.eval() {
                        Ok(v) => v,
                        Err(e) => {
                            return Err(e);
                        },
                    };
                    if rv.is_zero() {
                        return Err(EvalError::DivisionByZero);
                    }
                    let lv = match l.eval() {
                        Ok(v) => v,
                        Err(e) => {
                            return Err(e);
                        },
                    };
                    match lv.div(&rv) {
                        Ok(v) => Ok(v),
                        Err(e) => {
                            proof {
                                assert(false);
                            }
                            Err(e)
                        },
                    }
                },
                Operator::Add => {
                    let lv = match l.eval() {
                        Ok(v) => v,
                        Err(e) => {
                            return Err(e);
                        },
                    };
                    let rv = match r.eval() {
                        Ok(v) => v,
                        Err(e) => {
                            return Err(e);
                        },
                    };
                    Ok(lv.add(&rv))
                },
                Operator::Subtract => {
                    let lv = match l.eval() {
                        Ok(v) => v,
                        Err(e) => {
                            return Err(e);
                        },
                    };
                    let rv = match r.eval() {
                        Ok(v) => v,
                        Err(e) => {
                            return Err(e);
                        },
                    };
                    Ok(lv.sub(&rv))
                },
                Operator::Multiply => {
                    let lv = match l.eval() {
                        Ok(v) => v,
                        Err(e) => {
                            return Err(e);
                        },
                    };
                    let rv = match r.eval() {
                        Ok(v) => v,
                        Err(e) => {
                            return Err(e);
                        },
                    };
                    Ok(lv.mul(&rv))
                },
                Operator::Negative => {
                    proof {
                        assert(false);
                    }
                    Err(EvalError::ParseError)
                },
            },
        }
    }
}

/// Turns source text into tokens, terminated by `End`. Whitespace is
/// skipped, the six operator and parenthesis characters become their tokens,
/// a maximal run of decimal digits becomes one integer number token, and any
/// other character fails with a lexical error naming it.
pub fn lex(code: String) -> (r: Result<Vec<Token>, EvalError>)
    ensures
        match lex_spec(code@) {
            Ok(lx) => r is Ok && stream_wf(r.unwrap()@) && token_models(r.unwrap()@) == lx.push(
                Lexeme::End,
            ),
            Err(c) => r == Err::<Vec<Token>, EvalError>(EvalError::LexError(c)),
        },
{
    let s = code.as_str();
    let n = s.unicode_len();
    let mut tokens: Vec<Token> = Vec::new();
    let mut i: usize = 0;
    proof {
        assert(s@.skip(0) =~= s@);
    }
    while i < n
        invariant
            i <= n,
            n as nat == s@.len(),
            s@ == code@,
            forall|k: int|
                0 <= k < tokens@.len() ==> token_ok(#[trigger] tokens@[k]) && !(tokens@[k] is End),
            match lex_spec(s@.skip(i as int)) {
                Ok(rest) => lex_spec(s@) == Ok::<Seq<Lexeme>, char>(token_models(tokens@) + rest),
                Err(c) => lex_spec(s@) == Err::<Seq<Lexeme>, char>(c),
            },
        decreases n - i,
    {
        let ghost i0 = i as int;
        let ghost toks0 = tokens@;
        let c = s.get_char(i);
        if c == ' ' {
            i = i + 1;
            proof {
                assert(s@.skip(i0).drop_first() =~= s@.skip(i as int));
            }
        } else if c == '+' {
            tokens.push(Token::Plus);
            i = i + 1;
            proof {
                assert(s@.skip(i0)[0] == s@[i0]);
                assert(s@.skip(i0).drop_first() =~= s@.skip(i0 + 1));
                lemma_lex_push(s@, toks0, Token::Plus, i0);
            }
        } else if c == '-' {
            tokens.push(Token::Dash);
            i = i + 1;
            proof {
                assert(s@.skip(i0)[0] == s@[i0]);
                assert(s@.skip(i0).drop_first() =~= s@.skip(i0 + 1));
                lemma_lex_push(s@, toks0, Token::Dash, i0);
            }
        } else if c == '*' {
            tokens.push(Token::Star);
            i = i + 1;
            proof {
                assert(s@.skip(i0)[0] == s@[i0]);
                assert(s@.skip(i0).drop_first() =~= s@.skip(i0 + 1));
                lemma_lex_push(s@, toks0, Token::Star, i0);
            }
        } else if c == '/' {
            tokens.push(Token::Slash);
            i = i + 1;
            proof {
                assert(s@.skip(i0)[0] == s@[i0]);
                assert(s@.skip(i0).drop_first() =~= s@.skip(i0 + 1));
                lemma_lex_push(s@, toks0, Token::Slash, i0);
            }
        } else if c == '(' {
            tokens.push(Token::LeftParen);
            i = i + 1;
            proof {
                assert(s@.skip(i0)[0] == s@[i0]);
                assert(s@.skip(i0).drop_first() =~= s@.skip(i0 + 1));
                lemma_lex_push(s@, toks0, Token::LeftParen, i0);
            }
        } else if c == ')' {
            tokens.push(Token::RightParen);
            i = i + 1;
            proof {
                assert(s@.skip(i0)[0] == s@[i0]);
                assert(s@.skip(i0).drop_first() =~= s@.skip(i0 + 1));
                lemma_lex_push(s@, toks0, Token::RightParen, i0);
            }
        } else {
            let first = match char_digit(c) {
                Some(d) => d,
                None => {
                    return Err(EvalError::LexError(c));
                },
            };
            let mut digits: Vec<u8> = Vec::new();
            digits.push(first);
            let mut j: usize = i + 1;
            let mut running: bool = true;
            proof {
                let one_char = s@.subrange(i0, i0 + 1);
                assert(one_char =~= seq![s@[i0]]);
                assert(one_char.drop_last() =~= Seq::<char>::empty());
                assert(chars_value(one_char) == chars_value(one_char.drop_last()) * 10
                    + digit_of_char(one_char.last()));
                assert(digits@.drop_last() =~= Seq::<u8>::empty());
                assert(crate::digits::digits_value(digits@) == crate::digits::digits_value(
                    digits@.drop_last(),
                ) * 10 + digits@.last());
            }
            while running
                invariant
                    i < j <= n,
                    n as nat == s@.len(),
                    crate::digits::all_digits(digits@),
                    digits@.len() == j - i,
                    forall|k: int| i <= k < j ==> is_digit_char(#[trigger] s@[k]),
                    forall|k: int|
                        0 <= k < digits@.len() ==> digits@[k] == digit_of_char(s@[i + k]),
                    crate::digits::digits_value(digits@) == chars_value(
                        s@.subrange(i as int, j as int),
                    ),
                    !running ==> (j == n || !is_digit_char(s@[j as int])),
                decreases n - j + (if running {
                    1int
                } else {
                    0int
                }),
            {
                if j < n {
                    let c2 = s.get_char(j);
                    match char_digit(c2) {
                        Some(d) => {
                            let ghost dv0 = digits@;
                            digits.push(d);
                            j = j + 1;
                            proof {
                                crate::digits::lemma_value_push(dv0, d);
                                let part = s@.subrange(i as int, j as int);
                                assert(part.drop_last() =~= s@.subrange(i as int, j as int - 1));
                                assert(part.last() == s@[j as int - 1]);
                                assert(chars_value(part) == chars_value(part.drop_last()) * 10
                                    + digit_of_char(part.last()));
                            }
                        },
                        None => {
                            running = false;
                        },
                    }
                } else {
                    running = false;
                }
            }
            let number = BigNum::from(digits, true);
            let value = Value::Number(number);
            let ghost q = value.rat();
            tokens.push(Token::Number(value));
            let ghost kk = j - i0;
            proof {
                let suffix = s@.skip(i0);
                lemma_digit_run_len_unique(suffix, kk);
                assert(suffix.take(kk) =~= s@.subrange(i0, j as int));
                assert(suffix.skip(kk) =~= s@.skip(j as int));
                assert(q == rat_int(chars_value(suffix.take(kk))));
                lemma_lex_push_number(s@, toks0, q, i0, kk);
            }
            i = j;
        }
    }
    proof {
        assert(s@.skip(n as int) =~= Seq::<char>::empty());
    }
    let ghost payload = tokens@;
    tokens.push(Token::End);
    proof {
        if lex_spec(s@) is Ok {
            assert(token_models(payload) + Seq::<Lexeme>::empty() =~= token_models(payload));
            assert(token_models(tokens@) =~= token_models(payload).push(Lexeme::End));
        }
    }
    Ok(tokens)
}

/// One single-character token keeps the running tokenization aligned with its
/// specification.
proof fn lemma_lex_push(s: Seq<char>, toks: Seq<Token>, t: Token, i: int)
    requires
        0 <= i < s.len(),
        lex_spec(s.skip(i)) == lex_cons(token_model(t), lex_spec(s.skip(i + 1))),
        match lex_spec(s.skip(i)) {
            Ok(rest) => lex_spec(s) == Ok::<Seq<Lexeme>, char>(token_models(toks) + rest),
            Err(c) => lex_spec(s) == Err::<Seq<Lexeme>, char>(c),
        },
    ensures
        match lex_spec(s.skip(i + 1)) {
            Ok(rest) => lex_spec(s) == Ok::<Seq<Lexeme>, char>(token_models(toks.push(t)) + rest),
            Err(c) => lex_spec(s) == Err::<Seq<Lexeme>, char>(c),
        },
{
    match lex_spec(s.skip(i + 1)) {
        Ok(rest) => {
            assert(token_models(toks) + (seq![token_model(t)] + rest) =~= token_models(
                toks.push(t),
            ) + rest);
        },
        Err(_) => {
        },
    }
}

/// One number token keeps the running tokenization aligned with its
/// specification.
proof fn lemma_lex_push_number(s: Seq<char>, toks: Seq<Token>, q: Rat, i: int, k: int)
    requires
        0 <= i < s.len(),
        is_digit_char(s[i]),
        digit_run_len(s.skip(i)) == k,
        1 <= k <= s.len() - i,
        q == rat_int(chars_value(s.skip(i).take(k))),
        match lex_spec(s.skip(i)) {
            Ok(rest) => lex_spec(s) == Ok::<Seq<Lexeme>, char>(token_models(toks) + rest),
            Err(c) => lex_spec(s) == Err::<Seq<Lexeme>, char>(c),
        },
    ensures
        match lex_spec(s.skip(i + k)) {
            Ok(rest) => forall|v: Value, ts: Seq<Token>|
                v.rat() == q && ts == toks.push(Token::Number(v)) ==> lex_spec(s) == Ok::<
                    Seq<Lexeme>,
                    char,
                >(token_models(ts) + rest),
            Err(c) => lex_spec(s) == Err::<Seq<Lexeme>, char>(c),
        },
{
    let suffix = s.skip(i);
    assert(suffix[0] == s[i]);
    assert(suffix.skip(k) =~= s.skip(i + k));
    assert(lex_spec(suffix) == lex_cons(Lexeme::Number(q), lex_spec(s.skip(i + k))));
    match lex_spec(s.skip(i + k)) {
        Ok(rest) => {
            assert forall|v: Value, ts: Seq<Token>|
                v.rat() == q && ts == toks.push(Token::Number(v)) implies lex_spec(s) == Ok::<
                Seq<Lexeme>,
                char,
            >(token_models(ts) + rest) by {
                assert(token_models(toks) + (seq![Lexeme::Number(q)] + rest) =~= token_models(ts)
                    + rest);
            }
        },
        Err(_) => {
        },
    }
}

/// Parses one factor of the grammar: a number, a parenthesized expression,
/// or a negated factor.
fn primary(tokens: &Vec<Token>, pos: usize) -> (r: Result<(Expr, usize), EvalError>)
    requires
        stream_wf(tokens@),
        pos < tokens@.len(),
    ensures
        match sp_primary(token_models(tokens@), pos as int) {
            ParseStep::Step(v, j) => r is Ok && r.unwrap().1 as int == j && pos < r.unwrap().1
                < tokens@.len() && expr_wf(r.unwrap().0) && eval_expr_spec(r.unwrap().0) == v,
            ParseStep::Fail => r == Err::<(Expr, usize), EvalError>(EvalError::ParseError),
        },
    decreases tokens@.len() - pos, 0int,
{
    let n: usize = tokens.len();
    let ghost m = token_models(tokens@);
    proof {
        assert(pos < n);
        assert(m[pos as int] == token_model(tokens@[pos as int]));
        assert(token_ok(tokens@[pos as int]));
    }
    match &tokens[pos] {
        Token::Number(v) => {
            let val = v.clone();
            Ok((Expr::ValExpr(val), pos + 1))
        },
        Token::LeftParen => {
            let inner = match expression(tokens, pos + 1) {
                Ok(p) => p,
                Err(e) => {
                    return Err(e);
                },
            };
            proof {
                assert(m[inner.1 as int] == token_model(tokens@[inner.1 as int]));
            }
            match &tokens[inner.1] {
                Token::RightParen => Ok((inner.0, inner.1 + 1)),
                _ => Err(EvalError::ParseError),
            }
        },
        Token::Dash => {
            let inner = match factor(tokens, pos + 1) {
                Ok(p) => p,
                Err(e) => {
                    return Err(e);
                },
            };
            Ok((Expr::UnaryExpr(Operator::Negative, Box::new(inner.0)), inner.1))
        },
        _ => Err(EvalError::ParseError),
    }
}

/// Parses one factor; a factor is a primary expression.
fn factor(tokens: &Vec<Token>, pos: usize) -> (r: Result<(Expr, usize), EvalError>)
    requires
        stream_wf(tokens@),
        pos < tokens@.len(),
    ensures
        match sp_factor(token_models(tokens@), pos as int) {
            ParseStep::Step(v, j) => r is Ok && r.unwrap().1 as int == j && pos < r.unwrap().1
                < tokens@.len() && expr_wf(r.unwrap().0) && eval_expr_spec(r.unwrap().0) == v,
            ParseStep::Fail => r == Err::<(Expr, usize), EvalError>(EvalError::ParseError),
        },
    decreases tokens@.len() - pos, 1int,
{
    primary(tokens, pos)
}

/// Parses one term: a factor followed by any number of `*` or `/` factors,
/// grouped to the left.
fn term(tokens: &Vec<Token>, pos: usize) -> (r: Result<(Expr, usize), EvalError>)
    requires
        stream_wf(tokens@),
        pos < tokens@.len(),
    ensures
        match sp_term(token_models(tokens@), pos as int) {
            ParseStep::Step(v, j) => r is Ok && r.unwrap().1 as int == j && pos < r.unwrap().1
                < tokens@.len() && expr_wf(r.unwrap().0) && eval_expr_spec(r.unwrap().0) == v,
            ParseStep::Fail => r == Err::<(Expr, usize), EvalError>(EvalError::ParseError),
        },
    decreases tokens@.len() - pos, 2int,
{
    let n: usize = tokens.len();
    let ghost m = token_models(tokens@);
    let first = match factor(tokens, pos) {
        Ok(p) => p,
        Err(e) => {
            return Err(e);
        },
    };
    let mut expr = first.0;
    let mut cur: usize = first.1;
    let mut done: bool = false;
    while !done
        invariant
            stream_wf(tokens@),
            m == token_models(tokens@),
            n as int == tokens@.len(),
            pos < cur < tokens@.len(),
            expr_wf(expr),
            sp_term(m, pos as int) == sp_term_rest(m, eval_expr_spec(expr), cur as int),
            done ==> !(m[cur as int] is Star) && !(m[cur as int] is Slash),
        decreases tokens@.len() - cur + (if done {
            0int
        } else {
            1int
        }),
    {
        proof {
            assert(m[cur as int] == token_model(tokens@[cur as int]));
        }
        match &tokens[cur] {
            Token::Star => {
                let rhs = match factor(tokens, cur + 1) {
                    Ok(p) => p,
                    Err(e) => {
                        return Err(e);
                    },
                };
                expr = Expr::BinExpr(Operator::Multiply, Box::new(expr), Box::new(rhs.0));
                cur = rhs.1;
            },
            Token::Slash => {
                let rhs = match factor(tokens, cur + 1) {
                    Ok(p) => p,
                    Err(e) => {
                        return Err(e);
                    },
                };
                expr = Expr::BinExpr(Operator::Divide, Box::new(expr), Box::new(rhs.0));
                cur = rhs.1;
            },
            _ => {
                done = true;
            },
        }
    }
    Ok((expr, cur))
}

/// Parses one expression: a term followed by any number of `+` or `-` terms,
/// grouped to the left.
fn expression(tokens: &Vec<Token>, pos: usize) -> (r: Result<(Expr, usize), EvalError>)
    requires
        stream_wf(tokens@),
        pos < tokens@.len(),
    ensures
        match sp_expression(token_models(tokens@), pos as int) {
            ParseStep::Step(v, j) => r is Ok && r.unwrap().1 as int == j && pos < r.unwrap().1
                < tokens@.len() && expr_wf(r.unwrap().0) && eval_expr_spec(r.unwrap().0) == v,
            ParseStep::Fail => r == Err::<(Expr, usize), EvalError>(EvalError::ParseError),
        },
    decreases tokens@.len() - pos, 3int,
{
    let n: usize = tokens.len();
    let ghost m = token_models(tokens@);
    let first = match term(tokens, pos) {
        Ok(p) => p,
        Err(e) => {
            return Err(e);
        },
    };
    let mut expr = first.0;
    let mut cur: usize = first.1;
    let mut done: bool = false;
    while !done
        invariant
            stream_wf(tokens@),
            m == token_models(tokens@),
            n as int == tokens@.len(),
            pos < cur < tokens@.len(),
            expr_wf(expr),
            sp_expression(m, pos as int) == sp_expr_rest(m, eval_expr_spec(expr), cur as int),
            done ==> !(m[cur as int] is Plus) && !(m[cur as int] is Dash),
        decreases tokens@.len() - cur + (if done {
            0int
        } else {
            1int
        }),
    {
        proof {
            assert(m[cur as int] == token_model(tokens@[cur as int]));
        }
        match &tokens[cur] {
            Token::Plus => {
                let rhs = match term(tokens, cur + 1) {
                    Ok(p) => p,
                    Err(e) => {
                        return Err(e);
                    },
                };
                expr = Expr::BinExpr(Operator::Add, Box::new(expr), Box::new(rhs.0));
                cur = rhs.1;
            },
            Token::Dash => {
                let rhs = match term(tokens, cur + 1) {
                    Ok(p) => p,
                    Err(e) => {
                        return Err(e);
                    },
                };
                expr = Expr::BinExpr(Operator::Subtract, Box::new(expr), Box::new(rhs.0));
                cur = rhs.1;
            },
            _ => {
                done = true;
            },
        }
    }
    Ok((expr, cur))
}

/// A recursive-descent parser over a token stream.
pub struct Parser {
    tokens: Vec<Token>,
    pos: usize,
}

impl Parser {
    /// The shapes of the tokens this parser reads.
    pub closed spec fn model(self) -> Seq<Lexeme> {
        token_models(self.tokens@)
    }

    /// A parser over a well-formed stream, still at the first token.
    pub closed spec fn ready(self) -> bool {
        &&& stream_wf(self.tokens@)
        &&& self.pos == 0
    }

    /// Wraps a token stream, positioned at its first token.
    pub fn new(tokens: Vec<Token>) -> (r: Parser)
        ensures
            r.model() == token_models(tokens@),
            stream_wf(tokens@) ==> r.ready(),
    {
        Parser { tokens, pos: 0 }
    }

    /// Consumes the next token if it has the expected shape and fails with a
    /// parse error otherwise, also when the stream is exhausted.
    fn assert_next(&mut self, token: Token) -> (r: Result<(), EvalError>)
        requires
            !(token is Number),
            old(self).pos <= old(self).tokens@.len(),
        ensures
            final(self).tokens == old(self).tokens,
            match r {
                Ok(_) => old(self).pos < old(self).tokens@.len() && token_model(
                    old(self).tokens@[old(self).pos as int],
                ) == token_model(token) && final(self).pos == old(self).pos + 1,
                Err(e) => e == EvalError::ParseError && final(self).pos == old(self).pos && (old(
                    self,
                ).pos == old(self).tokens@.len() || token_model(
                    old(self).tokens@[old(self).pos as int],
                ) != token_model(token)),
            },
    {
        if self.pos >= self.tokens.len() {
            return Err(EvalError::ParseError);
        }
        let found = match (&self.tokens[self.pos], &token) {
            (Token::Plus, Token::Plus) => true,
            (Token::Dash, Token::Dash) => true,
            (Token::Star, Token::Star) => true,
            (Token::Slash, Token::Slash) => true,
            (Token::LeftParen, Token::LeftParen) => true,
            (Token::RightParen, Token::RightParen) => true,
            (Token::End, Token::End) => true,
            _ => false,
        };
        if found {
            self.pos = self.pos + 1;
            Ok(())
        } else {
            Err(EvalError::ParseError)
        }
    }

    /// Parses one whole expression and demands that nothing but the
    /// terminator follows it. On success the tree's value is the one the
    /// grammar prescribes for the stream.
    pub fn parse(&mut self) -> (r: Result<Expr, EvalError>)
        requires
            old(self).ready(),
        ensures
            match sp_parse(old(self).model()) {
                ParseOutcome::Done(v) => r is Ok && expr_wf(r.unwrap()) && eval_expr_spec(
                    r.unwrap(),
                ) == v,
                ParseOutcome::Fail => r == Err::<Expr, EvalError>(EvalError::ParseError),
            },
    {
        let ast = match expression(&self.tokens, self.pos) {
            Ok(p) => p,
            Err(e) => {
                return Err(e);
            },
        };
        self.pos = ast.1;
        match self.assert_next(Token::End) {
            Ok(_) => Ok(ast.0),
            Err(e) => Err(e),
        }
    }
}

/// What evaluating an expression text must yield: each stage's failure is
/// reported as its error, and a successful evaluation prints the exact
/// canonical rendering of the rational the grammar prescribes.
pub open spec fn eval_to_string_post(input: Seq<char>, r: Result<String, EvalError>) -> bool {
    match lex_spec(input) {
        Err(c) => r == Err::<String, EvalError>(EvalError::LexError(c)),
        Ok(lx) => match sp_parse(lx.push(Lexeme::End)) {
            ParseOutcome::Fail => r == Err::<String, EvalError>(EvalError::ParseError),
            ParseOutcome::Done(None) => r == Err::<String, EvalError>(EvalError::DivisionByZero),
            ParseOutcome::Done(Some(q)) => r is Ok && r.unwrap()@ == (if q.den == 1 {
                int_str(q.num)
            } else {
                frac_str(q)
            }),
        },
    }
}

/// Evaluates an arithmetic expression to its canonical textual result:
/// tokenize, parse, evaluate, render.
pub fn eval_to_string(input: String) -> (r: Result<String, EvalError>)
    ensures
        eval_to_string_post(input@, r),
{
    let tokens = match lex(input) {
        Ok(t) => t,
        Err(e) => {
            return Err(e);
        },
    };
    let mut parser = Parser::new(tokens);
    let ast = match parser.parse() {
        Ok(a) => a,
        Err(e) => {
            return Err(e);
        },
    };
    let value = match ast.eval() {
        Ok(v) => v,
        Err(e) => {
            return Err(e);
        },
    };
    Ok(value.to_string())
}

} // verus!
