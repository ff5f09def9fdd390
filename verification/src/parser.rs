use vstd::prelude::*;
use crate::ast::{Expr, ExprError, ExprErrorView, ExprView};
use crate::lex::{
    token_views, Constance, Delimiters, Literals, LiteralsView, Operator, Token, TokenView,
};
use crate::number::{e_numeral, pi_numeral, Numeral};

verus! {

/// The outcome of parsing from some position, to the specifications: the
/// expression and the number of tokens it took, or the error.
pub type Parsed = Result<(ExprView, nat), ExprErrorView>;

/// The token at `pos`, if there is one.
pub open spec fn token_at(ts: Seq<TokenView>, pos: nat) -> Option<TokenView> {
    if pos < ts.len() {
        Some(ts[pos as int])
    } else {
        None
    }
}

/// The number of tokens from `pos` on.
pub open spec fn remaining(ts: Seq<TokenView>, pos: nat) -> nat {
    if pos <= ts.len() {
        (ts.len() - pos) as nat
    } else {
        0
    }
}

/// `+` or `-`, where `t` is one of them.
pub open spec fn additive_operator(t: Option<TokenView>) -> Option<Operator> {
    match t {
        Some(TokenView::Operator(Operator::Plus)) => Some(Operator::Plus),
        Some(TokenView::Operator(Operator::Minus)) => Some(Operator::Minus),
        _ => None,
    }
}

/// `*`, `/` or `%`, where `t` is one of them.
pub open spec fn multiplicative_operator(t: Option<TokenView>) -> Option<Operator> {
    match t {
        Some(TokenView::Operator(Operator::Star)) => Some(Operator::Star),
        Some(TokenView::Operator(Operator::Slash)) => Some(Operator::Slash),
        Some(TokenView::Operator(Operator::Percent)) => Some(Operator::Percent),
        _ => None,
    }
}

/// Whether `t` is the opening parenthesis.
pub open spec fn is_open(t: Option<TokenView>) -> bool {
    t == Some(TokenView::Delimiters(Delimiters::LParen))
}

/// Whether `t` is the closing parenthesis.
pub open spec fn is_close(t: Option<TokenView>) -> bool {
    t == Some(TokenView::Delimiters(Delimiters::RParen))
}

/// Whether `t` is the caret.
pub open spec fn is_caret(t: Option<TokenView>) -> bool {
    t == Some(TokenView::Operator(Operator::Caret))
}

/// `r` with `k` more tokens taken before it.
pub open spec fn after(k: nat, r: Parsed) -> Parsed {
    match r {
        Ok((e, n)) => Ok((e, k + n)),
        Err(x) => Err(x),
    }
}

/// A factor at `pos`: a parenthesised expression, a function applied to a
/// factor, the negation of a factor, a constant or a number.
pub open spec fn factor_at(ts: Seq<TokenView>, pos: nat) -> Parsed
    decreases remaining(ts, pos), 0nat,
{
    match token_at(ts, pos) {
        None => Err(ExprErrorView::ExprInvalidFactor(None)),
        Some(TokenView::Delimiters(Delimiters::LParen)) => match additive_at(ts, pos + 1) {
            Ok((e, n)) => if is_close(token_at(ts, pos + 1 + n)) {
                Ok((e, n + 2))
            } else {
                Err(ExprErrorView::ExprInvalidParenthes)
            },
            Err(x) => Err(x),
        },
        Some(TokenView::Function(f)) => match factor_at(ts, pos + 1) {
            Ok((e, n)) => Ok((ExprView::Function(f, Box::new(e)), n + 1)),
            Err(x) => Err(x),
        },
        Some(TokenView::Operator(Operator::Minus)) => match factor_at(ts, pos + 1) {
            Ok((e, n)) => Ok((ExprView::Neg(Box::new(e)), n + 1)),
            Err(x) => Err(x),
        },
        Some(TokenView::Literals(LiteralsView::Constance(Constance::PI))) => Ok(
            (ExprView::Constance(pi_numeral()), 1),
        ),
        Some(TokenView::Literals(LiteralsView::Constance(Constance::E))) => Ok(
            (ExprView::Constance(e_numeral()), 1),
        ),
        Some(TokenView::Literals(LiteralsView::Number(v))) => Ok((ExprView::Constance(v), 1)),
        Some(t) => Err(ExprErrorView::ExprInvalidFactor(Some(t))),
    }
}

/// What follows a power term whose value so far is `acc`: each `^` with the
/// factor after it, taken from the left.
pub open spec fn power_rest(ts: Seq<TokenView>, pos: nat, acc: ExprView) -> Parsed
    decreases remaining(ts, pos), 1nat,
{
    if is_caret(token_at(ts, pos)) {
        match factor_at(ts, pos + 1) {
            Ok((e, n)) => after(
                1 + n,
                power_rest(
                    ts,
                    pos + 1 + n,
                    ExprView::BinOp(Operator::Caret, Box::new(acc), Box::new(e)),
                ),
            ),
            Err(x) => Err(x),
        }
    } else {
        Ok((acc, 0))
    }
}

/// A power term at `pos`: factors joined by `^`.
pub open spec fn power_at(ts: Seq<TokenView>, pos: nat) -> Parsed
    decreases remaining(ts, pos), 2nat,
{
    match factor_at(ts, pos) {
        Ok((e, n)) => after(n, power_rest(ts, pos + n, e)),
        Err(x) => Err(x),
    }
}

/// What follows a term whose value so far is `acc`: each parenthesised
/// group that stands directly behind it multiplies it.
pub open spec fn implicit_rest(ts: Seq<TokenView>, pos: nat, acc: ExprView) -> Parsed
    decreases remaining(ts, pos), 3nat,
{
    if is_open(token_at(ts, pos)) {
        match additive_at(ts, pos + 1) {
            Ok((e, n)) => if is_close(token_at(ts, pos + 1 + n)) {
                after(
                    n + 2,
                    implicit_rest(
                        ts,
                        pos + n + 2,
                        ExprView::BinOp(Operator::Star, Box::new(acc), Box::new(e)),
                    ),
                )
            } else {
                Err(ExprErrorView::ExprInvalidParenthes)
            },
            Err(x) => Err(x),
        }
    } else {
        Ok((acc, 0))
    }
}

/// A power term at `pos` with the parenthesised groups that multiply it.
pub open spec fn implicit_at(ts: Seq<TokenView>, pos: nat) -> Parsed
    decreases remaining(ts, pos), 4nat,
{
    match power_at(ts, pos) {
        Ok((e, n)) => after(n, implicit_rest(ts, pos + n, e)),
        Err(x) => Err(x),
    }
}

/// What follows a product whose value so far is `acc`: each `*`, `/` or `%`
/// with the term after it, taken from the left.
pub open spec fn multiplicative_rest(ts: Seq<TokenView>, pos: nat, acc: ExprView) -> Parsed
    decreases remaining(ts, pos), 5nat,
{
    match multiplicative_operator(token_at(ts, pos)) {
        Some(op) => match implicit_at(ts, pos + 1) {
            Ok((e, n)) => after(
                1 + n,
                multiplicative_rest(
                    ts,
                    pos + 1 + n,
                    ExprView::BinOp(op, Box::new(acc), Box::new(e)),
                ),
            ),
            Err(x) => Err(x),
        },
        None => Ok((acc, 0)),
    }
}

/// A product at `pos`: terms joined by `*`, `/` and `%`.
pub open spec fn multiplicative_at(ts: Seq<TokenView>, pos: nat) -> Parsed
    decreases remaining(ts, pos), 6nat,
{
    match implicit_at(ts, pos) {
        Ok((e, n)) => after(n, multiplicative_rest(ts, pos + n, e)),
        Err(x) => Err(x),
    }
}

/// What follows a sum whose value so far is `acc`: each `+` or `-` with the
/// product after it, taken from the left.
pub open spec fn additive_rest(ts: Seq<TokenView>, pos: nat, acc: ExprView) -> Parsed
    decreases remaining(ts, pos), 7nat,
{
    match additive_operator(token_at(ts, pos)) {
        Some(op) => match multiplicative_at(ts, pos + 1) {
            Ok((e, n)) => after(
                1 + n,
                additive_rest(ts, pos + 1 + n, ExprView::BinOp(op, Box::new(acc), Box::new(e))),
            ),
            Err(x) => Err(x),
        },
        None => Ok((acc, 0)),
    }
}

/// A sum at `pos`: products joined by `+` and `-`. This is a whole
/// expression.
pub open spec fn additive_at(ts: Seq<TokenView>, pos: nat) -> Parsed
    decreases remaining(ts, pos), 8nat,
{
    match multiplicative_at(ts, pos) {
        Ok((e, n)) => after(n, additive_rest(ts, pos + n, e)),
        Err(x) => Err(x),
    }
}

/// The expression that the tokens start with, or the first error met.
/// Tokens behind the expression are not looked at.
pub open spec fn parse(ts: Seq<TokenView>) -> Result<ExprView, ExprErrorView> {
    match additive_at(ts, 0) {
        Ok((e, _)) => Ok(e),
        Err(x) => Err(x),
    }
}

/// Whether `r`, returned for the position `pos` of `len` tokens, is the
/// outcome `spec`: the same expression with the position behind it, or the
/// same error.
pub open spec fn parsed_as(
    r: Result<(Expr, usize), ExprError>,
    pos: usize,
    len: usize,
    spec: Parsed,
) -> bool {
    match r {
        Ok((e, next)) => pos <= next <= len && spec == Ok::<(ExprView, nat), ExprErrorView>(
            (e@, (next - pos) as nat),
        ),
        Err(x) => spec == Err::<(ExprView, nat), ExprErrorView>(x@),
    }
}

/// `+` or `-`, where the token at `pos` is one of them.
fn additive_op(tokens: &[Token], pos: usize) -> (r: Option<Operator>)
    ensures
        r == additive_operator(token_at(token_views(tokens@), pos as nat)),
{
    if pos < tokens.len() {
        match &tokens[pos] {
            Token::Operator(Operator::Plus) => Some(Operator::Plus),
            Token::Operator(Operator::Minus) => Some(Operator::Minus),
            _ => None,
        }
    } else {
        None
    }
}

/// `*`, `/` or `%`, where the token at `pos` is one of them.
fn multiplicative_op(tokens: &[Token], pos: usize) -> (r: Option<Operator>)
    ensures
        r == multiplicative_operator(token_at(token_views(tokens@), pos as nat)),
{
    if pos < tokens.len() {
        match &tokens[pos] {
            Token::Operator(Operator::Star) => Some(Operator::Star),
            Token::Operator(Operator::Slash) => Some(Operator::Slash),
            Token::Operator(Operator::Percent) => Some(Operator::Percent),
            _ => None,
        }
    } else {
        None
    }
}

/// Whether the token at `pos` is the opening parenthesis.
fn at_open(tokens: &[Token], pos: usize) -> (b: bool)
    ensures
        b == is_open(token_at(token_views(tokens@), pos as nat)),
{
    if pos < tokens.len() {
        match &tokens[pos] {
            Token::Delimiters(Delimiters::LParen) => true,
            _ => false,
        }
    } else {
        false
    }
}

/// Whether the token at `pos` is the closing parenthesis.
fn at_close(tokens: &[Token], pos: usize) -> (b: bool)
    ensures
        b == is_close(token_at(token_views(tokens@), pos as nat)),
{
    if pos < tokens.len() {
        match &tokens[pos] {
            Token::Delimiters(Delimiters::RParen) => true,
            _ => false,
        }
    } else {
        false
    }
}

/// Whether the token at `pos` is the caret.
fn at_caret(tokens: &[Token], pos: usize) -> (b: bool)
    ensures
        b == is_caret(token_at(token_views(tokens@), pos as nat)),
{
    if pos < tokens.len() {
        match &tokens[pos] {
            Token::Operator(Operator::Caret) => true,
            _ => false,
        }
    } else {
        false
    }
}

/// Reads a sum at `pos`; gives it with the position behind it.
fn additive_expr(tokens: &[Token], pos: usize) -> (r: Result<(Expr, usize), ExprError>)
    requires
        pos <= tokens.len(),
    ensures
        parsed_as(r, pos, tokens.len(), additive_at(token_views(tokens@), pos as nat)),
    decreases tokens.len() - pos, 8nat,
{
    let ghost ts = token_views(tokens@);
    let (mut expr, mut p) = multiplicative_expr(tokens, pos)?;
    loop
        invariant
            ts == token_views(tokens@),
            pos <= p <= tokens.len(),
            additive_at(ts, pos as nat) == after(
                (p - pos) as nat,
                additive_rest(ts, p as nat, expr@),
            ),
        decreases tokens.len() - p,
    {
        match additive_op(tokens, p) {
            Some(op) => {
                let (next_expr, q) = multiplicative_expr(tokens, p + 1)?;
                expr = Expr::BinOp(op, Box::new(expr), Box::new(next_expr));
                p = q;
            },
            None => {
                return Ok((expr, p));
            },
        }
    }
}

/// Reads a product at `pos`; gives it with the position behind it.
fn multiplicative_expr(tokens: &[Token], pos: usize) -> (r: Result<(Expr, usize), ExprError>)
    requires
        pos <= tokens.len(),
    ensures
        parsed_as(r, pos, tokens.len(), multiplicative_at(token_views(tokens@), pos as nat)),
    decreases tokens.len() - pos, 6nat,
{
    let ghost ts = token_views(tokens@);
    let (mut expr, mut p) = parenthetical_multiplicative_expr(tokens, pos)?;
    loop
        invariant
            ts == token_views(tokens@),
            pos <= p <= tokens.len(),
            multiplicative_at(ts, pos as nat) == after(
                (p - pos) as nat,
                multiplicative_rest(ts, p as nat, expr@),
            ),
        decreases tokens.len() - p,
    {
        match multiplicative_op(tokens, p) {
            Some(op) => {
                let (new_expr, q) = parenthetical_multiplicative_expr(tokens, p + 1)?;
                expr = Expr::BinOp(op, Box::new(expr), Box::new(new_expr));
                p = q;
            },
            None => {
                return Ok((expr, p));
            },
        }
    }
}

/// Reads a term at `pos` with the parenthesised groups that multiply it:
/// `a(b)` is `a*(b)`.
fn parenthetical_multiplicative_expr(tokens: &[Token], pos: usize) -> (r: Result<
    (Expr, usize),
    ExprError,
>)
    requires
        pos <= tokens.len(),
    ensures
        parsed_as(r, pos, tokens.len(), implicit_at(token_views(tokens@), pos as nat)),
    decreases tokens.len() - pos, 4nat,
{
    let ghost ts = token_views(tokens@);
    let (mut expr, mut p) = power_expr(tokens, pos)?;
    loop
        invariant
            ts == token_views(tokens@),
            pos <= p <= tokens.len(),
            implicit_at(ts, pos as nat) == after(
                (p - pos) as nat,
                implicit_rest(ts, p as nat, expr@),
            ),
        decreases tokens.len() - p,
    {
        if at_open(tokens, p) {
            let (new_expr, q) = additive_expr(tokens, p + 1)?;
            if at_close(tokens, q) {
                expr = Expr::BinOp(Operator::Star, Box::new(expr), Box::new(new_expr));
                p = q + 1;
            } else {
                return Err(ExprError::ExprInvalidParenthes);
            }
        } else {
            return Ok((expr, p));
        }
    }
}

/// Reads a power term at `pos`; gives it with the position behind it.
fn power_expr(tokens: &[Token], pos: usize) -> (r: Result<(Expr, usize), ExprError>)
    requires
        pos <= tokens.len(),
    ensures
        parsed_as(r, pos, tokens.len(), power_at(token_views(tokens@), pos as nat)),
    decreases tokens.len() - pos, 2nat,
{
    let ghost ts = token_views(tokens@);
    let (mut expr, mut p) = factor(tokens, pos)?;
    loop
        invariant
            ts == token_views(tokens@),
            pos <= p <= tokens.len(),
            power_at(ts, pos as nat) == after((p - pos) as nat, power_rest(ts, p as nat, expr@)),
        decreases tokens.len() - p,
    {
        if at_caret(tokens, p) {
            let (new_expr, q) = factor(tokens, p + 1)?;
            expr = Expr::BinOp(Operator::Caret, Box::new(expr), Box::new(new_expr));
            p = q;
        } else {
            return Ok((expr, p));
        }
    }
}

/// Reads a factor at `pos`; gives it with the position behind it.
fn factor(tokens: &[Token], pos: usize) -> (r: Result<(Expr, usize), ExprError>)
    requires
        pos <= tokens.len(),
    ensures
        parsed_as(r, pos, tokens.len(), factor_at(token_views(tokens@), pos as nat)),
    decreases tokens.len() - pos, 0nat,
{
    if pos >= tokens.len() {
        return Err(ExprError::ExprInvalidFactor(None));
    }
    match &tokens[pos] {
        Token::Delimiters(Delimiters::LParen) => {
            let (expr, q) = additive_expr(tokens, pos + 1)?;
            if at_close(tokens, q) {
                Ok((expr, q + 1))
            } else {
                Err(ExprError::ExprInvalidParenthes)
            }
        },
        Token::Function(fun) => {
            let (expr, q) = factor(tokens, pos + 1)?;
            Ok((Expr::Function(*fun, Box::new(expr)), q))
        },
        Token::Operator(Operator::Minus) => {
            let (expr, q) = factor(tokens, pos + 1)?;
            Ok((Expr::Neg(Box::new(expr)), q))
        },
        Token::Literals(Literals::Constance(Constance::PI)) => Ok(
            (Expr::Constance(Numeral::pi()), pos + 1),
        ),
        Token::Literals(Literals::Constance(Constance::E)) => Ok(
            (Expr::Constance(Numeral::e()), pos + 1),
        ),
        Token::Literals(Literals::Number(v)) => Ok((Expr::Constance(v.clone()), pos + 1)),
        t => Err(ExprError::ExprInvalidFactor(Some(t.clone()))),
    }
}

/// Parses the expression that `tokens` start with. The grammar, from the
/// loosest binding to the tightest: sums of products; products of terms; a
/// term followed by parenthesised groups, which multiply it; powers, which
/// group from the left; factors. Tokens behind the expression are ignored.
pub fn expr_parser(tokens: &[Token]) -> (r: Result<Expr, ExprError>)
    ensures
        r matches Ok(e) ==> parse(token_views(tokens@)) == Ok::<ExprView, ExprErrorView>(e@),
        r matches Err(x) ==> parse(token_views(tokens@)) == Err::<ExprView, ExprErrorView>(x@),
{
    match additive_expr(tokens, 0) {
        Ok((e, _)) => Ok(e),
        Err(x) => Err(x),
    }
}

} // verus!
