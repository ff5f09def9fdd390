use vstd::prelude::*;
use crate::ast::{ExprErrorView, ExprView};
use crate::evaluate::{operator_char, render};
use crate::lex::{
    char_class, number_end, preceded_by, scan, scan_from, symbol, CharClass,
    Delimiters, Function, LiteralsView, Operator, Scanned, TokenErrorView, TokenView,
};
use crate::number::{
    digits_end, is_canonical, is_digit, is_number_char, law_canonical_is_fixed, lemma_digits_end,
};
use crate::parser::{
    additive_at, additive_operator, additive_rest, factor_at, implicit_at, implicit_rest,
    is_caret, is_close, is_open, multiplicative_at, multiplicative_operator,
    multiplicative_rest, parse, power_at, power_rest, token_at,
};

verus! {

/// A factor that no `^` follows is a whole power term.
pub proof fn law_factor_alone_is_a_power(ts: Seq<TokenView>, pos: nat, e: ExprView, n: nat)
    requires
        factor_at(ts, pos) == Ok::<(ExprView, nat), ExprErrorView>((e, n)),
        !is_caret(token_at(ts, pos + n)),
    ensures
        power_at(ts, pos) == Ok::<(ExprView, nat), ExprErrorView>((e, n)),
{
}

/// A power term that no opening parenthesis follows is a whole term.
pub proof fn law_power_alone_is_a_term(ts: Seq<TokenView>, pos: nat, e: ExprView, n: nat)
    requires
        power_at(ts, pos) == Ok::<(ExprView, nat), ExprErrorView>((e, n)),
        !is_open(token_at(ts, pos + n)),
    ensures
        implicit_at(ts, pos) == Ok::<(ExprView, nat), ExprErrorView>((e, n)),
{
}

/// A term that none of `*`, `/`, `%` follows is a whole product.
pub proof fn law_term_alone_is_a_product(ts: Seq<TokenView>, pos: nat, e: ExprView, n: nat)
    requires
        implicit_at(ts, pos) == Ok::<(ExprView, nat), ExprErrorView>((e, n)),
        multiplicative_operator(token_at(ts, pos + n)) is None,
    ensures
        multiplicative_at(ts, pos) == Ok::<(ExprView, nat), ExprErrorView>((e, n)),
{
}

/// A product that neither `+` nor `-` follows is a whole sum.
pub proof fn law_product_alone_is_a_sum(ts: Seq<TokenView>, pos: nat, e: ExprView, n: nat)
    requires
        multiplicative_at(ts, pos) == Ok::<(ExprView, nat), ExprErrorView>((e, n)),
        additive_operator(token_at(ts, pos + n)) is None,
    ensures
        additive_at(ts, pos) == Ok::<(ExprView, nat), ExprErrorView>((e, n)),
{
}

/// A factor before a closing parenthesis, or before the end of the tokens,
/// is a whole expression.
pub proof fn law_factor_before_close_is_an_expression(
    ts: Seq<TokenView>,
    pos: nat,
    e: ExprView,
    n: nat,
)
    requires
        factor_at(ts, pos) == Ok::<(ExprView, nat), ExprErrorView>((e, n)),
        is_close(token_at(ts, pos + n)) || token_at(ts, pos + n) is None,
    ensures
        additive_at(ts, pos) == Ok::<(ExprView, nat), ExprErrorView>((e, n)),
{
    law_factor_alone_is_a_power(ts, pos, e, n);
    law_power_alone_is_a_term(ts, pos, e, n);
    law_term_alone_is_a_product(ts, pos, e, n);
    law_product_alone_is_a_sum(ts, pos, e, n);
}

/// An error in the first factor of an expression is the error of the
/// expression.
pub proof fn law_first_error_is_the_error(ts: Seq<TokenView>, pos: nat, x: ExprErrorView)
    requires
        factor_at(ts, pos) == Err::<(ExprView, nat), ExprErrorView>(x),
    ensures
        power_at(ts, pos) == Err::<(ExprView, nat), ExprErrorView>(x),
        implicit_at(ts, pos) == Err::<(ExprView, nat), ExprErrorView>(x),
        multiplicative_at(ts, pos) == Err::<(ExprView, nat), ExprErrorView>(x),
        additive_at(ts, pos) == Err::<(ExprView, nat), ExprErrorView>(x),
{
}

/// Where the tokens have run out, or a token stands that starts no factor,
/// parsing fails with that token.
pub proof fn law_what_starts_no_factor(ts: Seq<TokenView>, pos: nat)
    requires
        match token_at(ts, pos) {
            None => true,
            Some(TokenView::Delimiters(Delimiters::RParen)) => true,
            Some(TokenView::Operator(op)) => op != Operator::Minus,
            _ => false,
        },
    ensures
        factor_at(ts, pos) == Err::<(ExprView, nat), ExprErrorView>(
            ExprErrorView::ExprInvalidFactor(token_at(ts, pos)),
        ),
{
}

/// A parenthesised expression is a factor, and the parentheses leave no
/// trace in the tree.
pub proof fn law_group_is_a_factor(ts: Seq<TokenView>, pos: nat, e: ExprView, n: nat)
    requires
        is_open(token_at(ts, pos)),
        additive_at(ts, pos + 1) == Ok::<(ExprView, nat), ExprErrorView>((e, n)),
        is_close(token_at(ts, pos + 1 + n)),
    ensures
        factor_at(ts, pos) == Ok::<(ExprView, nat), ExprErrorView>((e, n + 2)),
{
}

/// An opening parenthesis whose expression is not followed by a closing one
/// is an error, as a factor and as a whole expression.
pub proof fn law_group_must_be_closed(ts: Seq<TokenView>, pos: nat, e: ExprView, n: nat)
    requires
        is_open(token_at(ts, pos)),
        additive_at(ts, pos + 1) == Ok::<(ExprView, nat), ExprErrorView>((e, n)),
        !is_close(token_at(ts, pos + 1 + n)),
    ensures
        factor_at(ts, pos) == Err::<(ExprView, nat), ExprErrorView>(
            ExprErrorView::ExprInvalidParenthes,
        ),
        additive_at(ts, pos) == Err::<(ExprView, nat), ExprErrorView>(
            ExprErrorView::ExprInvalidParenthes,
        ),
{
    law_first_error_is_the_error(ts, pos, ExprErrorView::ExprInvalidParenthes);
}

/// A function takes the one factor behind it as its argument, and nothing
/// more.
pub proof fn law_function_takes_one_factor(
    ts: Seq<TokenView>,
    pos: nat,
    f: Function,
    e: ExprView,
    n: nat,
)
    requires
        token_at(ts, pos) == Some(TokenView::Function(f)),
        factor_at(ts, pos + 1) == Ok::<(ExprView, nat), ExprErrorView>((e, n)),
    ensures
        factor_at(ts, pos) == Ok::<(ExprView, nat), ExprErrorView>(
            (ExprView::Function(f, Box::new(e)), n + 1),
        ),
{
}

/// Of two functions in a row the first is applied to what the second
/// gives.
pub proof fn law_functions_nest(
    ts: Seq<TokenView>,
    pos: nat,
    f: Function,
    g: Function,
    e: ExprView,
    n: nat,
)
    requires
        token_at(ts, pos) == Some(TokenView::Function(f)),
        token_at(ts, pos + 1) == Some(TokenView::Function(g)),
        factor_at(ts, pos + 2) == Ok::<(ExprView, nat), ExprErrorView>((e, n)),
    ensures
        factor_at(ts, pos) == Ok::<(ExprView, nat), ExprErrorView>(
            (ExprView::Function(f, Box::new(ExprView::Function(g, Box::new(e)))), n + 2),
        ),
{
    law_function_takes_one_factor(ts, pos + 1, g, e, n);
}

/// A minus sign where a factor must start negates the one factor behind
/// it.
pub proof fn law_minus_negates_one_factor(ts: Seq<TokenView>, pos: nat, e: ExprView, n: nat)
    requires
        token_at(ts, pos) == Some(TokenView::Operator(Operator::Minus)),
        factor_at(ts, pos + 1) == Ok::<(ExprView, nat), ExprErrorView>((e, n)),
    ensures
        factor_at(ts, pos) == Ok::<(ExprView, nat), ExprErrorView>(
            (ExprView::Neg(Box::new(e)), n + 1),
        ),
{
}

/// Two minus signs where a factor must start negate twice.
pub proof fn law_double_negation(ts: Seq<TokenView>, pos: nat, e: ExprView, n: nat)
    requires
        token_at(ts, pos) == Some(TokenView::Operator(Operator::Minus)),
        token_at(ts, pos + 1) == Some(TokenView::Operator(Operator::Minus)),
        factor_at(ts, pos + 2) == Ok::<(ExprView, nat), ExprErrorView>((e, n)),
    ensures
        factor_at(ts, pos) == Ok::<(ExprView, nat), ExprErrorView>(
            (ExprView::Neg(Box::new(ExprView::Neg(Box::new(e)))), n + 2),
        ),
{
    law_minus_negates_one_factor(ts, pos + 1, e, n);
}

/// Two factors joined by `^`, with no `^` behind them, are the power of
/// the two.
pub proof fn law_power_of_two(
    ts: Seq<TokenView>,
    pos: nat,
    a: ExprView,
    na: nat,
    b: ExprView,
    nb: nat,
)
    requires
        factor_at(ts, pos) == Ok::<(ExprView, nat), ExprErrorView>((a, na)),
        is_caret(token_at(ts, pos + na)),
        factor_at(ts, pos + na + 1) == Ok::<(ExprView, nat), ExprErrorView>((b, nb)),
        !is_caret(token_at(ts, pos + na + 1 + nb)),
    ensures
        power_at(ts, pos) == Ok::<(ExprView, nat), ExprErrorView>(
            (ExprView::BinOp(Operator::Caret, Box::new(a), Box::new(b)), na + nb + 1),
        ),
{
    let ab = ExprView::BinOp(Operator::Caret, Box::new(a), Box::new(b));
    assert(power_rest(ts, pos + na + 1 + nb, ab) == Ok::<(ExprView, nat), ExprErrorView>(
        (ab, 0),
    ));
    assert(power_rest(ts, pos + na, a) == Ok::<(ExprView, nat), ExprErrorView>((ab, 1 + nb)));
}

/// Powers group from the left: `a ^ b ^ c` is `(a ^ b) ^ c`.
#[verifier::rlimit(50)]
pub proof fn law_powers_group_from_the_left(
    ts: Seq<TokenView>,
    pos: nat,
    a: ExprView,
    na: nat,
    b: ExprView,
    nb: nat,
    c: ExprView,
    nc: nat,
)
    requires
        factor_at(ts, pos) == Ok::<(ExprView, nat), ExprErrorView>((a, na)),
        is_caret(token_at(ts, pos + na)),
        factor_at(ts, pos + na + 1) == Ok::<(ExprView, nat), ExprErrorView>((b, nb)),
        is_caret(token_at(ts, pos + na + 1 + nb)),
        factor_at(ts, pos + na + 1 + nb + 1) == Ok::<(ExprView, nat), ExprErrorView>((c, nc)),
        !is_caret(token_at(ts, pos + na + 1 + nb + 1 + nc)),
    ensures
        power_at(ts, pos) == Ok::<(ExprView, nat), ExprErrorView>(
            (
                ExprView::BinOp(
                    Operator::Caret,
                    Box::new(ExprView::BinOp(Operator::Caret, Box::new(a), Box::new(b))),
                    Box::new(c),
                ),
                na + nb + nc + 2,
            ),
        ),
{
    let ab = ExprView::BinOp(Operator::Caret, Box::new(a), Box::new(b));
    let abc = ExprView::BinOp(Operator::Caret, Box::new(ab), Box::new(c));
    let p1 = pos + na;
    let p2 = p1 + 1 + nb;
    let p3 = p2 + 1 + nc;
    assert(power_rest(ts, p3, abc) == Ok::<(ExprView, nat), ExprErrorView>((abc, 0)));
    assert(power_rest(ts, p2, ab) == Ok::<(ExprView, nat), ExprErrorView>((abc, 1 + nc)));
    assert(power_rest(ts, p1, a) == Ok::<(ExprView, nat), ExprErrorView>(
        (abc, 1 + nb + 1 + nc),
    ));
}

/// A parenthesised expression directly behind a power term multiplies it.
pub proof fn law_group_behind_a_term_multiplies(
    ts: Seq<TokenView>,
    pos: nat,
    a: ExprView,
    na: nat,
    b: ExprView,
    nb: nat,
)
    requires
        power_at(ts, pos) == Ok::<(ExprView, nat), ExprErrorView>((a, na)),
        is_open(token_at(ts, pos + na)),
        additive_at(ts, pos + na + 1) == Ok::<(ExprView, nat), ExprErrorView>((b, nb)),
        is_close(token_at(ts, pos + na + 1 + nb)),
        !is_open(token_at(ts, pos + na + nb + 2)),
    ensures
        implicit_at(ts, pos) == Ok::<(ExprView, nat), ExprErrorView>(
            (ExprView::BinOp(Operator::Star, Box::new(a), Box::new(b)), na + nb + 2),
        ),
{
    let ab = ExprView::BinOp(Operator::Star, Box::new(a), Box::new(b));
    assert(implicit_rest(ts, pos + na + nb + 2, ab) == Ok::<(ExprView, nat), ExprErrorView>(
        (ab, 0),
    ));
    assert(implicit_rest(ts, pos + na, a) == Ok::<(ExprView, nat), ExprErrorView>(
        (ab, nb + 2),
    ));
}

/// Two terms joined by `*`, `/` or `%`, with no such operator behind them,
/// are the product of the two.
pub proof fn law_product_of_two(
    ts: Seq<TokenView>,
    pos: nat,
    a: ExprView,
    na: nat,
    times: Operator,
    b: ExprView,
    nb: nat,
)
    requires
        implicit_at(ts, pos) == Ok::<(ExprView, nat), ExprErrorView>((a, na)),
        multiplicative_operator(token_at(ts, pos + na)) == Some(times),
        implicit_at(ts, pos + na + 1) == Ok::<(ExprView, nat), ExprErrorView>((b, nb)),
        multiplicative_operator(token_at(ts, pos + na + 1 + nb)) is None,
    ensures
        multiplicative_at(ts, pos) == Ok::<(ExprView, nat), ExprErrorView>(
            (ExprView::BinOp(times, Box::new(a), Box::new(b)), na + nb + 1),
        ),
{
    let ab = ExprView::BinOp(times, Box::new(a), Box::new(b));
    assert(multiplicative_rest(ts, pos + na + 1 + nb, ab) == Ok::<
        (ExprView, nat),
        ExprErrorView,
    >((ab, 0)));
    assert(multiplicative_rest(ts, pos + na, a) == Ok::<(ExprView, nat), ExprErrorView>(
        (ab, 1 + nb),
    ));
}

/// Two products joined by `+` or `-`, with no such operator behind them,
/// are the sum of the two.
pub proof fn law_sum_of_two(
    ts: Seq<TokenView>,
    pos: nat,
    a: ExprView,
    na: nat,
    plus: Operator,
    b: ExprView,
    nb: nat,
)
    requires
        multiplicative_at(ts, pos) == Ok::<(ExprView, nat), ExprErrorView>((a, na)),
        additive_operator(token_at(ts, pos + na)) == Some(plus),
        multiplicative_at(ts, pos + na + 1) == Ok::<(ExprView, nat), ExprErrorView>((b, nb)),
        additive_operator(token_at(ts, pos + na + 1 + nb)) is None,
    ensures
        additive_at(ts, pos) == Ok::<(ExprView, nat), ExprErrorView>(
            (ExprView::BinOp(plus, Box::new(a), Box::new(b)), na + nb + 1),
        ),
{
    let ab = ExprView::BinOp(plus, Box::new(a), Box::new(b));
    assert(additive_rest(ts, pos + na + 1 + nb, ab) == Ok::<(ExprView, nat), ExprErrorView>(
        (ab, 0),
    ));
    assert(additive_rest(ts, pos + na, a) == Ok::<(ExprView, nat), ExprErrorView>(
        (ab, 1 + nb),
    ));
}

/// A product binds tighter than a sum: in `a + b * c` the product is the
/// right operand of the sum.
#[verifier::rlimit(50)]
pub proof fn law_product_binds_tighter_than_sum(
    ts: Seq<TokenView>,
    pos: nat,
    a: ExprView,
    na: nat,
    plus: Operator,
    b: ExprView,
    nb: nat,
    times: Operator,
    c: ExprView,
    nc: nat,
)
    requires
        implicit_at(ts, pos) == Ok::<(ExprView, nat), ExprErrorView>((a, na)),
        additive_operator(token_at(ts, pos + na)) == Some(plus),
        implicit_at(ts, pos + na + 1) == Ok::<(ExprView, nat), ExprErrorView>((b, nb)),
        multiplicative_operator(token_at(ts, pos + na + 1 + nb)) == Some(times),
        implicit_at(ts, pos + na + 1 + nb + 1) == Ok::<(ExprView, nat), ExprErrorView>((c, nc)),
        multiplicative_operator(token_at(ts, pos + na + 1 + nb + 1 + nc)) is None,
        additive_operator(token_at(ts, pos + na + 1 + nb + 1 + nc)) is None,
    ensures
        additive_at(ts, pos) == Ok::<(ExprView, nat), ExprErrorView>(
            (
                ExprView::BinOp(
                    plus,
                    Box::new(a),
                    Box::new(ExprView::BinOp(times, Box::new(b), Box::new(c))),
                ),
                na + nb + nc + 2,
            ),
        ),
{
    let bc = ExprView::BinOp(times, Box::new(b), Box::new(c));
    let p1: nat = pos + na;
    let p2: nat = p1 + 1;
    let p3: nat = p2 + nb + 1 + nc;
    let n: nat = nb + nc + 1;
    assert(multiplicative_operator(token_at(ts, p1)) is None);
    law_term_alone_is_a_product(ts, pos, a, na);
    law_product_of_two(ts, p2, b, nb, times, c, nc);
    assert(p2 + n == p3);
    law_sum_of_two(ts, pos, a, na, plus, bc, n);
}

/// The tokens that spell an expression with every grouping written out: a
/// binary operator between its operands in parentheses, a negation in
/// parentheses, a function before its argument in parentheses, and a
/// number by itself.
pub open spec fn spelled(e: ExprView) -> Seq<TokenView>
    decreases e,
{
    match e {
        ExprView::BinOp(op, left, right) => seq![TokenView::Delimiters(Delimiters::LParen)]
            + spelled(*left) + seq![TokenView::Operator(op)] + spelled(*right)
            + seq![TokenView::Delimiters(Delimiters::RParen)],
        ExprView::Neg(operand) => seq![
            TokenView::Delimiters(Delimiters::LParen),
            TokenView::Operator(Operator::Minus),
        ] + spelled(*operand) + seq![TokenView::Delimiters(Delimiters::RParen)],
        ExprView::Function(f, argument) => seq![
            TokenView::Function(f),
            TokenView::Delimiters(Delimiters::LParen),
        ] + spelled(*argument) + seq![TokenView::Delimiters(Delimiters::RParen)],
        ExprView::Constance(value) => seq![TokenView::Literals(LiteralsView::Number(value))],
    }
}

/// Two factors joined by a binary operator, in parentheses, are one
/// factor: that operation on the two.
#[verifier::rlimit(50)]
pub proof fn law_operation_in_parentheses(
    ts: Seq<TokenView>,
    pos: nat,
    op: Operator,
    left: ExprView,
    ln: nat,
    right: ExprView,
    rn: nat,
)
    requires
        is_open(token_at(ts, pos)),
        factor_at(ts, pos + 1) == Ok::<(ExprView, nat), ExprErrorView>((left, ln)),
        token_at(ts, pos + 1 + ln) == Some(TokenView::Operator(op)),
        factor_at(ts, pos + 1 + ln + 1) == Ok::<(ExprView, nat), ExprErrorView>((right, rn)),
        is_close(token_at(ts, pos + 1 + ln + 1 + rn)),
    ensures
        factor_at(ts, pos) == Ok::<(ExprView, nat), ExprErrorView>(
            (ExprView::BinOp(op, Box::new(left), Box::new(right)), ln + rn + 3),
        ),
{
    let e = ExprView::BinOp(op, Box::new(left), Box::new(right));
    let pl: nat = pos + 1;
    let pr: nat = pl + ln + 1;
    let n: nat = ln + rn + 1;
    match op {
        Operator::Caret => {
            law_power_of_two(ts, pl, left, ln, right, rn);
            law_power_alone_is_a_term(ts, pl, e, n);
            law_term_alone_is_a_product(ts, pl, e, n);
            law_product_alone_is_a_sum(ts, pl, e, n);
        },
        Operator::Star | Operator::Slash | Operator::Percent => {
            law_factor_alone_is_a_power(ts, pl, left, ln);
            law_power_alone_is_a_term(ts, pl, left, ln);
            law_factor_alone_is_a_power(ts, pr, right, rn);
            law_power_alone_is_a_term(ts, pr, right, rn);
            law_product_of_two(ts, pl, left, ln, op, right, rn);
            law_product_alone_is_a_sum(ts, pl, e, n);
        },
        Operator::Plus | Operator::Minus => {
            law_factor_alone_is_a_power(ts, pl, left, ln);
            law_power_alone_is_a_term(ts, pl, left, ln);
            law_term_alone_is_a_product(ts, pl, left, ln);
            law_factor_alone_is_a_power(ts, pr, right, rn);
            law_power_alone_is_a_term(ts, pr, right, rn);
            law_term_alone_is_a_product(ts, pr, right, rn);
            law_sum_of_two(ts, pl, left, ln, op, right, rn);
        },
    }
    law_group_is_a_factor(ts, pos, e, n);
}

/// A minus sign and a factor, in parentheses, are one factor: the
/// negation of the inner one.
pub proof fn law_negation_in_parentheses(ts: Seq<TokenView>, pos: nat, e: ExprView, n: nat)
    requires
        is_open(token_at(ts, pos)),
        token_at(ts, pos + 1) == Some(TokenView::Operator(Operator::Minus)),
        factor_at(ts, pos + 2) == Ok::<(ExprView, nat), ExprErrorView>((e, n)),
        is_close(token_at(ts, pos + 2 + n)),
    ensures
        factor_at(ts, pos) == Ok::<(ExprView, nat), ExprErrorView>(
            (ExprView::Neg(Box::new(e)), n + 3),
        ),
{
    law_minus_negates_one_factor(ts, pos + 1, e, n);
    law_factor_before_close_is_an_expression(ts, pos + 1, ExprView::Neg(Box::new(e)), n + 1);
}

/// A function before a factor in parentheses is applied to that factor.
pub proof fn law_function_of_parentheses(
    ts: Seq<TokenView>,
    pos: nat,
    f: Function,
    e: ExprView,
    n: nat,
)
    requires
        token_at(ts, pos) == Some(TokenView::Function(f)),
        is_open(token_at(ts, pos + 1)),
        factor_at(ts, pos + 2) == Ok::<(ExprView, nat), ExprErrorView>((e, n)),
        is_close(token_at(ts, pos + 2 + n)),
    ensures
        factor_at(ts, pos) == Ok::<(ExprView, nat), ExprErrorView>(
            (ExprView::Function(f, Box::new(e)), n + 3),
        ),
{
    law_factor_before_close_is_an_expression(ts, pos + 2, e, n);
    law_group_is_a_factor(ts, pos + 1, e, n);
}

/// Where `part` stands in `whole` at `at`, and `whole` stands in `ts` at
/// `pos`, `part` stands in `ts` at `pos + at`.
proof fn lemma_part_of_part(
    ts: Seq<TokenView>,
    pos: int,
    whole: Seq<TokenView>,
    at: int,
    part: Seq<TokenView>,
)
    requires
        0 <= pos,
        pos + whole.len() <= ts.len(),
        ts.subrange(pos, pos + whole.len()) == whole,
        0 <= at,
        at + part.len() <= whole.len(),
        whole.subrange(at, at + part.len()) == part,
    ensures
        ts.subrange(pos + at, pos + at + part.len()) == part,
{
    assert forall|k: int| 0 <= k < part.len() implies ts[pos + at + k] == part[k] by {
        assert(whole.subrange(at, at + part.len())[k] == whole[at + k]);
        assert(ts.subrange(pos, pos + whole.len())[at + k] == ts[pos + at + k]);
    }
    assert(ts.subrange(pos + at, pos + at + part.len()) =~= part);
}

/// Wherever the spelling of an expression stands among the tokens, a
/// factor read at its start is that expression, and takes exactly the
/// spelling.
#[verifier::rlimit(50)]
pub proof fn law_spelling_is_a_factor(ts: Seq<TokenView>, pos: nat, e: ExprView)
    requires
        pos + spelled(e).len() <= ts.len(),
        ts.subrange(pos as int, (pos + spelled(e).len()) as int) == spelled(e),
    ensures
        factor_at(ts, pos) == Ok::<(ExprView, nat), ExprErrorView>((e, spelled(e).len())),
    decreases e,
{
    let s = spelled(e);
    let p0 = pos as int;
    assert forall|k: int| 0 <= k < s.len() implies ts[p0 + k] == #[trigger] s[k] by {
        assert(ts.subrange(p0, p0 + s.len())[k] == ts[p0 + k]);
    }
    match e {
        ExprView::BinOp(op, left, right) => {
            let sl = spelled(*left);
            let sr = spelled(*right);
            let ln = sl.len();
            let rn = sr.len();
            let li = ln as int;
            let ri = rn as int;
            assert(s.len() == ln + rn + 3);
            assert(s.subrange(1, 1 + li) =~= sl);
            assert(s.subrange(li + 2, li + 2 + ri) =~= sr);
            lemma_part_of_part(ts, p0, s, 1, sl);
            lemma_part_of_part(ts, p0, s, li + 2, sr);
            law_spelling_is_a_factor(ts, pos + 1, *left);
            law_spelling_is_a_factor(ts, pos + 1 + ln + 1, *right);
            assert(is_open(token_at(ts, pos))) by {
                assert(ts[p0 + 0] == s[0]);
            }
            assert(token_at(ts, pos + 1 + ln) == Some(TokenView::Operator(op))) by {
                assert(ts[p0 + (li + 1)] == s[li + 1]);
            }
            assert(is_close(token_at(ts, pos + 1 + ln + 1 + rn))) by {
                assert(ts[p0 + (li + ri + 2)] == s[li + ri + 2]);
            }
            law_operation_in_parentheses(ts, pos, op, *left, ln, *right, rn);
        },
        ExprView::Neg(operand) => {
            let so = spelled(*operand);
            let n = so.len();
            let ni = n as int;
            assert(s.len() == n + 3);
            assert(s.subrange(2, 2 + ni) =~= so);
            lemma_part_of_part(ts, p0, s, 2, so);
            law_spelling_is_a_factor(ts, pos + 2, *operand);
            assert(is_open(token_at(ts, pos))) by {
                assert(ts[p0 + 0] == s[0]);
            }
            assert(token_at(ts, pos + 1) == Some(TokenView::Operator(Operator::Minus))) by {
                assert(ts[p0 + 1] == s[1]);
            }
            assert(is_close(token_at(ts, pos + 2 + n))) by {
                assert(ts[p0 + (ni + 2)] == s[ni + 2]);
            }
            law_negation_in_parentheses(ts, pos, *operand, n);
        },
        ExprView::Function(f, argument) => {
            let sa = spelled(*argument);
            let n = sa.len();
            let ni = n as int;
            assert(s.len() == n + 3);
            assert(s.subrange(2, 2 + ni) =~= sa);
            lemma_part_of_part(ts, p0, s, 2, sa);
            law_spelling_is_a_factor(ts, pos + 2, *argument);
            assert(token_at(ts, pos) == Some(TokenView::Function(f))) by {
                assert(ts[p0 + 0] == s[0]);
            }
            assert(is_open(token_at(ts, pos + 1))) by {
                assert(ts[p0 + 1] == s[1]);
            }
            assert(is_close(token_at(ts, pos + 2 + n))) by {
                assert(ts[p0 + (ni + 2)] == s[ni + 2]);
            }
            law_function_of_parentheses(ts, pos, f, *argument, n);
        },
        ExprView::Constance(value) => {
            assert(ts[p0 + 0] == s[0]);
        },
    }
}

/// Every expression is read back from its spelling: parsing never fails on
/// the tokens of a well-formed expression, and gives that expression.
pub proof fn law_spelling_parses_back(e: ExprView)
    ensures
        parse(spelled(e)) == Ok::<ExprView, ExprErrorView>(e),
{
    let ts = spelled(e);
    assert(ts.subrange(0, ts.len() as int) =~= ts);
    law_spelling_is_a_factor(ts, 0, e);
    law_factor_before_close_is_an_expression(ts, 0, e, ts.len());
}

/// Whether `e` is built from numbers, binary operators and negations
/// alone, each number a numeral in its shortest form.
pub open spec fn is_arithmetic(e: ExprView) -> bool
    decreases e,
{
    match e {
        ExprView::BinOp(_, left, right) => is_arithmetic(*left) && is_arithmetic(*right),
        ExprView::Neg(operand) => is_arithmetic(*operand),
        ExprView::Function(_, _) => false,
        ExprView::Constance(value) => is_canonical(value),
    }
}

/// A run of digits and points that ends at `e` is the longest one from
/// each of its positions.
proof fn lemma_number_run(s: Seq<char>, i: int, e: int)
    requires
        0 <= i <= e <= s.len(),
        forall|k: int| i <= k < e ==> is_number_char(#[trigger] s[k]),
        e == s.len() || !is_number_char(s[e]),
    ensures
        number_end(s, i) == e,
    decreases e - i,
{
    if i < e {
        lemma_number_run(s, i + 1, e);
    }
}

/// A character that is a token by itself is scanned as that token.
proof fn lemma_scan_symbol(s: Seq<char>, i: int)
    requires
        0 <= i < s.len(),
        symbol(s[i]) is Some,
    ensures
        scan_from(s, i) == preceded_by(seq![symbol(s[i])->0], scan_from(s, i + 1)),
{
    assert(char_class(s[i]) == CharClass::Symbol);
}

/// A numeral in shortest form, with no digit or point behind it, is
/// scanned as the number it is.
proof fn lemma_scan_numeral(s: Seq<char>, i: int, v: Seq<char>)
    requires
        is_canonical(v),
        0 <= i,
        i + v.len() <= s.len(),
        s.subrange(i, i + v.len()) == v,
        i + v.len() == s.len() || !is_number_char(s[i + v.len()]),
    ensures
        scan_from(s, i) == preceded_by(
            seq![TokenView::Literals(LiteralsView::Number(v))],
            scan_from(s, i + v.len()),
        ),
{
    let end = i + v.len();
    lemma_digits_end(v, 0);
    let w = digits_end(v, 0);
    assert forall|k: int| i <= k < end implies is_number_char(#[trigger] s[k]) by {
        assert(s.subrange(i, end)[k - i] == s[k]);
        let j = k - i;
        if j < w {
        } else if j == w {
        } else {
            lemma_digits_end(v, w + 1);
        }
    }
    assert(s[i] == v[0]) by {
        assert(s.subrange(i, end)[0] == s[i]);
    }
    assert(is_digit(s[i]));
    assert(char_class(s[i]) == CharClass::Numeric);
    lemma_number_run(s, i + 1, end);
    law_canonical_is_fixed(v);
}

/// `before` in front of `middle` in front of `rest` is the two in front of
/// `rest`.
proof fn lemma_preceded_twice(before: Seq<TokenView>, middle: Seq<TokenView>, rest: Scanned)
    ensures
        preceded_by(before, preceded_by(middle, rest)) == preceded_by(before + middle, rest),
{
    match rest {
        Ok(ts) => {
            assert(before + (middle + ts) =~= (before + middle) + ts);
        },
        Err(_) => {},
    }
}

/// The token that an operator's character is scanned as is the operator.
proof fn lemma_operator_symbol(op: Operator)
    ensures
        symbol(operator_char(op)) == Some(TokenView::Operator(op)),
{
}

/// Wherever the text of an arithmetic expression stands, with the end of
/// the text or a single-character token behind it, scanning from its
/// start gives the spelling of the expression and goes on behind it.
#[verifier::rlimit(50)]
pub proof fn law_text_is_scanned_as_spelled(s: Seq<char>, i: int, e: ExprView)
    requires
        is_arithmetic(e),
        0 <= i,
        i + render(e).len() <= s.len(),
        s.subrange(i, i + render(e).len()) == render(e),
        i + render(e).len() == s.len() || symbol(s[i + render(e).len()]) is Some,
    ensures
        scan_from(s, i) == preceded_by(spelled(e), scan_from(s, i + render(e).len())),
    decreases e,
{
    let t = render(e);
    let end = i + t.len();
    assert forall|k: int| 0 <= k < t.len() implies s[i + k] == #[trigger] t[k] by {
        assert(s.subrange(i, end)[k] == s[i + k]);
    }
    match e {
        ExprView::BinOp(op, left, right) => {
            let tl = render(*left);
            let tr = render(*right);
            let a = tl.len() as int;
            let b = tr.len() as int;
            assert(t.len() == a + b + 3);
            assert(s[i + 0] == t[0]);
            assert(s[i + (a + 1)] == t[a + 1]);
            assert(s[i + (a + b + 2)] == t[a + b + 2]);
            assert(s.subrange(i + 1, i + 1 + a) =~= tl) by {
                assert forall|k: int| 0 <= k < a implies s[i + 1 + k] == tl[k] by {
                    assert(s[i + (1 + k)] == t[1 + k]);
                }
            }
            assert(s.subrange(i + a + 2, i + a + 2 + b) =~= tr) by {
                assert forall|k: int| 0 <= k < b implies s[i + a + 2 + k] == tr[k] by {
                    assert(s[i + (a + 2 + k)] == t[a + 2 + k]);
                }
            }
            lemma_operator_symbol(op);
            lemma_scan_symbol(s, i);
            law_text_is_scanned_as_spelled(s, i + 1, *left);
            lemma_scan_symbol(s, i + 1 + a);
            law_text_is_scanned_as_spelled(s, i + a + 2, *right);
            lemma_scan_symbol(s, i + a + b + 2);
            let rest = scan_from(s, end);
            let open = seq![TokenView::Delimiters(Delimiters::LParen)];
            let close = seq![TokenView::Delimiters(Delimiters::RParen)];
            let sign = seq![TokenView::Operator(op)];
            lemma_preceded_twice(spelled(*right), close, rest);
            lemma_preceded_twice(sign, spelled(*right) + close, rest);
            lemma_preceded_twice(spelled(*left), sign + (spelled(*right) + close), rest);
            lemma_preceded_twice(
                open,
                spelled(*left) + (sign + (spelled(*right) + close)),
                rest,
            );
            assert(open + (spelled(*left) + (sign + (spelled(*right) + close))) =~= spelled(e));
        },
        ExprView::Neg(operand) => {
            let to = render(*operand);
            let a = to.len() as int;
            assert(t.len() == a + 3);
            assert(s[i + 0] == t[0]);
            assert(s[i + 1] == t[1]);
            assert(s[i + (a + 2)] == t[a + 2]);
            assert(s.subrange(i + 2, i + 2 + a) =~= to) by {
                assert forall|k: int| 0 <= k < a implies s[i + 2 + k] == to[k] by {
                    assert(s[i + (2 + k)] == t[2 + k]);
                }
            }
            lemma_scan_symbol(s, i);
            lemma_scan_symbol(s, i + 1);
            law_text_is_scanned_as_spelled(s, i + 2, *operand);
            lemma_scan_symbol(s, i + a + 2);
            let rest = scan_from(s, end);
            let open = seq![TokenView::Delimiters(Delimiters::LParen)];
            let close = seq![TokenView::Delimiters(Delimiters::RParen)];
            let sign = seq![TokenView::Operator(Operator::Minus)];
            lemma_preceded_twice(spelled(*operand), close, rest);
            lemma_preceded_twice(sign, spelled(*operand) + close, rest);
            lemma_preceded_twice(open, sign + (spelled(*operand) + close), rest);
            assert(open + (sign + (spelled(*operand) + close)) =~= spelled(e));
        },
        ExprView::Function(_, _) => {},
        ExprView::Constance(value) => {
            lemma_scan_numeral(s, i, value);
        },
    }
}

/// An arithmetic expression is read back from its text: scanning the text
/// gives the spelling of the expression, and parsing the spelling gives the
/// expression.
pub proof fn law_text_reads_back(e: ExprView)
    requires
        is_arithmetic(e),
    ensures
        scan(render(e)) == Ok::<Seq<TokenView>, TokenErrorView>(spelled(e)),
        parse(spelled(e)) == Ok::<ExprView, ExprErrorView>(e),
{
    let t = render(e);
    assert(t.subrange(0, t.len() as int) =~= t);
    law_text_is_scanned_as_spelled(t, 0, e);
    assert(spelled(e) + Seq::<TokenView>::empty() =~= spelled(e));
    law_spelling_parses_back(e);
}

} // verus!
