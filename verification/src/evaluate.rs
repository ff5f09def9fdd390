use vstd::prelude::*;
use vstd::string::StringExecFns;
use crate::ast::{Expr, ExprView};
use crate::lex::{Function, Operator};
use crate::text::push_char;

verus! {

/// The character that an operator is written with.
pub open spec fn operator_char(op: Operator) -> char {
    match op {
        Operator::Plus => '+',
        Operator::Minus => '-',
        Operator::Star => '*',
        Operator::Slash => '/',
        Operator::Percent => '%',
        Operator::Caret => '^',
    }
}

/// The name that a function is written with.
pub open spec fn function_name(f: Function) -> Seq<char> {
    match f {
        Function::Sqrt => seq!['S', 'q', 'r', 't'],
        Function::Sin => seq!['S', 'i', 'n'],
        Function::Cos => seq!['C', 'o', 's'],
        Function::Tan => seq!['T', 'a', 'n'],
        Function::Log => seq!['L', 'o', 'g'],
        Function::Ln => seq!['L', 'n'],
        Function::Lg => seq!['L', 'g'],
    }
}

/// The text of an expression, with every grouping written out:
/// `(left<op>right)` for a binary operator, `(-operand)` for a negation,
/// the name, the argument in parentheses and one space for a function, and
/// the numeral for a number.
pub open spec fn render(e: ExprView) -> Seq<char>
    decreases e,
{
    match e {
        ExprView::BinOp(op, left, right) => seq!['('] + render(*left) + seq![operator_char(op)]
            + render(*right) + seq![')'],
        ExprView::Neg(operand) => seq!['(', '-'] + render(*operand) + seq![')'],
        ExprView::Function(f, argument) => function_name(f) + seq!['('] + render(*argument)
            + seq![')', ' '],
        ExprView::Constance(value) => value,
    }
}

fn operator_symbol(op: Operator) -> (c: char)
    ensures
        c == operator_char(op),
{
    match op {
        Operator::Plus => '+',
        Operator::Minus => '-',
        Operator::Star => '*',
        Operator::Slash => '/',
        Operator::Percent => '%',
        Operator::Caret => '^',
    }
}

fn write_function_name(f: Function, out: &mut String)
    ensures
        final(out)@ == old(out)@ + function_name(f),
{
    proof {
        reveal_strlit("Sqrt");
        reveal_strlit("Sin");
        reveal_strlit("Cos");
        reveal_strlit("Tan");
        reveal_strlit("Log");
        reveal_strlit("Ln");
        reveal_strlit("Lg");
    }
    let name = match f {
        Function::Sqrt => "Sqrt",
        Function::Sin => "Sin",
        Function::Cos => "Cos",
        Function::Tan => "Tan",
        Function::Log => "Log",
        Function::Ln => "Ln",
        Function::Lg => "Lg",
    };
    assert(name@ =~= function_name(f));
    out.append(name);
}

fn write_expr(expr: &Expr, out: &mut String)
    ensures
        final(out)@ == old(out)@ + render(expr@),
    decreases expr,
{
    match expr {
        Expr::BinOp(op, expr1, expr2) => {
            push_char(out, '(');
            write_expr(expr1, out);
            push_char(out, operator_symbol(*op));
            write_expr(expr2, out);
            push_char(out, ')');
            assert(out@ =~= old(out)@ + render(expr@));
        },
        Expr::Neg(e) => {
            push_char(out, '(');
            push_char(out, '-');
            write_expr(e, out);
            push_char(out, ')');
            assert(out@ =~= old(out)@ + render(expr@));
        },
        Expr::Function(func, expr1) => {
            write_function_name(*func, out);
            push_char(out, '(');
            write_expr(expr1, out);
            push_char(out, ')');
            push_char(out, ' ');
            assert(out@ =~= old(out)@ + render(expr@));
        },
        Expr::Constance(v) => {
            out.append(v.as_str());
        },
    }
}

/// Writes an expression out as text, every grouping in parentheses.
pub fn to_string(expr: &Expr) -> (s: String)
    ensures
        s@ == render(expr@),
{
    let mut s = String::new();
    write_expr(expr, &mut s);
    assert(s@ =~= render(expr@));
    s
}

} // verus!
