use calculator::ast::{Expr, ExprError};
use calculator::lex::{
    token_parser, Constance, Delimiters, Function, Literals, Operator, Token,
};
use calculator::number::Numeral;
use calculator::parser::expr_parser;

fn num(v: f64) -> Numeral {
    Numeral::parse(&v.to_string()).unwrap()
}

fn number(v: f64) -> Token {
    Token::Literals(Literals::Number(num(v)))
}

fn lit(v: f64) -> Box<Expr> {
    Box::new(Expr::Constance(num(v)))
}

fn bin(op: Operator, left: Box<Expr>, right: Box<Expr>) -> Box<Expr> {
    Box::new(Expr::BinOp(op, left, right))
}

fn tree(text: &str) -> Result<Expr, ExprError> {
    expr_parser(&token_parser(text).unwrap()[..])
}

#[test]
fn ast_it_works() {
    //1+2
    let tokens: Vec<Token> = vec![
        number(1 as f64),
        Token::Operator(Operator::Plus),
        number(2 as f64),
    ];
    let v = expr_parser(&tokens[..]).unwrap_or_else(|_e| Expr::Constance(num(0 as f64)));
    let r = Expr::BinOp(
        Operator::Plus,
        Box::new(Expr::Constance(num(1 as f64))),
        Box::new(Expr::Constance(num(2 as f64))),
    );
    assert_eq!(v, r);
}

#[test]
fn parser_it_works() {
    //1+2
    let tokens: Vec<Token> = vec![
        number(1 as f64),
        Token::Operator(Operator::Plus),
        number(2 as f64),
    ];
    let v = expr_parser(&tokens[..]).unwrap_or_else(|_e| Expr::Constance(num(0 as f64)));
    let r = Expr::BinOp(
        Operator::Plus,
        Box::new(Expr::Constance(num(1 as f64))),
        Box::new(Expr::Constance(num(2 as f64))),
    );
    assert_eq!(v, r);
}

#[test]
fn a_number_alone() {
    assert_eq!(tree("42"), Ok(*lit(42.0)));
}

#[test]
fn product_binds_tighter_than_sum() {
    assert_eq!(
        tree("1+2*3"),
        Ok(*bin(Operator::Plus, lit(1.0), bin(Operator::Star, lit(2.0), lit(3.0))))
    );
    assert_eq!(
        tree("(1+2)*3"),
        Ok(*bin(Operator::Star, bin(Operator::Plus, lit(1.0), lit(2.0)), lit(3.0)))
    );
}

#[test]
fn sums_and_products_group_from_the_left() {
    assert_eq!(
        tree("1-2+3"),
        Ok(*bin(Operator::Plus, bin(Operator::Minus, lit(1.0), lit(2.0)), lit(3.0)))
    );
    assert_eq!(
        tree("8/4%3*2"),
        Ok(*bin(
            Operator::Star,
            bin(Operator::Percent, bin(Operator::Slash, lit(8.0), lit(4.0)), lit(3.0)),
            lit(2.0)
        ))
    );
}

#[test]
fn powers_group_from_the_left() {
    assert_eq!(
        tree("2^3^2"),
        Ok(*bin(Operator::Caret, bin(Operator::Caret, lit(2.0), lit(3.0)), lit(2.0)))
    );
}

#[test]
fn power_binds_tighter_than_product() {
    assert_eq!(
        tree("2*3^2"),
        Ok(*bin(Operator::Star, lit(2.0), bin(Operator::Caret, lit(3.0), lit(2.0))))
    );
}

#[test]
fn a_group_behind_a_term_multiplies_it() {
    assert_eq!(tree("2(3)"), Ok(*bin(Operator::Star, lit(2.0), lit(3.0))));
    assert_eq!(
        tree("(1+2)(3)(4)"),
        Ok(*bin(
            Operator::Star,
            bin(Operator::Star, bin(Operator::Plus, lit(1.0), lit(2.0)), lit(3.0)),
            lit(4.0)
        ))
    );
}

#[test]
fn a_group_binds_looser_than_power() {
    assert_eq!(
        tree("2^3(4)"),
        Ok(*bin(Operator::Star, bin(Operator::Caret, lit(2.0), lit(3.0)), lit(4.0)))
    );
}

#[test]
fn a_function_takes_one_factor() {
    assert_eq!(
        tree("sin cos 0"),
        Ok(Expr::Function(
            Function::Sin,
            Box::new(Expr::Function(Function::Cos, lit(0.0)))
        ))
    );
    assert_eq!(
        tree("sin1^2"),
        Ok(*bin(
            Operator::Caret,
            Box::new(Expr::Function(Function::Sin, lit(1.0))),
            lit(2.0)
        ))
    );
    assert_eq!(
        tree("√(4+5)"),
        Ok(Expr::Function(Function::Sqrt, bin(Operator::Plus, lit(4.0), lit(5.0))))
    );
}

#[test]
fn negation_takes_one_factor() {
    assert_eq!(tree("--5"), Ok(Expr::Neg(Box::new(Expr::Neg(lit(5.0))))));
    assert_eq!(
        tree("-2^2"),
        Ok(*bin(Operator::Caret, Box::new(Expr::Neg(lit(2.0))), lit(2.0)))
    );
    assert_eq!(
        tree("1--2"),
        Ok(*bin(Operator::Minus, lit(1.0), Box::new(Expr::Neg(lit(2.0)))))
    );
}

#[test]
fn constants_get_their_values() {
    assert_eq!(tree("pi"), Ok(Expr::Constance(Numeral::pi())));
    assert_eq!(tree("π"), Ok(Expr::Constance(Numeral::pi())));
    assert_eq!(tree("e"), Ok(Expr::Constance(Numeral::e())));
    assert_eq!(tree("pi"), Ok(*lit(std::f64::consts::PI)));
    assert_eq!(tree("e"), Ok(*lit(std::f64::consts::E)));
    let tokens = vec![Token::Literals(Literals::Constance(Constance::PI))];
    assert_eq!(expr_parser(&tokens[..]), Ok(Expr::Constance(Numeral::pi())));
}

#[test]
fn parse_rejection() {
    assert_eq!(tree("(1+2"), Err(ExprError::ExprInvalidParenthes));
}

#[test]
fn a_group_must_be_closed() {
    assert_eq!(tree("2(3"), Err(ExprError::ExprInvalidParenthes));
    assert_eq!(tree("(1 2)"), Err(ExprError::ExprInvalidParenthes));
    assert_eq!(tree("((1)"), Err(ExprError::ExprInvalidParenthes));
    assert_eq!(tree("sin(1"), Err(ExprError::ExprInvalidParenthes));
}

#[test]
fn no_tokens_left_for_a_factor() {
    let none: Vec<Token> = vec![];
    assert_eq!(expr_parser(&none[..]), Err(ExprError::ExprInvalidFactor(None)));
    assert_eq!(tree("1+"), Err(ExprError::ExprInvalidFactor(None)));
    assert_eq!(tree("sin"), Err(ExprError::ExprInvalidFactor(None)));
    assert_eq!(tree("-"), Err(ExprError::ExprInvalidFactor(None)));
    assert_eq!(tree("2^"), Err(ExprError::ExprInvalidFactor(None)));
    assert_eq!(tree("("), Err(ExprError::ExprInvalidFactor(None)));
}

#[test]
fn a_token_that_starts_no_factor() {
    assert_eq!(
        tree("*2"),
        Err(ExprError::ExprInvalidFactor(Some(Token::Operator(Operator::Star))))
    );
    assert_eq!(
        tree("1+)"),
        Err(ExprError::ExprInvalidFactor(Some(Token::Delimiters(Delimiters::RParen))))
    );
    assert_eq!(
        tree("()"),
        Err(ExprError::ExprInvalidFactor(Some(Token::Delimiters(Delimiters::RParen))))
    );
    assert_eq!(
        tree("2*/3"),
        Err(ExprError::ExprInvalidFactor(Some(Token::Operator(Operator::Slash))))
    );
    assert_eq!(
        tree("+1"),
        Err(ExprError::ExprInvalidFactor(Some(Token::Operator(Operator::Plus))))
    );
}

#[test]
fn tokens_behind_the_expression_are_ignored() {
    assert_eq!(tree("1 2"), Ok(*lit(1.0)));
    assert_eq!(tree("1)"), Ok(*lit(1.0)));
    assert_eq!(tree("1+2)*3"), Ok(*bin(Operator::Plus, lit(1.0), lit(2.0))));
    assert_eq!(tree("2 sin"), Ok(*lit(2.0)));
}

#[test]
fn a_copied_token_is_equal() {
    let tokens = token_parser("12.5+sin(").unwrap();
    for t in tokens.iter() {
        assert_eq!(&t.clone(), t);
    }
}

fn spelled(e: &Expr) -> Vec<Token> {
    let open = Token::Delimiters(Delimiters::LParen);
    let close = Token::Delimiters(Delimiters::RParen);
    match e {
        Expr::BinOp(op, left, right) => {
            let mut ts = vec![open];
            ts.extend(spelled(left));
            ts.push(Token::Operator(*op));
            ts.extend(spelled(right));
            ts.push(close);
            ts
        }
        Expr::Neg(operand) => {
            let mut ts = vec![open, Token::Operator(Operator::Minus)];
            ts.extend(spelled(operand));
            ts.push(close);
            ts
        }
        Expr::Function(f, argument) => {
            let mut ts = vec![Token::Function(*f), open];
            ts.extend(spelled(argument));
            ts.push(close);
            ts
        }
        Expr::Constance(value) => vec![Token::Literals(Literals::Number(value.clone()))],
    }
}

#[test]
fn a_tree_is_read_back_from_its_spelling() {
    let trees = vec![
        *lit(7.0),
        Expr::Neg(lit(7.0)),
        Expr::Function(Function::Tan, lit(0.5)),
        *bin(Operator::Plus, lit(1.0), lit(2.0)),
        *bin(Operator::Minus, lit(1.0), bin(Operator::Minus, lit(2.0), lit(3.0))),
        *bin(Operator::Caret, lit(2.0), bin(Operator::Caret, lit(3.0), lit(2.0))),
        *bin(Operator::Slash, bin(Operator::Star, lit(2.0), lit(3.0)), Box::new(Expr::Neg(lit(4.0)))),
        *bin(
            Operator::Percent,
            Box::new(Expr::Function(Function::Lg, bin(Operator::Plus, lit(1.0), lit(1.0)))),
            Box::new(Expr::Function(Function::Sqrt, Box::new(Expr::Neg(lit(9.0))))),
        ),
    ];
    for tree in trees {
        assert_eq!(expr_parser(&spelled(&tree)[..]), Ok(tree));
    }
}

#[test]
fn the_parts_of_the_grammar_in_tokens() {
    let plus = Token::Operator(Operator::Plus);
    let star = Token::Operator(Operator::Star);
    let caret = Token::Operator(Operator::Caret);
    let minus = Token::Operator(Operator::Minus);
    let open = Token::Delimiters(Delimiters::LParen);
    let close = Token::Delimiters(Delimiters::RParen);
    let sin = Token::Function(Function::Sin);
    let cos = Token::Function(Function::Cos);
    // a + b * c
    assert_eq!(
        expr_parser(&[number(1.0), plus, number(2.0), star, number(3.0)]),
        Ok(*bin(Operator::Plus, lit(1.0), bin(Operator::Star, lit(2.0), lit(3.0))))
    );
    // a ^ b ^ c
    assert_eq!(
        expr_parser(&[number(2.0), caret.clone(), number(3.0), caret, number(2.0)]),
        Ok(*bin(Operator::Caret, bin(Operator::Caret, lit(2.0), lit(3.0)), lit(2.0)))
    );
    // a ( b )
    assert_eq!(
        expr_parser(&[number(2.0), open.clone(), number(3.0), close]),
        Ok(*bin(Operator::Star, lit(2.0), lit(3.0)))
    );
    // f g a
    assert_eq!(
        expr_parser(&[sin, cos, number(0.0)]),
        Ok(Expr::Function(Function::Sin, Box::new(Expr::Function(Function::Cos, lit(0.0)))))
    );
    // - - a
    assert_eq!(
        expr_parser(&[minus.clone(), minus, number(5.0)]),
        Ok(Expr::Neg(Box::new(Expr::Neg(lit(5.0)))))
    );
    // ( a
    assert_eq!(expr_parser(&[open, number(1.0)]), Err(ExprError::ExprInvalidParenthes));
}
