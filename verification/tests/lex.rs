use calculator::lex::{
    classify, keyword_token, symbol_token, token_parser, CharClass, Constance, Delimiters,
    Function, Literals, Operator, Token, TokenError,
};
use calculator::number::Numeral;

fn num(v: f64) -> Literals {
    Literals::Number(Numeral::parse(&v.to_string()).unwrap())
}

#[test]
fn lex_it_works() {
    assert_eq!(
        token_parser("log1+2*4+(1+2)").unwrap_or_default(),
        vec![
            Token::Function(Function::Log),
            Token::Literals(num(1 as f64)),
            Token::Operator(Operator::Plus),
            Token::Literals(num(2 as f64)),
            Token::Operator(Operator::Star),
            Token::Literals(num(4 as f64)),
            Token::Operator(Operator::Plus),
            Token::Delimiters(Delimiters::LParen),
            Token::Literals(num(1 as f64)),
            Token::Operator(Operator::Plus),
            Token::Literals(num(2 as f64)),
            Token::Delimiters(Delimiters::RParen),
        ]
    );
    assert_eq!(
        token_parser("pi+π*4+sin(1)").unwrap_or_default(),
        vec![
            Token::Literals(Literals::Constance(Constance::PI)),
            Token::Operator(Operator::Plus),
            Token::Literals(Literals::Constance(Constance::PI)),
            Token::Operator(Operator::Star),
            Token::Literals(num(4 as f64)),
            Token::Operator(Operator::Plus),
            Token::Function(Function::Sin),
            Token::Delimiters(Delimiters::LParen),
            Token::Literals(num(1 as f64)),
            Token::Delimiters(Delimiters::RParen),
        ]
    );
    assert_eq!(
        token_parser("ln2").unwrap_or_default(),
        vec![Token::Function(Function::Ln), Token::Literals(num(2 as f64))]
    );
    assert_eq!(
        token_parser("lg2").unwrap_or_default(),
        vec![Token::Function(Function::Lg), Token::Literals(num(2 as f64))]
    );
}

#[test]
fn empty_text_has_no_tokens() {
    assert_eq!(token_parser(""), Ok(vec![]));
    assert_eq!(token_parser(" \t\n "), Ok(vec![]));
}

#[test]
fn every_single_character_token() {
    assert_eq!(
        token_parser("+-*/%^()√π"),
        Ok(vec![
            Token::Operator(Operator::Plus),
            Token::Operator(Operator::Minus),
            Token::Operator(Operator::Star),
            Token::Operator(Operator::Slash),
            Token::Operator(Operator::Percent),
            Token::Operator(Operator::Caret),
            Token::Delimiters(Delimiters::LParen),
            Token::Delimiters(Delimiters::RParen),
            Token::Function(Function::Sqrt),
            Token::Literals(Literals::Constance(Constance::PI)),
        ])
    );
}

#[test]
fn every_keyword() {
    assert_eq!(
        token_parser("e pi sqrt sin cos tan log ln lg"),
        Ok(vec![
            Token::Literals(Literals::Constance(Constance::E)),
            Token::Literals(Literals::Constance(Constance::PI)),
            Token::Function(Function::Sqrt),
            Token::Function(Function::Sin),
            Token::Function(Function::Cos),
            Token::Function(Function::Tan),
            Token::Function(Function::Log),
            Token::Function(Function::Ln),
            Token::Function(Function::Lg),
        ])
    );
}

#[test]
fn keywords_in_any_case() {
    assert_eq!(
        token_parser("SIN Cos tAn PI E Sqrt LOG Ln lG"),
        Ok(vec![
            Token::Function(Function::Sin),
            Token::Function(Function::Cos),
            Token::Function(Function::Tan),
            Token::Literals(Literals::Constance(Constance::PI)),
            Token::Literals(Literals::Constance(Constance::E)),
            Token::Function(Function::Sqrt),
            Token::Function(Function::Log),
            Token::Function(Function::Ln),
            Token::Function(Function::Lg),
        ])
    );
}

#[test]
fn whitespace_is_skipped() {
    assert_eq!(token_parser(" 1\t+\n2\u{a0}\u{3000}"), token_parser("1+2"));
    assert_eq!(
        token_parser("1 2"),
        Ok(vec![Token::Literals(num(1.0)), Token::Literals(num(2.0))])
    );
}

#[test]
fn a_numeral_reaches_as_far_as_it_can() {
    assert_eq!(
        token_parser("12.5sin"),
        Ok(vec![Token::Literals(num(12.5)), Token::Function(Function::Sin)])
    );
    assert_eq!(token_parser("1.2.3"), Err(TokenError::InvalidNumber(String::from("1.2.3"))));
}

#[test]
fn a_word_reaches_as_far_as_it_can() {
    assert_eq!(
        token_parser("sincos"),
        Err(TokenError::InvalidIdentifier(String::from("sincos")))
    );
    assert_eq!(token_parser("piπ"), Err(TokenError::InvalidIdentifier(String::from("piπ"))));
    assert_eq!(
        token_parser("πpi"),
        Ok(vec![
            Token::Literals(Literals::Constance(Constance::PI)),
            Token::Literals(Literals::Constance(Constance::PI)),
        ])
    );
}

#[test]
fn lexical_rejection() {
    assert_eq!(token_parser("1+@"), Err(TokenError::InvalidCharacter('@')));
}

#[test]
fn invalid_character_variants() {
    assert_eq!(token_parser("#"), Err(TokenError::InvalidCharacter('#')));
    assert_eq!(token_parser("1,2"), Err(TokenError::InvalidCharacter(',')));
    assert_eq!(token_parser("2=2"), Err(TokenError::InvalidCharacter('=')));
}

#[test]
fn invalid_number_keeps_the_text_as_written() {
    assert_eq!(token_parser("."), Err(TokenError::InvalidNumber(String::from("."))));
    assert_eq!(token_parser("1+.."), Err(TokenError::InvalidNumber(String::from(".."))));
    assert_eq!(token_parser("01..5*2"), Err(TokenError::InvalidNumber(String::from("01..5"))));
}

#[test]
fn invalid_identifier_keeps_the_text_as_written() {
    assert_eq!(token_parser("Foo"), Err(TokenError::InvalidIdentifier(String::from("Foo"))));
    assert_eq!(token_parser("2x"), Err(TokenError::InvalidIdentifier(String::from("x"))));
    assert_eq!(token_parser("sine(1)"), Err(TokenError::InvalidIdentifier(String::from("sine"))));
}

#[test]
fn the_first_error_from_the_left_wins() {
    assert_eq!(token_parser("@ 1.2.3 foo"), Err(TokenError::InvalidCharacter('@')));
    assert_eq!(token_parser("1.2.3 @ foo"), Err(TokenError::InvalidNumber(String::from("1.2.3"))));
    assert_eq!(token_parser("foo @ 1.2.3"), Err(TokenError::InvalidIdentifier(String::from("foo"))));
}

#[test]
fn equal_numbers_are_equal_tokens() {
    assert_eq!(token_parser("1.50"), token_parser("01.5"));
    assert_eq!(token_parser("0"), token_parser("0.0"));
    assert_eq!(token_parser(".5"), token_parser("0.5"));
    assert_ne!(token_parser("1.5"), token_parser("15"));
}

#[test]
fn symbol_token_by_character() {
    assert_eq!(symbol_token('+'), Some(Token::Operator(Operator::Plus)));
    assert_eq!(symbol_token('('), Some(Token::Delimiters(Delimiters::LParen)));
    assert_eq!(symbol_token('√'), Some(Token::Function(Function::Sqrt)));
    assert_eq!(symbol_token('π'), Some(Token::Literals(Literals::Constance(Constance::PI))));
    assert_eq!(symbol_token('1'), None);
    assert_eq!(symbol_token('a'), None);
    assert_eq!(symbol_token(' '), None);
}

#[test]
fn keyword_token_by_word() {
    let word = |s: &str| -> Vec<char> { s.chars().collect() };
    assert_eq!(keyword_token(&word("sin")), Some(Token::Function(Function::Sin)));
    assert_eq!(keyword_token(&word("lg")), Some(Token::Function(Function::Lg)));
    assert_eq!(keyword_token(&word("e")), Some(Token::Literals(Literals::Constance(Constance::E))));
    assert_eq!(keyword_token(&word("Sin")), None);
    assert_eq!(keyword_token(&word("si")), None);
    assert_eq!(keyword_token(&word("sinh")), None);
    assert_eq!(keyword_token(&word("")), None);
}

#[test]
fn classes_of_characters() {
    assert_eq!(classify('+', false, false), CharClass::Symbol);
    assert_eq!(classify('π', false, true), CharClass::Symbol);
    assert_eq!(classify('7', false, false), CharClass::Numeric);
    assert_eq!(classify('.', false, false), CharClass::Numeric);
    assert_eq!(classify(' ', true, false), CharClass::Blank);
    assert_eq!(classify('x', false, true), CharClass::Letter);
    assert_eq!(classify('@', false, false), CharClass::Other);
}
