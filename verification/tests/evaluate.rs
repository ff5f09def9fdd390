use calculator::ast::Expr;
use calculator::evaluate::to_string;
use calculator::lex::{token_parser, Function, Operator};
use calculator::number::Numeral;
use calculator::parser::expr_parser;

fn eval(expr: &Expr) -> f64 {
    match expr {
        Expr::BinOp(op, expr1, expr2) => {
            let (num1, num2) = (eval(expr1), eval(expr2));
            match op {
                Operator::Plus => num1 + num2,
                Operator::Minus => num1 - num2,
                Operator::Star => num1 * num2,
                Operator::Slash => num1 / num2,
                Operator::Percent => num1 % num2,
                Operator::Caret => num1.powf(num2),
            }
        }
        Expr::Function(func, expr1) => {
            let num = eval(expr1);
            match func {
                Function::Sqrt => num.sqrt(),
                Function::Sin => num.sin(),
                Function::Cos => num.cos(),
                Function::Tan => num.tan(),
                Function::Log => num.log10(),
                Function::Ln => num.ln(),
                Function::Lg => num.log2(),
            }
        }
        Expr::Neg(e) => -eval(e),
        Expr::Constance(v) => v.as_str().parse::<f64>().unwrap(),
    }
}

fn tree(text: &str) -> Expr {
    expr_parser(&(token_parser(text).unwrap()[..])).unwrap()
}

fn value(text: &str) -> f64 {
    eval(&tree(text))
}

fn lit(text: &str) -> Box<Expr> {
    Box::new(Expr::Constance(Numeral::parse(text).unwrap()))
}

#[test]
fn evaluate_it_works() {
    assert_eq!(
        eval(&expr_parser(&(token_parser("12.3+12.0").unwrap()[..])).unwrap(),),
        12.3 + 12.0
    );

    assert_eq!(
        eval(&expr_parser(&(token_parser("sin(12.0) + 10.0 * 2.5 + 7").unwrap()[..])).unwrap(),),
        (12.0 as f64).sin() + 10.0 * 2.5 + 7 as f64
    );

    assert_eq!(
        eval(&expr_parser(&(token_parser("sin(12.0) + 10.0 * 2.5 + ln7").unwrap()[..])).unwrap(),),
        (12.0 as f64).sin() + 10.0 * 2.5 + (7 as f64).ln() as f64
    );

    assert_eq!(
        to_string(&expr_parser(&(token_parser("1+2").unwrap()[..])).unwrap()),
        String::from("(1+2)")
    );
}

#[test]
fn round_trip() {
    assert_eq!(to_string(&tree("1+2")), "(1+2)");
}

#[test]
fn precedence() {
    assert_eq!(value("1+2*3"), 7.0);
    assert_eq!(value("(1+2)*3"), 9.0);
}

#[test]
fn implicit_multiplication() {
    assert_eq!(value("2(3)"), 6.0);
    assert_eq!(value("(1+2)(3)"), 9.0);
}

#[test]
fn left_associative_power() {
    assert_eq!(value("2^3^2"), 64.0);
    assert_ne!(value("2^3^2"), 512.0);
}

#[test]
fn function_application_binds_to_a_single_factor() {
    assert_eq!(value("sin cos 0"), (1.0 as f64).sin());
    assert!((value("sin cos 0") - 0.8414709848).abs() < 1e-9);
}

#[test]
fn constants() {
    assert!((value("sin(pi/6)") - 0.5).abs() < 1e-12);
    assert_eq!(value("pi"), std::f64::consts::PI);
    assert_eq!(value("π"), std::f64::consts::PI);
    assert_eq!(value("e"), std::f64::consts::E);
    assert_eq!(value("ln e"), 1.0);
}

#[test]
fn double_negation() {
    assert_eq!(value("--5"), 5.0);
    assert_eq!(value("-5"), -5.0);
}

#[test]
fn the_three_logarithms() {
    assert_eq!(value("log 1000"), 3.0);
    assert_eq!(value("lg 8"), 3.0);
    assert_eq!(value("ln 1"), 0.0);
}

#[test]
fn remainder_and_division() {
    assert_eq!(value("7%4"), 3.0);
    assert_eq!(value("7.5%2"), 1.5);
    assert_eq!(value("1/4"), 0.25);
    assert!(value("1/0").is_infinite());
    assert!(value("0/0").is_nan());
}

#[test]
fn the_driver_expressions() {
    assert!((value("sin1^2+cos1^2") - 1.0).abs() < 1e-12);
    assert_eq!(
        to_string(&tree("sin cos1^2+cos1^2+(1-3)-1*5-2")),
        "(((((Sin(Cos(1) ) ^2)+(Cos(1) ^2))+(1-3))-(1*5))-2)"
    );
}

#[test]
fn text_of_each_operator() {
    assert_eq!(to_string(&tree("1+2")), "(1+2)");
    assert_eq!(to_string(&tree("1-2")), "(1-2)");
    assert_eq!(to_string(&tree("1*2")), "(1*2)");
    assert_eq!(to_string(&tree("1/2")), "(1/2)");
    assert_eq!(to_string(&tree("1%2")), "(1%2)");
    assert_eq!(to_string(&tree("1^2")), "(1^2)");
}

#[test]
fn text_of_each_function() {
    assert_eq!(to_string(&tree("sqrt 4")), "Sqrt(4) ");
    assert_eq!(to_string(&tree("√4")), "Sqrt(4) ");
    assert_eq!(to_string(&tree("sin 4")), "Sin(4) ");
    assert_eq!(to_string(&tree("cos 4")), "Cos(4) ");
    assert_eq!(to_string(&tree("tan 4")), "Tan(4) ");
    assert_eq!(to_string(&tree("log 4")), "Log(4) ");
    assert_eq!(to_string(&tree("ln 4")), "Ln(4) ");
    assert_eq!(to_string(&tree("lg 4")), "Lg(4) ");
}

#[test]
fn text_of_negation_and_numbers() {
    assert_eq!(to_string(&tree("-5")), "(-5)");
    assert_eq!(to_string(&tree("--5")), "(-(-5))");
    assert_eq!(to_string(&tree("12.30")), "12.3");
    assert_eq!(to_string(&tree("12.0")), "12");
    assert_eq!(to_string(&tree(".5")), "0.5");
    assert_eq!(to_string(&tree("pi")), "3.141592653589793");
    assert_eq!(to_string(&tree("e")), "2.718281828459045");
}

#[test]
fn text_of_a_number_is_how_its_float_is_shown() {
    for text in ["1", "12.3", "12.0", "0.5", "2.50", "100", "pi", "e", "0.1", "007"] {
        assert_eq!(to_string(&tree(text)), value(text).to_string());
    }
}

#[test]
fn text_of_a_tree_built_by_hand() {
    let e = Expr::BinOp(
        Operator::Slash,
        Box::new(Expr::Function(Function::Ln, lit("2.5"))),
        Box::new(Expr::Neg(lit("10"))),
    );
    assert_eq!(to_string(&e), "(Ln(2.5) /(-10))");
}

#[test]
fn text_reads_back_as_the_same_tree() {
    for text in ["1+2*3", "2^3^2", "--5", "2(3)(4)", "sin cos 0", "(1+2)*√9-ln e", "7%4/2"] {
        let first = tree(text);
        let again = tree(&to_string(&first));
        assert_eq!(first, again, "{:?}", text);
    }
}

#[test]
fn nested_text() {
    assert_eq!(to_string(&tree("1+2*3")), "(1+(2*3))");
    assert_eq!(to_string(&tree("(1+2)*3")), "((1+2)*3)");
    assert_eq!(to_string(&tree("2^3^2")), "((2^3)^2)");
    assert_eq!(to_string(&tree("2(3)")), "(2*3)");
    assert_eq!(to_string(&tree("sin cos 0")), "Sin(Cos(0) ) ");
}
