use calculator::number::{digit, number_char, Numeral};

fn shown(text: &str) -> Option<String> {
    Numeral::parse(text).map(|n| String::from(n.as_str()))
}

#[test]
fn digits_and_points() {
    assert!(digit('0'));
    assert!(digit('9'));
    assert!(!digit('.'));
    assert!(!digit('a'));
    assert!(!digit('٣'));
    assert!(number_char('5'));
    assert!(number_char('.'));
    assert!(!number_char('-'));
    assert!(!number_char('e'));
}

#[test]
fn shortest_form() {
    assert_eq!(shown("1"), Some(String::from("1")));
    assert_eq!(shown("12.3"), Some(String::from("12.3")));
    assert_eq!(shown("12.30"), Some(String::from("12.3")));
    assert_eq!(shown("12.0"), Some(String::from("12")));
    assert_eq!(shown("007"), Some(String::from("7")));
    assert_eq!(shown("1."), Some(String::from("1")));
    assert_eq!(shown(".5"), Some(String::from("0.5")));
    assert_eq!(shown("0"), Some(String::from("0")));
    assert_eq!(shown("000"), Some(String::from("0")));
    assert_eq!(shown("0.0"), Some(String::from("0")));
    assert_eq!(shown(".0"), Some(String::from("0")));
    assert_eq!(shown("0."), Some(String::from("0")));
    assert_eq!(shown("100"), Some(String::from("100")));
    assert_eq!(shown("0.001"), Some(String::from("0.001")));
    assert_eq!(shown("10.010"), Some(String::from("10.01")));
}

#[test]
fn what_is_no_numeral() {
    assert_eq!(shown(""), None);
    assert_eq!(shown("."), None);
    assert_eq!(shown(".."), None);
    assert_eq!(shown("1.2.3"), None);
    assert_eq!(shown("1..2"), None);
    assert_eq!(shown("-1"), None);
    assert_eq!(shown("1e5"), None);
    assert_eq!(shown("1 "), None);
    assert_eq!(shown("inf"), None);
}

#[test]
fn numerals_are_what_the_float_parser_accepts() {
    let runs = [
        "", ".", "..", "0", "1", "1.", ".1", "1.1", "1.1.", ".1.", "..1", "1..", "00", "0.0",
        "123456789012345678901234567890", "0.000000000000000000000000000001", "9.9.9", "3.14",
    ];
    for run in runs {
        assert_eq!(Numeral::parse(run).is_some(), run.parse::<f64>().is_ok(), "{:?}", run);
    }
}

#[test]
fn shortest_form_is_how_a_float_is_shown() {
    let runs = [
        "0", "1", "2", "12.3", "12.0", "12.30", "007", "1.", ".5", "0.25", "100", "2.5", "10.0",
        "3.141592653589793", "2.718281828459045", "0.1", "123456.789", "0.000001",
        "100000000000000000000", "4.0", "7",
    ];
    for run in runs {
        let value: f64 = run.parse().unwrap();
        assert_eq!(shown(run), Some(value.to_string()), "{:?}", run);
    }
}

#[test]
fn shortest_form_keeps_the_value() {
    let runs = ["0012.3400", "5.", ".125", "000.000", "98765.43210"];
    for run in runs {
        let before: f64 = run.parse().unwrap();
        let after: f64 = shown(run).unwrap().parse().unwrap();
        assert_eq!(before, after, "{:?}", run);
    }
}

#[test]
fn shortest_form_of_a_shortest_form() {
    let runs = ["0", "7", "12.3", "0.5", "100", "0.001"];
    for run in runs {
        assert_eq!(shown(run), Some(String::from(run)));
    }
}

#[test]
fn the_constants() {
    assert_eq!(Numeral::pi().as_str(), "3.141592653589793");
    assert_eq!(Numeral::e().as_str(), "2.718281828459045");
    assert_eq!(Numeral::pi().as_str().parse::<f64>().unwrap(), std::f64::consts::PI);
    assert_eq!(Numeral::e().as_str().parse::<f64>().unwrap(), std::f64::consts::E);
    assert_eq!(Numeral::pi().as_str(), std::f64::consts::PI.to_string());
    assert_eq!(Numeral::e().as_str(), std::f64::consts::E.to_string());
}

#[test]
fn a_copy_is_equal() {
    let n = Numeral::parse("12.5").unwrap();
    assert_eq!(n.clone(), n);
    assert_ne!(Numeral::parse("12.5"), Numeral::parse("12.6"));
}
