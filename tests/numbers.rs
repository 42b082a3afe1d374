use lexer::{Lexem, Lexer, NumberLiteral};

fn scan(input: &str) -> Lexer {
    let mut lexer = Lexer::new();
    lexer.lex(input);
    lexer
}

// The value of a literal, accumulated in the documented order: integer
// digits, then fraction digits by a growing divider, then the power of ten.
fn value(lit: &NumberLiteral) -> f64 {
    let mut num: f64 = 0.0;
    for d in &lit.int_digits {
        num = num * 10.0 + *d as f64;
    }
    let mut divider: f64 = 1.0;
    for d in &lit.frac_digits {
        divider *= 10.0;
        num += *d as f64 / divider;
    }
    let sign = if lit.negative { -1.0 } else { 1.0 };
    sign * num * 10.0f64.powi(lit.exponent())
}

fn single_number(input: &str) -> f64 {
    let lexer = scan(input);
    let lexems = lexer.lexems();
    assert_eq!(lexems.len(), 1);
    match &lexems[0] {
        Lexem::Number(lit) => value(lit),
        _ => panic!("Expected number lexem"),
    }
}

#[test]
fn negative_literal_with_fraction_and_exponent() {
    let lexer = scan("-3.14e2");
    let lexems = lexer.lexems();
    assert_eq!(lexems.len(), 1);
    match &lexems[0] {
        Lexem::Number(lit) => {
            assert!(lit.negative);
            assert_eq!(lit.int_digits, vec![3]);
            assert_eq!(lit.frac_digits, vec![1, 4]);
            assert!(!lit.exp_negative);
            assert_eq!(lit.exp_digits, vec![2]);
            assert_eq!(lit.exponent(), 2);
            assert_eq!(value(lit), -314.0);
        }
        _ => panic!("Expected number lexem"),
    }
}

#[test]
fn integer_literal() {
    assert_eq!(single_number("42"), 42.0);
}

#[test]
fn fraction_without_integer_part() {
    assert_eq!(single_number(".5"), 0.5);
}

#[test]
fn trailing_point_keeps_integer() {
    let lexer = scan("5.");
    match &lexer.lexems()[0] {
        Lexem::Number(lit) => {
            assert_eq!(lit.int_digits, vec![5]);
            assert!(lit.frac_digits.is_empty());
            assert_eq!(value(lit), 5.0);
        }
        _ => panic!("Expected number lexem"),
    }
}

#[test]
fn negative_exponent() {
    let lexer = scan("25E-1");
    match &lexer.lexems()[0] {
        Lexem::Number(lit) => {
            assert!(lit.exp_negative);
            assert_eq!(lit.exponent(), -1);
            assert_eq!(value(lit), 2.5);
        }
        _ => panic!("Expected number lexem"),
    }
}

#[test]
fn plus_in_exponent_is_skipped() {
    assert_eq!(single_number("7e+3"), 7000.0);
}

#[test]
fn lone_sign_or_point_gives_no_token() {
    assert!(scan("-").lexems().is_empty());
    assert!(scan(".").lexems().is_empty());
    assert!(scan("- . -x .y").lexems().is_empty());
}

#[test]
fn sign_then_point_resumes_after_sign() {
    // The failed attempt stops after '-', and the scan restarts at '.'.
    assert_eq!(single_number("-.5"), 0.5);
}

#[test]
fn huge_exponent_saturates() {
    let lexer = scan("1e99999999999 1e-99999999999");
    let lexems = lexer.lexems();
    assert_eq!(lexems.len(), 2);
    match (&lexems[0], &lexems[1]) {
        (Lexem::Number(a), Lexem::Number(b)) => {
            assert_eq!(a.exponent(), i32::MAX);
            assert_eq!(b.exponent(), -i32::MAX);
        }
        _ => panic!("Expected number lexems"),
    }
}

#[test]
fn numbers_and_urls_in_order() {
    let lexer = scan("x 12 https://a.b/c -7 zz 0.25");
    let lexems = lexer.lexems();
    assert_eq!(lexems.len(), 4);
    match &lexems[1] {
        Lexem::Url(url) => assert_eq!(url, "https://a.b/c"),
        _ => panic!("Expected URL lexem"),
    }
    let values: Vec<f64> = [0usize, 2, 3]
        .iter()
        .map(|k| match &lexems[*k] {
            Lexem::Number(lit) => value(lit),
            _ => panic!("Expected number lexem"),
        })
        .collect();
    assert_eq!(values, vec![12.0, -7.0, 0.25]);
}

#[test]
fn number_stops_at_letter() {
    let lexer = scan("12abc");
    let lexems = lexer.lexems();
    assert_eq!(lexems.len(), 1);
    match &lexems[0] {
        Lexem::Number(lit) => assert_eq!(value(lit), 12.0),
        _ => panic!("Expected number lexem"),
    }
}

#[test]
fn literal_between_whitespace_keeps_its_digits() {
    let lexer = scan("\t -0.25e-3 \n");
    let lexems = lexer.lexems();
    assert_eq!(lexems.len(), 1);
    let expected = NumberLiteral {
        negative: true,
        int_digits: vec![0],
        frac_digits: vec![2, 5],
        exp_negative: true,
        exp_digits: vec![3],
    };
    assert_eq!(lexems[0], Lexem::Number(expected));
}
