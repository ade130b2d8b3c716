use calculator::{Calculator, Operators, Token};

fn number(n: u32) -> f32 {
    n as f32
}

fn apply(op: Operators, left: f32, right: f32) -> f32 {
    match op {
        Operators::Adition => left + right,
        Operators::Substruction => left - right,
        Operators::Multiplication => left * right,
        Operators::Division => left / right,
    }
}

fn evaluate(tokens: Vec<Token>) -> Option<f32> {
    Calculator::evaluate(tokens, number, apply)
}

fn compute(text: &str) -> Option<f32> {
    evaluate(Calculator::expression(Calculator::parse(text).unwrap()))
}

#[test]
fn sum_round_trip() {
    assert_eq!(compute("3+4"), Some(7.0));
}

#[test]
fn multiplication_binds_tighter() {
    assert_eq!(compute("2+3*4"), Some(14.0));
    assert_eq!(compute("2*3+4"), Some(10.0));
}

#[test]
fn subtraction_groups_from_the_left() {
    assert_eq!(compute("8-3-2"), Some(3.0));
}

#[test]
fn division_groups_from_the_left() {
    assert_eq!(compute("8/4/2"), Some(1.0));
    assert_eq!(compute("8/2*3"), Some(12.0));
    assert_eq!(compute("8*2/4"), Some(4.0));
}

#[test]
fn brackets_override_precedence() {
    assert_eq!(compute("(2+3)*4"), Some(20.0));
    assert_eq!(compute("2*(3+4)"), Some(14.0));
}

#[test]
fn two_numbers_without_operator_have_no_value() {
    assert_eq!(evaluate(vec![Token::Number(1), Token::Number(2)]), None);
    assert_eq!(
        Calculator::value_count(&vec![Token::Number(1), Token::Number(2)]),
        Some(2)
    );
}

#[test]
fn empty_sequence_has_no_value() {
    assert_eq!(evaluate(vec![]), None);
    assert_eq!(Calculator::value_count(&vec![]), Some(0));
}

#[test]
fn division_by_zero_is_infinite() {
    let value = compute("1/0").unwrap();
    assert!(value.is_infinite());
    assert!(value > 0.0);
}

#[test]
fn zero_by_zero_is_not_a_number() {
    assert!(compute("0/0").unwrap().is_nan());
}

#[test]
fn division_keeps_fractions() {
    assert_eq!(compute("7/2"), Some(3.5));
}

#[test]
fn single_number_is_its_value() {
    assert_eq!(compute("42"), Some(42.0));
    assert_eq!(evaluate(vec![Token::Number(42)]), Some(42.0));
}

#[test]
fn later_value_is_the_right_operand() {
    assert_eq!(
        evaluate(vec![
            Token::Number(8),
            Token::Number(3),
            Token::Operator(Operators::Substruction)
        ]),
        Some(5.0)
    );
    assert_eq!(
        evaluate(vec![
            Token::Number(1),
            Token::Number(4),
            Token::Operator(Operators::Division)
        ]),
        Some(0.25)
    );
}

#[test]
fn brackets_in_a_postfix_sequence_are_passed_over() {
    assert_eq!(
        evaluate(vec![
            Token::Bracket('('),
            Token::Number(2),
            Token::Number(3),
            Token::Bracket(')'),
            Token::Operator(Operators::Adition),
        ]),
        Some(5.0)
    );
}

#[test]
fn large_number_takes_the_nearest_float() {
    assert_eq!(compute("16777217"), Some(16777216.0));
}

#[test]
fn value_count_is_one_for_a_well_formed_expression() {
    let postfix = Calculator::expression(Calculator::parse("(1+2)*(3-4)/5").unwrap());
    assert_eq!(Calculator::value_count(&postfix), Some(1));
    assert_eq!(evaluate(postfix), Some(-0.6));
}

#[test]
fn value_count_reports_a_missing_operand() {
    assert_eq!(
        Calculator::value_count(&vec![Token::Number(1), Token::Operator(Operators::Adition)]),
        None
    );
    assert_eq!(
        Calculator::value_count(&vec![Token::Operator(Operators::Multiplication)]),
        None
    );
    assert_eq!(
        Calculator::value_count(&vec![
            Token::Number(1),
            Token::Operator(Operators::Adition),
            Token::Number(2),
            Token::Number(3),
        ]),
        None
    );
}

#[test]
fn value_count_passes_over_brackets() {
    assert_eq!(
        Calculator::value_count(&vec![Token::Bracket('('), Token::Number(1)]),
        Some(1)
    );
}

#[test]
fn evaluate_works_in_any_arithmetic() {
    let tokens = Calculator::expression(Calculator::parse("2+3*4").unwrap());
    let text = Calculator::evaluate(
        tokens,
        |n: u32| n.to_string(),
        |op: Operators, left: String, right: String| {
            let sign = match op {
                Operators::Adition => "+",
                Operators::Substruction => "-",
                Operators::Multiplication => "*",
                Operators::Division => "/",
            };
            format!("({}{}{})", left, sign, right)
        },
    );
    assert_eq!(text, Some(String::from("(2+(3*4))")));
}
