use calculator::{Calculator, Error, Operators, Token};

#[test]
fn digits_alone_are_one_number() {
    assert_eq!(Calculator::parse("7"), Ok(vec![Token::Number(7)]));
    assert_eq!(Calculator::parse("12345"), Ok(vec![Token::Number(12345)]));
    assert_eq!(Calculator::parse("007"), Ok(vec![Token::Number(7)]));
    assert_eq!(Calculator::parse("4294967295"), Ok(vec![Token::Number(u32::MAX)]));
}

#[test]
fn empty_text_has_no_tokens() {
    assert_eq!(Calculator::parse(""), Ok(vec![]));
}

#[test]
fn lone_open_bracket_is_a_mismatch() {
    assert_eq!(Calculator::parse("("), Err(Error::ParensMismatch));
}

#[test]
fn lone_closing_bracket_is_a_mismatch() {
    assert_eq!(Calculator::parse(")"), Err(Error::ParensMismatch));
}

#[test]
fn bracket_pair_is_two_tokens() {
    assert_eq!(
        Calculator::parse("()"),
        Ok(vec![Token::Bracket('('), Token::Bracket(')')])
    );
}

#[test]
fn brackets_closed_in_the_wrong_order_are_a_mismatch() {
    assert_eq!(Calculator::parse(")("), Err(Error::ParensMismatch));
    assert_eq!(Calculator::parse("(1))"), Err(Error::ParensMismatch));
    assert_eq!(Calculator::parse("((1)"), Err(Error::ParensMismatch));
}

#[test]
fn unknown_character_is_reported() {
    assert_eq!(Calculator::parse("2@3"), Err(Error::BadToken('@')));
    assert_eq!(Calculator::parse("1.5"), Err(Error::BadToken('.')));
    assert_eq!(Calculator::parse("\t"), Err(Error::BadToken('\t')));
    assert_eq!(Calculator::parse("é"), Err(Error::BadToken('é')));
}

#[test]
fn first_error_wins() {
    assert_eq!(Calculator::parse("(@"), Err(Error::BadToken('@')));
    assert_eq!(Calculator::parse(")@"), Err(Error::ParensMismatch));
    assert_eq!(Calculator::parse("@)"), Err(Error::BadToken('@')));
    assert_eq!(Calculator::parse("a b"), Err(Error::BadToken('a')));
}

#[test]
fn digits_join_the_number_before_them() {
    assert_eq!(
        Calculator::parse("12+3"),
        Ok(vec![
            Token::Number(12),
            Token::Operator(Operators::Adition),
            Token::Number(3)
        ])
    );
}

#[test]
fn each_operator_has_its_token() {
    assert_eq!(
        Calculator::parse("+-*/"),
        Ok(vec![
            Token::Operator(Operators::Adition),
            Token::Operator(Operators::Substruction),
            Token::Operator(Operators::Multiplication),
            Token::Operator(Operators::Division),
        ])
    );
}

#[test]
fn spaces_and_newlines_leave_no_token() {
    assert_eq!(Calculator::parse(" \n "), Ok(vec![]));
    assert_eq!(
        Calculator::parse(" 1 +\n2 "),
        Ok(vec![
            Token::Number(1),
            Token::Operator(Operators::Adition),
            Token::Number(2)
        ])
    );
}

#[test]
fn digits_after_a_space_extend_the_last_number() {
    assert_eq!(Calculator::parse("1 2"), Ok(vec![Token::Number(12)]));
}

#[test]
fn digits_after_another_token_start_a_new_number() {
    assert_eq!(
        Calculator::parse("1(2)3"),
        Ok(vec![
            Token::Number(1),
            Token::Bracket('('),
            Token::Number(2),
            Token::Bracket(')'),
            Token::Number(3),
        ])
    );
}

#[test]
fn checked_parse_agrees_where_numbers_fit() {
    assert_eq!(
        Calculator::parse_checked("(2+3)*4"),
        Some(Calculator::parse("(2+3)*4"))
    );
    assert_eq!(
        Calculator::parse_checked("2@3"),
        Some(Err(Error::BadToken('@')))
    );
    assert_eq!(
        Calculator::parse_checked("4294967295"),
        Some(Ok(vec![Token::Number(4294967295)]))
    );
}

#[test]
fn checked_parse_reports_a_number_beyond_32_bits() {
    assert_eq!(Calculator::parse_checked("4294967296"), None);
    assert_eq!(Calculator::parse_checked("1+99999999999"), None);
    assert_eq!(Calculator::parse_checked("99999999999@"), None);
}

#[test]
fn error_before_a_long_number_is_still_the_error() {
    assert_eq!(
        Calculator::parse_checked("@99999999999"),
        Some(Err(Error::BadToken('@')))
    );
    assert_eq!(
        Calculator::parse_checked(")99999999999"),
        Some(Err(Error::ParensMismatch))
    );
}
