use calculator::{Calculator, Operators, Token};

fn num(n: u32) -> Token {
    Token::Number(n)
}

fn add() -> Token {
    Token::Operator(Operators::Adition)
}

fn sub() -> Token {
    Token::Operator(Operators::Substruction)
}

fn mul() -> Token {
    Token::Operator(Operators::Multiplication)
}

fn div() -> Token {
    Token::Operator(Operators::Division)
}

fn open() -> Token {
    Token::Bracket('(')
}

fn close() -> Token {
    Token::Bracket(')')
}

#[test]
fn rank_puts_multiplication_and_division_above_the_rest() {
    assert_eq!(Operators::Adition.rank(), 1);
    assert_eq!(Operators::Substruction.rank(), 1);
    assert_eq!(Operators::Multiplication.rank(), 2);
    assert_eq!(Operators::Division.rank(), 2);
}

#[test]
fn empty_input_gives_empty_output() {
    assert_eq!(Calculator::expression(vec![]), vec![]);
}

#[test]
fn operator_moves_behind_its_operands() {
    assert_eq!(
        Calculator::expression(vec![num(3), add(), num(4)]),
        vec![num(3), num(4), add()]
    );
}

#[test]
fn tighter_operator_comes_out_first() {
    assert_eq!(
        Calculator::expression(vec![num(2), add(), num(3), mul(), num(4)]),
        vec![num(2), num(3), num(4), mul(), add()]
    );
    assert_eq!(
        Calculator::expression(vec![num(2), mul(), num(3), add(), num(4)]),
        vec![num(2), num(3), mul(), num(4), add()]
    );
}

#[test]
fn equal_rank_groups_from_the_left() {
    assert_eq!(
        Calculator::expression(vec![num(8), sub(), num(3), sub(), num(2)]),
        vec![num(8), num(3), sub(), num(2), sub()]
    );
    assert_eq!(
        Calculator::expression(vec![num(8), add(), num(3), sub(), num(2)]),
        vec![num(8), num(3), add(), num(2), sub()]
    );
    assert_eq!(
        Calculator::expression(vec![num(8), mul(), num(2), div(), num(3)]),
        vec![num(8), num(2), mul(), num(3), div()]
    );
    assert_eq!(
        Calculator::expression(vec![num(8), div(), num(2), mul(), num(3)]),
        vec![num(8), num(2), div(), num(3), mul()]
    );
}

#[test]
fn brackets_group_and_disappear() {
    assert_eq!(
        Calculator::expression(vec![open(), num(2), add(), num(3), close(), mul(), num(4)]),
        vec![num(2), num(3), add(), num(4), mul()]
    );
    assert_eq!(
        Calculator::expression(vec![num(2), mul(), open(), num(3), add(), num(4), close()]),
        vec![num(2), num(3), num(4), add(), mul()]
    );
    assert_eq!(
        Calculator::expression(vec![open(), open(), num(1), close(), close()]),
        vec![num(1)]
    );
}

#[test]
fn operator_does_not_pop_past_an_open_bracket() {
    assert_eq!(
        Calculator::expression(vec![
            num(1),
            mul(),
            open(),
            num(2),
            add(),
            num(3),
            mul(),
            num(4),
            close(),
            sub(),
            num(5),
        ]),
        vec![
            num(1),
            num(2),
            num(3),
            num(4),
            mul(),
            add(),
            mul(),
            num(5),
            sub(),
        ]
    );
}

#[test]
fn unclosed_bracket_is_flushed_with_the_stack() {
    assert_eq!(Calculator::expression(vec![open()]), vec![open()]);
    assert_eq!(
        Calculator::expression(vec![open(), num(1), add(), num(2)]),
        vec![num(1), num(2), add(), open()]
    );
}

#[test]
fn closing_bracket_without_an_open_one_empties_the_stack() {
    assert_eq!(
        Calculator::expression(vec![num(1), add(), num(2), close(), mul(), num(3)]),
        vec![num(1), num(2), add(), num(3), mul()]
    );
    assert_eq!(Calculator::expression(vec![close()]), vec![]);
}

#[test]
fn other_bracket_characters_are_dropped() {
    assert_eq!(
        Calculator::expression(vec![Token::Bracket('['), num(1), Token::Bracket(']')]),
        vec![num(1)]
    );
}

#[test]
fn adjacent_operators_are_not_checked() {
    assert_eq!(
        Calculator::expression(vec![add(), mul(), num(1)]),
        vec![num(1), mul(), add()]
    );
    assert_eq!(
        Calculator::expression(vec![num(1), num(2)]),
        vec![num(1), num(2)]
    );
}

#[test]
fn parsed_text_converts() {
    let tokens = Calculator::parse("(2+3)*4").unwrap();
    assert_eq!(
        Calculator::expression(tokens),
        vec![num(2), num(3), add(), num(4), mul()]
    );
}
