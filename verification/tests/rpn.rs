use in512_labs::rpn::{compute, ComputeError, Operator, Token};

#[test]
fn exercise3_empty() {
    let r = compute(&[]);
    assert_eq!(r, Err(ComputeError::EmptyStack));
}

#[test]
fn just_a_number() {
    let r = compute(&[Token::Number(5)]);
    assert_eq!(r, Ok(5));
}

#[test]
fn plus() {
    let r = compute(&[
        Token::Number(12),
        Token::Number(-5),
        Token::Op(Operator::Plus),
    ]);
    assert_eq!(r, Ok(7));
}

#[test]
fn minus() {
    let r = compute(&[
        Token::Number(3),
        Token::Number(7),
        Token::Op(Operator::Minus),
    ]);
    assert_eq!(r, Ok(-4));
}

#[test]
fn times() {
    let r = compute(&[
        Token::Number(5),
        Token::Number(7),
        Token::Op(Operator::Times),
    ]);
    assert_eq!(r, Ok(35));
}

#[test]
fn divide_ok() {
    let r = compute(&[
        Token::Number(15),
        Token::Number(2),
        Token::Op(Operator::Divide),
    ]);
    assert_eq!(r, Ok(7));
}

#[test]
fn divide_err() {
    let r = compute(&[
        Token::Number(15),
        Token::Number(0),
        Token::Op(Operator::Divide),
    ]);
    assert_eq!(r, Err(ComputeError::DivisionByZero));
}

#[test]
fn complex_expression() {
    let r = compute(&[
        Token::Number(1),
        Token::Number(2),
        Token::Number(3),
        Token::Number(4),
        Token::Op(Operator::Minus),
        Token::Op(Operator::Times),
        Token::Number(3),
        Token::Op(Operator::Times),
        Token::Op(Operator::Plus),
    ]);
    assert_eq!(r, Ok(-5));
}

#[test]
fn stack_underflow() {
    let r = compute(&[Token::Number(4), Token::Op(Operator::Minus)]);
    assert_eq!(r, Err(ComputeError::EmptyStack));
}

#[test]
fn division_rounds_toward_zero() {
    let divide = |b: i32, a: i32| {
        compute(&[Token::Number(b), Token::Number(a), Token::Op(Operator::Divide)])
    };
    assert_eq!(divide(-15, 2), Ok(-7));
    assert_eq!(divide(15, -2), Ok(-7));
    assert_eq!(divide(-15, -2), Ok(7));
    assert_eq!(divide(0, -2), Ok(0));
    assert_eq!(divide(i32::MIN, 1), Ok(i32::MIN));
    assert_eq!(divide(i32::MAX, -1), Ok(-i32::MAX));
}

#[test]
fn values_left_over_are_an_error() {
    let r = compute(&[Token::Number(1), Token::Number(2)]);
    assert_eq!(r, Err(ComputeError::EmptyStack));
}

#[test]
fn a_lone_operator_is_an_error() {
    let r = compute(&[Token::Op(Operator::Plus)]);
    assert_eq!(r, Err(ComputeError::EmptyStack));
}

#[test]
fn the_first_failing_token_decides() {
    let r = compute(&[
        Token::Number(1),
        Token::Number(0),
        Token::Op(Operator::Divide),
        Token::Op(Operator::Plus),
    ]);
    assert_eq!(r, Err(ComputeError::DivisionByZero));
    let r = compute(&[
        Token::Number(1),
        Token::Op(Operator::Plus),
        Token::Number(0),
        Token::Op(Operator::Divide),
    ]);
    assert_eq!(r, Err(ComputeError::EmptyStack));
}

#[test]
fn operands_are_taken_in_order() {
    let r = compute(&[
        Token::Number(100),
        Token::Number(7),
        Token::Number(2),
        Token::Op(Operator::Minus),
        Token::Op(Operator::Divide),
    ]);
    assert_eq!(r, Ok(20));
}
