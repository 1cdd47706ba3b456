use exprcalc::eval::{apply, combine, evaluate, Bindings, EvalError};
use exprcalc::parse::{parse, Expr, Operator};
use exprcalc::tokenize::tokenize;

fn bindings(pairs: &[(&str, i32)]) -> Bindings {
    let mut variables = Bindings::new();
    for (name, value) in pairs {
        variables.insert(String::from(*name), *value);
    }
    variables
}

fn eval_text(text: &str, pairs: &[(&str, i32)]) -> Result<i32, EvalError> {
    let tokens = tokenize(text).unwrap();
    let expr = parse(&tokens).unwrap();
    evaluate(&expr, &bindings(pairs))
}

#[test]
fn precedence_is_respected() {
    assert_eq!(eval_text("1+2*3", &[]), Ok(7));
}

#[test]
fn parentheses_are_respected() {
    assert_eq!(eval_text("(1+2)*3", &[]), Ok(9));
}

#[test]
fn subtraction_groups_from_the_left() {
    assert_eq!(eval_text("10-3-2", &[]), Ok(5));
}

#[test]
fn an_unbound_variable_is_an_error() {
    assert_eq!(eval_text("a+1", &[]), Err(EvalError::UndefinedVariable(String::from("a"))));
    assert_eq!(
        eval_text("a+b", &[("a", 1)]),
        Err(EvalError::UndefinedVariable(String::from("b")))
    );
}

#[test]
fn division_and_remainder_by_zero_are_errors() {
    assert_eq!(eval_text("5/0", &[]), Err(EvalError::DivisionByZero));
    assert_eq!(eval_text("5%0", &[]), Err(EvalError::ModuloByZero));
}

#[test]
fn variables_take_their_bound_values() {
    assert_eq!(eval_text("1+2*a", &[("a", 3)]), Ok(7));
    assert_eq!(eval_text("a*a-b", &[("a", -4), ("b", 6)]), Ok(10));
}

#[test]
fn division_rounds_toward_zero() {
    assert_eq!(eval_text("a / b", &[("a", 7), ("b", 2)]), Ok(3));
    assert_eq!(eval_text("a / b", &[("a", -7), ("b", 2)]), Ok(-3));
    assert_eq!(eval_text("a / b", &[("a", 7), ("b", -2)]), Ok(-3));
    assert_eq!(eval_text("a / b", &[("a", -7), ("b", -2)]), Ok(3));
    assert_eq!(eval_text("a / b", &[("a", i32::MIN), ("b", 1)]), Ok(i32::MIN));
    assert_eq!(eval_text("a / b", &[("a", i32::MAX), ("b", -1)]), Ok(-i32::MAX));
}

#[test]
fn the_remainder_has_the_sign_of_the_dividend() {
    assert_eq!(eval_text("a % b", &[("a", 7), ("b", 2)]), Ok(1));
    assert_eq!(eval_text("a % b", &[("a", -7), ("b", 2)]), Ok(-1));
    assert_eq!(eval_text("a % b", &[("a", 7), ("b", -2)]), Ok(1));
    assert_eq!(eval_text("a % b", &[("a", -7), ("b", -2)]), Ok(-1));
    assert_eq!(eval_text("a % b", &[("a", i32::MIN), ("b", -1)]), Ok(0));
}

#[test]
fn results_out_of_range_are_overflows() {
    assert_eq!(eval_text("2147483647+1", &[]), Err(EvalError::Overflow));
    assert_eq!(eval_text("0-2147483647-2", &[]), Err(EvalError::Overflow));
    assert_eq!(eval_text("65536*32768", &[]), Err(EvalError::Overflow));
    assert_eq!(eval_text("a / b", &[("a", i32::MIN), ("b", -1)]), Err(EvalError::Overflow));
    assert_eq!(eval_text("0-2147483647-1", &[]), Ok(i32::MIN));
    assert_eq!(eval_text("2147483646+1", &[]), Ok(i32::MAX));
}

#[test]
fn the_error_of_the_left_operand_comes_first() {
    assert_eq!(eval_text("1/0 + x", &[]), Err(EvalError::DivisionByZero));
    assert_eq!(
        eval_text("x + 1/0", &[]),
        Err(EvalError::UndefinedVariable(String::from("x")))
    );
    assert_eq!(eval_text("(1%0) / 0", &[]), Err(EvalError::ModuloByZero));
}

#[test]
fn apply_computes_each_operator() {
    assert_eq!(apply(Operator::Add, 2, 3), Ok(5));
    assert_eq!(apply(Operator::Sub, 2, 3), Ok(-1));
    assert_eq!(apply(Operator::Mul, 2, 3), Ok(6));
    assert_eq!(apply(Operator::Div, 7, 3), Ok(2));
    assert_eq!(apply(Operator::Mod, 7, 3), Ok(1));
}

#[test]
fn combine_passes_errors_on() {
    assert_eq!(combine(Ok(6), Ok(3), Operator::Div), Ok(2));
    assert_eq!(
        combine(Err(EvalError::Overflow), Err(EvalError::DivisionByZero), Operator::Add),
        Err(EvalError::Overflow)
    );
    assert_eq!(
        combine(Ok(1), Err(EvalError::DivisionByZero), Operator::Add),
        Err(EvalError::DivisionByZero)
    );
    assert_eq!(
        combine(Err(EvalError::ModuloByZero), Ok(1), Operator::Add),
        Err(EvalError::ModuloByZero)
    );
}

#[test]
fn a_tree_built_by_hand_is_evaluated() {
    let expr = Expr::Add(
        Box::new(Expr::Number(1)),
        Box::new(Expr::Mul(
            Box::new(Expr::Number(2)),
            Box::new(Expr::Variable(String::from("a"))),
        )),
    );
    assert_eq!(evaluate(&expr, &bindings(&[("a", 3)])), Ok(7));
    assert_eq!(evaluate(&Expr::Number(-5), &bindings(&[])), Ok(-5));
}
