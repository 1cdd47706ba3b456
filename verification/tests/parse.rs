use exprcalc::parse::{parse, parse_expr, parse_factor, parse_term, Expr, ParseError};
use exprcalc::tokenize::{tokenize, Token};

fn num(n: i32) -> Box<Expr> {
    Box::new(Expr::Number(n))
}

fn name(text: &str) -> Box<Expr> {
    Box::new(Expr::Variable(String::from(text)))
}

fn parse_text(text: &str) -> Result<Expr, ParseError> {
    parse(&tokenize(text).unwrap())
}

#[test]
fn multiplication_binds_tighter_than_addition() {
    assert_eq!(
        parse_text("1+2*3"),
        Ok(Expr::Add(num(1), Box::new(Expr::Mul(num(2), num(3)))))
    );
    assert_eq!(
        parse_text("1*2+3"),
        Ok(Expr::Add(Box::new(Expr::Mul(num(1), num(2))), num(3)))
    );
}

#[test]
fn parentheses_override_precedence() {
    assert_eq!(
        parse_text("(1+2)*3"),
        Ok(Expr::Mul(Box::new(Expr::Add(num(1), num(2))), num(3)))
    );
}

#[test]
fn operators_group_from_the_left() {
    assert_eq!(
        parse_text("10-3-2"),
        Ok(Expr::Sub(Box::new(Expr::Sub(num(10), num(3))), num(2)))
    );
    assert_eq!(
        parse_text("a/b%c*d"),
        Ok(Expr::Mul(
            Box::new(Expr::Mod(Box::new(Expr::Div(name("a"), name("b"))), name("c"))),
            name("d")
        ))
    );
}

#[test]
fn a_leaf_is_an_expression() {
    assert_eq!(parse_text("7"), Ok(Expr::Number(7)));
    assert_eq!(parse_text("x"), Ok(Expr::Variable(String::from("x"))));
    assert_eq!(parse_text("((x))"), Ok(Expr::Variable(String::from("x"))));
}

#[test]
fn two_factors_without_an_operator_leave_input_unconsumed() {
    assert_eq!(parse_text("1 2"), Err(ParseError::UnconsumedInput(vec![Token::Number(2)])));
    assert_eq!(
        parse_text("1)+2"),
        Err(ParseError::UnconsumedInput(vec![
            Token::CloseParen,
            Token::Add,
            Token::Number(2)
        ]))
    );
}

#[test]
fn a_missing_factor_is_reported() {
    assert_eq!(parse(&[]), Err(ParseError::ExpectedFactor));
    assert_eq!(parse_text("1+"), Err(ParseError::ExpectedFactor));
    assert_eq!(parse_text("*2"), Err(ParseError::ExpectedFactor));
    assert_eq!(parse_text("1+*2"), Err(ParseError::ExpectedFactor));
    assert_eq!(parse_text("()"), Err(ParseError::ExpectedFactor));
    assert_eq!(parse_text(")"), Err(ParseError::ExpectedFactor));
}

#[test]
fn a_missing_closing_parenthesis_is_reported() {
    assert_eq!(parse_text("(1+2"), Err(ParseError::ExpectedClosingParen));
    assert_eq!(parse_text("(1 2)"), Err(ParseError::ExpectedClosingParen));
    assert_eq!(parse_text("((1)"), Err(ParseError::ExpectedClosingParen));
}

#[test]
fn the_rules_return_what_is_left_over() {
    let tokens = tokenize("2*3+4)").unwrap();
    let (factor, rest) = parse_factor(&tokens).unwrap();
    assert_eq!(factor, Expr::Number(2));
    assert_eq!(rest, &tokens[1..]);
    let (term, rest) = parse_term(&tokens).unwrap();
    assert_eq!(term, Expr::Mul(num(2), num(3)));
    assert_eq!(rest, &tokens[3..]);
    let (expr, rest) = parse_expr(&tokens).unwrap();
    assert_eq!(expr, Expr::Add(Box::new(Expr::Mul(num(2), num(3))), num(4)));
    assert_eq!(rest, &tokens[5..]);
}

#[test]
fn an_expression_clone_is_equal() {
    let expr = parse_text("(a+1)*(b-2)/c%4").unwrap();
    assert_eq!(expr.clone(), expr);
}
