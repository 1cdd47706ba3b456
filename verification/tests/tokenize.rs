use exprcalc::tokenize::{
    string_to_token, symbol_to_token, tokenize, Token, TokenType, TokenizeError,
};

fn var(name: &str) -> Token {
    Token::Variable(String::from(name))
}

#[test]
fn tokenizes_variables_numbers_and_operators() {
    assert_eq!(
        tokenize("a+3*b"),
        Ok(vec![var("a"), Token::Add, Token::Number(3), Token::Mul, var("b")])
    );
}

#[test]
fn rejects_an_unknown_character_with_its_position() {
    assert_eq!(tokenize("1@2"), Err(TokenizeError::UnknownCharacter('@', 1)));
}

#[test]
fn empty_text_has_no_tokens() {
    assert_eq!(tokenize(""), Ok(vec![]));
    assert_eq!(tokenize("    "), Ok(vec![]));
}

#[test]
fn every_symbol_is_a_token() {
    assert_eq!(
        tokenize("+-*/%()"),
        Ok(vec![
            Token::Add,
            Token::Sub,
            Token::Mul,
            Token::Div,
            Token::Mod,
            Token::OpenParen,
            Token::CloseParen,
        ])
    );
}

#[test]
fn spaces_separate_runs() {
    assert_eq!(tokenize("12 34"), Ok(vec![Token::Number(12), Token::Number(34)]));
    assert_eq!(tokenize("ab cd"), Ok(vec![var("ab"), var("cd")]));
    assert_eq!(tokenize(" 7 "), Ok(vec![Token::Number(7)]));
}

#[test]
fn a_change_of_class_ends_a_run() {
    assert_eq!(tokenize("12ab"), Ok(vec![Token::Number(12), var("ab")]));
    assert_eq!(tokenize("ab12"), Ok(vec![var("ab"), Token::Number(12)]));
    assert_eq!(tokenize("x1y"), Ok(vec![var("x"), Token::Number(1), var("y")]));
}

#[test]
fn a_run_at_the_end_is_emitted() {
    assert_eq!(tokenize("1+22"), Ok(vec![Token::Number(1), Token::Add, Token::Number(22)]));
    assert_eq!(tokenize("(abc"), Ok(vec![Token::OpenParen, var("abc")]));
}

#[test]
fn numerals_are_read_in_decimal() {
    assert_eq!(tokenize("0"), Ok(vec![Token::Number(0)]));
    assert_eq!(tokenize("007"), Ok(vec![Token::Number(7)]));
    assert_eq!(tokenize("1234567890"), Ok(vec![Token::Number(1234567890)]));
    assert_eq!(tokenize("2147483647"), Ok(vec![Token::Number(i32::MAX)]));
    assert_eq!(tokenize("00000000000002147483647"), Ok(vec![Token::Number(i32::MAX)]));
}

#[test]
fn a_numeral_too_large_is_an_error() {
    assert_eq!(
        tokenize("2147483648"),
        Err(TokenizeError::NumberOverflow(String::from("2147483648"), 0))
    );
    assert_eq!(
        tokenize("1 + 99999999999 * 2"),
        Err(TokenizeError::NumberOverflow(String::from("99999999999"), 4))
    );
}

#[test]
fn the_first_error_from_the_left_is_reported() {
    assert_eq!(
        tokenize("99999999999@"),
        Err(TokenizeError::NumberOverflow(String::from("99999999999"), 0))
    );
    assert_eq!(tokenize("@99999999999"), Err(TokenizeError::UnknownCharacter('@', 0)));
    assert_eq!(tokenize("a $ #"), Err(TokenizeError::UnknownCharacter('$', 2)));
}

#[test]
fn only_ascii_letters_digits_symbols_and_spaces_are_accepted() {
    assert_eq!(tokenize("a\tb"), Err(TokenizeError::UnknownCharacter('\t', 1)));
    assert_eq!(tokenize("a_b"), Err(TokenizeError::UnknownCharacter('_', 1)));
    assert_eq!(tokenize("1.5"), Err(TokenizeError::UnknownCharacter('.', 1)));
    assert_eq!(tokenize("x+\u{e9}"), Err(TokenizeError::UnknownCharacter('\u{e9}', 2)));
    assert_eq!(tokenize("azAZ"), Ok(vec![var("azAZ")]));
}

#[test]
fn symbol_to_token_knows_the_seven_symbols() {
    assert_eq!(symbol_to_token('+'), Some(Token::Add));
    assert_eq!(symbol_to_token('-'), Some(Token::Sub));
    assert_eq!(symbol_to_token('*'), Some(Token::Mul));
    assert_eq!(symbol_to_token('/'), Some(Token::Div));
    assert_eq!(symbol_to_token('%'), Some(Token::Mod));
    assert_eq!(symbol_to_token('('), Some(Token::OpenParen));
    assert_eq!(symbol_to_token(')'), Some(Token::CloseParen));
    assert_eq!(symbol_to_token('a'), None);
    assert_eq!(symbol_to_token(' '), None);
}

#[test]
fn string_to_token_reads_a_run() {
    assert_eq!(string_to_token("42", TokenType::Number), Some(Token::Number(42)));
    assert_eq!(string_to_token("abc", TokenType::Variable), Some(var("abc")));
    assert_eq!(string_to_token("", TokenType::Number), None);
    assert_eq!(string_to_token("4x", TokenType::Number), None);
    assert_eq!(string_to_token("2147483648", TokenType::Number), None);
    assert_eq!(string_to_token("2147483647", TokenType::Number), Some(Token::Number(i32::MAX)));
}

#[test]
fn a_token_clone_is_equal() {
    let token = var("abc");
    assert_eq!(token.clone(), token);
    assert_eq!(Token::Number(5).clone(), Token::Number(5));
}
