//! Syntax analysis: from a sequence of tokens to an expression tree.
//!
//! The grammar gives `*`, `/` and `%` precedence over `+` and `-`, and groups
//! operators of equal precedence from the left:
//!
//! ```text
//! expr    := term ( ('+' | '-') term )*
//! term    := factor ( ('*' | '/' | '%') factor )*
//! factor  := Number | Variable | '(' expr ')'
//! ```

use crate::tokenize::{token_views, Token, TokenView};
use vstd::prelude::*;

verus! {

/// An expression tree.
#[derive(Debug, PartialEq, Eq)]
pub enum Expr {
    Number(i32),
    Variable(String),
    Add(Box<Expr>, Box<Expr>),
    Sub(Box<Expr>, Box<Expr>),
    Mul(Box<Expr>, Box<Expr>),
    Div(Box<Expr>, Box<Expr>),
    Mod(Box<Expr>, Box<Expr>),
}

/// A binary operator of the expression language.
#[derive(Debug, Clone, Copy, PartialEq, Eq, Structural)]
pub enum Operator {
    Add,
    Sub,
    Mul,
    Div,
    Mod,
}

/// The mathematical value of an [`Expr`]: a leaf, or an operator applied to
/// two expressions.
pub enum ExprView {
    Number(int),
    Variable(Seq<char>),
    Binary(Operator, Box<ExprView>, Box<ExprView>),
}

impl View for Expr {
    type V = ExprView;

    open spec fn view(&self) -> ExprView
        decreases self,
    {
        match self {
            Expr::Number(n) => ExprView::Number(*n as int),
            Expr::Variable(name) => ExprView::Variable(name@),
            Expr::Add(lhs, rhs) => binary(Operator::Add, (**lhs).view(), (**rhs).view()),
            Expr::Sub(lhs, rhs) => binary(Operator::Sub, (**lhs).view(), (**rhs).view()),
            Expr::Mul(lhs, rhs) => binary(Operator::Mul, (**lhs).view(), (**rhs).view()),
            Expr::Div(lhs, rhs) => binary(Operator::Div, (**lhs).view(), (**rhs).view()),
            Expr::Mod(lhs, rhs) => binary(Operator::Mod, (**lhs).view(), (**rhs).view()),
        }
    }
}

impl Clone for Expr {
    fn clone(&self) -> (copy: Self)
        ensures
            copy@ == self@,
        decreases self,
    {
        match self {
            Expr::Number(n) => Expr::Number(*n),
            Expr::Variable(name) => Expr::Variable(name.clone()),
            Expr::Add(lhs, rhs) => Expr::Add(Box::new((**lhs).clone()), Box::new((**rhs).clone())),
            Expr::Sub(lhs, rhs) => Expr::Sub(Box::new((**lhs).clone()), Box::new((**rhs).clone())),
            Expr::Mul(lhs, rhs) => Expr::Mul(Box::new((**lhs).clone()), Box::new((**rhs).clone())),
            Expr::Div(lhs, rhs) => Expr::Div(Box::new((**lhs).clone()), Box::new((**rhs).clone())),
            Expr::Mod(lhs, rhs) => Expr::Mod(Box::new((**lhs).clone()), Box::new((**rhs).clone())),
        }
    }
}

/// The expression that applies `operator` to `lhs` and `rhs`.
pub open spec fn binary(operator: Operator, lhs: ExprView, rhs: ExprView) -> ExprView {
    ExprView::Binary(operator, Box::new(lhs), Box::new(rhs))
}

/// Why a sequence of tokens could not be parsed.
#[derive(Debug, PartialEq, Eq)]
pub enum ParseError {
    /// A factor was required where the tokens end, or where an operator or a
    /// closing parenthesis stands.
    ExpectedFactor,
    /// The expression after an opening parenthesis is not followed by a
    /// closing one.
    ExpectedClosingParen,
    /// A token that cannot stand where it was found. Wherever the grammar
    /// meets such a token it wants a factor and reports `ExpectedFactor`, so
    /// `parse` does not return this variant ([`lemma_parse_errors`]).
    UnexpectedToken(Token),
    /// The tokens left over after a complete expression.
    UnconsumedInput(Vec<Token>),
}

/// The mathematical value of a [`ParseError`].
pub enum ParseErrorView {
    ExpectedFactor,
    ExpectedClosingParen,
    UnexpectedToken(TokenView),
    UnconsumedInput(Seq<TokenView>),
}

impl View for ParseError {
    type V = ParseErrorView;

    open spec fn view(&self) -> ParseErrorView {
        match self {
            ParseError::ExpectedFactor => ParseErrorView::ExpectedFactor,
            ParseError::ExpectedClosingParen => ParseErrorView::ExpectedClosingParen,
            ParseError::UnexpectedToken(token) => ParseErrorView::UnexpectedToken(token@),
            ParseError::UnconsumedInput(tokens) => ParseErrorView::UnconsumedInput(
                token_views(tokens@),
            ),
        }
    }
}

/// The outcome of parsing one grammar rule at the front of a sequence of
/// tokens: the expression that was read and the tokens after it, or an error.
pub type ParseStep = Result<(ExprView, Seq<TokenView>), ParseErrorView>;

/// The operator that `token` stands for between two terms.
pub open spec fn additive_operator(token: TokenView) -> Option<Operator> {
    match token {
        TokenView::Add => Some(Operator::Add),
        TokenView::Sub => Some(Operator::Sub),
        _ => None,
    }
}

/// The operator that `token` stands for between two factors.
pub open spec fn multiplicative_operator(token: TokenView) -> Option<Operator> {
    match token {
        TokenView::Mul => Some(Operator::Mul),
        TokenView::Div => Some(Operator::Div),
        TokenView::Mod => Some(Operator::Mod),
        _ => None,
    }
}

/// `factor := Number | Variable | '(' expr ')'`
pub open spec fn parse_factor_spec(tokens: Seq<TokenView>) -> ParseStep
    decreases tokens.len(), 0nat,
{
    if tokens.len() == 0 {
        Err(ParseErrorView::ExpectedFactor)
    } else {
        match tokens[0] {
            TokenView::Number(n) => Ok((ExprView::Number(n), tokens.skip(1))),
            TokenView::Variable(name) => Ok((ExprView::Variable(name), tokens.skip(1))),
            TokenView::OpenParen => match parse_expr_spec(tokens.skip(1)) {
                Ok((inner, rest)) => if rest.len() > 0 && rest[0] == TokenView::CloseParen {
                    Ok((inner, rest.skip(1)))
                } else {
                    Err(ParseErrorView::ExpectedClosingParen)
                },
                Err(error) => Err(error),
            },
            _ => Err(ParseErrorView::ExpectedFactor),
        }
    }
}

/// `( ('*' | '/' | '%') factor )*`, folded from the left onto `lhs`.
///
/// The recursion goes on with what a factor left over. That this is shorter
/// than `tokens` always holds ([`lemma_parse_consumes`]); the test is there
/// to make the recursion well-founded by its form.
pub open spec fn parse_term_rhs_spec(lhs: ExprView, tokens: Seq<TokenView>) -> ParseStep
    decreases tokens.len(), 1nat,
{
    if tokens.len() > 0 && multiplicative_operator(tokens[0]) is Some {
        match parse_factor_spec(tokens.skip(1)) {
            Ok((rhs, rest)) => if rest.len() < tokens.len() {
                parse_term_rhs_spec(
                    binary(multiplicative_operator(tokens[0])->0, lhs, rhs),
                    rest,
                )
            } else {
                Err(ParseErrorView::ExpectedFactor)
            },
            Err(error) => Err(error),
        }
    } else {
        Ok((lhs, tokens))
    }
}

/// `term := factor ( ('*' | '/' | '%') factor )*`
pub open spec fn parse_term_spec(tokens: Seq<TokenView>) -> ParseStep
    decreases tokens.len(), 2nat,
{
    match parse_factor_spec(tokens) {
        Ok((lhs, rest)) => if rest.len() <= tokens.len() {
            parse_term_rhs_spec(lhs, rest)
        } else {
            Err(ParseErrorView::ExpectedFactor)
        },
        Err(error) => Err(error),
    }
}

/// `( ('+' | '-') term )*`, folded from the left onto `lhs`.
pub open spec fn parse_expr_rhs_spec(lhs: ExprView, tokens: Seq<TokenView>) -> ParseStep
    decreases tokens.len(), 3nat,
{
    if tokens.len() > 0 && additive_operator(tokens[0]) is Some {
        match parse_term_spec(tokens.skip(1)) {
            Ok((rhs, rest)) => if rest.len() < tokens.len() {
                parse_expr_rhs_spec(binary(additive_operator(tokens[0])->0, lhs, rhs), rest)
            } else {
                Err(ParseErrorView::ExpectedFactor)
            },
            Err(error) => Err(error),
        }
    } else {
        Ok((lhs, tokens))
    }
}

/// `expr := term ( ('+' | '-') term )*`
pub open spec fn parse_expr_spec(tokens: Seq<TokenView>) -> ParseStep
    decreases tokens.len(), 4nat,
{
    match parse_term_spec(tokens) {
        Ok((lhs, rest)) => if rest.len() <= tokens.len() {
            parse_expr_rhs_spec(lhs, rest)
        } else {
            Err(ParseErrorView::ExpectedFactor)
        },
        Err(error) => Err(error),
    }
}

/// A whole sequence of tokens as one expression: what `expr` reads, provided
/// that no token is left over.
pub open spec fn parse_spec(tokens: Seq<TokenView>) -> Result<ExprView, ParseErrorView> {
    match parse_expr_spec(tokens) {
        Ok((expr, rest)) => if rest.len() == 0 {
            Ok(expr)
        } else {
            Err(ParseErrorView::UnconsumedInput(rest))
        },
        Err(error) => Err(error),
    }
}

/// Whether `rest` is what remains of `tokens` once `consumed` of them, no
/// fewer than `least`, have been taken from the front.
pub open spec fn remains_after(
    tokens: Seq<TokenView>,
    rest: Seq<TokenView>,
    least: int,
) -> bool {
    &&& least <= tokens.len() - rest.len()
    &&& rest == tokens.skip(tokens.len() - rest.len())
}


/// Parsing consumes tokens from the front: what a rule leaves over is the
/// end of what it was given, shorter by at least one token for `factor`,
/// `term` and `expr`.
pub proof fn lemma_parse_consumes(lhs: ExprView, tokens: Seq<TokenView>)
    ensures
        parse_factor_spec(tokens) matches Ok((_, rest)) ==> remains_after(tokens, rest, 1),
        parse_term_rhs_spec(lhs, tokens) matches Ok((_, rest)) ==> remains_after(tokens, rest, 0),
        parse_term_spec(tokens) matches Ok((_, rest)) ==> remains_after(tokens, rest, 1),
        parse_expr_rhs_spec(lhs, tokens) matches Ok((_, rest)) ==> remains_after(tokens, rest, 0),
        parse_expr_spec(tokens) matches Ok((_, rest)) ==> remains_after(tokens, rest, 1),
{
    lemma_factor_consumes(tokens);
    if let Ok((first, rest)) = parse_factor_spec(tokens) {
        lemma_term_rhs_consumes(first, rest);
        lemma_suffix_of_suffix(tokens, rest, parse_term_rhs_spec(first, rest));
    }
    lemma_term_rhs_consumes(lhs, tokens);
    if let Ok((first, rest)) = parse_term_spec(tokens) {
        lemma_expr_rhs_consumes(first, rest);
        lemma_suffix_of_suffix(tokens, rest, parse_expr_rhs_spec(first, rest));
    }
    lemma_expr_rhs_consumes(lhs, tokens);
}

/// What remains of a remainder remains of the whole.
proof fn lemma_suffix_of_suffix(tokens: Seq<TokenView>, middle: Seq<TokenView>, step: ParseStep)
    requires
        remains_after(tokens, middle, 0),
        step matches Ok((_, rest)) ==> remains_after(middle, rest, 0),
    ensures
        step matches Ok((_, rest)) ==> remains_after(
            tokens,
            rest,
            tokens.len() - middle.len(),
        ),
{
    if let Ok((_, rest)) = step {
        assert(rest =~= tokens.skip(tokens.len() - rest.len()));
    }
}

proof fn lemma_factor_consumes(tokens: Seq<TokenView>)
    ensures
        parse_factor_spec(tokens) matches Ok((_, rest)) ==> remains_after(tokens, rest, 1),
    decreases tokens.len(), 0nat,
{
    if tokens.len() > 0 {
        let tail = tokens.skip(1);
        assert(remains_after(tokens, tail, 1));
        if tokens[0] == TokenView::OpenParen {
            lemma_expr_consumes(tail);
            if let Ok((inner, rest)) = parse_expr_spec(tail) {
                if rest.len() > 0 {
                    assert(rest.skip(1) =~= tokens.skip(tokens.len() - (rest.len() - 1)));
                }
            }
        }
    }
}

proof fn lemma_term_rhs_consumes(lhs: ExprView, tokens: Seq<TokenView>)
    ensures
        parse_term_rhs_spec(lhs, tokens) matches Ok((_, rest)) ==> remains_after(tokens, rest, 0),
    decreases tokens.len(), 1nat,
{
    if tokens.len() > 0 && multiplicative_operator(tokens[0]) is Some {
        let tail = tokens.skip(1);
        assert(remains_after(tokens, tail, 1));
        lemma_factor_consumes(tail);
        if let Ok((rhs, rest)) = parse_factor_spec(tail) {
            let node = binary(multiplicative_operator(tokens[0])->0, lhs, rhs);
            lemma_term_rhs_consumes(node, rest);
            lemma_suffix_of_suffix(tail, rest, parse_term_rhs_spec(node, rest));
            lemma_suffix_of_suffix(tokens, tail, parse_term_rhs_spec(node, rest));
        }
    } else {
        assert(tokens =~= tokens.skip(0));
    }
}

proof fn lemma_term_consumes(tokens: Seq<TokenView>)
    ensures
        parse_term_spec(tokens) matches Ok((_, rest)) ==> remains_after(tokens, rest, 1),
    decreases tokens.len(), 2nat,
{
    lemma_factor_consumes(tokens);
    if let Ok((first, rest)) = parse_factor_spec(tokens) {
        lemma_term_rhs_consumes(first, rest);
        lemma_suffix_of_suffix(tokens, rest, parse_term_rhs_spec(first, rest));
    }
}

proof fn lemma_expr_rhs_consumes(lhs: ExprView, tokens: Seq<TokenView>)
    ensures
        parse_expr_rhs_spec(lhs, tokens) matches Ok((_, rest)) ==> remains_after(tokens, rest, 0),
    decreases tokens.len(), 3nat,
{
    if tokens.len() > 0 && additive_operator(tokens[0]) is Some {
        let tail = tokens.skip(1);
        assert(remains_after(tokens, tail, 1));
        lemma_term_consumes(tail);
        if let Ok((rhs, rest)) = parse_term_spec(tail) {
            let node = binary(additive_operator(tokens[0])->0, lhs, rhs);
            lemma_expr_rhs_consumes(node, rest);
            lemma_suffix_of_suffix(tail, rest, parse_expr_rhs_spec(node, rest));
            lemma_suffix_of_suffix(tokens, tail, parse_expr_rhs_spec(node, rest));
        }
    } else {
        assert(tokens =~= tokens.skip(0));
    }
}

proof fn lemma_expr_consumes(tokens: Seq<TokenView>)
    ensures
        parse_expr_spec(tokens) matches Ok((_, rest)) ==> remains_after(tokens, rest, 1),
    decreases tokens.len(), 4nat,
{
    lemma_term_consumes(tokens);
    if let Ok((first, rest)) = parse_term_spec(tokens) {
        lemma_expr_rhs_consumes(first, rest);
        lemma_suffix_of_suffix(tokens, rest, parse_expr_rhs_spec(first, rest));
    }
}


/// Whether a step, if it failed, failed for want of a factor or of a closing
/// parenthesis.
pub open spec fn fails_in_grammar(step: ParseStep) -> bool {
    step matches Err(error) ==> error is ExpectedFactor || error is ExpectedClosingParen
}

/// Parsing fails in one of three ways only: a factor is missing, a closing
/// parenthesis is missing, or tokens are left over.
pub proof fn lemma_parse_errors(tokens: Seq<TokenView>)
    ensures
        parse_spec(tokens) matches Err(error) ==> error is ExpectedFactor
            || error is ExpectedClosingParen || error is UnconsumedInput,
{
    lemma_expr_fails_in_grammar(tokens);
}

proof fn lemma_factor_fails_in_grammar(tokens: Seq<TokenView>)
    ensures
        fails_in_grammar(parse_factor_spec(tokens)),
    decreases tokens.len(), 0nat,
{
    if tokens.len() > 0 && tokens[0] == TokenView::OpenParen {
        lemma_expr_fails_in_grammar(tokens.skip(1));
    }
}

proof fn lemma_term_rhs_fails_in_grammar(lhs: ExprView, tokens: Seq<TokenView>)
    ensures
        fails_in_grammar(parse_term_rhs_spec(lhs, tokens)),
    decreases tokens.len(), 1nat,
{
    if tokens.len() > 0 && multiplicative_operator(tokens[0]) is Some {
        lemma_factor_fails_in_grammar(tokens.skip(1));
        if let Ok((rhs, rest)) = parse_factor_spec(tokens.skip(1)) {
            if rest.len() < tokens.len() {
                lemma_term_rhs_fails_in_grammar(
                    binary(multiplicative_operator(tokens[0])->0, lhs, rhs),
                    rest,
                );
            }
        }
    }
}

proof fn lemma_term_fails_in_grammar(tokens: Seq<TokenView>)
    ensures
        fails_in_grammar(parse_term_spec(tokens)),
    decreases tokens.len(), 2nat,
{
    lemma_factor_fails_in_grammar(tokens);
    if let Ok((lhs, rest)) = parse_factor_spec(tokens) {
        if rest.len() <= tokens.len() {
            lemma_term_rhs_fails_in_grammar(lhs, rest);
        }
    }
}

proof fn lemma_expr_rhs_fails_in_grammar(lhs: ExprView, tokens: Seq<TokenView>)
    ensures
        fails_in_grammar(parse_expr_rhs_spec(lhs, tokens)),
    decreases tokens.len(), 3nat,
{
    if tokens.len() > 0 && additive_operator(tokens[0]) is Some {
        lemma_term_fails_in_grammar(tokens.skip(1));
        if let Ok((rhs, rest)) = parse_term_spec(tokens.skip(1)) {
            if rest.len() < tokens.len() {
                lemma_expr_rhs_fails_in_grammar(
                    binary(additive_operator(tokens[0])->0, lhs, rhs),
                    rest,
                );
            }
        }
    }
}

proof fn lemma_expr_fails_in_grammar(tokens: Seq<TokenView>)
    ensures
        fails_in_grammar(parse_expr_spec(tokens)),
    decreases tokens.len(), 4nat,
{
    lemma_term_fails_in_grammar(tokens);
    if let Ok((lhs, rest)) = parse_term_spec(tokens) {
        if rest.len() <= tokens.len() {
            lemma_expr_rhs_fails_in_grammar(lhs, rest);
        }
    }
}

/// The mathematical value of what an executable parsing step returns.
pub open spec fn step_view(step: Result<(Expr, &[Token]), ParseError>) -> ParseStep {
    match step {
        Ok((expr, rest)) => Ok((expr@, token_views(rest@))),
        Err(error) => Err(error@),
    }
}

/// The tokens after the first one.
fn tail<'a>(tokens: &'a [Token]) -> (rest: &'a [Token])
    requires
        tokens@.len() > 0,
    ensures
        rest@ == tokens@.skip(1),
        token_views(rest@) == token_views(tokens@).skip(1),
{
    let rest = &tokens[1..tokens.len()];
    assert(token_views(rest@) =~= token_views(tokens@).skip(1));
    rest
}

/// A vector that holds the same tokens as `tokens`.
fn copy_tokens(tokens: &[Token]) -> (copy: Vec<Token>)
    ensures
        token_views(copy@) == token_views(tokens@),
{
    let mut copy: Vec<Token> = Vec::new();
    let mut i: usize = 0;
    while i < tokens.len()
        invariant
            i <= tokens@.len(),
            copy@.len() == i,
            forall|k: int| 0 <= k < i ==> (#[trigger] copy@[k])@ == tokens@[k]@,
        decreases tokens@.len() - i,
    {
        copy.push(tokens[i].clone());
        i = i + 1;
    }
    assert(token_views(copy@) =~= token_views(tokens@));
    copy
}

/// Parses a whole sequence of tokens as one expression.
///
/// The result is exactly what [`parse_spec`] gives for the values of
/// `tokens`: the expression, or the error that recursive descent meets
/// first. It is an expression exactly when the tokens are an expr of the
/// grammar that stands for it (`grammar::lemma_parse_is_the_grammar`).
pub fn parse(tokens: &[Token]) -> (result: Result<Expr, ParseError>)
    ensures
        match result {
            Ok(expr) => parse_spec(token_views(tokens@)) == Ok::<ExprView, ParseErrorView>(expr@),
            Err(error) => parse_spec(token_views(tokens@)) == Err::<ExprView, ParseErrorView>(
                error@,
            ),
        },
{
    match parse_expr(tokens) {
        Ok((expr, rest)) => {
            if rest.is_empty() {
                Ok(expr)
            } else {
                Err(ParseError::UnconsumedInput(copy_tokens(rest)))
            }
        },
        Err(error) => Err(error),
    }
}

/// Reads an `expr` at the front of `tokens`; returns it with the tokens
/// after it.
pub fn parse_expr<'a>(tokens: &'a [Token]) -> (result: Result<(Expr, &'a [Token]), ParseError>)
    ensures
        step_view(result) == parse_expr_spec(token_views(tokens@)),
    decreases tokens@.len(), 4nat,
{
    let (lhs, rest) = parse_term(tokens)?;
    proof {
        lemma_parse_consumes(lhs@, token_views(tokens@));
    }
    parse_expr_rhs(lhs, rest)
}

/// Reads the additive steps at the front of `tokens` and folds them from the
/// left onto `lhs`; returns the result with the tokens after it.
pub fn parse_expr_rhs<'a>(lhs: Expr, tokens: &'a [Token]) -> (result: Result<
    (Expr, &'a [Token]),
    ParseError,
>)
    ensures
        step_view(result) == parse_expr_rhs_spec(lhs@, token_views(tokens@)),
    decreases tokens@.len(), 3nat,
{
    match tokens.first() {
        Some(Token::Add) => {
            let (rhs, rest) = parse_term(tail(tokens))?;
            proof {
                lemma_parse_consumes(lhs@, token_views(tokens@).skip(1));
            }
            let expr = Expr::Add(Box::new(lhs), Box::new(rhs));
            parse_expr_rhs(expr, rest)
        },
        Some(Token::Sub) => {
            let (rhs, rest) = parse_term(tail(tokens))?;
            proof {
                lemma_parse_consumes(lhs@, token_views(tokens@).skip(1));
            }
            let expr = Expr::Sub(Box::new(lhs), Box::new(rhs));
            parse_expr_rhs(expr, rest)
        },
        _ => Ok((lhs, tokens)),
    }
}

/// Reads a `term` at the front of `tokens`; returns it with the tokens after
/// it.
pub fn parse_term<'a>(tokens: &'a [Token]) -> (result: Result<(Expr, &'a [Token]), ParseError>)
    ensures
        step_view(result) == parse_term_spec(token_views(tokens@)),
    decreases tokens@.len(), 2nat,
{
    let (lhs, rest) = parse_factor(tokens)?;
    proof {
        lemma_parse_consumes(lhs@, token_views(tokens@));
    }
    parse_term_rhs(lhs, rest)
}

/// Reads the multiplicative steps at the front of `tokens` and folds them
/// from the left onto `lhs`; returns the result with the tokens after it.
pub fn parse_term_rhs<'a>(lhs: Expr, tokens: &'a [Token]) -> (result: Result<
    (Expr, &'a [Token]),
    ParseError,
>)
    ensures
        step_view(result) == parse_term_rhs_spec(lhs@, token_views(tokens@)),
    decreases tokens@.len(), 1nat,
{
    match tokens.first() {
        Some(Token::Mul) => {
            let (rhs, rest) = parse_factor(tail(tokens))?;
            proof {
                lemma_parse_consumes(lhs@, token_views(tokens@).skip(1));
            }
            let expr = Expr::Mul(Box::new(lhs), Box::new(rhs));
            parse_term_rhs(expr, rest)
        },
        Some(Token::Div) => {
            let (rhs, rest) = parse_factor(tail(tokens))?;
            proof {
                lemma_parse_consumes(lhs@, token_views(tokens@).skip(1));
            }
            let expr = Expr::Div(Box::new(lhs), Box::new(rhs));
            parse_term_rhs(expr, rest)
        },
        Some(Token::Mod) => {
            let (rhs, rest) = parse_factor(tail(tokens))?;
            proof {
                lemma_parse_consumes(lhs@, token_views(tokens@).skip(1));
            }
            let expr = Expr::Mod(Box::new(lhs), Box::new(rhs));
            parse_term_rhs(expr, rest)
        },
        _ => Ok((lhs, tokens)),
    }
}

/// Reads a `factor` at the front of `tokens`; returns it with the tokens
/// after it.
pub fn parse_factor<'a>(tokens: &'a [Token]) -> (result: Result<(Expr, &'a [Token]), ParseError>)
    ensures
        step_view(result) == parse_factor_spec(token_views(tokens@)),
    decreases tokens@.len(), 0nat,
{
    if tokens.is_empty() {
        return Err(ParseError::ExpectedFactor);
    }
    match &tokens[0] {
        Token::Number(n) => {
            let expr = Expr::Number(*n);
            Ok((expr, tail(tokens)))
        },
        Token::Variable(x) => {
            let expr = Expr::Variable(x.clone());
            Ok((expr, tail(tokens)))
        },
        Token::OpenParen => {
            let (result, rest) = parse_expr(tail(tokens))?;
            match rest.first() {
                Some(Token::CloseParen) => Ok((result, tail(rest))),
                _ => Err(ParseError::ExpectedClosingParen),
            }
        },
        _ => Err(ParseError::ExpectedFactor),
    }
}

} // verus!
