//! The grammar of expressions, stated as what sequences of tokens stand for
//! what expressions, and the proof that the parser accepts exactly these.
//!
//! ```text
//! expr    := term   | expr ('+' | '-') term
//! term    := factor | term ('*' | '/' | '%') factor
//! factor  := Number | Variable | '(' expr ')'
//! ```

use crate::parse::{
    additive_operator, binary, lemma_parse_consumes, multiplicative_operator,
    parse_expr_rhs_spec, parse_expr_spec, parse_factor_spec, parse_spec, parse_term_rhs_spec,
    parse_term_spec, remains_after, ExprView, ParseErrorView,
};
use crate::tokenize::TokenView;
use vstd::prelude::*;

verus! {

/// The token that is a leaf expression by itself.
pub open spec fn leaf_token(expr: ExprView) -> Option<TokenView> {
    match expr {
        ExprView::Number(n) => Some(TokenView::Number(n)),
        ExprView::Variable(name) => Some(TokenView::Variable(name)),
        ExprView::Binary(_, _, _) => None,
    }
}

/// `tokens` is a factor that stands for `expr`: a single number or variable
/// that is `expr`, or an expr that stands for `expr` between parentheses.
pub open spec fn is_factor(tokens: Seq<TokenView>, expr: ExprView) -> bool
    decreases tokens.len(), 0nat,
{
    ||| tokens.len() == 1 && leaf_token(expr) == Some(tokens[0])
    ||| {
        &&& tokens.len() >= 2
        &&& tokens[0] == TokenView::OpenParen
        &&& tokens[tokens.len() - 1] == TokenView::CloseParen
        &&& is_expr(tokens.subrange(1, tokens.len() - 1), expr)
    }
}

/// `tokens` is a term that stands for `expr`: a factor that does, or a term
/// for the left operand, `*`, `/` or `%`, and a factor for the right operand.
pub open spec fn is_term(tokens: Seq<TokenView>, expr: ExprView) -> bool
    decreases tokens.len(), 1nat,
{
    ||| is_factor(tokens, expr)
    ||| {
        &&& expr matches ExprView::Binary(operator, lhs, rhs)
        &&& exists|k: int|
            {
                &&& 0 < k < tokens.len() - 1
                &&& multiplicative_operator(tokens[k]) == Some(operator)
                &&& is_term(#[trigger] tokens.take(k), *lhs)
                &&& is_factor(tokens.skip(k + 1), *rhs)
            }
    }
}

/// `tokens` is an expr that stands for `expr`: a term that does, or an expr
/// for the left operand, `+` or `-`, and a term for the right operand.
pub open spec fn is_expr(tokens: Seq<TokenView>, expr: ExprView) -> bool
    decreases tokens.len(), 2nat,
{
    ||| is_term(tokens, expr)
    ||| {
        &&& expr matches ExprView::Binary(operator, lhs, rhs)
        &&& exists|k: int|
            {
                &&& 0 < k < tokens.len() - 1
                &&& additive_operator(tokens[k]) == Some(operator)
                &&& is_expr(#[trigger] tokens.take(k), *lhs)
                &&& is_term(tokens.skip(k + 1), *rhs)
            }
    }
}


/// Nothing empty is a factor, a term or an expr.
proof fn lemma_not_empty(tokens: Seq<TokenView>, expr: ExprView)
    ensures
        is_factor(tokens, expr) ==> tokens.len() >= 1,
        is_term(tokens, expr) ==> tokens.len() >= 1,
        is_expr(tokens, expr) ==> tokens.len() >= 1,
{
    if is_term(tokens, expr) && !is_factor(tokens, expr) {
        assert(tokens.len() >= 1);
    }
    if is_expr(tokens, expr) && !is_term(tokens, expr) {
        assert(tokens.len() >= 1);
    }
}

/// An operator between terms is not an operator between factors.
proof fn lemma_operator_levels(token: TokenView)
    ensures
        additive_operator(token) is Some ==> multiplicative_operator(token) is None,
{
}

/// Tokens that form a factor, with anything after them, are read by the
/// parser's `factor` as that factor, and what came after is left over.
proof fn lemma_factor_complete(tokens: Seq<TokenView>, expr: ExprView, rest: Seq<TokenView>)
    requires
        is_factor(tokens, expr),
    ensures
        parse_factor_spec(tokens + rest) == Ok::<_, ParseErrorView>((expr, rest)),
    decreases tokens.len(), 0nat,
{
    let whole = tokens + rest;
    if tokens.len() == 1 && leaf_token(expr) == Some(tokens[0]) {
        assert(whole.skip(1) =~= rest);
        assert(whole[0] == tokens[0]);
    } else {
        let inner = tokens.subrange(1, tokens.len() - 1);
        let close = seq![TokenView::CloseParen] + rest;
        assert(whole[0] == TokenView::OpenParen);
        assert(whole.skip(1) =~= inner + close);
        assert(close[0] == TokenView::CloseParen);
        assert(close.skip(1) =~= rest);
        lemma_expr_complete(inner, expr, close);
    }
}

/// Tokens that form a term, with anything after them, are read by the
/// parser's `term` as that term followed by the steps that come after.
proof fn lemma_term_complete(tokens: Seq<TokenView>, expr: ExprView, rest: Seq<TokenView>)
    requires
        is_term(tokens, expr),
    ensures
        parse_term_spec(tokens + rest) == parse_term_rhs_spec(expr, rest),
    decreases tokens.len(), 1nat,
{
    let whole = tokens + rest;
    if is_factor(tokens, expr) {
        lemma_factor_complete(tokens, expr, rest);
    } else {
        let operator = expr->Binary_0;
        let lhs = expr->Binary_1;
        let rhs = expr->Binary_2;
        let k = choose|k: int|
            {
                &&& 0 < k < tokens.len() - 1
                &&& multiplicative_operator(tokens[k]) == Some(operator)
                &&& is_term(#[trigger] tokens.take(k), *lhs)
                &&& is_factor(tokens.skip(k + 1), *rhs)
            };
        let left = tokens.take(k);
        let right = tokens.skip(k + 1);
        let step = seq![tokens[k]] + right + rest;
        assert(whole =~= left + step);
        assert(step[0] == tokens[k]);
        assert(step.skip(1) =~= right + rest);
        lemma_term_complete(left, *lhs, step);
        lemma_factor_complete(right, *rhs, rest);
        assert(binary(operator, *lhs, *rhs) == expr);
    }
}

/// Tokens that form an expr, with something after them that does not go on
/// with a factor step, are read by the parser's `expr` as that expr followed
/// by the steps that come after.
proof fn lemma_expr_complete(tokens: Seq<TokenView>, expr: ExprView, rest: Seq<TokenView>)
    requires
        is_expr(tokens, expr),
        rest.len() > 0 ==> multiplicative_operator(rest[0]) is None,
    ensures
        parse_expr_spec(tokens + rest) == parse_expr_rhs_spec(expr, rest),
    decreases tokens.len(), 2nat,
{
    let whole = tokens + rest;
    if is_term(tokens, expr) {
        lemma_term_complete(tokens, expr, rest);
    } else {
        let operator = expr->Binary_0;
        let lhs = expr->Binary_1;
        let rhs = expr->Binary_2;
        let k = choose|k: int|
            {
                &&& 0 < k < tokens.len() - 1
                &&& additive_operator(tokens[k]) == Some(operator)
                &&& is_expr(#[trigger] tokens.take(k), *lhs)
                &&& is_term(tokens.skip(k + 1), *rhs)
            };
        let left = tokens.take(k);
        let right = tokens.skip(k + 1);
        let step = seq![tokens[k]] + right + rest;
        assert(whole =~= left + step);
        assert(step[0] == tokens[k]);
        assert(step.skip(1) =~= right + rest);
        lemma_operator_levels(tokens[k]);
        lemma_expr_complete(left, *lhs, step);
        lemma_term_complete(right, *rhs, rest);
        assert(binary(operator, *lhs, *rhs) == expr);
    }
}

/// What the parser's `factor` reads is a factor of the grammar.
proof fn lemma_factor_sound(tokens: Seq<TokenView>)
    ensures
        parse_factor_spec(tokens) matches Ok((expr, rest)) ==> is_factor(
            tokens.take(tokens.len() - rest.len()),
            expr,
        ),
    decreases tokens.len(), 0nat,
{
    if let Ok((expr, rest)) = parse_factor_spec(tokens) {
        lemma_parse_consumes(expr, tokens);
        let read = tokens.take(tokens.len() - rest.len());
        if tokens[0] == TokenView::OpenParen {
            let tail = tokens.skip(1);
            lemma_parse_consumes(expr, tail);
            lemma_expr_sound(tail);
            let after = parse_expr_spec(tail)->Ok_0.1;
            let inner = tail.take(tail.len() - after.len());
            assert(after[0] == tail[tail.len() - after.len()]);
            assert(read[read.len() - 1] == TokenView::CloseParen);
            assert(read.subrange(1, read.len() - 1) =~= inner);
        } else {
            assert(read[0] == tokens[0]);
        }
    }
}

/// The steps that the parser's `term` folds onto a term of the grammar make
/// a longer term of the grammar.
proof fn lemma_term_rhs_sound(before: Seq<TokenView>, lhs: ExprView, tokens: Seq<TokenView>)
    requires
        is_term(before, lhs),
    ensures
        parse_term_rhs_spec(lhs, tokens) matches Ok((expr, rest)) ==> is_term(
            before + tokens.take(tokens.len() - rest.len()),
            expr,
        ),
    decreases tokens.len(), 1nat,
{
    if let Ok((expr, rest)) = parse_term_rhs_spec(lhs, tokens) {
        lemma_parse_consumes(lhs, tokens);
        if tokens.len() > 0 && multiplicative_operator(tokens[0]) is Some {
            let operator = multiplicative_operator(tokens[0])->0;
            let tail = tokens.skip(1);
            let (rhs, after) = parse_factor_spec(tail)->Ok_0;
            lemma_parse_consumes(lhs, tail);
            lemma_factor_sound(tail);
            let right = tail.take(tail.len() - after.len());
            let node = binary(operator, lhs, rhs);
            let longer = before + seq![tokens[0]] + right;
            let k = before.len() as int;
            assert(longer[k] == tokens[0]);
            assert(longer.take(k) =~= before);
            assert(longer.skip(k + 1) =~= right);
            lemma_not_empty(before, lhs);
            lemma_not_empty(right, rhs);
            assert(0 < k < longer.len() - 1);
            assert(is_term(longer.take(k), lhs));
            assert(is_factor(longer.skip(k + 1), rhs));
            assert(multiplicative_operator(longer[k]) == Some(operator));
            assert(is_term(longer, node));
            lemma_parse_consumes(node, after);
            lemma_term_rhs_sound(longer, node, after);
            assert(longer + after.take(after.len() - rest.len()) =~= before + tokens.take(
                tokens.len() - rest.len(),
            ));
        } else {
            assert(before + tokens.take(0) =~= before);
        }
    }
}

/// What the parser's `term` reads is a term of the grammar.
proof fn lemma_term_sound(tokens: Seq<TokenView>)
    ensures
        parse_term_spec(tokens) matches Ok((expr, rest)) ==> is_term(
            tokens.take(tokens.len() - rest.len()),
            expr,
        ),
    decreases tokens.len(), 2nat,
{
    if let Ok((expr, rest)) = parse_term_spec(tokens) {
        let (lhs, after) = parse_factor_spec(tokens)->Ok_0;
        lemma_parse_consumes(lhs, tokens);
        lemma_parse_consumes(lhs, after);
        lemma_factor_sound(tokens);
        let first = tokens.take(tokens.len() - after.len());
        lemma_term_rhs_sound(first, lhs, after);
        assert(first + after.take(after.len() - rest.len()) =~= tokens.take(
            tokens.len() - rest.len(),
        ));
    }
}

/// The steps that the parser's `expr` folds onto an expr of the grammar make
/// a longer expr of the grammar.
proof fn lemma_expr_rhs_sound(before: Seq<TokenView>, lhs: ExprView, tokens: Seq<TokenView>)
    requires
        is_expr(before, lhs),
    ensures
        parse_expr_rhs_spec(lhs, tokens) matches Ok((expr, rest)) ==> is_expr(
            before + tokens.take(tokens.len() - rest.len()),
            expr,
        ),
    decreases tokens.len(), 3nat,
{
    if let Ok((expr, rest)) = parse_expr_rhs_spec(lhs, tokens) {
        lemma_parse_consumes(lhs, tokens);
        if tokens.len() > 0 && additive_operator(tokens[0]) is Some {
            let operator = additive_operator(tokens[0])->0;
            let tail = tokens.skip(1);
            let (rhs, after) = parse_term_spec(tail)->Ok_0;
            lemma_parse_consumes(lhs, tail);
            lemma_term_sound(tail);
            let right = tail.take(tail.len() - after.len());
            let node = binary(operator, lhs, rhs);
            let longer = before + seq![tokens[0]] + right;
            let k = before.len() as int;
            assert(longer[k] == tokens[0]);
            assert(longer.take(k) =~= before);
            assert(longer.skip(k + 1) =~= right);
            lemma_not_empty(before, lhs);
            lemma_not_empty(right, rhs);
            assert(0 < k < longer.len() - 1);
            assert(is_expr(longer.take(k), lhs));
            assert(is_term(longer.skip(k + 1), rhs));
            assert(additive_operator(longer[k]) == Some(operator));
            assert(is_expr(longer, node));
            lemma_parse_consumes(node, after);
            lemma_expr_rhs_sound(longer, node, after);
            assert(longer + after.take(after.len() - rest.len()) =~= before + tokens.take(
                tokens.len() - rest.len(),
            ));
        } else {
            assert(before + tokens.take(0) =~= before);
        }
    }
}

/// What the parser's `expr` reads is an expr of the grammar.
proof fn lemma_expr_sound(tokens: Seq<TokenView>)
    ensures
        parse_expr_spec(tokens) matches Ok((expr, rest)) ==> is_expr(
            tokens.take(tokens.len() - rest.len()),
            expr,
        ),
    decreases tokens.len(), 4nat,
{
    if let Ok((expr, rest)) = parse_expr_spec(tokens) {
        let (lhs, after) = parse_term_spec(tokens)->Ok_0;
        lemma_parse_consumes(lhs, tokens);
        lemma_parse_consumes(lhs, after);
        lemma_term_sound(tokens);
        let first = tokens.take(tokens.len() - after.len());
        lemma_expr_rhs_sound(first, lhs, after);
        assert(first + after.take(after.len() - rest.len()) =~= tokens.take(
            tokens.len() - rest.len(),
        ));
    }
}

/// The parser accepts exactly the grammar: a sequence of tokens parses to an
/// expression if and only if it is an expr of the grammar that stands for
/// that expression.
pub proof fn lemma_parse_is_the_grammar(tokens: Seq<TokenView>, expr: ExprView)
    ensures
        parse_spec(tokens) == Ok::<_, ParseErrorView>(expr) <==> is_expr(tokens, expr),
{
    let none = Seq::<TokenView>::empty();
    if is_expr(tokens, expr) {
        lemma_expr_complete(tokens, expr, none);
        assert(tokens + none =~= tokens);
    }
    if parse_spec(tokens) == Ok::<_, ParseErrorView>(expr) {
        lemma_expr_sound(tokens);
        assert(tokens.take(tokens.len() as int) =~= tokens);
    }
}

/// A sequence of tokens stands for at most one expression.
pub proof fn lemma_grammar_is_unambiguous(tokens: Seq<TokenView>, one: ExprView, other: ExprView)
    requires
        is_expr(tokens, one),
        is_expr(tokens, other),
    ensures
        one == other,
{
    lemma_parse_is_the_grammar(tokens, one);
    lemma_parse_is_the_grammar(tokens, other);
}

} // verus!
