//! Reading back the canonical text of an expression gives the expression.

use crate::parse::{
    additive_operator, binary, multiplicative_operator, parse_expr_rhs_spec, parse_expr_spec,
    parse_factor_spec, parse_spec, parse_term_rhs_spec, parse_term_spec, ExprView, Operator,
    ParseErrorView,
};
use crate::render::{decimal_digits, digit_char, operator_symbol, render_spec};
use crate::tokenize::{
    decimal_value, digit_value, is_digit, is_letter, is_run, lemma_decimal_value_nonnegative,
    lemma_run_end_bounds, lemma_run_end_is, lemma_run_is_run, prepend_tokens, run_end,
    symbol_token, tokenize_spec, tokens_from, TokenType, TokenView, TokenizeErrorView,
};
use vstd::prelude::*;

verus! {

/// The token that an operator is written with.
pub open spec fn operator_token(operator: Operator) -> TokenView {
    match operator {
        Operator::Add => TokenView::Add,
        Operator::Sub => TokenView::Sub,
        Operator::Mul => TokenView::Mul,
        Operator::Div => TokenView::Div,
        Operator::Mod => TokenView::Mod,
    }
}

/// The tokens of the canonical text of an expression.
pub open spec fn tokens_of(expr: ExprView) -> Seq<TokenView>
    decreases expr,
{
    match expr {
        ExprView::Number(n) => seq![TokenView::Number(n)],
        ExprView::Variable(name) => seq![TokenView::Variable(name)],
        ExprView::Binary(operator, lhs, rhs) => seq![TokenView::OpenParen] + tokens_of(*lhs)
            + seq![operator_token(operator)] + tokens_of(*rhs) + seq![TokenView::CloseParen],
    }
}

/// The tokens of a canonical text, with anything after them, are read by
/// `factor` as the expression, and what came after is left over.
pub proof fn lemma_factor_reads_tokens_of(expr: ExprView, rest: Seq<TokenView>)
    ensures
        parse_factor_spec(tokens_of(expr) + rest) == Ok::<_, ParseErrorView>((expr, rest)),
    decreases expr,
{
    let tokens = tokens_of(expr) + rest;
    match expr {
        ExprView::Number(n) => {
            assert(tokens.skip(1) =~= rest);
        },
        ExprView::Variable(name) => {
            assert(tokens.skip(1) =~= rest);
        },
        ExprView::Binary(operator, lhs, rhs) => {
            let close = seq![TokenView::CloseParen] + rest;
            let after_lhs = seq![operator_token(operator)] + tokens_of(*rhs) + close;
            let inner = tokens_of(*lhs) + after_lhs;
            assert(tokens.skip(1) =~= inner);
            assert(tokens[0] == TokenView::OpenParen);
            lemma_factor_reads_tokens_of(*lhs, after_lhs);
            lemma_factor_reads_tokens_of(*rhs, close);
            assert(after_lhs.skip(1) =~= tokens_of(*rhs) + close);
            assert(after_lhs[0] == operator_token(operator));
            assert(close[0] == TokenView::CloseParen);
            assert(close.skip(1) =~= rest);
            let node = binary(operator, *lhs, *rhs);
            assert(node == expr);
            assert(parse_term_rhs_spec(node, close) == Ok::<_, ParseErrorView>((node, close)));
            assert(parse_expr_rhs_spec(node, close) == Ok::<_, ParseErrorView>((node, close)));
            if multiplicative_operator(operator_token(operator)) is Some {
                assert(multiplicative_operator(operator_token(operator)) == Some(operator));
                assert(parse_term_rhs_spec(*lhs, after_lhs) == parse_term_rhs_spec(node, close));
                assert(parse_term_spec(inner) == parse_term_rhs_spec(*lhs, after_lhs));
                assert(parse_expr_spec(inner) == parse_expr_rhs_spec(node, close));
            } else {
                assert(additive_operator(operator_token(operator)) == Some(operator));
                assert(parse_term_rhs_spec(*lhs, after_lhs) == Ok::<_, ParseErrorView>(
                    (*lhs, after_lhs),
                ));
                assert(parse_term_spec(inner) == parse_term_rhs_spec(*lhs, after_lhs));
                assert(parse_term_rhs_spec(*rhs, close) == Ok::<_, ParseErrorView>((*rhs, close)));
                assert(parse_term_spec(after_lhs.skip(1)) == parse_term_rhs_spec(*rhs, close));
                assert(parse_expr_rhs_spec(*lhs, after_lhs) == parse_expr_rhs_spec(node, close));
                assert(parse_expr_spec(inner) == parse_expr_rhs_spec(*lhs, after_lhs));
            }
        },
    }
}

/// The tokens of a canonical text parse to the expression.
pub proof fn lemma_parse_tokens_of(expr: ExprView)
    ensures
        parse_spec(tokens_of(expr)) == Ok::<_, ParseErrorView>(expr),
{
    let none = Seq::<TokenView>::empty();
    lemma_factor_reads_tokens_of(expr, none);
    assert(tokens_of(expr) + none =~= tokens_of(expr));
    assert(parse_term_rhs_spec(expr, none) == Ok::<_, ParseErrorView>((expr, none)));
    assert(parse_expr_rhs_spec(expr, none) == Ok::<_, ParseErrorView>((expr, none)));
}


/// Whether an expression can come out of the parser of a tokenized text:
/// its numbers are between 0 and `i32::MAX`, and its variables have names of
/// one or more letters.
pub open spec fn is_readable(expr: ExprView) -> bool
    decreases expr,
{
    match expr {
        ExprView::Number(n) => 0 <= n <= i32::MAX,
        ExprView::Variable(name) => name.len() > 0 && is_run(TokenType::Variable, name),
        ExprView::Binary(_, lhs, rhs) => is_readable(*lhs) && is_readable(*rhs),
    }
}

/// Whether a token ends at index `at` of `s` whatever the token is: the text
/// ends there, or the character there is neither a digit nor a letter.
pub open spec fn ends_token(s: Seq<char>, at: int) -> bool {
    at >= s.len() || (!is_digit(s[at]) && !is_letter(s[at]))
}

/// The decimal numeral of a natural number is one or more digits, and its
/// value is the number.
pub proof fn lemma_decimal_digits_value(n: int)
    requires
        0 <= n,
    ensures
        decimal_digits(n).len() > 0,
        is_run(TokenType::Number, decimal_digits(n)),
        decimal_value(decimal_digits(n)) == n,
    decreases n,
{
    let last = digit_char(n % 10);
    assert(is_digit(last) && digit_value(last) == n % 10);
    if n < 10 {
        let text = seq![digit_char(n)];
        assert(text.drop_last() =~= Seq::<char>::empty());
        assert(decimal_value(text.drop_last()) == 0);
        assert(text.last() == digit_char(n));
    } else {
        lemma_decimal_digits_value(n / 10);
        let front = decimal_digits(n / 10);
        let text = front.push(last);
        assert(text.drop_last() =~= front);
        assert(text.last() == last);
        assert forall|i: int| 0 <= i < text.len() implies is_digit(#[trigger] text[i]) by {
            if i < front.len() {
                assert(text[i] == front[i]);
            }
        }
    }
}

/// Putting tokens in front of a result in two steps is putting them in front
/// in one.
pub proof fn lemma_prepend_twice(
    first: Seq<TokenView>,
    second: Seq<TokenView>,
    rest: Result<Seq<TokenView>, TokenizeErrorView>,
)
    ensures
        prepend_tokens(first, prepend_tokens(second, rest)) == prepend_tokens(
            first + second,
            rest,
        ),
{
    if let Ok(more) = rest {
        assert(first + (second + more) =~= (first + second) + more);
    }
}

/// Where the canonical text of a readable expression stands in a text and
/// a token ends after it, the tokens from its start are its own tokens and
/// then the tokens from its end.
pub proof fn lemma_tokens_of_rendering(expr: ExprView, s: Seq<char>, at: int)
    requires
        is_readable(expr),
        0 <= at,
        at + render_spec(expr).len() <= s.len(),
        s.subrange(at, at + render_spec(expr).len()) == render_spec(expr),
        ends_token(s, at + render_spec(expr).len()),
    ensures
        render_spec(expr).len() > 0,
        tokens_from(s, at) == prepend_tokens(
            tokens_of(expr),
            tokens_from(s, at + render_spec(expr).len()),
        ),
    decreases expr,
{
    let text = render_spec(expr);
    let end = at + text.len();
    assert forall|k: int| at <= k < end implies s[k] == #[trigger] text[k - at] by {
        assert(s.subrange(at, end)[k - at] == s[k]);
    }
    match expr {
        ExprView::Number(n) => {
            lemma_decimal_digits_value(n);
            assert(text == decimal_digits(n));
            assert forall|k: int| at <= k < end implies is_digit(#[trigger] s[k]) by {
                assert(s[k] == text[k - at]);
            }
            lemma_run_end_is(s, at, end, TokenType::Number);
            assert(s[at] == text[0]);
        },
        ExprView::Variable(name) => {
            assert forall|k: int| at <= k < end implies is_letter(#[trigger] s[k]) by {
                assert(s[k] == text[k - at]);
            }
            lemma_run_end_is(s, at, end, TokenType::Variable);
            assert(s[at] == text[0]);
        },
        ExprView::Binary(operator, lhs, rhs) => {
            let left = render_spec(*lhs);
            let right = render_spec(*rhs);
            let symbol = operator_symbol(operator);
            let middle = seq![' ', symbol, ' '];
            assert(text == seq!['('] + left + middle + right + seq![')']);
            let left_at = at + 1;
            let middle_at = left_at + left.len();
            let right_at = middle_at + 3;
            let close_at = right_at + right.len();
            assert(end == close_at + 1);
            assert(text[0] == '(');
            assert(text[middle_at - at] == ' ');
            assert(text[middle_at + 1 - at] == symbol);
            assert(text[middle_at + 2 - at] == ' ');
            assert(text[close_at - at] == ')');
            assert(s[at] == text[at - at]);
            assert(s[middle_at] == text[middle_at - at]);
            assert(s[middle_at + 1] == text[middle_at + 1 - at]);
            assert(s[middle_at + 2] == text[middle_at + 2 - at]);
            assert(s[close_at] == text[close_at - at]);
            assert(s.subrange(left_at, middle_at) =~= left) by {
                assert forall|j: int| 0 <= j < left.len() implies s[left_at + j] == left[j] by {
                    assert(s[left_at + j] == text[left_at + j - at]);
                }
            }
            assert(s.subrange(right_at, close_at) =~= right) by {
                assert forall|j: int| 0 <= j < right.len() implies s[right_at + j] == right[j] by {
                    assert(s[right_at + j] == text[right_at + j - at]);
                }
            }
            lemma_tokens_of_rendering(*lhs, s, left_at);
            lemma_tokens_of_rendering(*rhs, s, right_at);
            let after = tokens_from(s, end);
            let from_close = prepend_tokens(seq![TokenView::CloseParen], after);
            assert(tokens_from(s, close_at) == from_close);
            let from_right = prepend_tokens(tokens_of(*rhs), from_close);
            assert(tokens_from(s, right_at) == from_right);
            assert(tokens_from(s, middle_at + 2) == from_right);
            assert(symbol_token(symbol) == Some(operator_token(operator)));
            assert(symbol != ' ' && !is_digit(symbol) && !is_letter(symbol));
            let from_symbol = prepend_tokens(seq![operator_token(operator)], from_right);
            assert(tokens_from(s, middle_at + 1) == from_symbol);
            assert(tokens_from(s, middle_at) == from_symbol);
            let from_left = prepend_tokens(tokens_of(*lhs), from_symbol);
            assert(tokens_from(s, left_at) == from_left);
            assert(tokens_from(s, at) == prepend_tokens(seq![TokenView::OpenParen], from_left));
            lemma_prepend_twice(tokens_of(*rhs), seq![TokenView::CloseParen], after);
            lemma_prepend_twice(
                seq![operator_token(operator)],
                tokens_of(*rhs) + seq![TokenView::CloseParen],
                after,
            );
            lemma_prepend_twice(
                tokens_of(*lhs),
                seq![operator_token(operator)] + (tokens_of(*rhs) + seq![TokenView::CloseParen]),
                after,
            );
            lemma_prepend_twice(
                seq![TokenView::OpenParen],
                tokens_of(*lhs) + (seq![operator_token(operator)] + (tokens_of(*rhs)
                    + seq![TokenView::CloseParen])),
                after,
            );
            assert(seq![TokenView::OpenParen] + (tokens_of(*lhs) + (seq![
                operator_token(operator),
            ] + (tokens_of(*rhs) + seq![TokenView::CloseParen]))) =~= tokens_of(expr));
        },
    }
}

/// The canonical text of a readable expression tokenizes to its tokens.
pub proof fn lemma_tokenize_rendering(expr: ExprView)
    requires
        is_readable(expr),
    ensures
        tokenize_spec(render_spec(expr)) == Ok::<_, TokenizeErrorView>(
            tokens_of(expr),
        ),
{
    let text = render_spec(expr);
    assert(text.subrange(0, text.len() as int) =~= text);
    lemma_tokens_of_rendering(expr, text, 0);
    assert(tokens_of(expr) + Seq::<TokenView>::empty() =~= tokens_of(expr));
}


/// Whether a token can come out of the tokenizer: a number is between 0 and
/// `i32::MAX`, and a variable has a name of one or more letters.
pub open spec fn is_readable_token(token: TokenView) -> bool {
    match token {
        TokenView::Number(n) => 0 <= n <= i32::MAX,
        TokenView::Variable(name) => name.len() > 0 && is_run(TokenType::Variable, name),
        _ => true,
    }
}

/// Whether every token of a sequence can come out of the tokenizer.
pub open spec fn are_readable_tokens(tokens: Seq<TokenView>) -> bool {
    forall|i: int| 0 <= i < tokens.len() ==> is_readable_token(#[trigger] tokens[i])
}

/// Every token that the tokenizer produces is readable.
pub proof fn lemma_tokens_are_readable(s: Seq<char>, from: int)
    requires
        0 <= from,
    ensures
        tokens_from(s, from) matches Ok(tokens) ==> are_readable_tokens(tokens),
    decreases s.len() - from,
{
    if from < s.len() {
        if s[from] == ' ' {
            lemma_tokens_are_readable(s, from + 1);
        } else if is_digit(s[from]) || is_letter(s[from]) {
            let kind = if is_digit(s[from]) {
                TokenType::Number
            } else {
                TokenType::Variable
            };
            let end = run_end(s, from, kind);
            lemma_run_end_bounds(s, from, kind);
            lemma_run_is_run(s, from, kind);
            lemma_tokens_are_readable(s, end);
            if is_digit(s[from]) {
                lemma_decimal_value_nonnegative(s.subrange(from, end));
            }
            if let Ok(tokens) = tokens_from(s, from) {
                let more = tokens_from(s, end)->Ok_0;
                assert forall|i: int| 0 <= i < tokens.len() implies is_readable_token(
                    #[trigger] tokens[i],
                ) by {
                    if i > 0 {
                        assert(tokens[i] == more[i - 1]);
                    }
                }
            }
        } else if symbol_token(s[from]) is Some {
            lemma_tokens_are_readable(s, from + 1);
            if let Ok(tokens) = tokens_from(s, from) {
                let more = tokens_from(s, from + 1)->Ok_0;
                assert forall|i: int| 0 <= i < tokens.len() implies is_readable_token(
                    #[trigger] tokens[i],
                ) by {
                    if i > 0 {
                        assert(tokens[i] == more[i - 1]);
                    }
                }
            }
        }
    }
}

/// What is left of readable tokens after the first is readable.
proof fn lemma_tail_is_readable(tokens: Seq<TokenView>)
    requires
        are_readable_tokens(tokens),
        tokens.len() > 0,
    ensures
        are_readable_tokens(tokens.skip(1)),
        is_readable_token(tokens[0]),
{
    let tail = tokens.skip(1);
    assert forall|i: int| 0 <= i < tail.len() implies is_readable_token(#[trigger] tail[i]) by {
        assert(tail[i] == tokens[i + 1]);
    }
}

proof fn lemma_factor_is_readable(tokens: Seq<TokenView>)
    requires
        are_readable_tokens(tokens),
    ensures
        parse_factor_spec(tokens) matches Ok((expr, rest)) ==> is_readable(expr)
            && are_readable_tokens(rest),
    decreases tokens.len(), 0nat,
{
    if tokens.len() > 0 {
        lemma_tail_is_readable(tokens);
        if tokens[0] == TokenView::OpenParen {
            lemma_expr_is_readable(tokens.skip(1));
            if let Ok((inner, rest)) = parse_expr_spec(tokens.skip(1)) {
                if rest.len() > 0 {
                    lemma_tail_is_readable(rest);
                }
            }
        }
    }
}

proof fn lemma_term_rhs_is_readable(lhs: ExprView, tokens: Seq<TokenView>)
    requires
        is_readable(lhs),
        are_readable_tokens(tokens),
    ensures
        parse_term_rhs_spec(lhs, tokens) matches Ok((expr, rest)) ==> is_readable(expr)
            && are_readable_tokens(rest),
    decreases tokens.len(), 1nat,
{
    if tokens.len() > 0 && multiplicative_operator(tokens[0]) is Some {
        lemma_tail_is_readable(tokens);
        lemma_factor_is_readable(tokens.skip(1));
        if let Ok((rhs, rest)) = parse_factor_spec(tokens.skip(1)) {
            if rest.len() < tokens.len() {
                lemma_term_rhs_is_readable(
                    binary(multiplicative_operator(tokens[0])->0, lhs, rhs),
                    rest,
                );
            }
        }
    }
}

proof fn lemma_term_is_readable(tokens: Seq<TokenView>)
    requires
        are_readable_tokens(tokens),
    ensures
        parse_term_spec(tokens) matches Ok((expr, rest)) ==> is_readable(expr)
            && are_readable_tokens(rest),
    decreases tokens.len(), 2nat,
{
    lemma_factor_is_readable(tokens);
    if let Ok((lhs, rest)) = parse_factor_spec(tokens) {
        if rest.len() <= tokens.len() {
            lemma_term_rhs_is_readable(lhs, rest);
        }
    }
}

proof fn lemma_expr_rhs_is_readable(lhs: ExprView, tokens: Seq<TokenView>)
    requires
        is_readable(lhs),
        are_readable_tokens(tokens),
    ensures
        parse_expr_rhs_spec(lhs, tokens) matches Ok((expr, rest)) ==> is_readable(expr)
            && are_readable_tokens(rest),
    decreases tokens.len(), 3nat,
{
    if tokens.len() > 0 && additive_operator(tokens[0]) is Some {
        lemma_tail_is_readable(tokens);
        lemma_term_is_readable(tokens.skip(1));
        if let Ok((rhs, rest)) = parse_term_spec(tokens.skip(1)) {
            if rest.len() < tokens.len() {
                lemma_expr_rhs_is_readable(
                    binary(additive_operator(tokens[0])->0, lhs, rhs),
                    rest,
                );
            }
        }
    }
}

proof fn lemma_expr_is_readable(tokens: Seq<TokenView>)
    requires
        are_readable_tokens(tokens),
    ensures
        parse_expr_spec(tokens) matches Ok((expr, rest)) ==> is_readable(expr)
            && are_readable_tokens(rest),
    decreases tokens.len(), 4nat,
{
    lemma_term_is_readable(tokens);
    if let Ok((lhs, rest)) = parse_term_spec(tokens) {
        if rest.len() <= tokens.len() {
            lemma_expr_rhs_is_readable(lhs, rest);
        }
    }
}

/// An expression parsed from the tokens of a text is readable.
pub proof fn lemma_parsed_text_is_readable(text: Seq<char>)
    ensures
        tokenize_spec(text) matches Ok(tokens) ==> (parse_spec(tokens) matches Ok(expr)
            ==> is_readable(expr)),
{
    lemma_tokens_are_readable(text, 0);
    if let Ok(tokens) = tokenize_spec(text) {
        lemma_expr_is_readable(tokens);
    }
}

/// The canonical text of a readable expression is read back as the
/// expression: it tokenizes, and its tokens parse to the expression.
pub proof fn lemma_readable_round_trip(expr: ExprView)
    requires
        is_readable(expr),
    ensures
        tokenize_spec(render_spec(expr)) matches Ok(tokens) && parse_spec(tokens) == Ok::<
            _,
            ParseErrorView,
        >(expr),
{
    lemma_tokenize_rendering(expr);
    lemma_parse_tokens_of(expr);
}

/// Whenever a text tokenizes and its tokens parse to an expression, the
/// canonical text of that expression tokenizes too, and its tokens parse to
/// the same expression.
pub proof fn lemma_round_trip(text: Seq<char>)
    requires
        tokenize_spec(text) is Ok,
        parse_spec(tokenize_spec(text)->Ok_0) is Ok,
    ensures
        ({
            let expr = parse_spec(tokenize_spec(text)->Ok_0)->Ok_0;
            tokenize_spec(render_spec(expr)) matches Ok(tokens) && parse_spec(tokens) == Ok::<
                _,
                ParseErrorView,
            >(expr)
        }),
{
    lemma_parsed_text_is_readable(text);
    lemma_readable_round_trip(parse_spec(tokenize_spec(text)->Ok_0)->Ok_0);
}

} // verus!
