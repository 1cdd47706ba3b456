//! Lexical analysis: from text to a sequence of tokens.
//!
//! The text is read as a sequence of characters. Spaces separate tokens and
//! are otherwise ignored; each of `+ - * / % ( )` is a token by itself; a
//! maximal run of decimal digits is a number; a maximal run of ASCII letters
//! is a variable name. Anything else is rejected.

use vstd::prelude::*;

verus! {

/// A lexical unit of an expression.
#[derive(Debug, PartialEq, Eq)]
pub enum Token {
    Number(i32),
    Variable(String),
    Add,
    Sub,
    Mul,
    Div,
    Mod,
    OpenParen,
    CloseParen,
}

/// The mathematical value of a [`Token`].
pub enum TokenView {
    Number(int),
    Variable(Seq<char>),
    Add,
    Sub,
    Mul,
    Div,
    Mod,
    OpenParen,
    CloseParen,
}

impl View for Token {
    type V = TokenView;

    open spec fn view(&self) -> TokenView {
        match self {
            Token::Number(n) => TokenView::Number(*n as int),
            Token::Variable(name) => TokenView::Variable(name@),
            Token::Add => TokenView::Add,
            Token::Sub => TokenView::Sub,
            Token::Mul => TokenView::Mul,
            Token::Div => TokenView::Div,
            Token::Mod => TokenView::Mod,
            Token::OpenParen => TokenView::OpenParen,
            Token::CloseParen => TokenView::CloseParen,
        }
    }
}

impl Clone for Token {
    fn clone(&self) -> (copy: Self)
        ensures
            copy@ == self@,
    {
        match self {
            Token::Number(n) => Token::Number(*n),
            Token::Variable(name) => Token::Variable(name.clone()),
            Token::Add => Token::Add,
            Token::Sub => Token::Sub,
            Token::Mul => Token::Mul,
            Token::Div => Token::Div,
            Token::Mod => Token::Mod,
            Token::OpenParen => Token::OpenParen,
            Token::CloseParen => Token::CloseParen,
        }
    }
}

/// The values of a sequence of tokens, in order.
pub open spec fn token_views(tokens: Seq<Token>) -> Seq<TokenView> {
    tokens.map_values(|t: Token| t@)
}

/// Why a text could not be tokenized.
#[derive(Debug, PartialEq, Eq)]
pub enum TokenizeError {
    /// A character that belongs to no token, with its index in the text,
    /// counted in characters. Every character before it is ASCII, so this is
    /// its byte offset too.
    UnknownCharacter(char, usize),
    /// A numeral too large for a `Token::Number`, with the index of its first
    /// digit.
    NumberOverflow(String, usize),
}

/// The mathematical value of a [`TokenizeError`].
pub enum TokenizeErrorView {
    UnknownCharacter(char, int),
    NumberOverflow(Seq<char>, int),
}

impl View for TokenizeError {
    type V = TokenizeErrorView;

    open spec fn view(&self) -> TokenizeErrorView {
        match self {
            TokenizeError::UnknownCharacter(c, position) => TokenizeErrorView::UnknownCharacter(
                *c,
                *position as int,
            ),
            TokenizeError::NumberOverflow(text, position) => TokenizeErrorView::NumberOverflow(
                text@,
                *position as int,
            ),
        }
    }
}

/// The kind of a run, that is of a token of several characters.
#[derive(Debug, Clone, Copy, PartialEq, Eq, Structural)]
pub enum TokenType {
    Number,
    Variable,
}

/// A decimal digit, `0` to `9`.
pub open spec fn is_digit(c: char) -> bool {
    '0' <= c && c <= '9'
}

/// An ASCII letter, `a` to `z` or `A` to `Z`.
pub open spec fn is_letter(c: char) -> bool {
    ('a' <= c && c <= 'z') || ('A' <= c && c <= 'Z')
}

/// The number that a decimal digit stands for.
pub open spec fn digit_value(c: char) -> int {
    c as int - '0' as int
}

/// The token that a single character forms by itself, if any.
pub open spec fn symbol_token(symbol: char) -> Option<TokenView> {
    if symbol == '+' {
        Some(TokenView::Add)
    } else if symbol == '-' {
        Some(TokenView::Sub)
    } else if symbol == '*' {
        Some(TokenView::Mul)
    } else if symbol == '/' {
        Some(TokenView::Div)
    } else if symbol == '%' {
        Some(TokenView::Mod)
    } else if symbol == '(' {
        Some(TokenView::OpenParen)
    } else if symbol == ')' {
        Some(TokenView::CloseParen)
    } else {
        None
    }
}

/// Whether `c` may stand in a run of the given kind.
pub open spec fn continues_run(kind: TokenType, c: char) -> bool {
    match kind {
        TokenType::Number => is_digit(c),
        TokenType::Variable => is_letter(c),
    }
}

/// Whether every character of `text` may stand in a run of the given kind.
pub open spec fn is_run(kind: TokenType, text: Seq<char>) -> bool {
    forall|i: int| 0 <= i < text.len() ==> continues_run(kind, #[trigger] text[i])
}

/// The index just past the longest run of the given kind that starts at
/// `from`: the first index at or after `from` whose character does not
/// continue the run, or the length of `s` if there is none.
pub open spec fn run_end(s: Seq<char>, from: int, kind: TokenType) -> int
    decreases s.len() - from,
{
    if 0 <= from < s.len() && continues_run(kind, s[from]) {
        run_end(s, from + 1, kind)
    } else {
        from
    }
}

/// The number written by a sequence of decimal digits, most significant
/// digit first.
pub open spec fn decimal_value(digits: Seq<char>) -> int
    decreases digits.len(),
{
    if digits.len() == 0 {
        0
    } else {
        10 * decimal_value(digits.drop_last()) + digit_value(digits.last())
    }
}

/// The token that a run of the given kind stands for. A number needs at
/// least one character, only digits, and a value that an `i32` can hold.
pub open spec fn run_token(kind: TokenType, text: Seq<char>) -> Option<TokenView> {
    match kind {
        TokenType::Number => if text.len() > 0 && is_run(TokenType::Number, text) && decimal_value(
            text,
        ) <= i32::MAX {
            Some(TokenView::Number(decimal_value(text)))
        } else {
            None
        },
        TokenType::Variable => Some(TokenView::Variable(text)),
    }
}

/// Puts `tokens` in front of a tokenization result; an error stays as it is.
pub open spec fn prepend_tokens(
    tokens: Seq<TokenView>,
    rest: Result<Seq<TokenView>, TokenizeErrorView>,
) -> Result<Seq<TokenView>, TokenizeErrorView> {
    match rest {
        Ok(more) => Ok(tokens + more),
        Err(error) => Err(error),
    }
}

/// The tokens of `s` from index `from` on, or the first error met when
/// reading from there.
pub open spec fn tokens_from(s: Seq<char>, from: int) -> Result<Seq<TokenView>, TokenizeErrorView>
    decreases s.len() - from,
{
    if from < 0 || from >= s.len() {
        Ok(Seq::empty())
    } else if s[from] == ' ' {
        tokens_from(s, from + 1)
    } else if is_digit(s[from]) {
        let end = run_end(s, from, TokenType::Number);
        let text = s.subrange(from, end);
        proof {
            lemma_run_end_bounds(s, from, TokenType::Number);
        }
        if decimal_value(text) > i32::MAX {
            Err(TokenizeErrorView::NumberOverflow(text, from))
        } else {
            prepend_tokens(seq![TokenView::Number(decimal_value(text))], tokens_from(s, end))
        }
    } else if is_letter(s[from]) {
        let end = run_end(s, from, TokenType::Variable);
        proof {
            lemma_run_end_bounds(s, from, TokenType::Variable);
        }
        prepend_tokens(seq![TokenView::Variable(s.subrange(from, end))], tokens_from(s, end))
    } else {
        match symbol_token(s[from]) {
            Some(token) => prepend_tokens(seq![token], tokens_from(s, from + 1)),
            None => Err(TokenizeErrorView::UnknownCharacter(s[from], from)),
        }
    }
}

/// The tokens of a whole text, or the first error met when reading it from
/// left to right.
pub open spec fn tokenize_spec(s: Seq<char>) -> Result<Seq<TokenView>, TokenizeErrorView> {
    tokens_from(s, 0)
}

/// A run ends at or after its start and within the text, and it is not empty
/// when the character at its start continues it.
pub proof fn lemma_run_end_bounds(s: Seq<char>, from: int, kind: TokenType)
    requires
        0 <= from <= s.len(),
    ensures
        from <= run_end(s, from, kind) <= s.len(),
        from < s.len() && continues_run(kind, s[from]) ==> from < run_end(s, from, kind),
    decreases s.len() - from,
{
    if from < s.len() && continues_run(kind, s[from]) {
        lemma_run_end_bounds(s, from + 1, kind);
    }
}

/// A run that starts at `from` ends at `end` when every character between
/// the two continues it and the character at `end`, if there is one, does not.
pub proof fn lemma_run_end_is(s: Seq<char>, from: int, end: int, kind: TokenType)
    requires
        0 <= from <= end <= s.len(),
        forall|k: int| from <= k < end ==> continues_run(kind, #[trigger] s[k]),
        end < s.len() ==> !continues_run(kind, s[end]),
    ensures
        run_end(s, from, kind) == end,
    decreases end - from,
{
    if from < end {
        lemma_run_end_is(s, from + 1, end, kind);
    }
}

/// Every character of a run continues it.
pub proof fn lemma_run_is_run(s: Seq<char>, from: int, kind: TokenType)
    requires
        0 <= from <= s.len(),
    ensures
        is_run(kind, s.subrange(from, run_end(s, from, kind))),
        run_end(s, from, kind) < s.len() ==> !continues_run(kind, s[run_end(s, from, kind)]),
    decreases s.len() - from,
{
    lemma_run_end_bounds(s, from, kind);
    if from < s.len() && continues_run(kind, s[from]) {
        lemma_run_is_run(s, from + 1, kind);
        let end = run_end(s, from, kind);
        lemma_run_end_bounds(s, from + 1, kind);
        let shorter = s.subrange(from + 1, end);
        let run = s.subrange(from, end);
        assert forall|i: int| 0 <= i < run.len() implies continues_run(kind, #[trigger] run[i]) by {
            if i > 0 {
                assert(run[i] == shorter[i - 1]);
            }
        }
    }
}

/// The value of a numeral is not negative.
pub proof fn lemma_decimal_value_nonnegative(digits: Seq<char>)
    requires
        is_run(TokenType::Number, digits),
    ensures
        0 <= decimal_value(digits),
    decreases digits.len(),
{
    if digits.len() > 0 {
        let front = digits.drop_last();
        assert forall|i: int| 0 <= i < front.len() implies is_digit(#[trigger] front[i]) by {
            assert(front[i] == digits[i]);
        }
        lemma_decimal_value_nonnegative(front);
        assert(is_digit(digits[digits.len() - 1]));
    }
}

/// The value of a numeral is at least the value of each of its prefixes.
pub proof fn lemma_decimal_value_of_prefix(digits: Seq<char>, n: int)
    requires
        is_run(TokenType::Number, digits),
        0 <= n <= digits.len(),
    ensures
        is_run(TokenType::Number, digits.take(n)),
        0 <= decimal_value(digits.take(n)) <= decimal_value(digits),
    decreases digits.len() - n,
{
    let prefix = digits.take(n);
    assert forall|i: int| 0 <= i < prefix.len() implies is_digit(#[trigger] prefix[i]) by {
        assert(prefix[i] == digits[i]);
    }
    lemma_decimal_value_nonnegative(prefix);
    if n < digits.len() {
        let front = digits.drop_last();
        assert forall|i: int| 0 <= i < front.len() implies is_digit(#[trigger] front[i]) by {
            assert(front[i] == digits[i]);
        }
        lemma_decimal_value_nonnegative(front);
        assert(is_digit(digits[digits.len() - 1]));
        if n < front.len() {
            lemma_decimal_value_of_prefix(front, n);
            assert(front.take(n) =~= prefix);
        } else {
            assert(front =~= prefix);
        }
    } else {
        assert(prefix =~= digits);
    }
}

/// Reads `symbol` as a single-character token, if it is one.
pub fn symbol_to_token(symbol: char) -> (token: Option<Token>)
    ensures
        match token {
            Some(t) => symbol_token(symbol) == Some(t@),
            None => symbol_token(symbol) is None,
        },
{
    match symbol {
        '+' => Some(Token::Add),
        '-' => Some(Token::Sub),
        '*' => Some(Token::Mul),
        '/' => Some(Token::Div),
        '%' => Some(Token::Mod),
        '(' => Some(Token::OpenParen),
        ')' => Some(Token::CloseParen),
        _ => None,
    }
}

fn is_decimal_digit(c: char) -> (b: bool)
    ensures
        b == is_digit(c),
{
    '0' <= c && c <= '9'
}

fn is_ascii_letter(c: char) -> (b: bool)
    ensures
        b == is_letter(c),
{
    ('a' <= c && c <= 'z') || ('A' <= c && c <= 'Z')
}

/// Reads a numeral: `None` unless `string` is one or more decimal digits
/// whose value an `i32` can hold.
fn parse_number(string: &str) -> (value: Option<i32>)
    ensures
        match value {
            Some(n) => run_token(TokenType::Number, string@) == Some(TokenView::Number(n as int)),
            None => run_token(TokenType::Number, string@) is None,
        },
{
    let mut value: i32 = 0;
    let mut empty = true;
    let chars = string.chars();
    for c in it: chars
        invariant
            it.seq() == string@,
            empty == (it.index() == 0),
            is_run(TokenType::Number, string@.take(it.index())),
            0 <= value == decimal_value(string@.take(it.index())),
    {
        let ghost read = it.index();
        let ghost before = string@.take(read);
        let ghost after = string@.take(read + 1);
        proof {
            assert(after.drop_last() =~= before);
            assert(after.last() == c);
        }
        if !is_decimal_digit(c) {
            proof {
                assert(!continues_run(TokenType::Number, string@[read]));
            }
            return None;
        }
        let next: i64 = value as i64 * 10 + (c as u32 - '0' as u32) as i64;
        if next > i32::MAX as i64 {
            proof {
                assert forall|i: int| 0 <= i < after.len() implies is_digit(
                    #[trigger] after[i],
                ) by {
                    if i < read {
                        assert(after[i] == before[i]);
                    }
                }
                if is_run(TokenType::Number, string@) {
                    lemma_decimal_value_of_prefix(string@, read + 1);
                }
            }
            return None;
        }
        proof {
            assert forall|i: int| 0 <= i < after.len() implies is_digit(#[trigger] after[i]) by {
                if i < read {
                    assert(after[i] == before[i]);
                }
            }
        }
        value = next as i32;
        empty = false;
    }
    proof {
        assert(string@.take(string@.len() as int) =~= string@);
    }
    if empty {
        None
    } else {
        Some(value)
    }
}

/// Reads `string` as a token of kind `token_type`.
pub fn string_to_token(string: &str, token_type: TokenType) -> (token: Option<Token>)
    ensures
        match token {
            Some(t) => run_token(token_type, string@) == Some(t@),
            None => run_token(token_type, string@) is None,
        },
{
    match token_type {
        TokenType::Number => match parse_number(string) {
            Some(n) => Some(Token::Number(n)),
            None => None,
        },
        TokenType::Variable => Some(Token::Variable(string.to_owned())),
    }
}

/// What holds while a text `s` is read from left to right, after
/// `position` characters: `tokens` have been produced, and a run of kind
/// `current`, if any, has been open since `start`.
spec fn reading(
    s: Seq<char>,
    tokens: Seq<TokenView>,
    current: Option<TokenType>,
    start: int,
    position: int,
) -> bool {
    match current {
        None => tokenize_spec(s) == prepend_tokens(tokens, tokens_from(s, position)),
        Some(kind) => {
            &&& 0 <= start < position
            &&& is_run(kind, s.subrange(start, position))
            &&& tokenize_spec(s) == prepend_tokens(tokens, tokens_from(s, start))
        },
    }
}

/// When the run that is open at `position` ends there, the tokens from its
/// start on are its own token and then the tokens from `position` on; a
/// numeral too large is the error instead.
proof fn lemma_tokens_from_run(s: Seq<char>, kind: TokenType, start: int, position: int)
    requires
        0 <= start < position <= s.len(),
        is_run(kind, s.subrange(start, position)),
        position < s.len() ==> !continues_run(kind, s[position]),
    ensures
        tokens_from(s, start) == match run_token(kind, s.subrange(start, position)) {
            Some(token) => prepend_tokens(seq![token], tokens_from(s, position)),
            None => Err(
                TokenizeErrorView::NumberOverflow(s.subrange(start, position), start),
            ),
        },
{
    let run = s.subrange(start, position);
    assert forall|k: int| start <= k < position implies continues_run(kind, #[trigger] s[k]) by {
        assert(run[k - start] == s[k]);
    }
    lemma_run_end_is(s, start, position, kind);
    assert(continues_run(kind, s[start]));
}

/// Producing one more token commutes with putting the produced tokens in
/// front of the rest.
proof fn lemma_prepend_one_more(
    tokens: Seq<TokenView>,
    token: TokenView,
    rest: Result<Seq<TokenView>, TokenizeErrorView>,
)
    ensures
        prepend_tokens(tokens, prepend_tokens(seq![token], rest)) == prepend_tokens(
            tokens.push(token),
            rest,
        ),
{
    if let Ok(more) = rest {
        assert(tokens + (seq![token] + more) =~= tokens.push(token) + more);
    }
}

/// Closes the run of kind `kind` that spans the characters from `start` to
/// `end`: its token, or the error for a numeral too large.
fn finish_run(text: &str, kind: TokenType, start: usize, end: usize) -> (result: Result<
    Token,
    TokenizeError,
>)
    requires
        start < end <= text@.len(),
        is_run(kind, text@.subrange(start as int, end as int)),
    ensures
        match result {
            Ok(token) => run_token(kind, text@.subrange(start as int, end as int)) == Some(
                token@,
            ),
            Err(error) => {
                &&& run_token(kind, text@.subrange(start as int, end as int)) is None
                &&& error@ == TokenizeErrorView::NumberOverflow(
                    text@.subrange(start as int, end as int),
                    start as int,
                )
            },
        },
{
    let run = text.substring_char(start, end);
    match string_to_token(run, kind) {
        Some(token) => Ok(token),
        None => Err(TokenizeError::NumberOverflow(run.to_owned(), start)),
    }
}

/// Splits `text` into its tokens, reading it once from left to right.
///
/// The result is exactly what [`tokenize_spec`] gives for the characters of
/// `text`: all the tokens in order, or the first error and no token at all.
pub fn tokenize(text: &str) -> (result: Result<Vec<Token>, TokenizeError>)
    ensures
        match result {
            Ok(tokens) => tokenize_spec(text@) == Ok::<Seq<TokenView>, TokenizeErrorView>(
                token_views(tokens@),
            ),
            Err(error) => tokenize_spec(text@) == Err::<Seq<TokenView>, TokenizeErrorView>(
                error@,
            ),
        },
{
    // The characters are counted once: their number fits a `usize`, so the
    // position below cannot overflow.
    let length = text.unicode_len();
    let mut tokens: Vec<Token> = Vec::new();
    let mut current_type: Option<TokenType> = None;
    let mut start: usize = 0;
    let mut position: usize = 0;
    proof {
        assert(token_views(tokens@) =~= Seq::empty());
        assert(prepend_tokens(Seq::empty(), tokens_from(text@, 0)) == tokens_from(text@, 0)) by {
            if let Ok(more) = tokens_from(text@, 0) {
                assert(Seq::<TokenView>::empty() + more =~= more);
            }
        }
    }
    let chars = text.chars();
    for c in it: chars
        invariant
            it.seq() == text@,
            position == it.index(),
            length == text@.len(),
            reading(text@, token_views(tokens@), current_type, start as int, position as int),
    {
        let closes = match current_type {
            Some(TokenType::Number) => !is_decimal_digit(c),
            Some(TokenType::Variable) => !is_ascii_letter(c),
            None => false,
        };
        if closes {
            let kind = current_type.unwrap();
            proof {
                lemma_tokens_from_run(text@, kind, start as int, position as int);
            }
            match finish_run(text, kind, start, position) {
                Ok(token) => {
                    proof {
                        lemma_prepend_one_more(
                            token_views(tokens@),
                            token@,
                            tokens_from(text@, position as int),
                        );
                        assert(token_views(tokens@.push(token)) =~= token_views(tokens@).push(
                            token@,
                        ));
                    }
                    tokens.push(token);
                },
                Err(error) => {
                    return Err(error);
                },
            }
            current_type = None;
        }
        if c == ' ' {
            // A space only separates.
        } else if is_decimal_digit(c) {
            match current_type {
                Some(TokenType::Number) => {
                    proof {
                        lemma_run_grows(text@, TokenType::Number, start as int, position as int);
                    }
                },
                _ => {
                    current_type = Some(TokenType::Number);
                    start = position;
                },
            }
        } else if is_ascii_letter(c) {
            match current_type {
                Some(TokenType::Variable) => {
                    proof {
                        lemma_run_grows(
                            text@,
                            TokenType::Variable,
                            start as int,
                            position as int,
                        );
                    }
                },
                _ => {
                    current_type = Some(TokenType::Variable);
                    start = position;
                },
            }
        } else if let Some(symbol) = symbol_to_token(c) {
            proof {
                lemma_prepend_one_more(
                    token_views(tokens@),
                    symbol@,
                    tokens_from(text@, position + 1),
                );
                assert(token_views(tokens@.push(symbol)) =~= token_views(tokens@).push(symbol@));
            }
            tokens.push(symbol);
        } else {
            return Err(TokenizeError::UnknownCharacter(c, position));
        }
        position = position + 1;
    }
    if let Some(kind) = current_type {
        proof {
            lemma_tokens_from_run(text@, kind, start as int, position as int);
        }
        match finish_run(text, kind, start, position) {
            Ok(token) => {
                proof {
                    lemma_prepend_one_more(
                        token_views(tokens@),
                        token@,
                        tokens_from(text@, position as int),
                    );
                    assert(token_views(tokens@.push(token)) =~= token_views(tokens@).push(
                        token@,
                    ));
                }
                tokens.push(token);
            },
            Err(error) => {
                return Err(error);
            },
        }
    }
    proof {
        assert(token_views(tokens@) + Seq::<TokenView>::empty() =~= token_views(tokens@));
    }
    Ok(tokens)
}

/// A run that the next character continues is a run with that character.
proof fn lemma_run_grows(s: Seq<char>, kind: TokenType, start: int, position: int)
    requires
        0 <= start <= position < s.len(),
        is_run(kind, s.subrange(start, position)),
        continues_run(kind, s[position]),
    ensures
        is_run(kind, s.subrange(start, position + 1)),
{
    let shorter = s.subrange(start, position);
    let longer = s.subrange(start, position + 1);
    assert forall|i: int| 0 <= i < longer.len() implies continues_run(
        kind,
        #[trigger] longer[i],
    ) by {
        if i < shorter.len() {
            assert(longer[i] == shorter[i]);
        }
    }
}

} // verus!
