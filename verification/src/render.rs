//! The canonical text of an expression: every operator application in
//! parentheses, whatever its precedence.

use crate::parse::{Expr, ExprView, Operator};
use vstd::prelude::*;

verus! {

/// The decimal digit that stands for `d`, for `d` from 0 to 9.
pub open spec fn digit_char(d: int) -> char {
    (d + '0' as int) as char
}

/// The decimal numeral of a natural number, without leading zeros.
pub open spec fn decimal_digits(n: int) -> Seq<char>
    decreases n,
{
    if n < 10 {
        seq![digit_char(n)]
    } else {
        decimal_digits(n / 10).push(digit_char(n % 10))
    }
}

/// The decimal numeral of an integer, with a minus sign if it is negative.
pub open spec fn render_number(n: int) -> Seq<char> {
    if n < 0 {
        seq!['-'] + decimal_digits(-n)
    } else {
        decimal_digits(n)
    }
}

/// The character that an operator is written with.
pub open spec fn operator_symbol(operator: Operator) -> char {
    match operator {
        Operator::Add => '+',
        Operator::Sub => '-',
        Operator::Mul => '*',
        Operator::Div => '/',
        Operator::Mod => '%',
    }
}

/// The canonical text of an expression: a number as its decimal numeral, a
/// variable as its name, and an operator application as `(`, the left
/// operand, a space, the operator, a space, the right operand, `)`.
pub open spec fn render_spec(expr: ExprView) -> Seq<char>
    decreases expr,
{
    match expr {
        ExprView::Number(n) => render_number(n),
        ExprView::Variable(name) => name,
        ExprView::Binary(operator, lhs, rhs) => seq!['('] + render_spec(*lhs) + seq![
            ' ',
            operator_symbol(operator),
            ' ',
        ] + render_spec(*rhs) + seq![')'],
    }
}

/// The text of one decimal digit.
fn digit_text(d: u32) -> (text: &'static str)
    requires
        d < 10,
    ensures
        text@ == seq![digit_char(d as int)],
{
    proof {
        reveal_strlit("0");
        reveal_strlit("1");
        reveal_strlit("2");
        reveal_strlit("3");
        reveal_strlit("4");
        reveal_strlit("5");
        reveal_strlit("6");
        reveal_strlit("7");
        reveal_strlit("8");
        reveal_strlit("9");
    }
    let text = match d {
        0 => "0",
        1 => "1",
        2 => "2",
        3 => "3",
        4 => "4",
        5 => "5",
        6 => "6",
        7 => "7",
        8 => "8",
        _ => "9",
    };
    assert(text@ =~= seq![digit_char(d as int)]);
    text
}

/// Writes the decimal numeral of `n` at the end of `out`.
fn append_decimal(out: &mut String, n: u32)
    ensures
        final(out)@ == old(out)@ + decimal_digits(n as int),
    decreases n,
{
    if n >= 10 {
        append_decimal(out, n / 10);
    }
    out.append(digit_text(n % 10));
    proof {
        if n >= 10 {
            assert(final(out)@ =~= old(out)@ + decimal_digits(n as int));
        }
    }
}

/// Writes the decimal numeral of `n`, with its sign, at the end of `out`.
fn append_number(out: &mut String, n: i32)
    ensures
        final(out)@ == old(out)@ + render_number(n as int),
{
    if n < 0 {
        proof {
            reveal_strlit("-");
        }
        out.append("-");
        let magnitude: u32 = (-(n as i64)) as u32;
        append_decimal(out, magnitude);
        assert(final(out)@ =~= old(out)@ + render_number(n as int));
    } else {
        append_decimal(out, n as u32);
    }
}

/// The text of an operator between its operands.
fn operator_text(operator: Operator) -> (text: &'static str)
    ensures
        text@ == seq![' ', operator_symbol(operator), ' '],
{
    proof {
        reveal_strlit(" + ");
        reveal_strlit(" - ");
        reveal_strlit(" * ");
        reveal_strlit(" / ");
        reveal_strlit(" % ");
    }
    let text = match operator {
        Operator::Add => " + ",
        Operator::Sub => " - ",
        Operator::Mul => " * ",
        Operator::Div => " / ",
        Operator::Mod => " % ",
    };
    assert(text@ =~= seq![' ', operator_symbol(operator), ' ']);
    text
}

impl Expr {
    /// Writes the canonical text of this expression at the end of `out`.
    pub fn render_into(&self, out: &mut String)
        ensures
            final(out)@ == old(out)@ + render_spec(self@),
        decreases self,
    {
        let (operator, lhs, rhs) = match self {
            Expr::Number(num) => {
                append_number(out, *num);
                return ;
            },
            Expr::Variable(name) => {
                out.append(name.as_str());
                return ;
            },
            Expr::Add(lhs, rhs) => (Operator::Add, lhs, rhs),
            Expr::Sub(lhs, rhs) => (Operator::Sub, lhs, rhs),
            Expr::Mul(lhs, rhs) => (Operator::Mul, lhs, rhs),
            Expr::Div(lhs, rhs) => (Operator::Div, lhs, rhs),
            Expr::Mod(lhs, rhs) => (Operator::Mod, lhs, rhs),
        };
        proof {
            reveal_strlit("(");
            reveal_strlit(")");
        }
        out.append("(");
        lhs.render_into(out);
        out.append(operator_text(operator));
        rhs.render_into(out);
        out.append(")");
        assert(final(out)@ =~= old(out)@ + render_spec(self@));
    }

    /// The canonical text of this expression.
    pub fn render(&self) -> (text: String)
        ensures
            text@ == render_spec(self@),
    {
        let mut text = String::new();
        self.render_into(&mut text);
        assert(text@ =~= render_spec(self@));
        text
    }
}

} // verus!
