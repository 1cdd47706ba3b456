//! Evaluation: from an expression tree and the values of its variables to an
//! integer.

use crate::parse::{binary, Expr, ExprView, Operator};
use vstd::hash_map::StringHashMap;
use vstd::prelude::*;

verus! {

/// The values of the variables, by name.
pub type Bindings = StringHashMap<i32>;

/// Why an expression has no value.
#[derive(Debug, PartialEq, Eq)]
pub enum EvalError {
    /// A variable that the bindings give no value.
    UndefinedVariable(String),
    /// A division whose right operand is zero.
    DivisionByZero,
    /// A remainder whose right operand is zero.
    ModuloByZero,
    /// A result that an `i32` cannot hold.
    Overflow,
}

/// The mathematical value of an [`EvalError`].
pub enum EvalErrorView {
    UndefinedVariable(Seq<char>),
    DivisionByZero,
    ModuloByZero,
    Overflow,
}

impl View for EvalError {
    type V = EvalErrorView;

    open spec fn view(&self) -> EvalErrorView {
        match self {
            EvalError::UndefinedVariable(name) => EvalErrorView::UndefinedVariable(name@),
            EvalError::DivisionByZero => EvalErrorView::DivisionByZero,
            EvalError::ModuloByZero => EvalErrorView::ModuloByZero,
            EvalError::Overflow => EvalErrorView::Overflow,
        }
    }
}

/// The mathematical value of what evaluation returns.
pub open spec fn outcome_view(outcome: Result<i32, EvalError>) -> Result<int, EvalErrorView> {
    match outcome {
        Ok(value) => Ok(value as int),
        Err(error) => Err(error@),
    }
}

/// The quotient of `a` by `b`, rounded toward zero.
pub open spec fn quotient(a: int, b: int) -> int
    recommends
        b != 0,
{
    if a >= 0 {
        a / b
    } else {
        -((-a) / b)
    }
}

/// What is left of `a` after taking out `b` times the quotient; it has the
/// sign of `a`.
pub open spec fn remainder(a: int, b: int) -> int
    recommends
        b != 0,
{
    if a >= 0 {
        a % b
    } else {
        -((-a) % b)
    }
}

/// A mathematical result as the result of a computation on `i32`: itself if
/// an `i32` can hold it, an overflow if not.
pub open spec fn in_range(value: int) -> Result<int, EvalErrorView> {
    if i32::MIN <= value <= i32::MAX {
        Ok(value)
    } else {
        Err(EvalErrorView::Overflow)
    }
}

/// The result of applying `operator` to two integers.
pub open spec fn apply_spec(operator: Operator, a: int, b: int) -> Result<int, EvalErrorView> {
    match operator {
        Operator::Add => in_range(a + b),
        Operator::Sub => in_range(a - b),
        Operator::Mul => in_range(a * b),
        Operator::Div => if b == 0 {
            Err(EvalErrorView::DivisionByZero)
        } else {
            in_range(quotient(a, b))
        },
        Operator::Mod => if b == 0 {
            Err(EvalErrorView::ModuloByZero)
        } else {
            in_range(remainder(a, b))
        },
    }
}

/// The result of applying `operator` to the results of two operands: the
/// error of the left operand if it has one, else the error of the right
/// operand if it has one, else what the operator gives.
pub open spec fn combine_spec(
    operator: Operator,
    lhs: Result<int, EvalErrorView>,
    rhs: Result<int, EvalErrorView>,
) -> Result<int, EvalErrorView> {
    match lhs {
        Err(error) => Err(error),
        Ok(a) => match rhs {
            Err(error) => Err(error),
            Ok(b) => apply_spec(operator, a, b),
        },
    }
}

/// The value of an expression under the given values of its variables.
pub open spec fn evaluate_spec(expr: ExprView, variables: Map<Seq<char>, i32>) -> Result<
    int,
    EvalErrorView,
>
    decreases expr,
{
    match expr {
        ExprView::Number(n) => Ok(n),
        ExprView::Variable(name) => if variables.contains_key(name) {
            Ok(variables[name] as int)
        } else {
            Err(EvalErrorView::UndefinedVariable(name))
        },
        ExprView::Binary(operator, lhs, rhs) => combine_spec(
            operator,
            evaluate_spec(*lhs, variables),
            evaluate_spec(*rhs, variables),
        ),
    }
}

/// Applies `operator` to two integers.
pub fn apply(operator: Operator, a: i32, b: i32) -> (outcome: Result<i32, EvalError>)
    ensures
        outcome_view(outcome) == apply_spec(operator, a as int, b as int),
{
    match operator {
        Operator::Add => match a.checked_add(b) {
            Some(value) => Ok(value),
            None => Err(EvalError::Overflow),
        },
        Operator::Sub => match a.checked_sub(b) {
            Some(value) => Ok(value),
            None => Err(EvalError::Overflow),
        },
        Operator::Mul => match a.checked_mul(b) {
            Some(value) => Ok(value),
            None => Err(EvalError::Overflow),
        },
        Operator::Div => {
            if b == 0 {
                Err(EvalError::DivisionByZero)
            } else if a == i32::MIN && b == -1 {
                assert(quotient(a as int, b as int) == 0x8000_0000) by (nonlinear_arith)
                    requires
                        a == -0x8000_0000,
                        b == -1,
                ;
                Err(EvalError::Overflow)
            } else {
                proof {
                    lemma_quotient_in_range(a as int, b as int);
                }
                Ok(a / b)
            }
        },
        Operator::Mod => {
            proof {
                if b != 0 {
                    lemma_remainder_in_range(a as int, b as int);
                }
            }
            if b == 0 {
                Err(EvalError::ModuloByZero)
            } else if b == -1 {
                Ok(0)
            } else {
                Ok(a % b)
            }
        },
    }
}

/// A quotient is no larger in magnitude than what was divided, and it is
/// smaller unless the divisor is `1` or `-1`.
pub proof fn lemma_quotient_in_range(a: int, b: int)
    requires
        b != 0,
    ensures
        a >= 0 ==> -a <= quotient(a, b) <= a,
        a < 0 ==> a <= quotient(a, b) <= -a,
        a < 0 && b != -1 ==> quotient(a, b) < -a,
{
    let n = if a >= 0 { a } else { -a };
    assert(-n <= n / b <= n && (n > 0 && b != -1 ==> -n < n / b)) by (nonlinear_arith)
        requires
            n >= 0,
            b != 0,
    ;
}

/// A remainder is smaller in magnitude than the divisor, and it is zero
/// when the divisor is `1` or `-1`.
pub proof fn lemma_remainder_in_range(a: int, b: int)
    requires
        b != 0,
    ensures
        b > 0 ==> -b < remainder(a, b) < b,
        b < 0 ==> b < remainder(a, b) < -b,
        b == 1 || b == -1 ==> remainder(a, b) == 0,
{
    let n = if a >= 0 { a } else { -a };
    assert(0 <= n % b && (b > 0 ==> n % b < b) && (b < 0 ==> n % b < -b)) by (nonlinear_arith)
        requires
            n >= 0,
            b != 0,
    ;
}

/// Applies `operator` to the results of two operands.
pub fn combine(
    lhs: Result<i32, EvalError>,
    rhs: Result<i32, EvalError>,
    operator: Operator,
) -> (outcome: Result<i32, EvalError>)
    ensures
        outcome_view(outcome) == combine_spec(operator, outcome_view(lhs), outcome_view(rhs)),
{
    match lhs {
        Err(error) => Err(error),
        Ok(a) => match rhs {
            Err(error) => Err(error),
            Ok(b) => apply(operator, a, b),
        },
    }
}

/// Evaluates `expr` with the values that `variables` gives to its variables.
///
/// The result is exactly what [`evaluate_spec`] gives: both operands of an
/// operator are evaluated, an error of the left one comes before an error
/// of the right one, and division by zero, remainder by zero and results
/// that an `i32` cannot hold are errors.
pub fn evaluate(expr: &Expr, variables: &Bindings) -> (outcome: Result<i32, EvalError>)
    ensures
        outcome_view(outcome) == evaluate_spec(expr@, variables@),
    decreases expr,
{
    match expr {
        Expr::Number(num) => Ok(*num),
        Expr::Variable(name) => {
            if let Some(val) = variables.get(name.as_str()) {
                Ok(*val)
            } else {
                Err(EvalError::UndefinedVariable(name.clone()))
            }
        },
        Expr::Add(lhs, rhs) => {
            let lval = evaluate(lhs, variables);
            let rval = evaluate(rhs, variables);
            combine(lval, rval, Operator::Add)
        },
        Expr::Sub(lhs, rhs) => {
            let lval = evaluate(lhs, variables);
            let rval = evaluate(rhs, variables);
            combine(lval, rval, Operator::Sub)
        },
        Expr::Mul(lhs, rhs) => {
            let lval = evaluate(lhs, variables);
            let rval = evaluate(rhs, variables);
            combine(lval, rval, Operator::Mul)
        },
        Expr::Div(lhs, rhs) => {
            let lval = evaluate(lhs, variables);
            let rval = evaluate(rhs, variables);
            combine(lval, rval, Operator::Div)
        },
        Expr::Mod(lhs, rhs) => {
            let lval = evaluate(lhs, variables);
            let rval = evaluate(rhs, variables);
            combine(lval, rval, Operator::Mod)
        },
    }
}


/// `quotient` and `remainder` are division that rounds toward zero: the
/// dividend is the divisor times the quotient plus the remainder, and the
/// remainder is smaller in magnitude than the divisor and has the sign of
/// the dividend.
pub proof fn lemma_quotient_and_remainder(a: int, b: int)
    requires
        b != 0,
    ensures
        a == b * quotient(a, b) + remainder(a, b),
        a >= 0 ==> 0 <= remainder(a, b),
        a <= 0 ==> remainder(a, b) <= 0,
        b > 0 ==> -b < remainder(a, b) < b,
        b < 0 ==> b < remainder(a, b) < -b,
{
    let n = if a >= 0 { a } else { -a };
    assert(n == b * (n / b) + n % b && 0 <= n % b && (b > 0 ==> n % b < b) && (b < 0 ==> n % b
        < -b) && (n == 0 ==> n % b == 0)) by (nonlinear_arith)
        requires
            n >= 0,
            b != 0,
    ;
    assert(b * -(n / b) == -(b * (n / b))) by (nonlinear_arith);
}

/// Dividing one variable by another gives the quotient of their values,
/// rounded toward zero, whenever the divisor is not zero and the quotient
/// is not that of `i32::MIN` by `-1`, which no `i32` can hold.
pub proof fn lemma_division_of_bound_values(
    dividend: Seq<char>,
    divisor: Seq<char>,
    variables: Map<Seq<char>, i32>,
)
    requires
        variables.contains_key(dividend),
        variables.contains_key(divisor),
        variables[divisor] != 0,
        !(variables[dividend] == i32::MIN && variables[divisor] == -1),
    ensures
        evaluate_spec(
            binary(Operator::Div, ExprView::Variable(dividend), ExprView::Variable(divisor)),
            variables,
        ) == Ok::<int, EvalErrorView>(
            quotient(variables[dividend] as int, variables[divisor] as int),
        ),
{
    lemma_quotient_in_range(variables[dividend] as int, variables[divisor] as int);
    assert(evaluate_spec(ExprView::Variable(dividend), variables) == Ok::<int, EvalErrorView>(
        variables[dividend] as int,
    ));
    assert(evaluate_spec(ExprView::Variable(divisor), variables) == Ok::<int, EvalErrorView>(
        variables[divisor] as int,
    ));
}

} // verus!
