//! What an expression means.
//!
//! The library does not compute with numbers itself. Reading a number out of
//! a text and applying an arithmetic operator are the work of a host, and the
//! meaning of an expression is stated for every host there could be: a
//! [`Host`] is any pair of functions that does those two things.

use crate::env::Number;
use crate::expr::{lemma_view_kind, Expression, SpecExpr};
use crate::parser::{is_symbol, symbol_of};
use vstd::prelude::*;
use vstd::string::StrSliceExecFns;

verus! {

/// Why an expression has no value.
#[derive(Debug, Clone, Copy, PartialEq, Eq, Structural)]
pub enum EvalError {
    /// An operand is neither a number nor the name of an assigned variable.
    UndefinedVariable,
    /// The left-hand side of `=` is not a bare variable name.
    InvalidAssignmentTarget,
}

/// The arithmetic operators.
#[derive(Debug, Clone, Copy, PartialEq, Eq, Structural)]
pub enum BinaryOp {
    /// `+`: the sum.
    Add,
    /// `-`: the difference.
    Sub,
    /// `*`: the product.
    Mul,
    /// `/`: the quotient; by zero it is what IEEE 754 says, not a failure.
    Div,
    /// `^`: the left operand raised to the power of the right operand.
    Pow,
    /// `√`: the left operand raised to the power of one over the right
    /// operand.
    Root,
}

/// The arithmetic operator that a word names, if any. The word `=` names
/// none: it has a binding power but no arithmetic.
pub open spec fn arithmetic(operator: Seq<char>) -> Option<BinaryOp> {
    match symbol_of(operator) {
        Some('+') => Some(BinaryOp::Add),
        Some('-') => Some(BinaryOp::Sub),
        Some('*') => Some(BinaryOp::Mul),
        Some('/') => Some(BinaryOp::Div),
        Some('^') => Some(BinaryOp::Pow),
        Some('\u{221a}') => Some(BinaryOp::Root),
        _ => None,
    }
}

/// The arithmetic operator that `operator` names, if any.
pub fn arithmetic_operator(operator: &str) -> (op: Option<BinaryOp>)
    ensures
        op == arithmetic(operator@),
{
    if operator.unicode_len() != 1 {
        return None;
    }
    let symbol = operator.get_char(0);
    if symbol == '+' {
        Some(BinaryOp::Add)
    } else if symbol == '-' {
        Some(BinaryOp::Sub)
    } else if symbol == '*' {
        Some(BinaryOp::Mul)
    } else if symbol == '/' {
        Some(BinaryOp::Div)
    } else if symbol == '^' {
        Some(BinaryOp::Pow)
    } else if symbol == '\u{221a}' {
        Some(BinaryOp::Root)
    } else {
        None
    }
}

/// The variable and the value expression of an assignment.
///
/// An expression is an assignment when its root is the operator `=`. Its
/// left operand must then be an operand, the name; if it is not, or if the
/// root does not have two operands, the expression is an assignment with an
/// invalid target. Any other expression is no assignment: `Ok(None)`.
pub open spec fn assignment_of(expr: SpecExpr) -> Result<Option<(Seq<char>, SpecExpr)>, EvalError> {
    match expr {
        SpecExpr::Operand(_) => Ok(None),
        SpecExpr::Operation(operator, operands) => {
            if symbol_of(operator) != Some('=') {
                Ok(None)
            } else if operands.len() == 2 && operands[0] is Operand {
                Ok(Some((operands[0]->Operand_0, operands[1])))
            } else {
                Err(EvalError::InvalidAssignmentTarget)
            }
        },
    }
}

/// Every operation in the tree has an arithmetic operator and two operands.
pub open spec fn arithmetic_tree(expr: SpecExpr) -> bool
    decreases expr,
{
    match expr {
        SpecExpr::Operand(_) => true,
        SpecExpr::Operation(operator, operands) => {
            &&& arithmetic(operator) is Some
            &&& operands.len() == 2
            &&& arithmetic_tree(operands[0])
            &&& arithmetic_tree(operands[1])
        },
    }
}

/// The expressions that can be evaluated: an arithmetic tree, or the
/// assignment of one. An assignment whose target is invalid counts too, for
/// its evaluation fails before it reaches the value.
///
/// What is left out is a tree in which an operator without arithmetic would
/// be reached, such as the inner `=` of `x = y = 3`.
pub open spec fn evaluable(expr: SpecExpr) -> bool {
    match assignment_of(expr) {
        Err(_) => true,
        Ok(Some((_, value))) => arithmetic_tree(value),
        Ok(None) => arithmetic_tree(expr),
    }
}

/// The two things that a host does for an evaluation.
pub struct Host {
    /// The number that a text is the literal of; `None` for a text that is
    /// no number.
    pub number: spec_fn(Seq<char>) -> Option<Number>,
    /// The result of an arithmetic operator on a left and a right number.
    pub apply: spec_fn(BinaryOp, Number, Number) -> Number,
}

/// The value of an operand: the number it is the literal of or, for a text
/// that is no number, the number that the variable of that name holds.
pub open spec fn operand_value(text: Seq<char>, env: Map<Seq<char>, Number>, host: Host) -> Result<
    Number,
    EvalError,
> {
    match (host.number)(text) {
        Some(number) => Ok(number),
        None => if env.contains_key(text) {
            Ok(env[text])
        } else {
            Err(EvalError::UndefinedVariable)
        },
    }
}

/// The value of an arithmetic tree. The left operand is evaluated before the
/// right one, and the first failure is the failure of the whole.
pub open spec fn value_of(expr: SpecExpr, env: Map<Seq<char>, Number>, host: Host) -> Result<
    Number,
    EvalError,
>
    recommends
        arithmetic_tree(expr),
    decreases expr,
{
    match expr {
        SpecExpr::Operand(text) => operand_value(text, env, host),
        SpecExpr::Operation(operator, operands) => {
            if operands.len() == 2 && arithmetic(operator) is Some {
                match value_of(operands[0], env, host) {
                    Err(error) => Err(error),
                    Ok(left) => match value_of(operands[1], env, host) {
                        Err(error) => Err(error),
                        Ok(right) => Ok((host.apply)(arithmetic(operator)->Some_0, left, right)),
                    },
                }
            } else {
                arbitrary()
            }
        },
    }
}

/// What evaluating an expression gives and what it leaves behind.
pub struct Evaluated {
    /// The value of the expression; `None` for an assignment, which has none
    /// to show.
    pub result: Result<Option<Number>, EvalError>,
    /// The variables after the evaluation.
    pub env: Map<Seq<char>, Number>,
}

/// The evaluation of an expression in `env`.
///
/// An assignment is checked first: its target must be an operand, and one
/// that is no number. Then its value expression is evaluated and stored
/// under the name, and there is no value to show. Any other expression is
/// evaluated, and its value shown. A failure leaves the variables as they
/// were.
pub open spec fn evaluate_spec(expr: SpecExpr, env: Map<Seq<char>, Number>, host: Host) -> Evaluated
    recommends
        evaluable(expr),
{
    match assignment_of(expr) {
        Err(error) => Evaluated { result: Err(error), env },
        Ok(Some((name, value))) => {
            if (host.number)(name) is Some {
                Evaluated { result: Err(EvalError::InvalidAssignmentTarget), env }
            } else {
                match value_of(value, env, host) {
                    Err(error) => Evaluated { result: Err(error), env },
                    Ok(number) => Evaluated { result: Ok(None), env: env.insert(name, number) },
                }
            }
        },
        Ok(None) => match value_of(expr, env, host) {
            Err(error) => Evaluated { result: Err(error), env },
            Ok(number) => Evaluated { result: Ok(Some(number)), env },
        },
    }
}

/// The value of what [`Expression::is_asign`] returns.
pub open spec fn assignment_view(
    result: Result<Option<(&str, &Expression<'_>)>, EvalError>,
) -> Result<Option<(Seq<char>, SpecExpr)>, EvalError> {
    match result {
        Ok(Some((name, value))) => Ok(Some((name@, value@))),
        Ok(None) => Ok(None),
        Err(error) => Err(error),
    }
}

impl<'a> Expression<'a> {
    /// Tells whether the expression is an assignment, and if so gives the
    /// name of its variable and its value expression.
    ///
    /// `Ok(None)` means that the root is not the operator `=`. With `=` at
    /// the root, the left operand must be an operand; otherwise the result
    /// is `InvalidAssignmentTarget`. Whether the name is a number is not
    /// looked at here: only a host can tell.
    pub fn is_asign<'s>(&'s self) -> (result: Result<
        Option<(&'a str, &'s Expression<'a>)>,
        EvalError,
    >)
        ensures
            assignment_view(result) == assignment_of(self@),
    {
        match self {
            Expression::Operand(_) => Ok(None),
            Expression::Operation(operator, operands) => {
                if !is_symbol(operator, '=') {
                    return Ok(None);
                }
                if operands.len() != 2 {
                    return Err(EvalError::InvalidAssignmentTarget);
                }
                proof {
                    lemma_view_kind(*self);
                    lemma_view_kind(operands[0]);
                }
                match &operands[0] {
                    Expression::Operand(name) => Ok(Some((*name, &operands[1]))),
                    Expression::Operation(_, _) => Err(EvalError::InvalidAssignmentTarget),
                }
            },
        }
    }

    /// Whether every operation in the tree has an arithmetic operator and
    /// two operands.
    pub fn is_arithmetic(&self) -> (b: bool)
        ensures
            b == arithmetic_tree(self@),
        decreases self,
    {
        match self {
            Expression::Operand(_) => true,
            Expression::Operation(operator, operands) => {
                arithmetic_operator(operator).is_some() && operands.len() == 2
                    && operands[0].is_arithmetic() && operands[1].is_arithmetic()
            },
        }
    }

    /// Whether the expression can be evaluated: see [`evaluable`].
    pub fn is_evaluable(&self) -> (b: bool)
        ensures
            b == evaluable(self@),
    {
        match self.is_asign() {
            Err(_) => true,
            Ok(Some((_, value))) => value.is_arithmetic(),
            Ok(None) => self.is_arithmetic(),
        }
    }
}

} // verus!
