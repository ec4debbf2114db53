//! The precedence-climbing parser.
//!
//! Every infix operator has a left and a right binding power, counted in
//! tenths. A higher power binds tighter; an operator whose left power is the
//! smaller of the two groups to the left, the other way round to the right:
//!
//! | operator | left | right | groups to |
//! |----------|------|-------|-----------|
//! | `=`      | 2    | 1     | the right |
//! | `+` `-`  | 10   | 11    | the left  |
//! | `*` `/`  | 20   | 21    | the left  |
//! | `^` `√`  | 31   | 30    | the right |

use crate::expr::{Expression, SpecExpr};
use crate::lexer::{head_of, tail_of, Lexer};
use crate::token::{tokens_of, SpecToken, Token};
use vstd::prelude::*;
use vstd::string::StrSliceExecFns;

verus! {

/// Why a line is not an expression.
#[derive(Debug, Clone, Copy, PartialEq, Eq, Structural)]
pub enum ParseError {
    /// A token stands where the grammar has no place for it: an operator or
    /// the end of the line where an operand is due, an operand where an
    /// operator is due.
    UnexpectedToken,
    /// An operator that has no binding power.
    UnknownOperator,
    /// A `(` that no `)` closes.
    UnmatchedParenthesis,
}

/// The character of a word that is one character long.
pub open spec fn symbol_of(word: Seq<char>) -> Option<char> {
    if word.len() == 1 {
        Some(word[0])
    } else {
        None
    }
}

/// The left and right binding power of an infix operator, or `None` for a
/// word that is not one.
pub open spec fn binding_power(operator: Seq<char>) -> Option<(nat, nat)> {
    match symbol_of(operator) {
        Some('=') => Some((2, 1)),
        Some('+') | Some('-') => Some((10, 11)),
        Some('*') | Some('/') => Some((20, 21)),
        Some('^') | Some('\u{221a}') => Some((31, 30)),
        _ => None,
    }
}

/// What parsing makes of a token sequence: the tree or the failure, and the
/// tokens that are left unread.
pub struct Parsed {
    pub result: Result<SpecExpr, ParseError>,
    pub rest: Seq<SpecToken>,
}

/// Whether `token` is the operator `symbol`.
pub open spec fn is_operator(token: SpecToken, symbol: char) -> bool {
    token matches SpecToken::Operator(word) && symbol_of(word) == Some(symbol)
}

/// Parses one expression off the front of `tokens`, taking in only infix
/// operators whose left binding power is at least `min_bp`.
///
/// The expression starts with an operand or with a parenthesised expression;
/// [`climb_spec`] then extends it to the right. The comparisons of lengths
/// here and there only make the recursion well-founded:
/// [`lemma_parse_shrinks`] shows that they always hold.
pub open spec fn parse_spec(tokens: Seq<SpecToken>, min_bp: nat) -> Parsed
    decreases tokens.len(), 1nat,
{
    match head_of(tokens) {
        SpecToken::Operand(text) => climb_spec(SpecExpr::Operand(text), tail_of(tokens), min_bp),
        SpecToken::Operator(word) => {
            if symbol_of(word) == Some('(') {
                let inner = parse_spec(tail_of(tokens), 0);
                match inner.result {
                    Err(_) => inner,
                    Ok(tree) => {
                        if !is_operator(head_of(inner.rest), ')') {
                            Parsed {
                                result: Err(ParseError::UnmatchedParenthesis),
                                rest: tail_of(inner.rest),
                            }
                        } else if inner.rest.len() < tokens.len() {
                            climb_spec(tree, tail_of(inner.rest), min_bp)
                        } else {
                            inner
                        }
                    },
                }
            } else {
                Parsed { result: Err(ParseError::UnexpectedToken), rest: tail_of(tokens) }
            }
        },
        SpecToken::Eof => Parsed { result: Err(ParseError::UnexpectedToken), rest: tail_of(tokens) },
    }
}

/// Extends the expression `lhs` by the infix operators at the front of
/// `tokens`, as long as their left binding power is at least `min_bp`.
///
/// It stops, leaving the token unread, at the end of the line, at a `)` and
/// at an operator that binds less tightly than `min_bp`.
pub open spec fn climb_spec(lhs: SpecExpr, tokens: Seq<SpecToken>, min_bp: nat) -> Parsed
    decreases tokens.len(), 0nat,
{
    match head_of(tokens) {
        SpecToken::Eof => Parsed { result: Ok(lhs), rest: tokens },
        SpecToken::Operand(_) => Parsed { result: Err(ParseError::UnexpectedToken), rest: tokens },
        SpecToken::Operator(word) => {
            if symbol_of(word) == Some(')') {
                Parsed { result: Ok(lhs), rest: tokens }
            } else {
                match binding_power(word) {
                    None => Parsed { result: Err(ParseError::UnknownOperator), rest: tokens },
                    Some((left_bp, right_bp)) => {
                        if left_bp < min_bp {
                            Parsed { result: Ok(lhs), rest: tokens }
                        } else {
                            let rhs = parse_spec(tail_of(tokens), right_bp);
                            match rhs.result {
                                Err(_) => rhs,
                                Ok(right) => {
                                    if rhs.rest.len() < tokens.len() {
                                        climb_spec(
                                            SpecExpr::Operation(word, seq![lhs, right]),
                                            rhs.rest,
                                            min_bp,
                                        )
                                    } else {
                                        rhs
                                    }
                                },
                            }
                        }
                    },
                }
            }
        },
    }
}

/// The expression that a line stands for, or why it stands for none. Tokens
/// after the expression, which can only begin with a stray `)`, are left
/// unread and do not count.
pub open spec fn parse_line(line: Seq<char>) -> Result<SpecExpr, ParseError> {
    parse_spec(tokens_of(line), 0).result
}

/// Parsing reads at least one token where there is one, and never hands back
/// more tokens than it was given.
pub proof fn lemma_parse_shrinks(tokens: Seq<SpecToken>, min_bp: nat)
    ensures
        parse_spec(tokens, min_bp).rest.len() <= tokens.len(),
        tokens.len() > 0 ==> parse_spec(tokens, min_bp).rest.len() < tokens.len(),
    decreases tokens.len(), 1nat,
{
    match head_of(tokens) {
        SpecToken::Operand(text) => {
            lemma_climb_shrinks(SpecExpr::Operand(text), tail_of(tokens), min_bp);
        },
        SpecToken::Operator(word) => {
            if symbol_of(word) == Some('(') {
                let inner = parse_spec(tail_of(tokens), 0);
                lemma_parse_shrinks(tail_of(tokens), 0);
                if inner.result is Ok && is_operator(head_of(inner.rest), ')') {
                    lemma_climb_shrinks(inner.result->Ok_0, tail_of(inner.rest), min_bp);
                }
            }
        },
        SpecToken::Eof => {},
    }
}

/// Extending an expression never hands back more tokens than it was given.
pub proof fn lemma_climb_shrinks(lhs: SpecExpr, tokens: Seq<SpecToken>, min_bp: nat)
    ensures
        climb_spec(lhs, tokens, min_bp).rest.len() <= tokens.len(),
    decreases tokens.len(), 0nat,
{
    if let SpecToken::Operator(word) = head_of(tokens) {
        if symbol_of(word) != Some(')') {
            if let Some((left_bp, right_bp)) = binding_power(word) {
                if left_bp >= min_bp {
                    let rhs = parse_spec(tail_of(tokens), right_bp);
                    lemma_parse_shrinks(tail_of(tokens), right_bp);
                    if let Ok(right) = rhs.result {
                        lemma_climb_shrinks(
                            SpecExpr::Operation(word, seq![lhs, right]),
                            rhs.rest,
                            min_bp,
                        );
                    }
                }
            }
        }
    }
}

/// The value of a parse result: the tree by its view, the error as it is.
pub open spec fn result_view(result: Result<Expression<'_>, ParseError>) -> Result<
    SpecExpr,
    ParseError,
> {
    match result {
        Ok(tree) => Ok(tree@),
        Err(error) => Err(error),
    }
}

/// Whether `word` is the one character `symbol`.
pub fn is_symbol(word: &str, symbol: char) -> (b: bool)
    ensures
        b == (symbol_of(word@) == Some(symbol)),
{
    word.unicode_len() == 1 && word.get_char(0) == symbol
}

/// The left and right binding power of the infix operator `operator`, in
/// tenths; `UnknownOperator` for any other word.
pub fn infix_binding_power(operator: &str) -> (powers: Result<(u8, u8), ParseError>)
    ensures
        match binding_power(operator@) {
            Some((left, right)) => powers == Ok::<(u8, u8), ParseError>((left as u8, right as u8)),
            None => powers == Err::<(u8, u8), ParseError>(ParseError::UnknownOperator),
        },
{
    if operator.unicode_len() != 1 {
        return Err(ParseError::UnknownOperator);
    }
    let symbol = operator.get_char(0);
    if symbol == '=' {
        Ok((2, 1))
    } else if symbol == '+' || symbol == '-' {
        Ok((10, 11))
    } else if symbol == '*' || symbol == '/' {
        Ok((20, 21))
    } else if symbol == '^' || symbol == '\u{221a}' {
        Ok((31, 30))
    } else {
        Err(ParseError::UnknownOperator)
    }
}

/// The operation `operator` on `lhs` and `rhs`.
fn operation<'a>(operator: &'a str, lhs: Expression<'a>, rhs: Expression<'a>) -> (tree: Expression<
    'a,
>)
    ensures
        tree@ == SpecExpr::Operation(operator@, seq![lhs@, rhs@]),
{
    let ghost left = lhs@;
    let ghost right = rhs@;
    let mut operands: Vec<Expression<'a>> = Vec::new();
    operands.push(lhs);
    operands.push(rhs);
    let tree = Expression::Operation(operator, operands);
    assert(tree@->Operation_1 =~= seq![left, right]);
    tree
}

/// Parses one expression off the front of `lexer`, taking in only infix
/// operators whose left binding power is at least `min_bp`.
///
/// Returns the tree, or the first failure met from left to right. Either
/// way the lexer is left where parsing stopped.
pub fn parse_expression<'a>(lexer: &mut Lexer<'a>, min_bp: u8) -> (result: Result<
    Expression<'a>,
    ParseError,
>)
    ensures
        result_view(result) == parse_spec(old(lexer)@, min_bp as nat).result,
        final(lexer)@ == parse_spec(old(lexer)@, min_bp as nat).rest,
    decreases old(lexer)@.len(),
{
    let ghost start = lexer@;
    let ghost goal = parse_spec(start, min_bp as nat);
    let mut lhs = match lexer.next() {
        Token::Operand(text) => Expression::Operand(text),
        Token::Operator(word) => {
            if !is_symbol(word, '(') {
                return Err(ParseError::UnexpectedToken);
            }
            let inner = match parse_expression(lexer, 0) {
                Ok(inner) => inner,
                Err(error) => {
                    return Err(error);
                },
            };
            proof {
                lemma_parse_shrinks(tail_of(start), 0);
            }
            match lexer.next() {
                Token::Operator(close) => {
                    if !is_symbol(close, ')') {
                        return Err(ParseError::UnmatchedParenthesis);
                    }
                },
                _ => {
                    return Err(ParseError::UnmatchedParenthesis);
                },
            }
            inner
        },
        Token::Eof => {
            return Err(ParseError::UnexpectedToken);
        },
    };
    loop
        invariant
            goal == parse_spec(start, min_bp as nat),
            climb_spec(lhs@, lexer@, min_bp as nat) == goal,
            lexer@.len() < start.len(),
            start == old(lexer)@,
        decreases lexer@.len(),
    {
        let ghost here = lexer@;
        let operator = match lexer.peek() {
            Token::Eof => {
                return Ok(lhs);
            },
            Token::Operand(_) => {
                return Err(ParseError::UnexpectedToken);
            },
            Token::Operator(word) => word,
        };
        if is_symbol(operator, ')') {
            return Ok(lhs);
        }
        let (left_bp, right_bp) = match infix_binding_power(operator) {
            Ok(powers) => powers,
            Err(error) => {
                return Err(error);
            },
        };
        if left_bp < min_bp {
            return Ok(lhs);
        }
        lexer.next();
        let rhs = match parse_expression(lexer, right_bp) {
            Ok(rhs) => rhs,
            Err(error) => {
                return Err(error);
            },
        };
        proof {
            lemma_parse_shrinks(tail_of(here), right_bp as nat);
        }
        lhs = operation(operator, lhs, rhs);
    }
}

/// Parses a line into its expression tree.
///
/// A line is an operand or a parenthesised expression, followed by any
/// number of infix operators with their right-hand sides. The result is
/// [`parse_line`] of the line's characters, so the same text always gives
/// the same tree.
pub fn parse<'a>(line: &'a str) -> (result: Result<Expression<'a>, ParseError>)
    ensures
        result_view(result) == parse_line(line@),
{
    let mut lexer = Lexer::new(line);
    parse_expression(&mut lexer, 0)
}

impl<'a> Expression<'a> {
    /// Parses `input` into its expression tree, as [`parse`] does.
    pub fn from_input(input: &'a str) -> (result: Result<Expression<'a>, ParseError>)
        ensures
            result_view(result) == parse_line(input@),
    {
        parse(input)
    }
}

} // verus!
