use infix_calc::parser::is_symbol;
use infix_calc::{infix_binding_power, parse, parse_expression, Expression, Lexer, ParseError, Token};

fn operand(text: &str) -> Expression<'_> {
    Expression::Operand(text)
}

fn operation<'a>(operator: &'a str, lhs: Expression<'a>, rhs: Expression<'a>) -> Expression<'a> {
    Expression::Operation(operator, vec![lhs, rhs])
}

#[test]
fn a_single_operand_is_a_leaf() {
    assert_eq!(parse("42"), Ok(operand("42")));
    assert_eq!(parse("  x "), Ok(operand("x")));
}

#[test]
fn multiplication_binds_tighter_than_addition() {
    assert_eq!(
        parse("2 + 3 * 4"),
        Ok(operation("+", operand("2"), operation("*", operand("3"), operand("4"))))
    );
    assert_eq!(
        parse("2 * 3 + 4"),
        Ok(operation("+", operation("*", operand("2"), operand("3")), operand("4")))
    );
}

#[test]
fn subtraction_groups_to_the_left() {
    assert_eq!(
        parse("8 - 3 - 2"),
        Ok(operation("-", operation("-", operand("8"), operand("3")), operand("2")))
    );
}

#[test]
fn division_and_multiplication_group_to_the_left() {
    assert_eq!(
        parse("8 / 4 * 2"),
        Ok(operation("*", operation("/", operand("8"), operand("4")), operand("2")))
    );
}

#[test]
fn power_groups_to_the_right() {
    assert_eq!(
        parse("2 ^ 3 ^ 2"),
        Ok(operation("^", operand("2"), operation("^", operand("3"), operand("2"))))
    );
}

#[test]
fn root_has_the_binding_power_of_power() {
    assert_eq!(
        parse("2 * 9 \u{221a} 2 ^ 1"),
        Ok(operation(
            "*",
            operand("2"),
            operation("\u{221a}", operand("9"), operation("^", operand("2"), operand("1")))
        ))
    );
}

#[test]
fn parentheses_override_precedence() {
    assert_eq!(
        parse("( 2 + 3 ) * 4"),
        Ok(operation("*", operation("+", operand("2"), operand("3")), operand("4")))
    );
    assert_eq!(parse("( ( x ) )"), Ok(operand("x")));
}

#[test]
fn assignment_binds_least_and_groups_to_the_right() {
    assert_eq!(
        parse("x = 1 + 2"),
        Ok(operation("=", operand("x"), operation("+", operand("1"), operand("2"))))
    );
    assert_eq!(
        parse("x = y = 3"),
        Ok(operation("=", operand("x"), operation("=", operand("y"), operand("3"))))
    );
    assert_eq!(
        parse("a + b = 3"),
        Ok(operation("=", operation("+", operand("a"), operand("b")), operand("3")))
    );
}

#[test]
fn unmatched_parenthesis() {
    assert_eq!(parse("( 1 + 2"), Err(ParseError::UnmatchedParenthesis));
    assert_eq!(parse("( ( 1 + 2 )"), Err(ParseError::UnmatchedParenthesis));
}

#[test]
fn an_operand_is_due_at_the_start() {
    assert_eq!(parse(""), Err(ParseError::UnexpectedToken));
    assert_eq!(parse("+ 1"), Err(ParseError::UnexpectedToken));
    assert_eq!(parse(")"), Err(ParseError::UnexpectedToken));
    assert_eq!(parse("( )"), Err(ParseError::UnexpectedToken));
}

#[test]
fn an_operand_is_due_after_an_operator() {
    assert_eq!(parse("1 +"), Err(ParseError::UnexpectedToken));
    assert_eq!(parse("1 + * 2"), Err(ParseError::UnexpectedToken));
    assert_eq!(parse("( 1 + )"), Err(ParseError::UnexpectedToken));
}

#[test]
fn an_operator_is_due_after_an_operand() {
    assert_eq!(parse("1 2"), Err(ParseError::UnexpectedToken));
    assert_eq!(parse("( 1 ) 2"), Err(ParseError::UnexpectedToken));
}

#[test]
fn unknown_operator() {
    assert_eq!(parse("1 ? 2"), Err(ParseError::UnknownOperator));
    assert_eq!(parse("1 ( 2 )"), Err(ParseError::UnknownOperator));
    assert_eq!(parse("1 ** 2"), Err(ParseError::UnknownOperator));
    assert_eq!(parse("x +1"), Err(ParseError::UnknownOperator));
}

#[test]
fn the_first_failure_from_the_left_is_reported() {
    assert_eq!(parse("( 1 ? 2"), Err(ParseError::UnknownOperator));
    assert_eq!(parse("1 + ( 2 * 3"), Err(ParseError::UnmatchedParenthesis));
    assert_eq!(parse("1 ? ( 2"), Err(ParseError::UnknownOperator));
}

#[test]
fn words_without_blanks_between_them_are_one_token() {
    assert_eq!(parse("2+3"), Err(ParseError::UnexpectedToken));
    assert_eq!(parse("(1 + 2)"), Err(ParseError::UnexpectedToken));
    assert_eq!(parse("1 +2"), Err(ParseError::UnknownOperator));
}

#[test]
fn a_parenthesis_needs_blanks_around_it() {
    assert_eq!(parse("(1 + 2"), Err(ParseError::UnexpectedToken));
    assert_eq!(parse("(2 + 3) * 4"), Err(ParseError::UnexpectedToken));
    assert_eq!(parse("( 1 + 2"), Err(ParseError::UnmatchedParenthesis));
    assert_eq!(
        parse("( 2 + 3 ) * 4"),
        Ok(operation("*", operation("+", operand("2"), operand("3")), operand("4")))
    );
}

#[test]
fn a_stray_closing_parenthesis_ends_the_expression() {
    assert_eq!(parse("1 + 2 )"), Ok(operation("+", operand("1"), operand("2"))));
    assert_eq!(parse("1 ) ?"), Ok(operand("1")));
}

#[test]
fn binding_powers_in_tenths() {
    assert_eq!(infix_binding_power("="), Ok((2, 1)));
    assert_eq!(infix_binding_power("+"), Ok((10, 11)));
    assert_eq!(infix_binding_power("-"), Ok((10, 11)));
    assert_eq!(infix_binding_power("*"), Ok((20, 21)));
    assert_eq!(infix_binding_power("/"), Ok((20, 21)));
    assert_eq!(infix_binding_power("^"), Ok((31, 30)));
    assert_eq!(infix_binding_power("\u{221a}"), Ok((31, 30)));
}

#[test]
fn words_without_binding_power() {
    for word in ["", ".", "(", ")", "%", "++", "x", "1", "=="] {
        assert_eq!(infix_binding_power(word), Err(ParseError::UnknownOperator), "word {:?}", word);
    }
}

#[test]
fn one_character_words() {
    assert!(is_symbol("(", '('));
    assert!(is_symbol("\u{221a}", '\u{221a}'));
    assert!(!is_symbol("(", ')'));
    assert!(!is_symbol("((", '('));
    assert!(!is_symbol("", '('));
}

#[test]
fn an_operator_below_the_minimum_is_left_unread() {
    let mut lexer = Lexer::new("1 * 2 + 3");
    assert_eq!(
        parse_expression(&mut lexer, 11),
        Ok(operation("*", operand("1"), operand("2")))
    );
    assert_eq!(lexer.next(), Token::Operator("+"));
    assert_eq!(lexer.next(), Token::Operand("3"));
    assert_eq!(lexer.next(), Token::Eof);
}

#[test]
fn an_operator_at_the_minimum_is_taken() {
    let mut lexer = Lexer::new("1 + 2");
    assert_eq!(
        parse_expression(&mut lexer, 10),
        Ok(operation("+", operand("1"), operand("2")))
    );
    assert_eq!(lexer.peek(), Token::Eof);
}

#[test]
fn parsing_stops_before_a_closing_parenthesis() {
    let mut lexer = Lexer::new("1 + 2 ) * 3");
    assert_eq!(
        parse_expression(&mut lexer, 0),
        Ok(operation("+", operand("1"), operand("2")))
    );
    assert_eq!(lexer.next(), Token::Operator(")"));
}

#[test]
fn the_lexer_stands_where_parsing_failed() {
    let mut lexer = Lexer::new("1 2 3");
    assert_eq!(parse_expression(&mut lexer, 0), Err(ParseError::UnexpectedToken));
    assert_eq!(lexer.next(), Token::Operand("2"));

    let mut lexer = Lexer::new("( 1 ] 2");
    assert_eq!(parse_expression(&mut lexer, 0), Err(ParseError::UnknownOperator));
    assert_eq!(lexer.next(), Token::Operator("]"));
}

#[test]
fn parsing_twice_gives_equal_trees() {
    for line in ["2 + 3 * 4", "x = ( 1 + y ) ^ 2", "( 1 + 2", "", "9 \u{221a} 2"] {
        assert_eq!(parse(line), parse(line), "line {:?}", line);
    }
    let text = String::from("8 - 3 - 2");
    let copy = text.clone();
    assert_eq!(parse(&text), parse(&copy));
}

#[test]
fn from_input_parses_a_line() {
    assert_eq!(
        Expression::from_input("2 + 3 * 4"),
        Ok(operation("+", operand("2"), operation("*", operand("3"), operand("4"))))
    );
    assert_eq!(Expression::from_input("( 1 + 2"), Err(ParseError::UnmatchedParenthesis));
    assert_eq!(Expression::from_input("1 ? 2"), parse("1 ? 2"));
}
