use infix_calc::text::{characters, is_digit_or_dot, is_letter, is_whitespace};
use infix_calc::{tokenize, Lexer, Token};

fn texts<'a>(line: &'a str) -> Vec<&'a str> {
    tokenize(line)
        .into_iter()
        .map(|token| match token {
            Token::Operand(text) => text,
            Token::Operator(text) => text,
            Token::Eof => panic!("the end of the line is no word"),
        })
        .collect()
}

#[test]
fn tokens_come_in_reading_order() {
    let mut lexer = Lexer::new("2 + 3 * 4");
    assert_eq!(lexer.next(), Token::Operand("2"));
    assert_eq!(lexer.next(), Token::Operator("+"));
    assert_eq!(lexer.next(), Token::Operand("3"));
    assert_eq!(lexer.next(), Token::Operator("*"));
    assert_eq!(lexer.next(), Token::Operand("4"));
    assert_eq!(lexer.next(), Token::Eof);
}

#[test]
fn an_empty_stream_gives_eof_again_and_again() {
    let mut lexer = Lexer::new("");
    assert_eq!(lexer.peek(), Token::Eof);
    assert_eq!(lexer.next(), Token::Eof);
    assert_eq!(lexer.next(), Token::Eof);
    assert_eq!(lexer.peek(), Token::Eof);
}

#[test]
fn a_line_of_blanks_has_no_tokens() {
    assert_eq!(tokenize(" \t \n "), vec![]);
    let mut lexer = Lexer::new("   ");
    assert_eq!(lexer.next(), Token::Eof);
}

#[test]
fn peek_leaves_the_token_in_place() {
    let mut lexer = Lexer::new("x = 5");
    assert_eq!(lexer.peek(), Token::Operand("x"));
    assert_eq!(lexer.peek(), Token::Operand("x"));
    assert_eq!(lexer.next(), Token::Operand("x"));
    assert_eq!(lexer.peek(), Token::Operator("="));
    assert_eq!(lexer.next(), Token::Operator("="));
    assert_eq!(lexer.next(), Token::Operand("5"));
    assert_eq!(lexer.peek(), Token::Eof);
}

#[test]
fn any_mix_of_blanks_separates_words() {
    assert_eq!(
        tokenize("  1\t+ \t\n 2  "),
        vec![Token::Operand("1"), Token::Operator("+"), Token::Operand("2")]
    );
}

#[test]
fn unicode_blanks_separate_words_too() {
    assert_eq!(
        tokenize("1\u{2003}+\u{a0}2\u{3000}"),
        vec![Token::Operand("1"), Token::Operator("+"), Token::Operand("2")]
    );
}

#[test]
fn words_of_digits_and_dots_are_operands() {
    assert_eq!(tokenize("1.5"), vec![Token::Operand("1.5")]);
    assert_eq!(tokenize("42"), vec![Token::Operand("42")]);
    assert_eq!(tokenize("."), vec![Token::Operand(".")]);
    assert_eq!(tokenize("1.2.3"), vec![Token::Operand("1.2.3")]);
}

#[test]
fn words_of_letters_are_operands() {
    assert_eq!(tokenize("x"), vec![Token::Operand("x")]);
    assert_eq!(tokenize("Total"), vec![Token::Operand("Total")]);
}

#[test]
fn every_other_word_is_an_operator() {
    assert_eq!(tokenize("+"), vec![Token::Operator("+")]);
    assert_eq!(tokenize("\u{221a}"), vec![Token::Operator("\u{221a}")]);
    assert_eq!(tokenize("("), vec![Token::Operator("(")]);
    assert_eq!(tokenize("a1"), vec![Token::Operator("a1")]);
    assert_eq!(tokenize("-3"), vec![Token::Operator("-3")]);
    assert_eq!(tokenize("\u{e9}t\u{e9}"), vec![Token::Operator("\u{e9}t\u{e9}")]);
}

#[test]
fn a_word_is_not_split_further() {
    assert_eq!(tokenize("x+1"), vec![Token::Operator("x+1")]);
    assert_eq!(tokenize("2+3"), vec![Token::Operator("2+3")]);
    assert_eq!(tokenize("(1 + 2)"), vec![
        Token::Operator("(1"),
        Token::Operator("+"),
        Token::Operator("2)"),
    ]);
}

#[test]
fn words_are_what_the_standard_library_splits() {
    let lines = [
        "",
        " ",
        "2 + 3 * 4",
        "  lead and trail  ",
        "tab\tand\nnewline\r\nand\u{b}more\u{c}",
        "wide\u{2000}\u{2001}\u{2002}gap\u{200a}s",
        "no\u{200b}break",
        "\u{1680}ogham\u{2028}line\u{2029}para\u{202f}narrow\u{205f}math\u{85}next",
        "x = ( 2 \u{221a} 9 ) ^ 2",
    ];
    for line in lines {
        let expected: Vec<&str> = line.split_whitespace().collect();
        assert_eq!(texts(line), expected, "line {:?}", line);
    }
}

#[test]
fn whitespace_is_what_the_standard_library_calls_whitespace() {
    for code in 0..=0x10ffffu32 {
        if let Some(c) = char::from_u32(code) {
            assert_eq!(is_whitespace(c), c.is_whitespace(), "code point {:x}", code);
        }
    }
}

#[test]
fn letters_and_digits_are_the_ascii_ones() {
    for code in 0..=0x10ffffu32 {
        if let Some(c) = char::from_u32(code) {
            assert_eq!(is_letter(c), c.is_ascii_alphabetic(), "code point {:x}", code);
            assert_eq!(is_digit_or_dot(c), c.is_ascii_digit() || c == '.', "code point {:x}", code);
        }
    }
}

#[test]
fn characters_are_the_chars_of_the_line() {
    assert_eq!(characters("a \u{221a}9"), vec!['a', ' ', '\u{221a}', '9']);
    assert_eq!(characters(""), Vec::<char>::new());
}

#[test]
fn no_character_but_whitespace_is_lost() {
    let line = " x  =\t( 2 \u{221a} 9 ) ^ 2 ";
    let joined: String = texts(line).concat();
    let visible: String = line.chars().filter(|c| !c.is_whitespace()).collect();
    assert_eq!(joined, visible);
    for word in texts(line) {
        assert!(!word.is_empty());
        assert!(!word.chars().any(|c| c.is_whitespace()));
    }
}
