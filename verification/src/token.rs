//! Tokens, and the splitting of a line into them.
//!
//! A line is cut at runs of whitespace into words, and every word becomes one
//! token as a whole: `x+1` without blanks is a single operator token, not
//! three tokens.

use crate::text::{
    characters, digit_or_dot, is_digit_or_dot, is_letter, is_whitespace, letter, whitespace,
};
use vstd::prelude::*;

verus! {

/// One lexical unit of a line. The text of a token is a slice of the line.
#[derive(Debug, Clone, Copy, PartialEq)]
pub enum Token<'a> {
    /// A number literal or a variable name.
    Operand(&'a str),
    /// Any other word, such as `+`, `(` or `=`.
    Operator(&'a str),
    /// What is read once the line is used up.
    Eof,
}

/// The mathematical value of a [`Token`]: its kind and its characters.
pub enum SpecToken {
    Operand(Seq<char>),
    Operator(Seq<char>),
    Eof,
}

impl<'a> View for Token<'a> {
    type V = SpecToken;

    open spec fn view(&self) -> SpecToken {
        match *self {
            Token::Operand(text) => SpecToken::Operand(text@),
            Token::Operator(text) => SpecToken::Operator(text@),
            Token::Eof => SpecToken::Eof,
        }
    }
}

/// The values of a sequence of tokens, in the same order.
pub open spec fn token_views(tokens: Seq<Token<'_>>) -> Seq<SpecToken> {
    tokens.map_values(|t: Token<'_>| t@)
}

/// How many characters at the front of `s` come before the first whitespace.
pub open spec fn word_len(s: Seq<char>) -> nat
    decreases s.len(),
{
    if s.len() == 0 || whitespace(s[0]) {
        0
    } else {
        1 + word_len(s.drop_first())
    }
}

/// A word never runs past the end of the text.
pub proof fn lemma_word_len_bound(s: Seq<char>)
    ensures
        word_len(s) <= s.len(),
    decreases s.len(),
{
    if s.len() != 0 && !whitespace(s[0]) {
        lemma_word_len_bound(s.drop_first());
    }
}

/// The maximal whitespace-free pieces of `s`, from left to right.
pub open spec fn words(s: Seq<char>) -> Seq<Seq<char>>
    decreases s.len(),
{
    if s.len() == 0 {
        Seq::empty()
    } else if whitespace(s[0]) {
        words(s.drop_first())
    } else {
        proof {
            lemma_word_len_bound(s);
        }
        seq![s.take(word_len(s) as int)] + words(s.skip(word_len(s) as int))
    }
}

/// A word of digits and dots only, or of letters only, is an operand.
pub open spec fn is_operand_word(word: Seq<char>) -> bool {
    ||| forall|i: int| 0 <= i < word.len() ==> digit_or_dot(#[trigger] word[i])
    ||| forall|i: int| 0 <= i < word.len() ==> letter(#[trigger] word[i])
}

/// The token that a word stands for.
pub open spec fn classify(word: Seq<char>) -> SpecToken {
    if is_operand_word(word) {
        SpecToken::Operand(word)
    } else {
        SpecToken::Operator(word)
    }
}

/// The tokens of a line: its words, each classified.
pub open spec fn tokens_of(line: Seq<char>) -> Seq<SpecToken> {
    words(line).map_values(|w: Seq<char>| classify(w))
}

/// Splits `line` into its tokens.
pub fn tokenize<'a>(line: &'a str) -> (tokens: Vec<Token<'a>>)
    ensures
        token_views(tokens@) == tokens_of(line@),
{
    let chars = characters(line);
    let n = chars.len();
    let mut tokens: Vec<Token<'a>> = Vec::new();
    let mut i: usize = 0;
    assert(line@.skip(0) == line@);
    while i < n
        invariant
            i <= n,
            n == chars.len(),
            chars@ == line@,
            tokens_of(line@) == token_views(tokens@) + tokens_of(line@.skip(i as int)),
        decreases n - i,
    {
        let ghost rest = line@.skip(i as int);
        if is_whitespace(chars[i]) {
            assert(rest.drop_first() == line@.skip(i + 1));
            i += 1;
        } else {
            let start = i;
            let mut digits = true;
            let mut letters = true;
            assert(line@.skip(start as int).skip(0) == rest);
            while i < n && !is_whitespace(chars[i])
                invariant
                    start <= i <= n,
                    n == chars.len(),
                    chars@ == line@,
                    rest == line@.skip(start as int),
                    word_len(rest) == (i - start) + word_len(rest.skip(i - start)),
                    digits <==> forall|k: int| start <= k < i ==> digit_or_dot(#[trigger] line@[k]),
                    letters <==> forall|k: int| start <= k < i ==> letter(#[trigger] line@[k]),
                decreases n - i,
            {
                assert(rest.skip(i - start).drop_first() == rest.skip(i + 1 - start));
                digits = digits && is_digit_or_dot(chars[i]);
                letters = letters && is_letter(chars[i]);
                i += 1;
            }
            let text = line.substring_char(start, i);
            let token = if digits || letters {
                Token::Operand(text)
            } else {
                Token::Operator(text)
            };
            proof {
                let len = (i - start) as int;
                assert(word_len(rest.skip(len)) == 0);
                assert(rest.take(len) == text@);
                assert(rest.skip(len) == line@.skip(i as int));
                assert(digits <==> forall|k: int|
                    0 <= k < text@.len() ==> digit_or_dot(#[trigger] text@[k])) by {
                    assert forall|k: int| 0 <= k < text@.len() implies text@[k] == line@[start + k] by {}
                    assert forall|k: int| start <= k < i implies line@[k] == text@[k - start] by {}
                }
                assert(letters <==> forall|k: int|
                    0 <= k < text@.len() ==> letter(#[trigger] text@[k])) by {
                    assert forall|k: int| 0 <= k < text@.len() implies text@[k] == line@[start + k] by {}
                    assert forall|k: int| start <= k < i implies line@[k] == text@[k - start] by {}
                }
                assert(token@ == classify(text@));
                assert(tokens_of(rest) == seq![token@] + tokens_of(line@.skip(i as int)));
                assert(token_views(tokens@.push(token)) == token_views(tokens@) + seq![token@]);
            }
            tokens.push(token);
        }
    }
    assert(tokens_of(line@.skip(n as int)) == Seq::<SpecToken>::empty());
    tokens
}

} // verus!
