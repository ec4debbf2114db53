//! A token stream over one line, read from the front.

use crate::token::{token_views, tokenize, tokens_of, SpecToken, Token};
use vstd::prelude::*;

verus! {

/// The token at the front of `tokens`, or `Eof` when none is left.
pub open spec fn head_of(tokens: Seq<SpecToken>) -> SpecToken {
    if tokens.len() > 0 {
        tokens[0]
    } else {
        SpecToken::Eof
    }
}

/// What is left of `tokens` once its front token is taken.
pub open spec fn tail_of(tokens: Seq<SpecToken>) -> Seq<SpecToken> {
    if tokens.len() > 0 {
        tokens.drop_first()
    } else {
        tokens
    }
}

/// The tokens of a line that have not been read yet.
pub struct Lexer<'a> {
    /// The unread tokens, the next one last.
    tokens: Vec<Token<'a>>,
}

impl<'a> View for Lexer<'a> {
    type V = Seq<SpecToken>;

    /// The unread tokens in reading order.
    closed spec fn view(&self) -> Seq<SpecToken> {
        token_views(self.tokens@).reverse()
    }
}

impl<'a> Lexer<'a> {
    /// A stream over the tokens of `input`.
    pub fn new(input: &'a str) -> (lexer: Lexer<'a>)
        ensures
            lexer@ == tokens_of(input@),
    {
        let forward = tokenize(input);
        let n = forward.len();
        let mut tokens: Vec<Token<'a>> = Vec::new();
        let mut i: usize = n;
        while i > 0
            invariant
                i <= n,
                n == forward.len(),
                tokens.len() == n - i,
                forall|k: int| 0 <= k < tokens.len() ==> tokens@[k] == forward@[n - 1 - k],
            decreases i,
        {
            i -= 1;
            tokens.push(forward[i]);
        }
        assert(token_views(tokens@).reverse() == token_views(forward@));
        Lexer { tokens }
    }

    /// Takes the front token off the stream; `Eof` when the stream is empty.
    pub fn next(&mut self) -> (token: Token<'a>)
        ensures
            token@ == head_of(old(self)@),
            final(self)@ == tail_of(old(self)@),
    {
        let ghost before = self.tokens@;
        match self.tokens.pop() {
            Some(token) => {
                assert(token_views(self.tokens@).reverse() == token_views(before).reverse().drop_first());
                token
            },
            None => Token::Eof,
        }
    }

    /// The front token, left in place; `Eof` when the stream is empty.
    pub fn peek(&self) -> (token: Token<'a>)
        ensures
            token@ == head_of(self@),
    {
        let n = self.tokens.len();
        if n > 0 {
            self.tokens[n - 1]
        } else {
            Token::Eof
        }
    }
}

} // verus!
