//! Tokenizing raw regular-expression text into the parser's vocabulary,
//! one token per character.  `/` escapes are not resolved here; the
//! character front end normalizes them into literal tokens itself.

use vstd::prelude::*;

verus! {

/// The token vocabulary of the parser.
#[derive(Clone, Copy, Debug, PartialEq, Eq, Structural)]
pub enum Token {
    Char(char),
    Kleene,
    Or,
    ParOpen,
    ParClose,
}

/// The token that classifies one character.
pub open spec fn token_of(c: char) -> Token {
    if c == '|' {
        Token::Or
    } else if c == '*' {
        Token::Kleene
    } else if c == '(' {
        Token::ParOpen
    } else if c == ')' {
        Token::ParClose
    } else {
        Token::Char(c)
    }
}

/// Classifies each character of a source string as one token.
pub struct Lexer<'a> {
    pub source: &'a str,
}

impl<'a> Lexer<'a> {
    pub fn new(s: &str) -> (l: Lexer)
        ensures
            l.source@ == s@,
    {
        Lexer { source: s }
    }

    /// One token per character of the source, in order.
    pub fn lex(&self) -> (tokens: Vec<Token>)
        ensures
            tokens@.len() == self.source@.len(),
            forall|i: int|
                0 <= i < tokens@.len() ==> tokens@[i] == token_of(#[trigger] self.source@[i]),
    {
        let mut tokens: Vec<Token> = Vec::new();
        let n = self.source.unicode_len();
        let mut i: usize = 0;
        while i < n
            invariant
                n == self.source@.len(),
                i <= n,
                tokens@.len() == i,
                forall|k: int|
                    0 <= k < i ==> tokens@[k] == token_of(#[trigger] self.source@[k]),
            decreases n - i,
        {
            let c = self.source.get_char(i);
            match c {
                '|' => tokens.push(Token::Or),
                '*' => tokens.push(Token::Kleene),
                '(' => tokens.push(Token::ParOpen),
                ')' => tokens.push(Token::ParClose),
                _ => tokens.push(Token::Char(c)),
            }
            i += 1;
        }
        tokens
    }
}

} // verus!
