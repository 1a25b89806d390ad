use vstd::prelude::*;
use vstd::string::*;
use crate::token::{Token, token_of, tokens_of};

verus! {

/// Splits program text into tokens.
pub struct Tokenizer;

impl Tokenizer {
    /// One token per character of `text`.
    pub fn tokenize(text: &str) -> (r: Vec<Token>)
        ensures
            r@ == tokens_of(text@),
    {
        let n = text.unicode_len();
        let mut tokens: Vec<Token> = Vec::new();
        let mut i: usize = 0;
        while i < n
            invariant
                n == text@.len(),
                i <= n,
                tokens@ =~= tokens_of(text@).take(i as int),
            decreases n - i,
        {
            let c = text.get_char(i);
            tokens.push(Self::tokenize_char(c));
            i += 1;
        }
        tokens
    }

    /// The token of one character.
    pub fn tokenize_char(c: char) -> (r: Token)
        ensures
            r == token_of(c),
    {
        match c {
            '+' => Token::Plus,
            '-' => Token::Minus,
            '.' => Token::Dot,
            ',' => Token::Comma,
            '>' => Token::Shr,
            '<' => Token::Shl,
            '[' => Token::OpenBracket,
            ']' => Token::CloseBracket,
            _ => Token::Whitespace,
        }
    }
}

/// Splits program text into tokens, as `Tokenizer` does.
pub struct Lexer;

impl Lexer {
    /// One token per character of `text`.
    pub fn tokenize(text: &str) -> (r: Vec<Token>)
        ensures
            r@ == tokens_of(text@),
    {
        Tokenizer::tokenize(text)
    }
}

} // verus!
