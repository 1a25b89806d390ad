use vstd::prelude::*;

verus! {

/// One classified character of program text.
#[derive(Debug, Clone, Copy, PartialEq, Eq, Structural)]
pub enum Token {
    Plus,
    Minus,
    Dot,
    Comma,
    Shr,
    Shl,
    OpenBracket,
    CloseBracket,
    /// Any character that is not an instruction.
    Whitespace,
}

/// The token of one character.
pub open spec fn token_of(c: char) -> Token {
    if c == '+' {
        Token::Plus
    } else if c == '-' {
        Token::Minus
    } else if c == '.' {
        Token::Dot
    } else if c == ',' {
        Token::Comma
    } else if c == '>' {
        Token::Shr
    } else if c == '<' {
        Token::Shl
    } else if c == '[' {
        Token::OpenBracket
    } else if c == ']' {
        Token::CloseBracket
    } else {
        Token::Whitespace
    }
}

/// The tokens of a text, one per character.
pub open spec fn tokens_of(s: Seq<char>) -> Seq<Token> {
    Seq::new(s.len(), |i: int| token_of(s[i]))
}

} // verus!
