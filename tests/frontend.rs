use bf::ir::Expression::{DecPtr, DecVal, IncPtr, IncVal, Input, Loop, Output};
use bf::parser::{ParseError, Parser};
use bf::pipeline::Pipeline;
use bf::token::Token;
use bf::tokenizer::{Lexer, Tokenizer};

#[test]
fn tokenizer_classifies_every_character() {
    let tokens = Tokenizer::tokenize("+-.,<>[] a");
    let expected = vec![
        Token::Plus,
        Token::Minus,
        Token::Dot,
        Token::Comma,
        Token::Shl,
        Token::Shr,
        Token::OpenBracket,
        Token::CloseBracket,
        Token::Whitespace,
        Token::Whitespace,
    ];
    assert_eq!(tokens, expected);
    assert_eq!(Lexer::tokenize("+-.,<>[] a"), expected);
    assert_eq!(Tokenizer::tokenize_char('é'), Token::Whitespace);
}

#[test]
fn parser_builds_nested_loops() {
    let tokens = Tokenizer::tokenize("+[>-[<.]],\n");
    let tree = Parser::parse(&tokens).unwrap();
    let expected = vec![IncVal(1), Loop(vec![IncPtr(1), DecVal(1), Loop(vec![DecPtr(1), Output])]), Input];
    assert_eq!(tree, expected);
}

#[test]
fn parser_accepts_empty_programs_and_loops() {
    assert_eq!(Parser::parse(&Tokenizer::tokenize("")), Ok(vec![]));
    assert_eq!(Parser::parse(&Tokenizer::tokenize("comment only")), Ok(vec![]));
    assert_eq!(Parser::parse(&Tokenizer::tokenize("[]")), Ok(vec![Loop(vec![])]));
}

#[test]
fn parser_rejects_unmatched_close() {
    assert_eq!(Parser::parse(&Tokenizer::tokenize("+]")), Err(ParseError::UnmatchedClose));
    assert_eq!(Parser::parse(&Tokenizer::tokenize("[]][")), Err(ParseError::UnmatchedClose));
}

#[test]
fn parser_rejects_unmatched_open() {
    assert_eq!(Parser::parse(&Tokenizer::tokenize("[[]")), Err(ParseError::UnmatchedOpen));
    assert_eq!(Pipeline::execute("+["), Err(ParseError::UnmatchedOpen));
}

#[test]
fn pipeline_keeps_empty_loops() {
    assert_eq!(Pipeline::execute("+-[]"), Ok(vec![Loop(vec![])]));
}
