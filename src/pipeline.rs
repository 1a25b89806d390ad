use vstd::prelude::*;
use crate::ir::{Expression, Node, nodes_of};
use crate::optimizers::{Optimizers, optimized};
use crate::parser::{ParseError, Parser, balanced, dips, instructions, is_raw, render};
use crate::token::tokens_of;
use crate::tokenizer::Tokenizer;

verus! {

/// From program text to the optimized tree.
pub struct Pipeline;

impl Pipeline {
    /// Tokenizes and parses `text`, then optimizes the tree.
    pub fn execute(text: &str) -> (r: Result<Vec<Expression>, ParseError>)
        ensures
            r is Ok <==> balanced(tokens_of(text@)),
            r == Err::<Vec<Expression>, ParseError>(ParseError::UnmatchedClose) <==> dips(
                tokens_of(text@),
            ),
            r matches Ok(v) ==> exists|t: Seq<Node>|
                is_raw(t) && render(t) == instructions(tokens_of(text@)) && nodes_of(v@)
                    == optimized(t),
    {
        let tokens = Tokenizer::tokenize(text);
        match Parser::parse(tokens.as_slice()) {
            Ok(expressions) => {
                let r = Optimizers::optimize(expressions.as_slice());
                proof {
                    let t = nodes_of(expressions@);
                    assert(is_raw(t) && render(t) == instructions(tokens_of(text@)) && nodes_of(r@)
                        == optimized(t));
                }
                Ok(r)
            },
            Err(e) => Err(e),
        }
    }
}

} // verus!
