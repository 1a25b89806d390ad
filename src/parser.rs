use vstd::prelude::*;
use crate::ir::{Expression, Node, node_of, nodes_of, lemma_nodes_of_push};
use crate::token::Token;

verus! {

/// Why a token sequence is not a program.
#[derive(Debug, Clone, Copy, PartialEq, Eq, Structural)]
pub enum ParseError {
    /// A `]` closes no open loop.
    UnmatchedClose,
    /// A `[` is never closed.
    UnmatchedOpen,
}

/// The tokens that are instructions, in order.
pub open spec fn instructions(s: Seq<Token>) -> Seq<Token>
    decreases s.len(),
{
    if s.len() == 0 {
        Seq::empty()
    } else if s.last() is Whitespace {
        instructions(s.drop_last())
    } else {
        instructions(s.drop_last()).push(s.last())
    }
}

/// The number of loops open after the tokens: opened minus closed.
pub open spec fn depth(s: Seq<Token>) -> int
    decreases s.len(),
{
    if s.len() == 0 {
        0
    } else {
        depth(s.drop_last()) + match s.last() {
            Token::OpenBracket => 1int,
            Token::CloseBracket => -1int,
            _ => 0int,
        }
    }
}

/// Some prefix closes more loops than it opens.
pub open spec fn dips(s: Seq<Token>) -> bool {
    exists|j: int| 0 <= j <= s.len() && #[trigger] depth(s.take(j)) < 0
}

/// Every `[` has its `]` and every `]` its `[`.
pub open spec fn balanced(s: Seq<Token>) -> bool {
    !dips(s) && depth(s) == 0
}

/// The tokens that a tree is written with.
pub open spec fn render(s: Seq<Node>) -> Seq<Token>
    decreases s,
{
    if s.len() == 0 {
        Seq::empty()
    } else {
        render(s.drop_last()) + render_node(s.last())
    }
}

/// The tokens that one node is written with; `MulVal` and `Clear` have none.
pub open spec fn render_node(n: Node) -> Seq<Token>
    decreases n,
{
    match n {
        Node::IncVal(_) => seq![Token::Plus],
        Node::DecVal(_) => seq![Token::Minus],
        Node::IncPtr(_) => seq![Token::Shr],
        Node::DecPtr(_) => seq![Token::Shl],
        Node::Output => seq![Token::Dot],
        Node::Input => seq![Token::Comma],
        Node::Loop(b) => seq![Token::OpenBracket] + render(b) + seq![Token::CloseBracket],
        _ => Seq::empty(),
    }
}

/// A tree as parsing builds it: single steps, output, input and loops only.
pub open spec fn is_raw(s: Seq<Node>) -> bool
    decreases s,
{
    if s.len() == 0 {
        true
    } else {
        is_raw(s.drop_last()) && is_raw_node(s.last())
    }
}

/// A node as parsing builds it.
pub open spec fn is_raw_node(n: Node) -> bool
    decreases n,
{
    match n {
        Node::IncVal(a) => a == 1,
        Node::DecVal(a) => a == 1,
        Node::IncPtr(a) => a == 1,
        Node::DecPtr(a) => a == 1,
        Node::Output | Node::Input => true,
        Node::Loop(b) => is_raw(b),
        _ => false,
    }
}

/// The tokens of the loops still open: each enclosing sequence so far, then `[`.
pub open spec fn render_open(st: Seq<Vec<Expression>>) -> Seq<Token>
    decreases st.len(),
{
    if st.len() == 0 {
        Seq::empty()
    } else {
        render_open(st.drop_last()) + render(nodes_of(st.last()@)) + seq![Token::OpenBracket]
    }
}

/// Every sequence of the stack is raw.
pub open spec fn all_raw(st: Seq<Vec<Expression>>) -> bool {
    forall|k: int| 0 <= k < st.len() ==> is_raw(nodes_of(#[trigger] st[k]@))
}

/// Writing a sequence with one more node.
proof fn lemma_render_push(s: Seq<Node>, n: Node)
    ensures
        render(s.push(n)) == render(s) + render_node(n),
        is_raw(s.push(n)) == (is_raw(s) && is_raw_node(n)),
{
    assert(s.push(n).drop_last() =~= s);
}

/// Builds the tree of a program from its tokens.
pub struct Parser;

impl Parser {
    /// Whether a token is an instruction.
    fn filter(token: &Token) -> (r: bool)
        ensures
            r == !(*token is Whitespace),
    {
        !matches!(token, Token::Whitespace)
    }

    /// The tree whose instructions are those of `tokens`, or the reason
    /// there is none.
    pub fn parse(tokens: &[Token]) -> (r: Result<Vec<Expression>, ParseError>)
        ensures
            r is Ok <==> balanced(tokens@),
            r == Err::<Vec<Expression>, ParseError>(ParseError::UnmatchedClose) <==> dips(tokens@),
            r matches Ok(v) ==> is_raw(nodes_of(v@)) && render(nodes_of(v@)) == instructions(
                tokens@,
            ),
    {
        let mut current: Vec<Expression> = Vec::new();
        let mut stack: Vec<Vec<Expression>> = Vec::new();
        let mut i: usize = 0;
        proof {
            assert(tokens@.take(0) =~= Seq::<Token>::empty());
        }
        while i < tokens.len()
            invariant
                i <= tokens@.len(),
                instructions(tokens@.take(i as int)) == render_open(stack@) + render(
                    nodes_of(current@),
                ),
                depth(tokens@.take(i as int)) == stack@.len(),
                forall|j: int| 0 <= j <= i ==> depth(#[trigger] tokens@.take(j)) >= 0,
                all_raw(stack@),
                is_raw(nodes_of(current@)),
            decreases tokens@.len() - i,
        {
            let token = tokens[i];
            let ghost pre = tokens@.take(i as int);
            let ghost post = tokens@.take(i + 1);
            let ghost before_open = render_open(stack@);
            let ghost before_cur = nodes_of(current@);
            proof {
                assert(post.drop_last() =~= pre);
                assert(post.last() == token);
            }
            if !Self::filter(&token) {
                i += 1;
                continue;
            }
            let leaf = match token {
                Token::Plus => Some(Expression::IncVal(1)),
                Token::Minus => Some(Expression::DecVal(1)),
                Token::Dot => Some(Expression::Output),
                Token::Comma => Some(Expression::Input),
                Token::Shr => Some(Expression::IncPtr(1)),
                Token::Shl => Some(Expression::DecPtr(1)),
                _ => None,
            };
            match leaf {
                Some(e) => {
                    proof {
                        lemma_nodes_of_push(current@, e);
                        lemma_render_push(nodes_of(current@), node_of(e));
                        assert(render_node(node_of(e)) =~= seq![token]);
                        assert(before_open + render(nodes_of(current@)) + seq![token] =~= before_open
                            + (render(nodes_of(current@)) + seq![token]));
                    }
                    current.push(e);
                },
                None => {
                    if token == Token::OpenBracket {
                        let ghost st = stack@;
                        stack.push(current);
                        current = Vec::new();
                        proof {
                            assert(stack@.drop_last() =~= st);
                            assert(nodes_of(current@) =~= Seq::<Node>::empty());
                            assert(render(nodes_of(current@)) =~= Seq::<Token>::empty());
                            assert(render_open(stack@) + Seq::<Token>::empty() =~= before_open + render(
                                before_cur,
                            ) + seq![Token::OpenBracket]);
                        }
                    } else {
                        if stack.len() == 0 {
                            proof {
                                assert(depth(tokens@.take(i + 1)) < 0);
                            }
                            return Err(ParseError::UnmatchedClose);
                        }
                        let ghost st = stack@;
                        let mut outer = stack.pop().unwrap();
                        let ghost outer_nodes = nodes_of(outer@);
                        let body = current;
                        let node = Expression::Loop(body);
                        proof {
                            assert(st.drop_last() =~= stack@);
                            assert(st.last() == outer);
                            assert(is_raw(outer_nodes));
                            lemma_nodes_of_push(outer@, node);
                            lemma_render_push(outer_nodes, node_of(node));
                        }
                        outer.push(node);
                        current = outer;
                        proof {
                            assert forall|k: int| 0 <= k < stack@.len() implies is_raw(
                                nodes_of(#[trigger] stack@[k]@),
                            ) by {
                                assert(stack@[k] == st[k]);
                            }
                            assert(render_open(stack@) + render(nodes_of(current@)) =~= before_open
                                + render(before_cur) + seq![Token::CloseBracket]);
                        }
                    }
                },
            }
            i += 1;
        }
        proof {
            assert(tokens@.take(tokens@.len() as int) =~= tokens@);
        }
        if stack.len() > 0 {
            return Err(ParseError::UnmatchedOpen);
        }
        proof {
            assert(render_open(stack@) + render(nodes_of(current@)) =~= render(nodes_of(current@)));
        }
        Ok(current)
    }
}

} // verus!
