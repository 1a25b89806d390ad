use vstd::prelude::*;
use crate::ir::{
    Expression, Node, node_of, nodes_of, lemma_nodes_of, lemma_nodes_of_push, lemma_nodes_of_take,
};

verus! {

/// A loop body that only steps the counter cell by one: the loop ends with
/// the cell at zero.
pub open spec fn is_zero_loop_body(b: Seq<Node>) -> bool {
    b == seq![Node::DecVal(1)] || b == seq![Node::IncVal(1)]
}

/// Zero-loop reduction: each loop whose body is one single step becomes a
/// `Clear`; other loops are reduced inside.
pub open spec fn clear_loops(s: Seq<Node>) -> Seq<Node>
    decreases s,
{
    if s.len() == 0 {
        Seq::empty()
    } else {
        clear_loops(s.drop_last()).push(clear_loops_node(s.last()))
    }
}

/// Zero-loop reduction of one node.
pub open spec fn clear_loops_node(n: Node) -> Node
    decreases n,
{
    match n {
        Node::Loop(b) => if is_zero_loop_body(b) {
            Node::Clear
        } else {
            Node::Loop(clear_loops(b))
        },
        _ => n,
    }
}

/// No loop at any depth has a single-step body.
pub open spec fn no_zero_loops(s: Seq<Node>) -> bool
    decreases s,
{
    if s.len() == 0 {
        true
    } else {
        no_zero_loops(s.drop_last()) && no_zero_loops_node(s.last())
    }
}

/// No loop in the node has a single-step body.
pub open spec fn no_zero_loops_node(n: Node) -> bool
    decreases n,
{
    match n {
        Node::Loop(b) => !is_zero_loop_body(b) && no_zero_loops(b),
        _ => true,
    }
}

/// Zero-loop reduction maps each element on its own.
pub proof fn lemma_clear_loops_index(s: Seq<Node>)
    ensures
        clear_loops(s).len() == s.len(),
        forall|i: int| 0 <= i < s.len() ==> #[trigger] clear_loops(s)[i] == clear_loops_node(s[i]),
    decreases s.len(),
{
    if s.len() > 0 {
        lemma_clear_loops_index(s.drop_last());
    }
}

/// What zero-loop reduction returns has no single-step loop left.
pub proof fn lemma_clear_loops_reduced(s: Seq<Node>)
    ensures
        no_zero_loops(clear_loops(s)),
    decreases s,
{
    if s.len() > 0 {
        lemma_clear_loops_reduced(s.drop_last());
        lemma_clear_loops_node_reduced(s.last());
        assert(clear_loops(s).drop_last() =~= clear_loops(s.drop_last()));
    }
}

/// Zero-loop reduction of a node leaves no single-step loop in it.
pub proof fn lemma_clear_loops_node_reduced(n: Node)
    ensures
        no_zero_loops_node(clear_loops_node(n)),
    decreases n,
{
    if let Node::Loop(b) = n {
        if !is_zero_loop_body(b) {
            lemma_clear_loops_reduced(b);
            lemma_clear_loops_index(b);
            let c = clear_loops(b);
            if c.len() == 1 {
                assert(c[0] == clear_loops_node(b[0]));
                if c =~= seq![Node::DecVal(1)] {
                    assert(b =~= seq![Node::DecVal(1)]);
                }
                if c =~= seq![Node::IncVal(1)] {
                    assert(b =~= seq![Node::IncVal(1)]);
                }
            }
        }
    }
}

/// Zero-loop reduction changes nothing where no single-step loop is left.
pub proof fn lemma_clear_loops_fixed(s: Seq<Node>)
    requires
        no_zero_loops(s),
    ensures
        clear_loops(s) == s,
    decreases s,
{
    if s.len() > 0 {
        lemma_clear_loops_fixed(s.drop_last());
        lemma_clear_loops_node_fixed(s.last());
        assert(s.drop_last().push(s.last()) =~= s);
    }
}

/// Zero-loop reduction changes nothing in a node without single-step loops.
pub proof fn lemma_clear_loops_node_fixed(n: Node)
    requires
        no_zero_loops_node(n),
    ensures
        clear_loops_node(n) == n,
    decreases n,
{
    if let Node::Loop(b) = n {
        lemma_clear_loops_fixed(b);
    }
}

/// Zero-loop reduction is idempotent: applied to its own result it returns
/// that result unchanged.
pub proof fn clear_loops_idempotent(t: Seq<Node>)
    ensures
        clear_loops(clear_loops(t)) == clear_loops(t),
{
    lemma_clear_loops_reduced(t);
    lemma_clear_loops_fixed(clear_loops(t));
}

/// The pass that replaces single-step loops by `Clear`.
pub struct ClearOptimizer;

impl ClearOptimizer {
    /// Whether a loop body is one `DecVal(1)` or one `IncVal(1)`.
    fn is_zero_loop(body: &Vec<Expression>) -> (r: bool)
        ensures
            r == is_zero_loop_body(nodes_of(body@)),
    {
        proof {
            lemma_nodes_of(body@);
        }
        if body.len() != 1 {
            proof {
                assert(nodes_of(body@).len() != seq![Node::DecVal(1)].len());
                assert(nodes_of(body@).len() != seq![Node::IncVal(1)].len());
            }
            return false;
        }
        let r = match &body[0] {
            Expression::DecVal(1) | Expression::IncVal(1) => true,
            _ => false,
        };
        proof {
            if r {
                if body@[0] is DecVal {
                    assert(nodes_of(body@) =~= seq![Node::DecVal(1)]);
                } else {
                    assert(nodes_of(body@) =~= seq![Node::IncVal(1)]);
                }
            } else {
                assert(nodes_of(body@)[0] != seq![Node::DecVal(1)][0]);
                assert(nodes_of(body@)[0] != seq![Node::IncVal(1)][0]);
            }
        }
        r
    }

    /// Zero-loop reduction of a sequence, inside loops too.
    pub fn optimize(expressions: &[Expression]) -> (r: Vec<Expression>)
        ensures
            nodes_of(r@) == clear_loops(nodes_of(expressions@)),
        decreases expressions@,
    {
        let mut optimized: Vec<Expression> = Vec::new();
        let mut i: usize = 0;
        while i < expressions.len()
            invariant
                i <= expressions@.len(),
                nodes_of(optimized@) == clear_loops(nodes_of(expressions@.take(i as int))),
            decreases expressions@.len() - i,
        {
            let expression = &expressions[i];
            proof {
                lemma_nodes_of_take(expressions@, i as int);
                let t = nodes_of(expressions@.take(i + 1));
                assert(t.drop_last() =~= nodes_of(expressions@.take(i as int)));
                assert(clear_loops(t) == clear_loops(t.drop_last()).push(clear_loops_node(t.last())));
            }
            let node = match expression {
                Expression::Loop(body) => {
                    if Self::is_zero_loop(body) {
                        Expression::Clear
                    } else {
                        proof {
                            assert(decreases_to!(expressions@ => expressions@[i as int]));
                            assert(decreases_to!(expressions@[i as int] => body@));
                        }
                        Expression::Loop(Self::optimize(body.as_slice()))
                    }
                },
                _ => expression.deep_copy(),
            };
            proof {
                assert(node_of(node) == clear_loops_node(node_of(*expression)));
                lemma_nodes_of_push(optimized@, node);
            }
            optimized.push(node);
            i += 1;
        }
        proof {
            assert(expressions@.take(expressions@.len() as int) =~= expressions@);
        }
        optimized
    }
}

} // verus!
