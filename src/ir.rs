use vstd::prelude::*;

verus! {

/// One instruction of the tree form of a program.
#[derive(Debug, PartialEq, Eq, PartialOrd, Ord)]
pub enum Expression {
    IncVal(u8),
    DecVal(u8),
    IncPtr(usize),
    DecPtr(usize),
    MulVal(isize, u8),
    Clear,
    Loop(Vec<Expression>),
    Output,
    Input,
}

/// The mathematical value of an `Expression`: the same tree, with each loop
/// body as a sequence.
pub enum Node {
    IncVal(u8),
    DecVal(u8),
    IncPtr(usize),
    DecPtr(usize),
    MulVal(isize, u8),
    Clear,
    Loop(Seq<Node>),
    Output,
    Input,
}

/// The value of one expression.
pub open spec fn node_of(e: Expression) -> Node
    decreases e,
{
    match e {
        Expression::IncVal(a) => Node::IncVal(a),
        Expression::DecVal(a) => Node::DecVal(a),
        Expression::IncPtr(a) => Node::IncPtr(a),
        Expression::DecPtr(a) => Node::DecPtr(a),
        Expression::MulVal(o, a) => Node::MulVal(o, a),
        Expression::Clear => Node::Clear,
        Expression::Loop(body) => Node::Loop(nodes_of(body@)),
        Expression::Output => Node::Output,
        Expression::Input => Node::Input,
    }
}

/// The value of a sequence of expressions, element by element.
pub open spec fn nodes_of(s: Seq<Expression>) -> Seq<Node>
    decreases s,
{
    if s.len() == 0 {
        Seq::empty()
    } else {
        nodes_of(s.drop_last()).push(node_of(s.last()))
    }
}

/// `nodes_of` maps each element on its own.
pub proof fn lemma_nodes_of(s: Seq<Expression>)
    ensures
        nodes_of(s).len() == s.len(),
        forall|i: int| 0 <= i < s.len() ==> #[trigger] nodes_of(s)[i] == node_of(s[i]),
    decreases s.len(),
{
    if s.len() > 0 {
        lemma_nodes_of(s.drop_last());
    }
}

/// The value of a prefix one element longer.
pub proof fn lemma_nodes_of_take(s: Seq<Expression>, i: int)
    requires
        0 <= i < s.len(),
    ensures
        nodes_of(s.take(i + 1)) == nodes_of(s.take(i)).push(node_of(s[i])),
{
    assert(s.take(i + 1).drop_last() =~= s.take(i));
}

/// The value of a sequence with its last element replaced or removed.
pub proof fn lemma_nodes_of_drop_last(s: Seq<Expression>)
    requires
        s.len() > 0,
    ensures
        nodes_of(s.drop_last()) == nodes_of(s).drop_last(),
        nodes_of(s).last() == node_of(s.last()),
{
}

/// The value of a sequence with one more element.
pub proof fn lemma_nodes_of_push(s: Seq<Expression>, e: Expression)
    ensures
        nodes_of(s.push(e)) == nodes_of(s).push(node_of(e)),
{
    assert(s.push(e).drop_last() =~= s);
}

/// The value of a concatenation.
pub proof fn lemma_nodes_of_concat(a: Seq<Expression>, b: Seq<Expression>)
    ensures
        nodes_of(a + b) == nodes_of(a) + nodes_of(b),
    decreases b.len(),
{
    if b.len() > 0 {
        lemma_nodes_of_concat(a, b.drop_last());
        assert((a + b).drop_last() =~= a + b.drop_last());
        assert(nodes_of(a) + nodes_of(b) =~= (nodes_of(a) + nodes_of(b.drop_last())).push(
            node_of(b.last()),
        ));
    } else {
        assert(a + b =~= a);
        assert(nodes_of(a) + nodes_of(b) =~= nodes_of(a));
    }
}

impl Expression {
    /// A copy of the whole tree, loop bodies included.
    pub fn deep_copy(&self) -> (r: Expression)
        ensures
            node_of(r) == node_of(*self),
        decreases *self,
    {
        match self {
            Expression::IncVal(a) => Expression::IncVal(*a),
            Expression::DecVal(a) => Expression::DecVal(*a),
            Expression::IncPtr(a) => Expression::IncPtr(*a),
            Expression::DecPtr(a) => Expression::DecPtr(*a),
            Expression::MulVal(o, a) => Expression::MulVal(*o, *a),
            Expression::Clear => Expression::Clear,
            Expression::Loop(body) => {
                let copied = copy_all(body.as_slice());
                proof {
                    assert(nodes_of(copied@) == nodes_of(body@));
                }
                Expression::Loop(copied)
            },
            Expression::Output => Expression::Output,
            Expression::Input => Expression::Input,
        }
    }
}

impl Clone for Expression {
    fn clone(&self) -> (r: Self)
        ensures
            node_of(r) == node_of(*self),
    {
        self.deep_copy()
    }
}

/// A copy of each tree of `s`, in order.
pub fn copy_all(s: &[Expression]) -> (r: Vec<Expression>)
    ensures
        nodes_of(r@) == nodes_of(s@),
    decreases s@,
{
    let mut r: Vec<Expression> = Vec::new();
    let mut i: usize = 0;
    while i < s.len()
        invariant
            i <= s@.len(),
            nodes_of(r@) == nodes_of(s@.take(i as int)),
        decreases s@.len() - i,
    {
        proof {
            assert(decreases_to!(s@ => s@[i as int]));
        }
        let c = s[i].deep_copy();
        let ghost prev = r@;
        r.push(c);
        proof {
            assert(s@.take(i + 1).drop_last() =~= s@.take(i as int));
            assert(r@.drop_last() =~= prev);
        }
        i += 1;
    }
    proof {
        assert(s@.take(s@.len() as int) =~= s@);
    }
    r
}

} // verus!
