use vstd::prelude::*;
use crate::ir::{
    Expression, Node, node_of, nodes_of, lemma_nodes_of_drop_last, lemma_nodes_of_push,
    lemma_nodes_of_take,
};

verus! {

/// Whether the node changes the current cell's value by an amount.
pub open spec fn is_val(n: Node) -> bool {
    n is IncVal || n is DecVal
}

/// Whether the node moves the pointer by an amount.
pub open spec fn is_ptr(n: Node) -> bool {
    n is IncPtr || n is DecPtr
}

/// Two leaves that can be combined into one: both change the value, or both
/// move the pointer.
pub open spec fn same_family(a: Node, b: Node) -> bool {
    (is_val(a) && is_val(b)) || (is_ptr(a) && is_ptr(b))
}

/// A pointer motion of `x` cells, held at `usize::MAX` when larger: a motion
/// that large leaves any tape, so it faults either way.
pub open spec fn saturate(x: int) -> usize {
    if x > usize::MAX {
        usize::MAX
    } else {
        x as usize
    }
}

/// The value change by `d` (positive up, negative down); `None` when `d` is zero.
pub open spec fn val_by(d: int) -> Option<Node> {
    if d > 0 {
        Some(Node::IncVal(d as u8))
    } else if d < 0 {
        Some(Node::DecVal((-d) as u8))
    } else {
        None
    }
}

/// The pointer motion by `d` (positive right, negative left); `None` when `d` is zero.
pub open spec fn ptr_by(d: int) -> Option<Node> {
    if d > 0 {
        Some(Node::IncPtr(d as usize))
    } else if d < 0 {
        Some(Node::DecPtr((-d) as usize))
    } else {
        None
    }
}

/// `prev` followed by `next`, both of one family, as one node: same directions
/// sum (values modulo 256), opposite ones subtract, and `None` when they cancel.
pub open spec fn merge(prev: Node, next: Node) -> Option<Node> {
    match (prev, next) {
        (Node::IncVal(a), Node::IncVal(b)) => Some(Node::IncVal(((a + b) % 256) as u8)),
        (Node::DecVal(a), Node::DecVal(b)) => Some(Node::DecVal(((a + b) % 256) as u8)),
        (Node::IncVal(a), Node::DecVal(b)) => val_by(a - b),
        (Node::DecVal(a), Node::IncVal(b)) => val_by(b - a),
        (Node::IncPtr(a), Node::IncPtr(b)) => Some(Node::IncPtr(saturate(a + b))),
        (Node::DecPtr(a), Node::DecPtr(b)) => Some(Node::DecPtr(saturate(a + b))),
        (Node::IncPtr(a), Node::DecPtr(b)) => ptr_by(a - b),
        (Node::DecPtr(a), Node::IncPtr(b)) => ptr_by(b - a),
        _ => Some(next),
    }
}

/// Appends `n` to an already combined sequence, combining it with the last
/// node when both are of one family.
pub open spec fn push_node(acc: Seq<Node>, n: Node) -> Seq<Node> {
    if acc.len() > 0 && same_family(acc.last(), n) {
        match merge(acc.last(), n) {
            Some(m) => acc.drop_last().push(m),
            None => acc.drop_last(),
        }
    } else {
        acc.push(n)
    }
}

/// Run coalescing of a sequence: each node, with loop bodies coalesced, is
/// appended in turn by `push_node`.
pub open spec fn coalesce(s: Seq<Node>) -> Seq<Node>
    decreases s,
{
    if s.len() == 0 {
        Seq::empty()
    } else {
        push_node(coalesce(s.drop_last()), coalesce_node(s.last()))
    }
}

/// Run coalescing applied inside one node.
pub open spec fn coalesce_node(n: Node) -> Node
    decreases n,
{
    match n {
        Node::Loop(b) => Node::Loop(coalesce(b)),
        _ => n,
    }
}

/// `prev` grown by the single step `next` of its own kind, if `next` is one.
pub open spec fn bump(prev: Node, next: Node) -> Option<Node> {
    match (prev, next) {
        (Node::IncVal(a), Node::IncVal(1)) => Some(Node::IncVal(((a + 1) % 256) as u8)),
        (Node::DecVal(a), Node::DecVal(1)) => Some(Node::DecVal(((a + 1) % 256) as u8)),
        (Node::IncPtr(a), Node::IncPtr(1)) => Some(Node::IncPtr(saturate(a + 1))),
        (Node::DecPtr(a), Node::DecPtr(1)) => Some(Node::DecPtr(saturate(a + 1))),
        _ => None,
    }
}

/// Appends `n`, folding it into the last node when it is a single step of
/// the same kind.
pub open spec fn push_unit(acc: Seq<Node>, n: Node) -> Seq<Node> {
    if acc.len() > 0 && bump(acc.last(), n) is Some {
        acc.drop_last().push(bump(acc.last(), n)->0)
    } else {
        acc.push(n)
    }
}

/// Folding of single steps into the run before them, inside loops too.
pub open spec fn unit_runs(s: Seq<Node>) -> Seq<Node>
    decreases s,
{
    if s.len() == 0 {
        Seq::empty()
    } else {
        push_unit(unit_runs(s.drop_last()), unit_runs_node(s.last()))
    }
}

/// Folding of single steps applied inside one node.
pub open spec fn unit_runs_node(n: Node) -> Node
    decreases n,
{
    match n {
        Node::Loop(b) => Node::Loop(unit_runs(b)),
        _ => n,
    }
}

/// Run coalescing as a whole: single steps first, then every run.
pub open spec fn coalesce_pass(s: Seq<Node>) -> Seq<Node> {
    coalesce(unit_runs(s))
}

/// No two neighbours of one family, at any depth.
pub open spec fn coalesced(s: Seq<Node>) -> bool
    decreases s,
{
    if s.len() == 0 {
        true
    } else {
        &&& coalesced(s.drop_last())
        &&& coalesced_node(s.last())
        &&& (s.len() >= 2 ==> !same_family(s[s.len() - 2], s.last()))
    }
}

/// No two neighbours of one family inside the node.
pub open spec fn coalesced_node(n: Node) -> bool
    decreases n,
{
    match n {
        Node::Loop(b) => coalesced(b),
        _ => true,
    }
}

/// A combined node is a leaf of the family of the node it replaces.
proof fn lemma_merge_family(a: Node, b: Node, c: Node)
    requires
        same_family(a, b),
        merge(a, b) is Some,
    ensures
        same_family(c, merge(a, b)->0) == same_family(c, a),
        !(merge(a, b)->0 is Loop),
{
}

/// Appending by `push_node` keeps a coalesced sequence coalesced.
proof fn lemma_push_node_coalesced(acc: Seq<Node>, n: Node)
    requires
        coalesced(acc),
        coalesced_node(n),
    ensures
        coalesced(push_node(acc, n)),
{
    if acc.len() > 0 && same_family(acc.last(), n) {
        let d = acc.drop_last();
        if merge(acc.last(), n) is Some {
            let m = merge(acc.last(), n)->0;
            if d.len() > 0 {
                lemma_merge_family(acc.last(), n, d.last());
                assert(acc[acc.len() - 2] == d.last());
                assert(d.push(m)[d.len() - 1] == d.last());
            } else {
                lemma_merge_family(acc.last(), n, acc.last());
            }
            assert(coalesced(d));
            assert(coalesced_node(m));
            assert(d.push(m).drop_last() =~= d);
        }
    } else {
        assert(acc.push(n).drop_last() =~= acc);
    }
}

/// What run coalescing returns is coalesced.
pub proof fn lemma_coalesce_coalesced(s: Seq<Node>)
    ensures
        coalesced(coalesce(s)),
    decreases s,
{
    if s.len() > 0 {
        lemma_coalesce_coalesced(s.drop_last());
        lemma_coalesce_node_coalesced(s.last());
        lemma_push_node_coalesced(coalesce(s.drop_last()), coalesce_node(s.last()));
    }
}

/// Run coalescing inside a node leaves it coalesced.
pub proof fn lemma_coalesce_node_coalesced(n: Node)
    ensures
        coalesced_node(coalesce_node(n)),
    decreases n,
{
    if let Node::Loop(b) = n {
        lemma_coalesce_coalesced(b);
    }
}

/// Run coalescing changes nothing in a coalesced sequence.
pub proof fn lemma_coalesce_fixed(s: Seq<Node>)
    requires
        coalesced(s),
    ensures
        coalesce(s) == s,
    decreases s,
{
    if s.len() > 0 {
        lemma_coalesce_fixed(s.drop_last());
        lemma_coalesce_node_fixed(s.last());
        assert(s.drop_last().push(s.last()) =~= s);
    }
}

/// Run coalescing changes nothing in a coalesced node.
pub proof fn lemma_coalesce_node_fixed(n: Node)
    requires
        coalesced_node(n),
    ensures
        coalesce_node(n) == n,
    decreases n,
{
    if let Node::Loop(b) = n {
        lemma_coalesce_fixed(b);
    }
}

/// Folding single steps changes nothing in a coalesced sequence.
pub proof fn lemma_unit_runs_fixed(s: Seq<Node>)
    requires
        coalesced(s),
    ensures
        unit_runs(s) == s,
    decreases s,
{
    if s.len() > 0 {
        lemma_unit_runs_fixed(s.drop_last());
        lemma_unit_runs_node_fixed(s.last());
        assert(s.drop_last().push(s.last()) =~= s);
    }
}

/// Folding single steps changes nothing in a coalesced node.
pub proof fn lemma_unit_runs_node_fixed(n: Node)
    requires
        coalesced_node(n),
    ensures
        unit_runs_node(n) == n,
    decreases n,
{
    if let Node::Loop(b) = n {
        lemma_unit_runs_fixed(b);
    }
}

/// Run coalescing is idempotent: applied to its own result it returns that
/// result unchanged.
pub proof fn coalesce_idempotent(t: Seq<Node>)
    ensures
        coalesce_pass(coalesce_pass(t)) == coalesce_pass(t),
{
    let c = coalesce_pass(t);
    lemma_coalesce_coalesced(unit_runs(t));
    lemma_unit_runs_fixed(c);
    lemma_coalesce_fixed(c);
}

/// The value of an optional expression.
pub open spec fn opt_node(o: Option<Expression>) -> Option<Node> {
    match o {
        Some(e) => Some(node_of(e)),
        None => None,
    }
}

/// Replaces the last element of a non-empty vector.
pub fn replace_last<T>(vec: &mut Vec<T>, expression: T)
    requires
        old(vec).len() > 0,
    ensures
        final(vec)@ == old(vec)@.drop_last().push(expression),
{
    vec.pop();
    vec.push(expression);
}

/// `a + b`, held at `usize::MAX` when larger.
fn saturating_sum(a: usize, b: usize) -> (r: usize)
    ensures
        r == saturate(a + b),
{
    if a <= usize::MAX - b {
        a + b
    } else {
        usize::MAX
    }
}

/// The value change `up - down` as one node, `None` when it is zero.
fn val_diff(up: u8, down: u8) -> (r: Option<Expression>)
    ensures
        opt_node(r) == val_by(up - down),
{
    if up > down {
        Some(Expression::IncVal(up - down))
    } else if up < down {
        Some(Expression::DecVal(down - up))
    } else {
        None
    }
}

/// The pointer motion `right - left` as one node, `None` when it is zero.
fn ptr_diff(right: usize, left: usize) -> (r: Option<Expression>)
    ensures
        opt_node(r) == ptr_by(right - left),
{
    if right > left {
        Some(Expression::IncPtr(right - left))
    } else if right < left {
        Some(Expression::DecPtr(left - right))
    } else {
        None
    }
}

/// The sum of two cell values modulo 256.
fn wrapping_sum(a: u8, b: u8) -> (r: u8)
    ensures
        r == (a + b) % 256,
{
    ((a as u16 + b as u16) % 256) as u8
}

/// The passes that combine neighbouring value changes and pointer motions.
pub struct ConcatOptimizer;

impl ConcatOptimizer {
    /// `prev` followed by `next` as one node (`Some(None)` when they cancel),
    /// or `None` when they are not of one family.
    fn merged(prev: &Expression, next: &Expression) -> (r: Option<Option<Expression>>)
        ensures
            r is Some <==> same_family(node_of(*prev), node_of(*next)),
            r is Some ==> opt_node(r->0) == merge(node_of(*prev), node_of(*next)),
    {
        match (prev, next) {
            (Expression::IncVal(a), Expression::IncVal(b)) => Some(
                Some(Expression::IncVal(wrapping_sum(*a, *b))),
            ),
            (Expression::DecVal(a), Expression::DecVal(b)) => Some(
                Some(Expression::DecVal(wrapping_sum(*a, *b))),
            ),
            (Expression::IncVal(a), Expression::DecVal(b)) => Some(val_diff(*a, *b)),
            (Expression::DecVal(a), Expression::IncVal(b)) => Some(val_diff(*b, *a)),
            (Expression::IncPtr(a), Expression::IncPtr(b)) => Some(
                Some(Expression::IncPtr(saturating_sum(*a, *b))),
            ),
            (Expression::DecPtr(a), Expression::DecPtr(b)) => Some(
                Some(Expression::DecPtr(saturating_sum(*a, *b))),
            ),
            (Expression::IncPtr(a), Expression::DecPtr(b)) => Some(ptr_diff(*a, *b)),
            (Expression::DecPtr(a), Expression::IncPtr(b)) => Some(ptr_diff(*b, *a)),
            _ => None,
        }
    }

    /// `prev` grown by `next` when `next` is a single step of its kind.
    fn bumped(prev: &Expression, next: &Expression) -> (r: Option<Expression>)
        ensures
            opt_node(r) == bump(node_of(*prev), node_of(*next)),
    {
        match (prev, next) {
            (Expression::IncVal(a), Expression::IncVal(1)) => Some(
                Expression::IncVal(wrapping_sum(*a, 1)),
            ),
            (Expression::DecVal(a), Expression::DecVal(1)) => Some(
                Expression::DecVal(wrapping_sum(*a, 1)),
            ),
            (Expression::IncPtr(a), Expression::IncPtr(1)) => Some(
                Expression::IncPtr(saturating_sum(*a, 1)),
            ),
            (Expression::DecPtr(a), Expression::DecPtr(1)) => Some(
                Expression::DecPtr(saturating_sum(*a, 1)),
            ),
            _ => None,
        }
    }

    /// Folds each single step into the run of its kind before it.
    pub fn optimize_stage_01(expressions: &[Expression]) -> (r: Vec<Expression>)
        ensures
            nodes_of(r@) == unit_runs(nodes_of(expressions@)),
        decreases expressions@,
    {
        let mut optimized: Vec<Expression> = Vec::new();
        let mut i: usize = 0;
        while i < expressions.len()
            invariant
                i <= expressions@.len(),
                nodes_of(optimized@) == unit_runs(nodes_of(expressions@.take(i as int))),
            decreases expressions@.len() - i,
        {
            let expression = &expressions[i];
            proof {
                lemma_nodes_of_take(expressions@, i as int);
                let t = nodes_of(expressions@.take(i + 1));
                assert(t.drop_last() =~= nodes_of(expressions@.take(i as int)));
                assert(unit_runs(t) == push_unit(unit_runs(t.drop_last()), unit_runs_node(t.last())));
            }
            match expression {
                Expression::Loop(body) => {
                    proof {
                        assert(decreases_to!(expressions@ => expressions@[i as int]));
                        assert(decreases_to!(expressions@[i as int] => body@));
                    }
                    let sub = Self::optimize_stage_01(body.as_slice());
                    let node = Expression::Loop(sub);
                    proof {
                        lemma_nodes_of_push(optimized@, node);
                    }
                    optimized.push(node);
                },
                _ => {
                    let n = optimized.len();
                    let bumped = if n > 0 {
                        Self::bumped(&optimized[n - 1], expression)
                    } else {
                        None
                    };
                    match bumped {
                        Some(m) => {
                            proof {
                                lemma_nodes_of_drop_last(optimized@);
                                lemma_nodes_of_push(optimized@.drop_last(), m);
                            }
                            replace_last(&mut optimized, m);
                        },
                        None => {
                            let c = expression.deep_copy();
                            proof {
                                lemma_nodes_of_push(optimized@, c);
                                if n > 0 {
                                    lemma_nodes_of_drop_last(optimized@);
                                }
                            }
                            optimized.push(c);
                        },
                    }
                },
            }
            i += 1;
        }
        proof {
            assert(expressions@.take(expressions@.len() as int) =~= expressions@);
        }
        optimized
    }

    /// Combines every run of value changes and of pointer motions into one
    /// node, dropping runs that cancel out.
    pub fn optimize_stage_02(expressions: &[Expression]) -> (r: Vec<Expression>)
        ensures
            nodes_of(r@) == coalesce(nodes_of(expressions@)),
        decreases expressions@,
    {
        let mut optimized: Vec<Expression> = Vec::new();
        let mut i: usize = 0;
        while i < expressions.len()
            invariant
                i <= expressions@.len(),
                nodes_of(optimized@) == coalesce(nodes_of(expressions@.take(i as int))),
            decreases expressions@.len() - i,
        {
            let expression = &expressions[i];
            proof {
                lemma_nodes_of_take(expressions@, i as int);
                let t = nodes_of(expressions@.take(i + 1));
                assert(t.drop_last() =~= nodes_of(expressions@.take(i as int)));
                assert(coalesce(t) == push_node(coalesce(t.drop_last()), coalesce_node(t.last())));
            }
            match expression {
                Expression::Loop(body) => {
                    proof {
                        assert(decreases_to!(expressions@ => expressions@[i as int]));
                        assert(decreases_to!(expressions@[i as int] => body@));
                    }
                    let sub = Self::optimize_stage_02(body.as_slice());
                    let node = Expression::Loop(sub);
                    proof {
                        lemma_nodes_of_push(optimized@, node);
                    }
                    optimized.push(node);
                },
                _ => {
                    let n = optimized.len();
                    let merged = if n > 0 {
                        Self::merged(&optimized[n - 1], expression)
                    } else {
                        None
                    };
                    proof {
                        if n > 0 {
                            lemma_nodes_of_drop_last(optimized@);
                        }
                    }
                    match merged {
                        Some(Some(m)) => {
                            proof {
                                lemma_nodes_of_push(optimized@.drop_last(), m);
                            }
                            replace_last(&mut optimized, m);
                        },
                        Some(None) => {
                            optimized.pop();
                        },
                        None => {
                            let c = expression.deep_copy();
                            proof {
                                lemma_nodes_of_push(optimized@, c);
                            }
                            optimized.push(c);
                        },
                    }
                },
            }
            i += 1;
        }
        proof {
            assert(expressions@.take(expressions@.len() as int) =~= expressions@);
        }
        optimized
    }

    /// Run coalescing: single steps first, then every run.
    pub fn optimize(expressions: &[Expression]) -> (r: Vec<Expression>)
        ensures
            nodes_of(r@) == coalesce_pass(nodes_of(expressions@)),
    {
        let expressions = Self::optimize_stage_01(expressions);
        Self::optimize_stage_02(expressions.as_slice())
    }
}

} // verus!
