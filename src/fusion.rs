use vstd::prelude::*;
use crate::ir::{
    Expression, Node, node_of, nodes_of, lemma_nodes_of_concat, lemma_nodes_of_push,
    lemma_nodes_of_take,
};

verus! {

/// What one walk over a loop body has found.
pub struct Scan {
    /// An element that fusion cannot express was seen: `Output`, `Input`,
    /// `Clear`, `MulVal` or a nested loop.
    pub side_effect: bool,
    /// Every pointer offset reached so far fits in an `isize`.
    pub in_range: bool,
    /// The pointer offset from the loop-counter cell reached so far.
    pub offset: int,
    /// Each increment away from the counter cell, with the offset at which it occurred.
    pub incs: Seq<(isize, u8)>,
    /// The decrements of the counter cell itself.
    pub counter_decs: Seq<u8>,
    /// A value change that fusion cannot express was seen: an increment of
    /// the counter cell, or a decrement of another cell.
    pub stray: bool,
}

/// Nothing seen yet.
pub open spec fn scan_start() -> Scan {
    Scan {
        side_effect: false,
        in_range: true,
        offset: 0,
        incs: Seq::empty(),
        counter_decs: Seq::empty(),
        stray: false,
    }
}

/// The scan after a pointer motion by `d` cells.
pub open spec fn scan_move(sc: Scan, d: int) -> Scan {
    if sc.in_range && isize::MIN <= sc.offset + d <= isize::MAX {
        Scan { offset: sc.offset + d, ..sc }
    } else {
        Scan { in_range: false, ..sc }
    }
}

/// The scan after one more body element.
pub open spec fn scan_step(sc: Scan, n: Node) -> Scan {
    match n {
        Node::IncVal(v) => if sc.offset == 0 {
            Scan { stray: true, ..sc }
        } else {
            Scan { incs: sc.incs.push((sc.offset as isize, v)), ..sc }
        },
        Node::DecVal(v) => if sc.offset == 0 {
            Scan { counter_decs: sc.counter_decs.push(v), ..sc }
        } else {
            Scan { stray: true, ..sc }
        },
        Node::IncPtr(a) => scan_move(sc, a as int),
        Node::DecPtr(a) => scan_move(sc, -(a as int)),
        _ => Scan { side_effect: true, ..sc },
    }
}

/// The walk over a whole body.
pub open spec fn scan(b: Seq<Node>) -> Scan
    decreases b.len(),
{
    if b.len() == 0 {
        scan_start()
    } else {
        scan_step(scan(b.drop_last()), b.last())
    }
}

/// A scan that allows fusion: no side effect, the pointer back where it
/// started, and the counter cell decremented by exactly 1 exactly once.
pub open spec fn fusable(sc: Scan) -> bool {
    &&& !sc.side_effect
    &&& sc.in_range
    &&& sc.offset == 0
    &&& sc.counter_decs == seq![1u8]
    &&& !sc.stray
}

/// Whether a loop with body `b` is fused.
pub open spec fn qualifies(b: Seq<Node>) -> bool {
    fusable(scan(b))
}

/// One `MulVal` per recorded increment, in order.
pub open spec fn mul_nodes(incs: Seq<(isize, u8)>) -> Seq<Node>
    decreases incs.len(),
{
    if incs.len() == 0 {
        Seq::empty()
    } else {
        mul_nodes(incs.drop_last()).push(Node::MulVal(incs.last().0, incs.last().1))
    }
}

/// What replaces a fused loop: its multiply-adds, then `Clear` of the counter.
pub open spec fn fused(sc: Scan) -> Seq<Node> {
    mul_nodes(sc.incs).push(Node::Clear)
}

/// Copy/scale-loop fusion of a sequence: every qualifying loop is replaced by
/// its multiply-adds, every other loop is fused inside.
pub open spec fn fuse(s: Seq<Node>) -> Seq<Node>
    decreases s,
{
    if s.len() == 0 {
        Seq::empty()
    } else {
        fuse(s.drop_last()) + fuse_node(s.last())
    }
}

/// Copy/scale-loop fusion of one node.
pub open spec fn fuse_node(n: Node) -> Seq<Node>
    decreases n,
{
    match n {
        Node::Loop(b) => if qualifies(b) {
            fused(scan(b))
        } else {
            seq![Node::Loop(fuse(b))]
        },
        _ => seq![n],
    }
}

/// The pointer motion of one node, in cells to the right.
pub open spec fn motion(n: Node) -> int {
    match n {
        Node::IncPtr(a) => a as int,
        Node::DecPtr(a) => -(a as int),
        _ => 0,
    }
}

/// The net pointer displacement of the pointer motions of a body.
pub open spec fn displacement(b: Seq<Node>) -> int
    decreases b.len(),
{
    if b.len() == 0 {
        0
    } else {
        displacement(b.drop_last()) + motion(b.last())
    }
}

/// An element that fusion cannot express.
pub open spec fn is_effect(n: Node) -> bool {
    n is Output || n is Input || n is Clear || n is Loop || n is MulVal
}

/// While every offset fits, the scan's offset is the body's displacement.
proof fn lemma_scan_offset(b: Seq<Node>)
    ensures
        scan(b).in_range ==> scan(b).offset == displacement(b),
    decreases b.len(),
{
    if b.len() > 0 {
        lemma_scan_offset(b.drop_last());
    }
}

/// A scan that has seen an effect remembers it.
proof fn lemma_scan_effect(b: Seq<Node>, i: int)
    requires
        0 <= i < b.len(),
        is_effect(b[i]),
    ensures
        scan(b).side_effect,
    decreases b.len(),
{
    if i < b.len() - 1 {
        lemma_scan_effect(b.drop_last(), i);
    }
}

/// Fusion of a sequence holding one node is fusion of that node.
proof fn lemma_fuse_single(n: Node)
    ensures
        fuse(seq![n]) == fuse_node(n),
{
    let s = seq![n];
    assert(s.drop_last() =~= Seq::<Node>::empty());
    assert(s.last() == n);
    assert(fuse(s.drop_last()) == Seq::<Node>::empty());
    assert(Seq::<Node>::empty() + fuse_node(n) =~= fuse_node(n));
}

/// Fusion never fires on a loop whose body moves the pointer by a nonzero net
/// amount: the loop stays, fused only inside.
pub proof fn fusion_keeps_unbalanced_loop(b: Seq<Node>)
    requires
        displacement(b) != 0,
    ensures
        fuse(seq![Node::Loop(b)]) == seq![Node::Loop(fuse(b))],
{
    lemma_scan_offset(b);
    lemma_fuse_single(Node::Loop(b));
}

/// Fusion never fires on a loop whose body holds `Output`, `Input`, `Clear`,
/// `MulVal` or a nested loop: the loop stays, fused only inside.
pub proof fn fusion_keeps_effectful_loop(b: Seq<Node>, i: int)
    requires
        0 <= i < b.len(),
        is_effect(b[i]),
    ensures
        fuse(seq![Node::Loop(b)]) == seq![Node::Loop(fuse(b))],
{
    lemma_scan_effect(b, i);
    lemma_fuse_single(Node::Loop(b));
}

/// The bookkeeping of one walk over a loop body.
#[derive(Debug)]
pub struct CopyOptimizerContext {
    start_position: usize,
    has_side_effect: bool,
    in_range: bool,
    offset: isize,
    inc_vals: Vec<(isize, u8)>,
    dec_vals: Vec<u8>,
    stray: bool,
}

impl View for CopyOptimizerContext {
    type V = Scan;

    closed spec fn view(&self) -> Scan {
        Scan {
            side_effect: self.has_side_effect,
            in_range: self.in_range,
            offset: self.offset as int,
            incs: self.inc_vals@,
            counter_decs: self.dec_vals@,
            stray: self.stray,
        }
    }
}

impl CopyOptimizerContext {
    /// The position in the output at which the walked loop stands.
    pub closed spec fn spec_start_position(&self) -> usize {
        self.start_position
    }

    /// An empty walk of the loop that stands at `start_position`.
    pub fn new(start_position: usize) -> (r: Self)
        ensures
            r@ == scan_start(),
            r.spec_start_position() == start_position,
    {
        Self {
            start_position,
            has_side_effect: false,
            in_range: true,
            offset: 0,
            inc_vals: Vec::new(),
            dec_vals: Vec::new(),
            stray: false,
        }
    }

    /// Records a `DecVal(amount)` at the current offset.
    pub fn add_dec_val(&mut self, amount: u8)
        ensures
            final(self)@ == scan_step(old(self)@, Node::DecVal(amount)),
            final(self).spec_start_position() == old(self).spec_start_position(),
    {
        if self.offset == 0 {
            self.dec_vals.push(amount);
        } else {
            self.stray = true;
        }
    }

    /// Records an `IncVal(amount)` at the current offset.
    pub fn add_inc_val(&mut self, amount: u8)
        ensures
            final(self)@ == scan_step(old(self)@, Node::IncVal(amount)),
            final(self).spec_start_position() == old(self).spec_start_position(),
    {
        if self.offset == 0 {
            self.stray = true;
        } else {
            self.inc_vals.push((self.offset, amount));
        }
    }

    /// Moves the current offset by `delta` cells.
    fn move_by(&mut self, delta: i128)
        requires
            -(usize::MAX as int) <= delta <= usize::MAX,
        ensures
            final(self)@ == scan_move(old(self)@, delta as int),
            final(self).spec_start_position() == old(self).spec_start_position(),
    {
        let next: i128 = self.offset as i128 + delta;
        if self.in_range && isize::MIN as i128 <= next && next <= isize::MAX as i128 {
            self.offset = next as isize;
        } else {
            self.in_range = false;
        }
    }

    /// Records a `DecPtr(offset)`.
    pub fn add_dec_ptrs(&mut self, offset: usize)
        ensures
            final(self)@ == scan_step(old(self)@, Node::DecPtr(offset)),
            final(self).spec_start_position() == old(self).spec_start_position(),
    {
        self.move_by(-(offset as i128));
    }

    /// Records an `IncPtr(offset)`.
    pub fn add_inc_ptrs(&mut self, offset: usize)
        ensures
            final(self)@ == scan_step(old(self)@, Node::IncPtr(offset)),
            final(self).spec_start_position() == old(self).spec_start_position(),
    {
        self.move_by(offset as i128);
    }

    /// Sets whether an element that fusion cannot express has been seen.
    pub fn set_side_effect(&mut self, is_side_effect: bool)
        ensures
            final(self)@ == (Scan { side_effect: is_side_effect, ..old(self)@ }),
            final(self).spec_start_position() == old(self).spec_start_position(),
    {
        self.has_side_effect = is_side_effect;
    }

    /// Whether the walked loop may be fused.
    pub fn is_valid(&self) -> (r: bool)
        ensures
            r == fusable(self@),
    {
        let r = !self.has_side_effect && self.in_range && self.offset == 0 && self.dec_vals.len()
            == 1 && self.dec_vals[0] == 1 && !self.stray;
        proof {
            if r {
                assert(self.dec_vals@ =~= seq![1u8]);
            } else if self.dec_vals@ == seq![1u8] {
                assert(self.dec_vals@.len() == 1 && self.dec_vals@[0] == 1);
            }
        }
        r
    }

    /// What replaces the walked loop when it may be fused: one `MulVal` per
    /// increment at the offset where it occurred, then `Clear`.
    pub fn generate_expressions(&self) -> (r: Option<Vec<Expression>>)
        ensures
            r is Some <==> fusable(self@),
            r matches Some(v) ==> nodes_of(v@) == fused(self@),
    {
        if !self.is_valid() {
            return None;
        }
        let mut expressions: Vec<Expression> = Vec::new();
        let mut i: usize = 0;
        while i < self.inc_vals.len()
            invariant
                i <= self.inc_vals@.len(),
                nodes_of(expressions@) == mul_nodes(self.inc_vals@.take(i as int)),
            decreases self.inc_vals@.len() - i,
        {
            let (offset, amount) = self.inc_vals[i];
            let e = Expression::MulVal(offset, amount);
            proof {
                lemma_nodes_of_push(expressions@, e);
                assert(self.inc_vals@.take(i + 1).drop_last() =~= self.inc_vals@.take(i as int));
            }
            expressions.push(e);
            i += 1;
        }
        proof {
            assert(self.inc_vals@.take(self.inc_vals@.len() as int) =~= self.inc_vals@);
            lemma_nodes_of_push(expressions@, Expression::Clear);
        }
        expressions.push(Expression::Clear);
        Some(expressions)
    }
}

/// The pass that replaces copy and scale loops by multiply-adds.
pub struct CopyOptimizer;

impl CopyOptimizer {
    /// One walk over a loop body, recording each element in the context.
    fn scan_body(start_position: usize, body: &Vec<Expression>) -> (r: CopyOptimizerContext)
        ensures
            r@ == scan(nodes_of(body@)),
    {
        let mut context = CopyOptimizerContext::new(start_position);
        let mut i: usize = 0;
        while i < body.len()
            invariant
                i <= body@.len(),
                context@ == scan(nodes_of(body@.take(i as int))),
            decreases body@.len() - i,
        {
            proof {
                lemma_nodes_of_take(body@, i as int);
                assert(nodes_of(body@.take(i + 1)).drop_last() =~= nodes_of(body@.take(i as int)));
            }
            match &body[i] {
                Expression::IncVal(val) => context.add_inc_val(*val),
                Expression::DecVal(val) => context.add_dec_val(*val),
                Expression::IncPtr(val) => context.add_inc_ptrs(*val),
                Expression::DecPtr(val) => context.add_dec_ptrs(*val),
                Expression::MulVal(_, _) | Expression::Clear | Expression::Loop(_)
                | Expression::Output | Expression::Input => context.set_side_effect(true),
            }
            i += 1;
        }
        proof {
            assert(body@.take(body@.len() as int) =~= body@);
        }
        context
    }

    /// Copy/scale-loop fusion of a sequence, inside loops too.
    pub fn optimize(expressions: &[Expression]) -> (r: Vec<Expression>)
        ensures
            nodes_of(r@) == fuse(nodes_of(expressions@)),
        decreases expressions@,
    {
        let mut optimized: Vec<Expression> = Vec::new();
        let mut i: usize = 0;
        while i < expressions.len()
            invariant
                i <= expressions@.len(),
                nodes_of(optimized@) == fuse(nodes_of(expressions@.take(i as int))),
            decreases expressions@.len() - i,
        {
            let expression = &expressions[i];
            proof {
                lemma_nodes_of_take(expressions@, i as int);
                let t = nodes_of(expressions@.take(i + 1));
                assert(t.drop_last() =~= nodes_of(expressions@.take(i as int)));
                assert(fuse(t) == fuse(t.drop_last()) + fuse_node(t.last()));
            }
            let ghost before = optimized@;
            match expression {
                Expression::Loop(body) => {
                    let context = Self::scan_body(optimized.len(), body);
                    match context.generate_expressions() {
                        Some(mut expressions) => {
                            let ghost added = expressions@;
                            optimized.append(&mut expressions);
                            proof {
                                lemma_nodes_of_concat(before, added);
                            }
                        },
                        None => {
                            proof {
                                assert(decreases_to!(expressions@ => expressions@[i as int]));
                                assert(decreases_to!(expressions@[i as int] => body@));
                            }
                            let node = Expression::Loop(Self::optimize(body.as_slice()));
                            proof {
                                lemma_nodes_of_push(optimized@, node);
                                assert(seq![node_of(node)] =~= fuse_node(node_of(*expression)));
                                assert(nodes_of(optimized@).push(node_of(node)) =~= nodes_of(
                                    optimized@,
                                ) + seq![node_of(node)]);
                            }
                            optimized.push(node);
                        },
                    }
                },
                _ => {
                    let node = expression.deep_copy();
                    proof {
                        lemma_nodes_of_push(optimized@, node);
                        assert(nodes_of(optimized@).push(node_of(node)) =~= nodes_of(optimized@)
                            + fuse_node(node_of(*expression)));
                    }
                    optimized.push(node);
                },
            }
            i += 1;
        }
        proof {
            assert(expressions@.take(expressions@.len() as int) =~= expressions@);
        }
        optimized
    }
}

} // verus!
