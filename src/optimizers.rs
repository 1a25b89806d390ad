use vstd::prelude::*;
use crate::coalesce::{ConcatOptimizer, coalesce_pass, unit_runs};
use crate::fusion::{CopyOptimizer, fuse};
use crate::ir::{Expression, Node, nodes_of};
use crate::zero_loop::{ClearOptimizer, clear_loops};

verus! {

/// The whole optimizer: run coalescing, then copy/scale-loop fusion, then
/// zero-loop reduction.
pub open spec fn optimized(t: Seq<Node>) -> Seq<Node> {
    clear_loops(fuse(coalesce_pass(t)))
}

/// The three passes in their fixed order.
pub struct Optimizers;

impl Optimizers {
    /// Applies run coalescing, fusion and zero-loop reduction in turn.
    pub fn optimize(expressions: &[Expression]) -> (r: Vec<Expression>)
        ensures
            nodes_of(r@) == optimized(nodes_of(expressions@)),
    {
        let expressions = ConcatOptimizer::optimize(expressions);
        let expressions = CopyOptimizer::optimize(expressions.as_slice());
        ClearOptimizer::optimize(expressions.as_slice())
    }
}

/// The light optimizer: only folds single steps into the run before them.
pub struct Optimizer;

impl Optimizer {
    /// Folds each single step into the run of its kind before it, inside
    /// loops too.
    pub fn optimize(expressions: &[Expression]) -> (r: Vec<Expression>)
        ensures
            nodes_of(r@) == unit_runs(nodes_of(expressions@)),
    {
        ConcatOptimizer::optimize_stage_01(expressions)
    }
}

} // verus!
