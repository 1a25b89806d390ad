use bf::coalesce::ConcatOptimizer;
use bf::fusion::{CopyOptimizer, CopyOptimizerContext};
use bf::ir::Expression;
use bf::ir::Expression::{Clear, DecPtr, DecVal, IncPtr, IncVal, Input, Loop, MulVal, Output};
use bf::optimizers::{Optimizer, Optimizers};
use bf::pipeline::Pipeline;
use bf::zero_loop::ClearOptimizer;

fn optimized(text: &str) -> Vec<Expression> {
    Pipeline::execute(text).unwrap()
}

#[test]
fn scenario_increments_coalesce() {
    assert_eq!(optimized("++++"), vec![IncVal(4)]);
}

#[test]
fn scenario_zero_loop_becomes_clear() {
    assert_eq!(optimized("[-]"), vec![Clear]);
    assert_eq!(optimized("[+]"), vec![Clear]);
}

#[test]
fn scenario_copy_loop_fuses() {
    assert_eq!(optimized("[->+<]"), vec![MulVal(1, 1), Clear]);
}

#[test]
fn scenario_balanced_two_target_loop_fuses() {
    assert_eq!(optimized("[->>+>+<<<]"), vec![MulVal(2, 1), MulVal(3, 1), Clear]);
}

#[test]
fn scenario_scale_loop_fuses_with_amounts_and_negative_offset() {
    assert_eq!(optimized("[-<<+++>>]"), vec![MulVal(-2, 3), Clear]);
}

#[test]
fn scenario_unbalanced_loop_is_kept() {
    let expected = vec![Loop(vec![DecVal(1), IncPtr(2), IncVal(1), IncPtr(1), IncVal(1), DecPtr(2)])];
    assert_eq!(optimized("[->>+>+<<]"), expected);
}

#[test]
fn fusion_keeps_unbalanced_loops() {
    for body in [
        vec![DecVal(1), IncPtr(1), IncVal(1)],
        vec![DecVal(1), DecPtr(3), IncVal(2), IncPtr(2)],
        vec![DecVal(1), IncPtr(1)],
    ] {
        let input = vec![Loop(body.clone())];
        assert_eq!(CopyOptimizer::optimize(&input), input);
    }
}

#[test]
fn fusion_keeps_loops_with_side_effects() {
    for effect in [Output, Input, Clear, MulVal(1, 2), Loop(vec![IncPtr(1)])] {
        let input = vec![Loop(vec![DecVal(1), IncPtr(1), IncVal(1), effect, DecPtr(1)])];
        assert_eq!(CopyOptimizer::optimize(&input), input);
    }
}

#[test]
fn fusion_needs_exactly_one_unit_decrement_of_the_counter() {
    for body in [
        vec![DecVal(2), IncPtr(1), IncVal(1), DecPtr(1)],
        vec![DecVal(1), DecVal(1), IncPtr(1), IncVal(1), DecPtr(1)],
        vec![IncPtr(1), IncVal(1), DecPtr(1)],
        vec![DecVal(1), IncVal(1), IncPtr(1), IncVal(1), DecPtr(1)],
        vec![DecVal(1), IncPtr(1), DecVal(1), DecPtr(1)],
    ] {
        let input = vec![Loop(body.clone())];
        assert_eq!(CopyOptimizer::optimize(&input), input);
    }
}

#[test]
fn fusion_works_inside_kept_loops() {
    let input = vec![Loop(vec![Output, Loop(vec![DecVal(1), IncPtr(1), IncVal(1), DecPtr(1)])])];
    let expected = vec![Loop(vec![Output, MulVal(1, 1), Clear])];
    assert_eq!(CopyOptimizer::optimize(&input), expected);
}

#[test]
fn context_generates_multiply_adds() {
    let mut context = CopyOptimizerContext::new(0);
    context.add_dec_val(1);
    context.add_inc_ptrs(2);
    context.add_inc_val(5);
    context.add_dec_ptrs(3);
    context.add_inc_val(7);
    context.add_inc_ptrs(1);
    assert!(context.is_valid());
    assert_eq!(context.generate_expressions(), Some(vec![MulVal(2, 5), MulVal(-1, 7), Clear]));
    context.set_side_effect(true);
    assert!(!context.is_valid());
    assert_eq!(context.generate_expressions(), None);
}

#[test]
fn coalescing_subtracts_opposite_runs() {
    assert_eq!(ConcatOptimizer::optimize(&[IncVal(5), DecVal(6)]), vec![DecVal(1)]);
    assert_eq!(ConcatOptimizer::optimize(&[IncVal(5), DecVal(4)]), vec![IncVal(1)]);
    assert_eq!(ConcatOptimizer::optimize(&[IncVal(5), DecVal(5)]), vec![]);
    assert_eq!(ConcatOptimizer::optimize(&[IncPtr(5), DecPtr(6)]), vec![DecPtr(1)]);
    assert_eq!(ConcatOptimizer::optimize(&[IncPtr(6), DecPtr(5)]), vec![IncPtr(1)]);
    assert_eq!(ConcatOptimizer::optimize(&[IncPtr(5), DecPtr(5)]), vec![]);
    assert_eq!(ConcatOptimizer::optimize(&[]), vec![]);
}

#[test]
fn coalescing_merges_across_a_cancelled_run() {
    let input = [IncPtr(1), IncVal(3), DecVal(3), IncPtr(2)];
    assert_eq!(ConcatOptimizer::optimize(&input), vec![IncPtr(3)]);
}

#[test]
fn coalescing_wraps_values_and_saturates_motions() {
    assert_eq!(ConcatOptimizer::optimize(&[IncVal(200), IncVal(100)]), vec![IncVal(44)]);
    assert_eq!(ConcatOptimizer::optimize(&[IncVal(255), IncVal(1)]), vec![IncVal(0)]);
    assert_eq!(ConcatOptimizer::optimize(&[IncPtr(usize::MAX), IncPtr(1)]), vec![IncPtr(usize::MAX)]);
}

#[test]
fn coalescing_recurses_into_loops_without_merging_them() {
    let input = [IncVal(1), Loop(vec![DecVal(1), DecVal(1)]), IncVal(1)];
    assert_eq!(ConcatOptimizer::optimize(&input), vec![IncVal(1), Loop(vec![DecVal(2)]), IncVal(1)]);
}

#[test]
fn stage_one_only_folds_single_steps() {
    let input = [IncVal(1), IncVal(1), IncVal(3), IncVal(1), DecPtr(1), DecPtr(1)];
    let expected = vec![IncVal(2), IncVal(4), DecPtr(2)];
    assert_eq!(ConcatOptimizer::optimize_stage_01(&input), expected);
    assert_eq!(Optimizer::optimize(&input), expected);
}

#[test]
fn coalescing_is_idempotent_on_examples() {
    for text in ["+++--->><<<+[->+<]--", "[[-]+++>>-<<]", "+-+-><", ""] {
        let once = ConcatOptimizer::optimize(&bf::parser::Parser::parse(&bf::tokenizer::Tokenizer::tokenize(text)).unwrap());
        let twice = ConcatOptimizer::optimize(&once);
        assert_eq!(once, twice);
    }
}

#[test]
fn zero_loop_reduction_is_idempotent_on_examples() {
    let input = vec![Loop(vec![Loop(vec![DecVal(1)])]), Loop(vec![IncVal(1)]), Loop(vec![DecVal(2)])];
    let once = ClearOptimizer::optimize(&input);
    assert_eq!(once, vec![Loop(vec![Clear]), Clear, Loop(vec![DecVal(2)])]);
    assert_eq!(ClearOptimizer::optimize(&once), once);
}

#[test]
fn optimize_clear() {
    assert_eq!(ClearOptimizer::optimize(&[Loop(vec![DecVal(1)])]), vec![Clear]);
    assert_eq!(ClearOptimizer::optimize(&[Loop(vec![IncVal(1)])]), vec![Clear]);
    assert_eq!(ClearOptimizer::optimize(&[Loop(vec![DecPtr(1)])]), vec![Loop(vec![DecPtr(1)])]);
    assert_eq!(ClearOptimizer::optimize(&[Loop(vec![IncPtr(1)])]), vec![Loop(vec![IncPtr(1)])]);
    let kept = vec![Loop(vec![DecPtr(1), IncPtr(1)])];
    assert_eq!(ClearOptimizer::optimize(&kept), kept);
}

#[test]
fn copy_optimizer() {
    let input = vec![Loop(vec![DecVal(1), IncPtr(1), IncVal(1), DecPtr(1)])];
    assert_eq!(CopyOptimizer::optimize(&input), vec![MulVal(1, 1), Clear]);
}

#[test]
fn input_survives_every_pass() {
    let input = vec![Input, Loop(vec![Input, DecVal(1)])];
    assert_eq!(Optimizers::optimize(&input), input);
}

#[test]
fn deep_copy_and_clone_keep_the_tree() {
    let tree = Loop(vec![IncVal(3), Loop(vec![MulVal(-1, 2)]), Output]);
    assert_eq!(tree.deep_copy(), tree);
    assert_eq!(tree.clone(), tree);
}
