use vstd::prelude::*;
use crate::coalesce::{
    bump, coalesce, coalesce_pass, coalesce_node, merge, same_family, unit_runs, unit_runs_node,
};
use crate::equivalence::{
    apply, at_index, halted, sane, lemma_apply_sane, lemma_apply_val, lemma_bump_is_merge,
    lemma_merge_effect, lemma_step_leaf,
};
use crate::zero_loop::{clear_loops, clear_loops_node, is_zero_loop_body};
use crate::bytecode::{
    Opcode, lower, lower_node, size, size_node, lemma_lower_len, lemma_lower_node_len,
};
use crate::ir::Node;
use crate::vm::{Fault, Machine, Status, run_spec, step_spec};

verus! {

/// What running a tree gives: the state at its end, or nothing where it
/// faults or takes more loop iterations than allowed.
pub open spec fn exec(m: Machine, s: Seq<Node>, fuel: nat) -> Option<Machine>
    decreases fuel, s,
{
    if s.len() == 0 {
        Some(m)
    } else {
        match exec(m, s.drop_last(), fuel) {
            Some(m1) => exec_node(m1, s.last(), fuel),
            None => None,
        }
    }
}

/// What running one node gives.
pub open spec fn exec_node(m: Machine, n: Node, fuel: nat) -> Option<Machine>
    decreases fuel, n,
{
    match n {
        Node::Loop(b) => run_loop(m, b, fuel),
        _ => apply(m, n),
    }
}

/// What running a loop with body `b` gives, with at most `fuel` iterations.
pub open spec fn run_loop(m: Machine, b: Seq<Node>, fuel: nat) -> Option<Machine>
    decreases fuel, b,
{
    if m.cell() == 0 {
        Some(m)
    } else if fuel == 0 {
        None
    } else {
        match exec(m, b, (fuel - 1) as nat) {
            Some(m2) => run_loop(m2, b, (fuel - 1) as nat),
            None => None,
        }
    }
}

/// Running a tree keeps the state sane, the program and the program counter.
pub proof fn lemma_exec_sane(m: Machine, s: Seq<Node>, fuel: nat)
    requires
        sane(m),
        exec(m, s, fuel) is Some,
    ensures
        sane(exec(m, s, fuel)->0),
        exec(m, s, fuel)->0.program == m.program,
        exec(m, s, fuel)->0.index == m.index,
    decreases fuel, s,
{
    if s.len() > 0 {
        lemma_exec_sane(m, s.drop_last(), fuel);
        lemma_exec_node_sane(exec(m, s.drop_last(), fuel)->0, s.last(), fuel);
    }
}

/// Running a node keeps the state sane, the program and the program counter.
pub proof fn lemma_exec_node_sane(m: Machine, n: Node, fuel: nat)
    requires
        sane(m),
        exec_node(m, n, fuel) is Some,
    ensures
        sane(exec_node(m, n, fuel)->0),
        exec_node(m, n, fuel)->0.program == m.program,
        exec_node(m, n, fuel)->0.index == m.index,
    decreases fuel, n,
{
    match n {
        Node::Loop(b) => lemma_run_loop_sane(m, b, fuel),
        _ => lemma_apply_sane(m, n),
    }
}

/// Running a loop keeps the state sane, the program and the program counter.
pub proof fn lemma_run_loop_sane(m: Machine, b: Seq<Node>, fuel: nat)
    requires
        sane(m),
        run_loop(m, b, fuel) is Some,
    ensures
        sane(run_loop(m, b, fuel)->0),
        run_loop(m, b, fuel)->0.program == m.program,
        run_loop(m, b, fuel)->0.index == m.index,
    decreases fuel, b,
{
    if m.cell() != 0 {
        let f = (fuel - 1) as nat;
        lemma_exec_sane(m, b, f);
        lemma_run_loop_sane(exec(m, b, f)->0, b, f);
    }
}

/// The state with the current cell set to zero.
pub open spec fn cleared(m: Machine) -> Machine {
    Machine { tape: m.tape.update(m.pointer as int, 0), ..m }
}

/// A loop whose body is one single step ends with the current cell at zero
/// and nothing else changed.
proof fn lemma_zero_loop(m: Machine, b: Seq<Node>, fuel: nat)
    requires
        sane(m),
        is_zero_loop_body(b),
        run_loop(m, b, fuel) is Some,
    ensures
        run_loop(m, b, fuel) == Some(cleared(m)),
    decreases fuel,
{
    let p = m.pointer as int;
    if m.cell() == 0 {
        assert(cleared(m).tape =~= m.tape);
        assert(cleared(m) == m);
    } else {
        let f = (fuel - 1) as nat;
        let n = b[0];
        assert(n == Node::DecVal(1) || n == Node::IncVal(1));
        assert(b.len() == 1);
        assert(b.last() == n);
        assert(b.drop_last() =~= Seq::<Node>::empty());
        assert(exec_node(m, n, f) == apply(m, n));
        assert(exec(m, b.drop_last(), f) == Some(m));
        lemma_apply_val(m, n);
        let m2 = exec(m, b, f)->0;
        assert(m2 == apply(m, n)->0);
        lemma_zero_loop(m2, b, f);
        assert(cleared(m2).tape =~= cleared(m).tape);
    }
}

/// Zero-loop reduction keeps what a tree gives wherever the tree runs to its end.
pub proof fn lemma_clear_loops_exec(m: Machine, s: Seq<Node>, fuel: nat)
    requires
        sane(m),
        exec(m, s, fuel) is Some,
    ensures
        exec(m, clear_loops(s), fuel) == exec(m, s, fuel),
    decreases fuel, s,
{
    if s.len() > 0 {
        let d = s.drop_last();
        lemma_clear_loops_exec(m, d, fuel);
        let m1 = exec(m, d, fuel)->0;
        lemma_exec_sane(m, d, fuel);
        lemma_clear_loops_node_exec(m1, s.last(), fuel);
        assert(clear_loops(s).drop_last() =~= clear_loops(d));
    }
}

/// Zero-loop reduction keeps what a node gives wherever it runs to its end.
pub proof fn lemma_clear_loops_node_exec(m: Machine, n: Node, fuel: nat)
    requires
        sane(m),
        exec_node(m, n, fuel) is Some,
    ensures
        exec_node(m, clear_loops_node(n), fuel) == exec_node(m, n, fuel),
    decreases fuel, n,
{
    if let Node::Loop(b) = n {
        if is_zero_loop_body(b) {
            lemma_zero_loop(m, b, fuel);
        } else {
            lemma_clear_loops_loop_exec(m, b, fuel);
        }
    }
}

/// Zero-loop reduction inside a loop body keeps what the loop gives.
proof fn lemma_clear_loops_loop_exec(m: Machine, b: Seq<Node>, fuel: nat)
    requires
        sane(m),
        run_loop(m, b, fuel) is Some,
    ensures
        run_loop(m, clear_loops(b), fuel) == run_loop(m, b, fuel),
    decreases fuel, b,
{
    if m.cell() != 0 {
        let f = (fuel - 1) as nat;
        lemma_clear_loops_exec(m, b, f);
        lemma_exec_sane(m, b, f);
        lemma_clear_loops_loop_exec(exec(m, b, f)->0, b, f);
    }
}

/// What a tree with one more node gives.
pub proof fn lemma_exec_push(m: Machine, s: Seq<Node>, n: Node, fuel: nat)
    ensures
        exec(m, s.push(n), fuel) == match exec(m, s, fuel) {
            Some(m1) => exec_node(m1, n, fuel),
            None => None,
        },
{
    assert(s.push(n).drop_last() =~= s);
}

/// Run coalescing keeps what a tree gives wherever the tree runs to its end.
pub proof fn lemma_coalesce_exec(m: Machine, s: Seq<Node>, fuel: nat)
    requires
        sane(m),
        exec(m, s, fuel) is Some,
    ensures
        exec(m, coalesce(s), fuel) == exec(m, s, fuel),
    decreases fuel, s,
{
    if s.len() > 0 {
        let d = s.drop_last();
        let n = s.last();
        lemma_coalesce_exec(m, d, fuel);
        lemma_exec_sane(m, d, fuel);
        let m1 = exec(m, d, fuel)->0;
        let acc = coalesce(d);
        let cn = coalesce_node(n);
        if let Node::Loop(b) = n {
            lemma_coalesce_loop_exec(m1, b, fuel);
        }
        assert(exec_node(m1, cn, fuel) == exec_node(m1, n, fuel));
        if acc.len() > 0 && same_family(acc.last(), cn) {
            let rest = acc.drop_last();
            let x = acc.last();
            assert(acc == rest.push(x));
            lemma_exec_push(m, rest, x, fuel);
            let m0 = exec(m, rest, fuel)->0;
            lemma_exec_sane(m, rest, fuel);
            assert(exec_node(m0, x, fuel) == apply(m0, x));
            assert(exec_node(m1, cn, fuel) == apply(m1, cn));
            lemma_merge_effect(m0, x, cn);
            if merge(x, cn) is Some {
                let c = merge(x, cn)->0;
                lemma_exec_push(m, rest, c, fuel);
                assert(exec_node(m0, c, fuel) == apply(m0, c));
            }
        } else {
            lemma_exec_push(m, acc, cn, fuel);
        }
    }
}

/// Run coalescing inside a loop body keeps what the loop gives.
proof fn lemma_coalesce_loop_exec(m: Machine, b: Seq<Node>, fuel: nat)
    requires
        sane(m),
        run_loop(m, b, fuel) is Some,
    ensures
        run_loop(m, coalesce(b), fuel) == run_loop(m, b, fuel),
    decreases fuel, b,
{
    if m.cell() != 0 {
        let f = (fuel - 1) as nat;
        lemma_coalesce_exec(m, b, f);
        lemma_exec_sane(m, b, f);
        lemma_coalesce_loop_exec(exec(m, b, f)->0, b, f);
    }
}

/// Folding single steps keeps what a tree gives wherever the tree runs to its end.
pub proof fn lemma_unit_runs_exec(m: Machine, s: Seq<Node>, fuel: nat)
    requires
        sane(m),
        exec(m, s, fuel) is Some,
    ensures
        exec(m, unit_runs(s), fuel) == exec(m, s, fuel),
    decreases fuel, s,
{
    if s.len() > 0 {
        let d = s.drop_last();
        let n = s.last();
        lemma_unit_runs_exec(m, d, fuel);
        lemma_exec_sane(m, d, fuel);
        let m1 = exec(m, d, fuel)->0;
        let acc = unit_runs(d);
        let cn = unit_runs_node(n);
        if let Node::Loop(b) = n {
            lemma_unit_runs_loop_exec(m1, b, fuel);
        }
        assert(exec_node(m1, cn, fuel) == exec_node(m1, n, fuel));
        if acc.len() > 0 && bump(acc.last(), cn) is Some {
            let rest = acc.drop_last();
            let x = acc.last();
            assert(acc == rest.push(x));
            lemma_bump_is_merge(x, cn);
            lemma_exec_push(m, rest, x, fuel);
            let m0 = exec(m, rest, fuel)->0;
            lemma_exec_sane(m, rest, fuel);
            assert(exec_node(m0, x, fuel) == apply(m0, x));
            assert(exec_node(m1, cn, fuel) == apply(m1, cn));
            lemma_merge_effect(m0, x, cn);
            let c = bump(x, cn)->0;
            lemma_exec_push(m, rest, c, fuel);
            assert(exec_node(m0, c, fuel) == apply(m0, c));
        } else {
            lemma_exec_push(m, acc, cn, fuel);
        }
    }
}

/// Folding single steps inside a loop body keeps what the loop gives.
proof fn lemma_unit_runs_loop_exec(m: Machine, b: Seq<Node>, fuel: nat)
    requires
        sane(m),
        run_loop(m, b, fuel) is Some,
    ensures
        run_loop(m, unit_runs(b), fuel) == run_loop(m, b, fuel),
    decreases fuel, b,
{
    if m.cell() != 0 {
        let f = (fuel - 1) as nat;
        lemma_unit_runs_exec(m, b, f);
        lemma_exec_sane(m, b, f);
        lemma_unit_runs_loop_exec(exec(m, b, f)->0, b, f);
    }
}

/// The state `m` loaded with program `p` and its counter at `k`.
pub open spec fn reframe(m: Machine, p: Seq<Opcode>, k: nat) -> Machine {
    Machine { program: p, index: k, ..m }
}

/// `reframe` applied to a result, if there is one.
pub open spec fn reframe_opt(o: Option<Machine>, p: Seq<Opcode>, k: nat) -> Option<Machine> {
    match o {
        Some(z) => Some(reframe(z, p, k)),
        None => None,
    }
}

/// The effect of a node depends on neither the program nor the counter.
proof fn lemma_apply_frame(m: Machine, n: Node, p: Seq<Opcode>, k: nat)
    ensures
        apply(reframe(m, p, k), n) == reframe_opt(apply(m, n), p, k),
{
    if n is IncVal || n is DecVal {
        lemma_apply_val(m, n);
        lemma_apply_val(reframe(m, p, k), n);
    }
}

/// What a tree gives depends on neither the program nor the counter.
pub proof fn lemma_exec_frame(m: Machine, s: Seq<Node>, fuel: nat, p: Seq<Opcode>, k: nat)
    ensures
        exec(reframe(m, p, k), s, fuel) == reframe_opt(exec(m, s, fuel), p, k),
    decreases fuel, s,
{
    if s.len() > 0 {
        lemma_exec_frame(m, s.drop_last(), fuel, p, k);
        if let Some(m1) = exec(m, s.drop_last(), fuel) {
            let m1r = reframe(m1, p, k);
            match s.last() {
                Node::Loop(b) => {
                    lemma_run_loop_frame(m1, b, fuel, p, k);
                    assert(exec_node(m1r, s.last(), fuel) == run_loop(m1r, b, fuel));
                    assert(exec_node(m1, s.last(), fuel) == run_loop(m1, b, fuel));
                },
                _ => {
                    lemma_apply_frame(m1, s.last(), p, k);
                    assert(exec_node(m1r, s.last(), fuel) == apply(m1r, s.last()));
                    assert(exec_node(m1, s.last(), fuel) == apply(m1, s.last()));
                },
            }
        }
    }
}

/// What a loop gives depends on neither the program nor the counter.
proof fn lemma_run_loop_frame(m: Machine, b: Seq<Node>, fuel: nat, p: Seq<Opcode>, k: nat)
    ensures
        run_loop(reframe(m, p, k), b, fuel) == reframe_opt(run_loop(m, b, fuel), p, k),
    decreases fuel, b,
{
    if m.cell() != 0 && fuel > 0 {
        let f = (fuel - 1) as nat;
        lemma_exec_frame(m, b, f, p, k);
        if let Some(m2) = exec(m, b, f) {
            lemma_run_loop_frame(m2, b, f, p, k);
        }
    }
}

/// Steps taken in two runs, one after the other.
proof fn lemma_run_concat(m: Machine, a: nat, b: nat)
    requires
        run_spec(m, a).1 == Ok::<Status, Fault>(Status::Running),
    ensures
        run_spec(m, a + b) == run_spec(run_spec(m, a).0, b),
    decreases a,
{
    if a > 0 {
        let (next, r) = step_spec(m);
        assert(r == Ok::<Status, Fault>(Status::Running));
        lemma_run_concat(next, (a - 1) as nat, b);
        assert((a + b - 1) as nat == (a - 1) as nat + b);
    }
}

/// A run of one step is that step.
proof fn lemma_run_one(m: Machine)
    ensures
        step_spec(m).1 == Ok::<Status, Fault>(Status::Running) ==> run_spec(m, 1) == (
            step_spec(m).0,
            Ok::<Status, Fault>(Status::Running),
        ),
{
    assert(run_spec(step_spec(m).0, 0) == (step_spec(m).0, Ok::<Status, Fault>(Status::Running)));
}

/// The program holds the lowering of `s` at address `base`.
pub open spec fn holds_at(prog: Seq<Opcode>, base: nat, s: Seq<Node>) -> bool {
    &&& base + size(s) <= prog.len()
    &&& prog.len() <= usize::MAX
    &&& prog.subrange(base as int, (base + size(s)) as int) == lower(base, s)
}

/// The program holds the lowering of `n` at address `base`.
pub open spec fn holds_node_at(prog: Seq<Opcode>, base: nat, n: Node) -> bool {
    &&& base + size_node(n) <= prog.len()
    &&& prog.len() <= usize::MAX
    &&& prog.subrange(base as int, (base + size_node(n)) as int) == lower_node(base, n)
}

/// Where the program holds a leaf at the counter, one step has its effect.
proof fn lemma_sim_leaf(m: Machine, n: Node, fuel: nat)
    requires
        sane(m),
        !(n is Loop),
        holds_node_at(m.program, m.index, n),
        exec_node(m, n, fuel) is Some,
    ensures
        run_spec(m, 1) == (at_index(exec_node(m, n, fuel)->0, m.index + 1), Ok::<Status, Fault>(
            Status::Running,
        )),
{
    let base = m.index;
    assert(m.program[base as int] == m.program.subrange(base as int, base + 1 as int)[0]);
    assert(lower_node(base, n) == lower_node(0, n));
    lemma_step_leaf(m, n);
    assert(exec_node(m, n, fuel) == apply(m, n));
    lemma_run_one(m);
    let z = apply(m, n)->0;
    assert(Machine { index: m.index + 1, ..z } == at_index(z, m.index + 1));
}

/// Where the program holds the lowering of `s` at the counter and the tree
/// runs to its end, the machine reaches the end of that lowering in the
/// state the tree gives.
pub proof fn lemma_sim(m: Machine, s: Seq<Node>, fuel: nat) -> (k: nat)
    requires
        sane(m),
        holds_at(m.program, m.index, s),
        exec(m, s, fuel) is Some,
    ensures
        run_spec(m, k) == (at_index(exec(m, s, fuel)->0, m.index + size(s)), Ok::<Status, Fault>(
            Status::Running,
        )),
    decreases fuel, s,
{
    let base = m.index;
    let prog = m.program;
    if s.len() == 0 {
        assert(at_index(m, base) == m);
        0
    } else {
        let d = s.drop_last();
        let n = s.last();
        lemma_lower_len(base, d);
        lemma_lower_node_len(base + size(d), n);
        let whole = lower(base, s);
        assert(whole == lower(base, d) + lower_node(base + size(d), n));
        assert(prog.subrange(base as int, (base + size(d)) as int) =~= whole.subrange(0, size(d) as int));
        assert(whole.subrange(0, size(d) as int) =~= lower(base, d));
        let k1 = lemma_sim(m, d, fuel);
        lemma_exec_sane(m, d, fuel);
        let m1 = exec(m, d, fuel)->0;
        let at = base + size(d);
        let y = at_index(m1, at);
        assert(y == reframe(m1, prog, at));
        assert(prog.subrange(at as int, (at + size_node(n)) as int) =~= whole.subrange(
            size(d) as int,
            size(s) as int,
        ));
        assert(whole.subrange(size(d) as int, size(s) as int) =~= lower_node(at, n));
        match n {
            Node::Loop(b) => {
                lemma_run_loop_frame(m1, b, fuel, prog, at);
            },
            _ => {
                lemma_apply_frame(m1, n, prog, at);
            },
        }
        assert(exec_node(y, n, fuel) == reframe_opt(exec_node(m1, n, fuel), prog, at));
        let k2 = lemma_sim_node(y, n, fuel);
        lemma_run_concat(m, k1, k2);
        let z = exec_node(m1, n, fuel)->0;
        lemma_exec_node_sane(m1, n, fuel);
        assert(size(s) == size(d) + size_node(n));
        assert(exec(m, s, fuel) == exec_node(m1, n, fuel));
        assert(at_index(exec_node(y, n, fuel)->0, at + size_node(n)) == at_index(z, base + size(s)));
        k1 + k2
    }
}

/// Where the program holds the lowering of `n` at the counter and the node
/// runs to its end, the machine reaches the end of that lowering in the
/// state the node gives.
proof fn lemma_sim_node(m: Machine, n: Node, fuel: nat) -> (k: nat)
    requires
        sane(m),
        holds_node_at(m.program, m.index, n),
        exec_node(m, n, fuel) is Some,
    ensures
        run_spec(m, k) == (at_index(exec_node(m, n, fuel)->0, m.index + size_node(n)), Ok::<
            Status,
            Fault,
        >(Status::Running)),
    decreases fuel, n,
{
    match n {
        Node::Loop(b) => lemma_sim_loop(m, b, fuel),
        _ => {
            lemma_sim_leaf(m, n, fuel);
            1
        },
    }
}

/// Where the program holds the lowering of a loop at the counter and the
/// loop runs to its end, the machine reaches the end of that lowering in the
/// state the loop gives.
proof fn lemma_sim_loop(m: Machine, b: Seq<Node>, fuel: nat) -> (k: nat)
    requires
        sane(m),
        holds_node_at(m.program, m.index, Node::Loop(b)),
        run_loop(m, b, fuel) is Some,
    ensures
        run_spec(m, k) == (at_index(run_loop(m, b, fuel)->0, m.index + size(b) + 2), Ok::<
            Status,
            Fault,
        >(Status::Running)),
    decreases fuel, b,
{
    let base = m.index;
    let prog = m.program;
    let end = base + size(b) + 2;
    lemma_lower_len(base + 1, b);
    let whole = lower_node(base, Node::Loop(b));
    assert(whole.len() == size(b) + 2);
    assert(prog[base as int] == whole[0]);
    assert(whole[0] == Opcode::StartLoop(end as usize));
    assert(prog[(base + 1 + size(b)) as int] == whole[size(b) as int + 1]);
    assert(whole[size(b) as int + 1] == Opcode::EndLoop((base + 1) as usize));
    assert(prog.subrange((base + 1) as int, (base + 1 + size(b)) as int) =~= whole.subrange(
        1,
        size(b) as int + 1,
    ));
    assert(whole.subrange(1, size(b) as int + 1) =~= lower(base + 1, b));
    lemma_run_one(m);
    if m.cell() == 0 {
        assert(step_spec(m).0 == at_index(m, end));
        1
    } else {
        let f = (fuel - 1) as nat;
        let y0 = at_index(m, base + 1);
        assert(step_spec(m) == (y0, Ok::<Status, Fault>(Status::Running)));
        lemma_exec_frame(m, b, f, prog, base + 1);
        assert(reframe(m, prog, base + 1) == y0);
        let k1 = lemma_sim(y0, b, f);
        lemma_exec_sane(m, b, f);
        let m2 = exec(m, b, f)->0;
        let e = at_index(m2, base + 1 + size(b));
        assert(at_index(exec(y0, b, f)->0, base + 1 + size(b)) == e);
        lemma_run_concat(m, 1, k1);
        if m2.cell() == 0 {
            assert(run_loop(m2, b, f) == Some(m2));
            assert(step_spec(e) == (at_index(m2, end), Ok::<Status, Fault>(Status::Running)));
            lemma_run_one(e);
            lemma_run_concat(m, 1 + k1, 1);
            1 + k1 + 1
        } else {
            let y1 = at_index(m2, base + 1);
            assert(step_spec(e) == (y1, Ok::<Status, Fault>(Status::Running)));
            lemma_run_one(e);
            assert(at_index(m2, base) == m2);
            let k3 = lemma_sim_loop(m2, b, f);
            assert(step_spec(m2) == (y1, Ok::<Status, Fault>(Status::Running)));
            assert(k3 > 0);
            assert(run_spec(m2, k3) == run_spec(y1, (k3 - 1) as nat));
            lemma_run_concat(m, 1 + k1, 1);
            lemma_run_concat(m, 1 + k1 + 1, (k3 - 1) as nat);
            1 + k1 + 1 + (k3 - 1) as nat
        }
    }
}

/// Two runs that both reached the end of their programs, with the same
/// pointer, tape and output.
pub open spec fn same_outcome(a: (Machine, Result<Status, Fault>), b: (Machine, Result<Status, Fault>)) -> bool {
    &&& halted(a)
    &&& halted(b)
    &&& a.0.pointer == b.0.pointer
    &&& a.0.tape == b.0.tape
    &&& a.0.output == b.0.output
}

/// The machine loaded with the lowering of a tree that runs to its end
/// reaches the end of the program in the state the tree gives.
pub proof fn lemma_run_program(t: Seq<Node>, m: Machine, fuel: nat) -> (k: nat)
    requires
        sane(m),
        size(t) <= usize::MAX,
        exec(m, t, fuel) is Some,
    ensures
        halted(run_spec(reframe(m, lower(0, t), 0), k)),
        run_spec(reframe(m, lower(0, t), 0), k).0.pointer == exec(m, t, fuel)->0.pointer,
        run_spec(reframe(m, lower(0, t), 0), k).0.tape == exec(m, t, fuel)->0.tape,
        run_spec(reframe(m, lower(0, t), 0), k).0.output == exec(m, t, fuel)->0.output,
{
    let prog = lower(0, t);
    let x = reframe(m, prog, 0);
    lemma_lower_len(0, t);
    assert(prog.subrange(0, size(t) as int) =~= prog);
    lemma_exec_frame(m, t, fuel, prog, 0);
    let k1 = lemma_sim(x, t, fuel);
    let last = run_spec(x, k1).0;
    assert(step_spec(last) == (last, Ok::<Status, Fault>(Status::Halted)));
    assert(run_spec(last, 1) == (last, Ok::<Status, Fault>(Status::Halted)));
    lemma_run_concat(x, k1, 1);
    k1 + 1
}

/// Run coalescing keeps the behaviour of every program that runs to its
/// end: where the tree runs from a state to its end without a fault (within
/// `fuel` iterations of each loop), the machine runs the lowering of the
/// tree and the lowering of the coalesced tree from that state to their
/// ends, with the same pointer, tape and output.
pub proof fn coalescing_preserves_runs(t: Seq<Node>, m: Machine, fuel: nat)
    requires
        m.wf(),
        m.tape.len() <= usize::MAX,
        size(t) <= usize::MAX,
        size(coalesce_pass(t)) <= usize::MAX,
        exec(m, t, fuel) is Some,
    ensures
        exists|k1: nat, k2: nat|
            same_outcome(
                #[trigger] run_spec(reframe(m, lower(0, t), 0), k1),
                #[trigger] run_spec(reframe(m, lower(0, coalesce_pass(t)), 0), k2),
            ),
{
    let o = coalesce_pass(t);
    lemma_unit_runs_exec(m, t, fuel);
    lemma_coalesce_exec(m, unit_runs(t), fuel);
    let k1 = lemma_run_program(t, m, fuel);
    let k2 = lemma_run_program(o, m, fuel);
    assert(same_outcome(run_spec(reframe(m, lower(0, t), 0), k1), run_spec(reframe(m, lower(0, o), 0), k2)));
}

/// Zero-loop reduction keeps the behaviour of every program that runs to
/// its end: where the tree runs from a state to its end without a fault
/// (within `fuel` iterations of each loop), the machine runs the lowering of
/// the tree and the lowering of the reduced tree from that state to their
/// ends, with the same pointer, tape and output.
pub proof fn zero_loop_reduction_preserves_runs(t: Seq<Node>, m: Machine, fuel: nat)
    requires
        m.wf(),
        m.tape.len() <= usize::MAX,
        size(t) <= usize::MAX,
        size(clear_loops(t)) <= usize::MAX,
        exec(m, t, fuel) is Some,
    ensures
        exists|k1: nat, k2: nat|
            same_outcome(
                #[trigger] run_spec(reframe(m, lower(0, t), 0), k1),
                #[trigger] run_spec(reframe(m, lower(0, clear_loops(t)), 0), k2),
            ),
{
    let o = clear_loops(t);
    lemma_clear_loops_exec(m, t, fuel);
    let k1 = lemma_run_program(t, m, fuel);
    let k2 = lemma_run_program(o, m, fuel);
    assert(same_outcome(run_spec(reframe(m, lower(0, t), 0), k1), run_spec(reframe(m, lower(0, o), 0), k2)));
}

} // verus!
