use vstd::arithmetic::mul::lemma_mul_is_distributive_add;
use vstd::prelude::*;
use crate::bytecode::{lower, size};
use crate::coalesce::{coalesce_pass, unit_runs};
use crate::equivalence::{apply, sane, lemma_apply_val, lemma_mod_shift};
use crate::fusion::{Scan, fuse, fuse_node, fused, mul_nodes, qualifies, scan};
use crate::ir::Node;
use crate::optimizers::optimized;
use crate::semantics::{
    exec, exec_node, reframe, run_loop, same_outcome, lemma_clear_loops_exec, lemma_coalesce_exec,
    lemma_exec_push, lemma_exec_sane, lemma_run_program, lemma_unit_runs_exec,
};
use crate::vm::{Machine, run_spec};
use crate::zero_loop::clear_loops;

verus! {

/// The tape with `times` times each increment added at its offset from `p`,
/// modulo 256, in order.
pub open spec fn add_incs(tape: Seq<u8>, p: int, incs: Seq<(isize, u8)>, times: nat) -> Seq<u8>
    decreases incs.len(),
{
    if incs.len() == 0 {
        tape
    } else {
        let t = add_incs(tape, p, incs.drop_last(), times);
        let o = incs.last().0 as int;
        t.update(p + o, ((t[p + o] + times * incs.last().1) % 256) as u8)
    }
}

/// A scan that may still end in a fusion.
pub open spec fn clean(sc: Scan) -> bool {
    &&& !sc.side_effect
    &&& sc.in_range
    &&& !sc.stray
    &&& (sc.counter_decs.len() == 0 || sc.counter_decs == seq![1u8])
}

/// The state after running a prefix of a loop body whose scan is `sc`, from `x`.
pub open spec fn body_state(x: Machine, sc: Scan) -> Machine {
    let p = x.pointer as int;
    Machine {
        pointer: (p + sc.offset) as nat,
        tape: add_incs(x.tape, p, sc.incs, 1).update(
            p,
            if sc.counter_decs.len() == 0 {
                x.cell()
            } else {
                ((x.cell() + 255) % 256) as u8
            },
        ),
        ..x
    }
}

/// Every recorded increment is away from the counter cell.
pub open spec fn offsets_nonzero(incs: Seq<(isize, u8)>) -> bool {
    forall|i: int| 0 <= i < incs.len() ==> (#[trigger] incs[i]).0 != 0
}

/// Every recorded increment lands on the tape.
pub open spec fn targets_in(incs: Seq<(isize, u8)>, p: int, len: nat) -> bool {
    forall|i: int| 0 <= i < incs.len() ==> 0 <= p + (#[trigger] incs[i]).0 < len
}

/// A scan's offset fits in an `isize`, it records increments away from the
/// counter cell only, and a clean scan has a clean prefix.
proof fn lemma_scan_facts(b: Seq<Node>)
    ensures
        isize::MIN <= scan(b).offset <= isize::MAX,
        offsets_nonzero(scan(b).incs),
        b.len() > 0 && clean(scan(b)) ==> clean(scan(b.drop_last())),
    decreases b.len(),
{
    if b.len() > 0 {
        lemma_scan_facts(b.drop_last());
        let sc = scan(b.drop_last());
        let s2 = scan(b);
        assert forall|i: int| 0 <= i < s2.incs.len() implies (#[trigger] s2.incs[i]).0 != 0 by {
            if i < sc.incs.len() {
                assert(s2.incs[i] == sc.incs[i]);
            }
        }
        if clean(s2) {
            if sc.counter_decs.len() > 0 {
                assert(sc.counter_decs.len() <= s2.counter_decs.len());
                assert(sc.counter_decs =~= seq![1u8]);
            }
        }
    }
}

/// Adding increments never touches the counter cell and keeps the length.
proof fn lemma_add_incs_frame(tape: Seq<u8>, p: int, incs: Seq<(isize, u8)>, times: nat, v: u8)
    requires
        offsets_nonzero(incs),
        targets_in(incs, p, tape.len()),
        0 <= p < tape.len(),
    ensures
        add_incs(tape, p, incs, times).len() == tape.len(),
        add_incs(tape.update(p, v), p, incs, times) == add_incs(tape, p, incs, times).update(p, v),
    decreases incs.len(),
{
    if incs.len() > 0 {
        let d = incs.drop_last();
        assert(offsets_nonzero(d)) by {
            assert forall|i: int| 0 <= i < d.len() implies (#[trigger] d[i]).0 != 0 by {
                assert(d[i] == incs[i]);
            }
        }
        assert(targets_in(d, p, tape.len())) by {
            assert forall|i: int| 0 <= i < d.len() implies 0 <= p + (#[trigger] d[i]).0 < tape.len() by {
                assert(d[i] == incs[i]);
            }
        }
        assert(0 <= p + incs[incs.len() - 1].0 < tape.len());
        lemma_add_incs_frame(tape, p, d, times, v);
        assert(incs[incs.len() - 1].0 != 0);
        let t = add_incs(tape, p, d, times);
        let o = incs.last().0 as int;
        assert(add_incs(tape.update(p, v), p, incs, times) =~= add_incs(tape, p, incs, times).update(
            p,
            v,
        ));
    }
}

/// Running a clean prefix of a loop body moves the pointer by the scan's
/// offset, adds each increment once, and decrements the counter when the
/// scan saw its decrement.
proof fn lemma_body_state(x: Machine, b: Seq<Node>, fuel: nat)
    requires
        sane(x),
        clean(scan(b)),
        exec(x, b, fuel) is Some,
    ensures
        exec(x, b, fuel) == Some(body_state(x, scan(b))),
        targets_in(scan(b).incs, x.pointer as int, x.tape.len()),
        0 <= x.pointer + scan(b).offset < x.tape.len(),
    decreases b.len(),
{
    let p = x.pointer as int;
    if b.len() == 0 {
        assert(x.tape.update(p, x.cell()) =~= x.tape);
        assert(body_state(x, scan(b)) == x);
    } else {
        let d = b.drop_last();
        let n = b.last();
        lemma_scan_facts(b);
        lemma_scan_facts(d);
        lemma_body_state(x, d, fuel);
        lemma_exec_sane(x, d, fuel);
        let sd = body_state(x, scan(d));
        let sc = scan(d);
        assert(!(n is Loop));
        assert(exec_node(sd, n, fuel) == apply(sd, n));
        let ctr = if sc.counter_decs.len() == 0 {
            x.cell()
        } else {
            ((x.cell() + 255) % 256) as u8
        };
        let a = add_incs(x.tape, p, sc.incs, 1);
        lemma_add_incs_frame(x.tape, p, sc.incs, 1, 0);
        assert(sane(sd));
        assert(a.len() == x.tape.len());
        assert(sd.pointer == p + sc.offset);
        match n {
            Node::IncVal(v) => {
                lemma_apply_val(sd, n);
                let o = sc.offset;
                assert(o != 0);
                assert(scan(b).incs == sc.incs.push((o as isize, v)));
                assert(sc.incs.push((o as isize, v)).drop_last() =~= sc.incs);
                assert(sd.tape[p + o] == a[p + o]);
                assert(apply(sd, n)->0.tape =~= body_state(x, scan(b)).tape);
                let ni = sc.incs.push((o as isize, v));
                assert forall|i: int| 0 <= i < ni.len() implies 0 <= p + (#[trigger] ni[i]).0
                    < x.tape.len() by {
                    if i < sc.incs.len() {
                        assert(ni[i] == sc.incs[i]);
                    }
                }
            },
            Node::DecVal(v) => {
                lemma_apply_val(sd, n);
                assert(sc.offset == 0);
                assert(scan(b).counter_decs == sc.counter_decs.push(v));
                assert(sc.counter_decs.len() == 0);
                assert(sc.counter_decs.push(v)[0] == v);
                assert(v == 1);
                assert(sd.cell() == x.cell());
                assert(apply(sd, n)->0.tape =~= body_state(x, scan(b)).tape);
            },
            _ => {
                assert(scan(b).incs == sc.incs);
            },
        }
    }
}

/// The sum of the increments recorded at offset `o`.
pub open spec fn total(incs: Seq<(isize, u8)>, o: int) -> int
    decreases incs.len(),
{
    if incs.len() == 0 {
        0
    } else {
        total(incs.drop_last(), o) + if incs.last().0 == o {
            incs.last().1 as int
        } else {
            0
        }
    }
}

/// Adding increments keeps the tape's length.
proof fn lemma_add_incs_len(tape: Seq<u8>, p: int, incs: Seq<(isize, u8)>, times: nat)
    requires
        targets_in(incs, p, tape.len()),
    ensures
        add_incs(tape, p, incs, times).len() == tape.len(),
    decreases incs.len(),
{
    if incs.len() > 0 {
        let d = incs.drop_last();
        assert(targets_in(d, p, tape.len())) by {
            assert forall|i: int| 0 <= i < d.len() implies 0 <= p + (#[trigger] d[i]).0 < tape.len() by {
                assert(d[i] == incs[i]);
            }
        }
        assert(0 <= p + incs[incs.len() - 1].0 < tape.len());
        lemma_add_incs_len(tape, p, d, times);
    }
}

/// Each cell after adding increments `times` times, modulo 256.
proof fn lemma_add_incs_index(tape: Seq<u8>, p: int, incs: Seq<(isize, u8)>, times: nat, j: int)
    requires
        targets_in(incs, p, tape.len()),
        0 <= j < tape.len(),
    ensures
        add_incs(tape, p, incs, times).len() == tape.len(),
        add_incs(tape, p, incs, times)[j] == (tape[j] + times * total(incs, j - p)) % 256,
        total(incs, j - p) >= 0,
    decreases incs.len(),
{
    if incs.len() == 0 {
        assert((tape[j] as int) % 256 == tape[j] as int);
    } else {
        let d = incs.drop_last();
        assert(targets_in(d, p, tape.len())) by {
            assert forall|i: int| 0 <= i < d.len() implies 0 <= p + (#[trigger] d[i]).0 < tape.len() by {
                assert(d[i] == incs[i]);
            }
        }
        assert(0 <= p + incs[incs.len() - 1].0 < tape.len());
        lemma_add_incs_index(tape, p, d, times, j);
        let o = incs.last().0 as int;
        let v = incs.last().1 as int;
        let q = p + o;
        if j == q {
            lemma_add_incs_index(tape, p, d, times, q);
            lemma_mod_shift(tape[j] + times * total(d, j - p), times * v);
            lemma_mul_is_distributive_add(times as int, total(d, j - p), v);
        }
    }
}

/// Adding increments once and then `k` times is adding them `k + 1` times.
proof fn lemma_add_incs_twice(tape: Seq<u8>, p: int, incs: Seq<(isize, u8)>, k: nat)
    requires
        targets_in(incs, p, tape.len()),
    ensures
        add_incs(add_incs(tape, p, incs, 1), p, incs, k) == add_incs(tape, p, incs, k + 1),
{
    let once = add_incs(tape, p, incs, 1);
    lemma_add_incs_len(tape, p, incs, 1);
    lemma_add_incs_len(tape, p, incs, k + 1);
    lemma_add_incs_len(once, p, incs, k);
    assert forall|j: int| 0 <= j < tape.len() implies add_incs(once, p, incs, k)[j] == add_incs(
        tape,
        p,
        incs,
        k + 1,
    )[j] by {
        lemma_add_incs_index(tape, p, incs, 1, j);
        lemma_add_incs_index(once, p, incs, k, j);
        lemma_add_incs_index(tape, p, incs, k + 1, j);
        let t = total(incs, j - p);
        lemma_mod_shift(tape[j] + t, k * t);
        assert((k + 1) * t == k * t + t) by (nonlinear_arith);
    }
    assert(add_incs(once, p, incs, k) =~= add_incs(tape, p, incs, k + 1));
}

/// Adding increments zero times changes nothing.
proof fn lemma_add_incs_none(tape: Seq<u8>, p: int, incs: Seq<(isize, u8)>)
    requires
        targets_in(incs, p, tape.len()),
    ensures
        add_incs(tape, p, incs, 0) == tape,
{
    lemma_add_incs_len(tape, p, incs, 0);
    assert forall|j: int| 0 <= j < tape.len() implies add_incs(tape, p, incs, 0)[j] == tape[j] by {
        lemma_add_incs_index(tape, p, incs, 0, j);
    }
    assert(add_incs(tape, p, incs, 0) =~= tape);
}

/// The state after a fused loop: each increment added once per unit of the
/// counter, then the counter cleared.
pub open spec fn fused_state(x: Machine, incs: Seq<(isize, u8)>) -> Machine {
    let p = x.pointer as int;
    Machine { tape: add_incs(x.tape, p, incs, x.cell() as nat).update(p, 0), ..x }
}

/// Increments away from the counter add nothing to it.
proof fn lemma_total_zero(incs: Seq<(isize, u8)>)
    requires
        offsets_nonzero(incs),
    ensures
        total(incs, 0) == 0,
    decreases incs.len(),
{
    if incs.len() > 0 {
        let d = incs.drop_last();
        assert(offsets_nonzero(d)) by {
            assert forall|i: int| 0 <= i < d.len() implies (#[trigger] d[i]).0 != 0 by {
                assert(d[i] == incs[i]);
            }
        }
        assert(incs[incs.len() - 1].0 != 0);
        lemma_total_zero(d);
    }
}

/// A qualifying loop that runs to its end leaves the state a fused loop
/// leaves.
proof fn lemma_loop_iterates(x: Machine, b: Seq<Node>, fuel: nat)
    requires
        sane(x),
        qualifies(b),
        run_loop(x, b, fuel) is Some,
        targets_in(scan(b).incs, x.pointer as int, x.tape.len()),
    ensures
        run_loop(x, b, fuel) == Some(fused_state(x, scan(b).incs)),
    decreases fuel,
{
    let p = x.pointer as int;
    let sc = scan(b);
    let incs = sc.incs;
    lemma_scan_facts(b);
    lemma_add_incs_len(x.tape, p, incs, x.cell() as nat);
    if x.cell() == 0 {
        lemma_add_incs_none(x.tape, p, incs);
        assert(x.tape.update(p, 0) =~= x.tape);
        assert(fused_state(x, incs) == x);
    } else {
        let f = (fuel - 1) as nat;
        assert(clean(sc));
        lemma_body_state(x, b, f);
        lemma_exec_sane(x, b, f);
        let x1 = exec(x, b, f)->0;
        let c = x.cell() as int;
        let a1 = add_incs(x.tape, p, incs, 1);
        lemma_add_incs_len(x.tape, p, incs, 1);
        assert(x1.pointer == x.pointer);
        assert(x1.tape == a1.update(p, ((c + 255) % 256) as u8));
        assert((c + 255) % 256 == c - 1);
        assert(x1.cell() == c - 1);
        lemma_loop_iterates(x1, b, f);
        let k = (c - 1) as nat;
        lemma_add_incs_frame(a1, p, incs, k, (c - 1) as u8);
        lemma_add_incs_twice(x.tape, p, incs, k);
        assert(fused_state(x1, incs).tape =~= fused_state(x, incs).tape);
    }
}

/// Running the multiply-adds of `incs` adds each increment once per unit of
/// the counter, and each lands on the tape.
proof fn lemma_mul_exec(x: Machine, incs: Seq<(isize, u8)>, fuel: nat)
    requires
        sane(x),
        offsets_nonzero(incs),
        exec(x, mul_nodes(incs), fuel) is Some,
    ensures
        exec(x, mul_nodes(incs), fuel) == Some(
            Machine { tape: add_incs(x.tape, x.pointer as int, incs, x.cell() as nat), ..x },
        ),
        targets_in(incs, x.pointer as int, x.tape.len()),
    decreases incs.len(),
{
    let p = x.pointer as int;
    let c = x.cell() as nat;
    if incs.len() == 0 {
        assert(mul_nodes(incs) == Seq::<Node>::empty());
    } else {
        let d = incs.drop_last();
        assert(offsets_nonzero(d)) by {
            assert forall|i: int| 0 <= i < d.len() implies (#[trigger] d[i]).0 != 0 by {
                assert(d[i] == incs[i]);
            }
        }
        let n = Node::MulVal(incs.last().0, incs.last().1);
        assert(mul_nodes(incs) == mul_nodes(d).push(n));
        lemma_exec_push(x, mul_nodes(d), n, fuel);
        lemma_mul_exec(x, d, fuel);
        let t = add_incs(x.tape, p, d, c);
        let y = Machine { tape: t, ..x };
        lemma_add_incs_len(x.tape, p, d, c);
        lemma_total_zero(d);
        lemma_add_incs_index(x.tape, p, d, c, p);
        assert(y.cell() == x.cell());
        assert(exec_node(y, n, fuel) == apply(y, n));
        let o = incs.last().0 as int;
        assert(0 <= p + o < x.tape.len());
        assert(apply(y, n)->0.tape =~= add_incs(x.tape, p, incs, c));
        assert forall|i: int| 0 <= i < incs.len() implies 0 <= p + (#[trigger] incs[i]).0
            < x.tape.len() by {
            if i < d.len() {
                assert(incs[i] == d[i]);
            }
        }
    }
}

/// Running a fused loop's replacement, where it runs to its end, leaves the
/// state a fused loop leaves, with each increment landing on the tape.
proof fn lemma_fused_exec(x: Machine, incs: Seq<(isize, u8)>, fuel: nat)
    requires
        sane(x),
        offsets_nonzero(incs),
        exec(x, mul_nodes(incs).push(Node::Clear), fuel) is Some,
    ensures
        exec(x, mul_nodes(incs).push(Node::Clear), fuel) == Some(fused_state(x, incs)),
        targets_in(incs, x.pointer as int, x.tape.len()),
{
    lemma_exec_push(x, mul_nodes(incs), Node::Clear, fuel);
    lemma_mul_exec(x, incs, fuel);
    let y = exec(x, mul_nodes(incs), fuel)->0;
    assert(exec_node(y, Node::Clear, fuel) == apply(y, Node::Clear));
}

/// Running two trees one after the other.
proof fn lemma_exec_concat(m: Machine, a: Seq<Node>, b: Seq<Node>, fuel: nat)
    ensures
        exec(m, a + b, fuel) == match exec(m, a, fuel) {
            Some(m1) => exec(m1, b, fuel),
            None => None,
        },
    decreases b.len(),
{
    if b.len() == 0 {
        assert(a + b =~= a);
    } else {
        lemma_exec_concat(m, a, b.drop_last(), fuel);
        assert((a + b).drop_last() =~= a + b.drop_last());
        assert((a + b).last() == b.last());
    }
}

/// Fusion keeps what a tree gives wherever both the tree and the fused tree
/// run to their ends.
proof fn lemma_fuse_exec(m: Machine, s: Seq<Node>, fuel: nat)
    requires
        sane(m),
        exec(m, s, fuel) is Some,
        exec(m, fuse(s), fuel) is Some,
    ensures
        exec(m, fuse(s), fuel) == exec(m, s, fuel),
    decreases fuel, s,
{
    if s.len() > 0 {
        let d = s.drop_last();
        let n = s.last();
        lemma_exec_concat(m, fuse(d), fuse_node(n), fuel);
        lemma_fuse_exec(m, d, fuel);
        lemma_exec_sane(m, d, fuel);
        lemma_fuse_node_exec(exec(m, d, fuel)->0, n, fuel);
    } else {
        assert(fuse(s) == Seq::<Node>::empty());
    }
}

/// Fusion keeps what a node gives wherever both run to their ends.
proof fn lemma_fuse_node_exec(x: Machine, n: Node, fuel: nat)
    requires
        sane(x),
        exec_node(x, n, fuel) is Some,
        exec(x, fuse_node(n), fuel) is Some,
    ensures
        exec(x, fuse_node(n), fuel) == exec_node(x, n, fuel),
    decreases fuel, n,
{
    match n {
        Node::Loop(b) => {
            if qualifies(b) {
                lemma_scan_facts(b);
                let incs = scan(b).incs;
                assert(fused(scan(b)) == mul_nodes(incs).push(Node::Clear));
                lemma_fused_exec(x, incs, fuel);
                lemma_loop_iterates(x, b, fuel);
            } else {
                let l = Node::Loop(fuse(b));
                lemma_exec_push(x, Seq::<Node>::empty(), l, fuel);
                assert(Seq::<Node>::empty().push(l) =~= seq![l]);
                assert(exec(x, Seq::<Node>::empty(), fuel) == Some(x));
                lemma_fuse_loop_exec(x, b, fuel);
            }
        },
        _ => {
            lemma_exec_push(x, Seq::<Node>::empty(), n, fuel);
            assert(Seq::<Node>::empty().push(n) =~= seq![n]);
            assert(exec(x, Seq::<Node>::empty(), fuel) == Some(x));
        },
    }
}

/// Fusion inside a loop body keeps what the loop gives wherever both run
/// to their ends.
proof fn lemma_fuse_loop_exec(x: Machine, b: Seq<Node>, fuel: nat)
    requires
        sane(x),
        run_loop(x, b, fuel) is Some,
        run_loop(x, fuse(b), fuel) is Some,
    ensures
        run_loop(x, fuse(b), fuel) == run_loop(x, b, fuel),
    decreases fuel, b,
{
    if x.cell() != 0 {
        let f = (fuel - 1) as nat;
        lemma_fuse_exec(x, b, f);
        lemma_exec_sane(x, b, f);
        lemma_fuse_loop_exec(exec(x, b, f)->0, b, f);
    }
}

/// Fusion keeps the behaviour of every program that runs to its end where
/// the fused program does too: where the tree and the fused tree both run
/// from a state to their ends without a fault (within `fuel` iterations of
/// each loop), the machine runs their lowerings from that state to their
/// ends, with the same pointer, tape and output.
pub proof fn fusion_preserves_runs(t: Seq<Node>, m: Machine, fuel: nat)
    requires
        m.wf(),
        m.tape.len() <= usize::MAX,
        size(t) <= usize::MAX,
        size(fuse(t)) <= usize::MAX,
        exec(m, t, fuel) is Some,
        exec(m, fuse(t), fuel) is Some,
    ensures
        exists|k1: nat, k2: nat|
            same_outcome(
                #[trigger] run_spec(reframe(m, lower(0, t), 0), k1),
                #[trigger] run_spec(reframe(m, lower(0, fuse(t)), 0), k2),
            ),
{
    let o = fuse(t);
    lemma_fuse_exec(m, t, fuel);
    let k1 = lemma_run_program(t, m, fuel);
    let k2 = lemma_run_program(o, m, fuel);
    assert(same_outcome(run_spec(reframe(m, lower(0, t), 0), k1), run_spec(reframe(m, lower(0, o), 0), k2)));
}

/// The whole optimizer keeps the behaviour of every program that runs to
/// its end, where fusion of its coalesced tree does not add a fault: the
/// machine runs the lowering of the tree and the lowering of the optimized
/// tree from the state to their ends, with the same pointer, tape and output.
pub proof fn optimization_preserves_runs(t: Seq<Node>, m: Machine, fuel: nat)
    requires
        m.wf(),
        m.tape.len() <= usize::MAX,
        size(t) <= usize::MAX,
        size(optimized(t)) <= usize::MAX,
        exec(m, t, fuel) is Some,
        exec(m, fuse(coalesce_pass(t)), fuel) is Some,
    ensures
        exists|k1: nat, k2: nat|
            same_outcome(
                #[trigger] run_spec(reframe(m, lower(0, t), 0), k1),
                #[trigger] run_spec(reframe(m, lower(0, optimized(t)), 0), k2),
            ),
{
    let c = coalesce_pass(t);
    lemma_unit_runs_exec(m, t, fuel);
    lemma_coalesce_exec(m, unit_runs(t), fuel);
    let f = fuse(c);
    lemma_fuse_exec(m, c, fuel);
    lemma_clear_loops_exec(m, f, fuel);
    let o = optimized(t);
    assert(o == clear_loops(f));
    let k1 = lemma_run_program(t, m, fuel);
    let k2 = lemma_run_program(o, m, fuel);
    assert(same_outcome(run_spec(reframe(m, lower(0, t), 0), k1), run_spec(reframe(m, lower(0, o), 0), k2)));
}

} // verus!
