use vstd::prelude::*;
use crate::bytecode::{lower, lower_node, size};
use crate::coalesce::{
    bump, coalesce, coalesce_node, is_ptr, is_val, merge, same_family, unit_runs, unit_runs_node,
};
use crate::fusion::{fuse, fuse_node};
use crate::ir::Node;
use vstd::arithmetic::div_mod::{lemma_fundamental_div_mod, lemma_mod_multiples_vanish};
use crate::optimizers::optimized;
use crate::vm::{Fault, Machine, Status, run_spec, step_spec};
use crate::zero_loop::{clear_loops, clear_loops_node};

verus! {

/// No loop in the sequence.
pub open spec fn loop_free(s: Seq<Node>) -> bool {
    forall|i: int| 0 <= i < s.len() ==> !(#[trigger] s[i] is Loop)
}

/// The effect of one loop-free node on the pointer, the tape and the output,
/// as the machine's step gives it; `None` where the step faults.
pub open spec fn apply(m: Machine, n: Node) -> Option<Machine> {
    let p = m.pointer as int;
    let cell = m.cell();
    match n {
        Node::IncVal(_) | Node::DecVal(_) => Some(
            Machine { tape: m.tape.update(p, ((cell + delta(n)) % 256) as u8), ..m },
        ),
        Node::IncPtr(a) => if p + a < m.tape.len() {
            Some(Machine { pointer: (p + a) as nat, ..m })
        } else {
            None
        },
        Node::DecPtr(a) => if a <= p {
            Some(Machine { pointer: (p - a) as nat, ..m })
        } else {
            None
        },
        Node::MulVal(o, a) => if 0 <= p + o < m.tape.len() {
            Some(
                Machine {
                    tape: m.tape.update(p + o, ((m.tape[p + o] + cell * a) % 256) as u8),
                    ..m
                },
            )
        } else {
            None
        },
        Node::Clear => Some(Machine { tape: m.tape.update(p, 0), ..m }),
        Node::Output => Some(Machine { output: m.output.push(cell), ..m }),
        _ => None,
    }
}

/// The effect of a loop-free sequence, node after node.
pub open spec fn apply_seq(m: Machine, s: Seq<Node>) -> Option<Machine>
    decreases s.len(),
{
    if s.len() == 0 {
        Some(m)
    } else {
        match apply_seq(m, s.drop_last()) {
            Some(m1) => apply(m1, s.last()),
            None => None,
        }
    }
}

/// A state that a step of a well-formed machine can act on.
pub open spec fn sane(m: Machine) -> bool {
    m.wf() && m.tape.len() <= usize::MAX
}

/// The effect of a sequence with one more node.
proof fn lemma_apply_seq_push(m: Machine, s: Seq<Node>, n: Node)
    ensures
        apply_seq(m, s.push(n)) == match apply_seq(m, s) {
            Some(m1) => apply(m1, n),
            None => None,
        },
{
    assert(s.push(n).drop_last() =~= s);
}

/// An effect keeps the state sane and the program counter where it was.
pub proof fn lemma_apply_sane(m: Machine, n: Node)
    requires
        sane(m),
        apply(m, n) is Some,
    ensures
        sane(apply(m, n)->0),
        apply(m, n)->0.program == m.program,
        apply(m, n)->0.index == m.index,
        apply(m, n)->0.tape.len() == m.tape.len(),
{
}

/// The effect of a sequence keeps the state sane.
proof fn lemma_apply_seq_sane(m: Machine, s: Seq<Node>)
    requires
        sane(m),
        apply_seq(m, s) is Some,
    ensures
        sane(apply_seq(m, s)->0),
        apply_seq(m, s)->0.program == m.program,
        apply_seq(m, s)->0.index == m.index,
        apply_seq(m, s)->0.tape.len() == m.tape.len(),
    decreases s.len(),
{
    if s.len() > 0 {
        lemma_apply_seq_sane(m, s.drop_last());
        lemma_apply_sane(apply_seq(m, s.drop_last())->0, s.last());
    }
}

/// Reducing a sum modulo 256 before adding more changes nothing modulo 256.
pub proof fn lemma_mod_shift(u: int, j: int)
    ensures
        (u % 256 + j) % 256 == (u + j) % 256,
{
    lemma_fundamental_div_mod(u, 256);
    lemma_mod_multiples_vanish(u / 256, u % 256 + j, 256);
    assert(u + j == 256 * (u / 256) + (u % 256 + j));
}

/// The amount that a value change adds to the cell, modulo 256.
pub open spec fn delta(n: Node) -> int {
    match n {
        Node::IncVal(x) => x as int,
        Node::DecVal(x) => 256 - x,
        _ => 0,
    }
}

/// Adding amounts that differ by a multiple of 256 gives one cell value.
proof fn lemma_mod_congruent(c: int, d1: int, d2: int)
    requires
        (d1 - d2) % 256 == 0,
    ensures
        (c + d1) % 256 == (c + d2) % 256,
{
    lemma_fundamental_div_mod(d1 - d2, 256);
    lemma_mod_multiples_vanish((d1 - d2) / 256, c + d2, 256);
    assert(c + d1 == 256 * ((d1 - d2) / 256) + (c + d2));
}

/// A combined value change adds what the two changes add, modulo 256.
proof fn lemma_merge_delta(a: Node, b: Node)
    requires
        is_val(a),
        is_val(b),
    ensures
        merge(a, b) matches Some(n) ==> (delta(a) + delta(b) - delta(n)) % 256 == 0 && is_val(n),
        merge(a, b) is None ==> (delta(a) + delta(b)) % 256 == 0,
{
    match (a, b) {
        (Node::IncVal(x), Node::IncVal(y)) => {
            lemma_fundamental_div_mod(x + y, 256);
            assert(x + y - (x + y) % 256 == 256 * ((x + y) / 256));
            lemma_mod_multiples_vanish((x + y) / 256, 0, 256);
        },
        (Node::DecVal(x), Node::DecVal(y)) => {
            lemma_fundamental_div_mod(x + y, 256);
            lemma_mod_multiples_vanish(1 - (x + y) / 256, 0, 256);
            assert((256 - x) + (256 - y) - (256 - (x + y) % 256) == 256 * (1 - (x + y) / 256));
        },
        _ => {
            lemma_mod_multiples_vanish(1, 0, 256);
            lemma_mod_multiples_vanish(0, 0, 256);
        },
    }
}

/// The effect of a value change.
pub proof fn lemma_apply_val(m: Machine, n: Node)
    requires
        is_val(n),
    ensures
        apply(m, n) == Some(
            Machine {
                tape: m.tape.update(m.pointer as int, ((m.cell() + delta(n)) % 256) as u8),
                ..m
            },
        ),
{
}

/// Two value changes in a row have the effect of their combination.
proof fn lemma_merge_val(m: Machine, a: Node, b: Node)
    requires
        sane(m),
        is_val(a),
        is_val(b),
    ensures
        merge(a, b) matches Some(c) ==> apply(m, c) == apply(apply(m, a)->0, b),
        merge(a, b) is None ==> apply(apply(m, a)->0, b) == Some(m),
{
    let p = m.pointer as int;
    let c = m.cell() as int;
    lemma_apply_val(m, a);
    let m1 = apply(m, a)->0;
    lemma_apply_val(m1, b);
    assert(m1.tape[p] == (c + delta(a)) % 256);
    lemma_mod_shift(c + delta(a), delta(b));
    let total = (c + delta(a) + delta(b)) % 256;
    assert(apply(m1, b)->0.tape =~= m.tape.update(p, total as u8));
    lemma_merge_delta(a, b);
    match merge(a, b) {
        Some(n) => {
            lemma_apply_val(m, n);
            lemma_mod_congruent(c, delta(n), delta(a) + delta(b));
            assert(apply(m, n)->0.tape =~= m.tape.update(p, total as u8));
        },
        None => {
            lemma_mod_congruent(c, delta(a) + delta(b), 0);
            lemma_mod_multiples_vanish(0, c, 256);
            assert(m.tape.update(p, c as u8) =~= m.tape);
        },
    }
}

/// Two pointer motions in a row have the effect of their combination.
proof fn lemma_merge_ptr(m: Machine, a: Node, b: Node)
    requires
        sane(m),
        is_ptr(a),
        is_ptr(b),
        apply(m, a) is Some,
        apply(apply(m, a)->0, b) is Some,
    ensures
        merge(a, b) matches Some(c) ==> apply(m, c) == apply(apply(m, a)->0, b),
        merge(a, b) is None ==> apply(apply(m, a)->0, b) == Some(m),
{
}

/// A combined node has the effect of the two nodes it replaces; where they
/// cancel, the two together change nothing.
pub proof fn lemma_merge_effect(m: Machine, a: Node, b: Node)
    requires
        sane(m),
        same_family(a, b),
        apply(m, a) is Some,
        apply(apply(m, a)->0, b) is Some,
    ensures
        merge(a, b) matches Some(c) ==> apply(m, c) == apply(apply(m, a)->0, b) && !(c is Loop),
        merge(a, b) is None ==> apply(apply(m, a)->0, b) == Some(m),
{
    if is_val(a) {
        lemma_merge_val(m, a, b);
    } else {
        lemma_merge_ptr(m, a, b);
    }
}

/// Folding a single step is combining it.
pub proof fn lemma_bump_is_merge(a: Node, b: Node)
    requires
        bump(a, b) is Some,
    ensures
        same_family(a, b),
        bump(a, b) == merge(a, b),
{
}

/// No loop in a sequence with one more leaf.
proof fn lemma_loop_free_push(s: Seq<Node>, n: Node)
    requires
        loop_free(s),
        !(n is Loop),
    ensures
        loop_free(s.push(n)),
{
    assert forall|i: int| 0 <= i < s.push(n).len() implies !(#[trigger] s.push(n)[i] is Loop) by {
        if i < s.len() {
            assert(s.push(n)[i] == s[i]);
        }
    }
}

/// Run coalescing keeps the effect of a loop-free sequence that runs
/// without a fault, and keeps it loop-free.
proof fn lemma_coalesce_effect(m: Machine, s: Seq<Node>)
    requires
        sane(m),
        loop_free(s),
        apply_seq(m, s) is Some,
    ensures
        apply_seq(m, coalesce(s)) == apply_seq(m, s),
        loop_free(coalesce(s)),
    decreases s.len(),
{
    if s.len() > 0 {
        let d = s.drop_last();
        let n = s.last();
        assert(loop_free(d));
        lemma_coalesce_effect(m, d);
        let acc = coalesce(d);
        assert(coalesce_node(n) == n);
        let m1 = apply_seq(m, d)->0;
        if acc.len() > 0 && same_family(acc.last(), n) {
            let rest = acc.drop_last();
            let x = acc.last();
            let m0 = apply_seq(m, rest)->0;
            assert(!(x is Loop));
            lemma_apply_seq_sane(m, rest);
            lemma_merge_effect(m0, x, n);
            assert(loop_free(rest));
            if merge(x, n) is Some {
                lemma_apply_seq_push(m, rest, merge(x, n)->0);
                lemma_loop_free_push(rest, merge(x, n)->0);
            }
        } else {
            lemma_apply_seq_push(m, acc, n);
            lemma_loop_free_push(acc, n);
        }
    }
}

/// Folding single steps keeps the effect of a loop-free sequence that runs
/// without a fault, and keeps it loop-free.
proof fn lemma_unit_runs_effect(m: Machine, s: Seq<Node>)
    requires
        sane(m),
        loop_free(s),
        apply_seq(m, s) is Some,
    ensures
        apply_seq(m, unit_runs(s)) == apply_seq(m, s),
        loop_free(unit_runs(s)),
    decreases s.len(),
{
    if s.len() > 0 {
        let d = s.drop_last();
        let n = s.last();
        assert(loop_free(d));
        lemma_unit_runs_effect(m, d);
        let acc = unit_runs(d);
        assert(unit_runs_node(n) == n);
        if acc.len() > 0 && bump(acc.last(), n) is Some {
            let rest = acc.drop_last();
            let x = acc.last();
            let m0 = apply_seq(m, rest)->0;
            assert(!(x is Loop));
            lemma_bump_is_merge(x, n);
            lemma_apply_seq_sane(m, rest);
            lemma_merge_effect(m0, x, n);
            assert(loop_free(rest));
            lemma_apply_seq_push(m, rest, bump(x, n)->0);
            lemma_loop_free_push(rest, bump(x, n)->0);
        } else {
            lemma_apply_seq_push(m, acc, n);
            lemma_loop_free_push(acc, n);
        }
    }
}

/// Fusion and zero-loop reduction change nothing in a loop-free sequence.
proof fn lemma_loop_free_untouched(s: Seq<Node>)
    requires
        loop_free(s),
    ensures
        fuse(s) == s,
        clear_loops(s) == s,
    decreases s.len(),
{
    if s.len() > 0 {
        let d = s.drop_last();
        assert(loop_free(d));
        lemma_loop_free_untouched(d);
        assert(fuse_node(s.last()) == seq![s.last()]);
        assert(clear_loops_node(s.last()) == s.last());
        assert(d + seq![s.last()] =~= s);
        assert(d.push(s.last()) =~= s);
    } else {
        assert(s =~= Seq::<Node>::empty());
    }
}

/// The lowering of a loop-free sequence: one instruction per node.
proof fn lemma_lower_loop_free(base: nat, s: Seq<Node>)
    requires
        loop_free(s),
    ensures
        lower(base, s).len() == s.len(),
        forall|i: int|
            0 <= i < s.len() ==> #[trigger] lower(base, s)[i] == lower_node(0, s[i])[0],
    decreases s.len(),
{
    if s.len() > 0 {
        let d = s.drop_last();
        assert(loop_free(d));
        lemma_lower_loop_free(base, d);
        let n = s.last();
        assert(!(n is Loop));
        let tail = lower_node(base + size(d), n);
        assert(tail =~= seq![lower_node(0, n)[0]]);
        assert forall|i: int| 0 <= i < s.len() implies #[trigger] lower(base, s)[i] == lower_node(
            0,
            s[i],
        )[0] by {
            if i < d.len() {
                assert(lower(base, s)[i] == lower(base, d)[i]);
                assert(s[i] == d[i]);
            }
        }
    }
}

/// One step on a leaf instruction has the leaf's effect, or faults where the
/// effect is undefined.
pub proof fn lemma_step_leaf(y: Machine, n: Node)
    requires
        sane(y),
        !(n is Loop),
        y.index < y.program.len(),
        y.program[y.index as int] == lower_node(0, n)[0],
    ensures
        apply(y, n) matches Some(z) ==> step_spec(y) == (
            Machine { index: y.index + 1, ..z },
            Ok::<Status, Fault>(Status::Running),
        ),
        apply(y, n) is None ==> step_spec(y).1 is Err,
{
    if is_val(n) {
        lemma_apply_val(y, n);
    }
    match apply(y, n) {
        Some(z) => {
            assert(step_spec(y).0 =~= Machine { index: y.index + 1, ..z });
        },
        None => {},
    }
}

/// The effect of a node does not depend on the program counter.
proof fn lemma_apply_index(x: Machine, n: Node, k: nat)
    ensures
        apply(Machine { index: k, ..x }, n) == match apply(x, n) {
            Some(z) => Some(Machine { index: k, ..z }),
            None => None,
        },
{
    if is_val(n) {
        lemma_apply_val(x, n);
        lemma_apply_val(Machine { index: k, ..x }, n);
    }
}

/// A prefix that faults makes the whole sequence fault.
proof fn lemma_apply_seq_prefix(m: Machine, s: Seq<Node>, k: int)
    requires
        0 <= k <= s.len(),
        apply_seq(m, s.take(k)) is None,
    ensures
        apply_seq(m, s) is None,
    decreases s.len() - k,
{
    if k == s.len() {
        assert(s.take(k) =~= s);
    } else {
        assert(s.take(k + 1).drop_last() =~= s.take(k));
        lemma_apply_seq_prefix(m, s, k + 1);
    }
}

/// The state `m` with the program counter at `k`.
pub open spec fn at_index(m: Machine, k: nat) -> Machine {
    Machine { index: k, ..m }
}

/// A run that ended at the end of its program.
pub open spec fn halted(r: (Machine, Result<Status, Fault>)) -> bool {
    r.1 == Ok::<Status, Fault>(Status::Halted)
}

/// From the state after `k` nodes, a loop-free program runs to its end
/// exactly when the whole sequence has an effect, and ends in that effect.
proof fn lemma_run_from(m: Machine, s: Seq<Node>, k: nat, fuel: nat)
    requires
        loop_free(s),
        sane(m),
        m.program == lower(0, s),
        m.index == 0,
        k <= s.len(),
        fuel > s.len() - k,
        (apply_seq(m, s.take(k as int)) is Some),
    ensures
        halted(run_spec(at_index(apply_seq(m, s.take(k as int))->0, k), fuel)) == (apply_seq(m, s) is Some),
        (apply_seq(m, s) is Some) ==> run_spec(at_index(apply_seq(m, s.take(k as int))->0, k), fuel).0
            == at_index(apply_seq(m, s)->0, s.len()),
    decreases s.len() - k,
{
    lemma_lower_loop_free(0, s);
    let x = apply_seq(m, s.take(k as int))->0;
    lemma_apply_seq_sane(m, s.take(k as int));
    let y = Machine { index: k, ..x };
    if k == s.len() {
        assert(s.take(k as int) =~= s);
        assert(step_spec(y) == (y, Ok::<Status, Fault>(Status::Halted)));
    } else {
        let n = s[k as int];
        assert(!(n is Loop));
        lemma_step_leaf(y, n);
        lemma_apply_index(x, n, k);
        assert(s.take(k as int + 1).drop_last() =~= s.take(k as int));
        assert(s.take(k as int + 1).last() == n);
        if apply(x, n) is Some {
            let z = apply(x, n)->0;
            assert(apply_seq(m, s.take(k as int + 1)) == Some(z));
            assert(Machine { index: (k + 1) as nat, ..z } == Machine {
                index: (k + 1) as nat,
                ..apply_seq(m, s.take(k as int + 1))->0
            });
            lemma_run_from(m, s, (k + 1) as nat, (fuel - 1) as nat);
        } else {
            assert(apply_seq(m, s.take(k as int + 1)) is None);
            lemma_apply_seq_prefix(m, s, k as int + 1);
        }
    }
}

/// A loop-free program run from its start: it runs to its end exactly when
/// the sequence has an effect, and ends in that effect.
proof fn lemma_run_loop_free(s: Seq<Node>, m: Machine)
    requires
        loop_free(s),
        sane(m),
    ensures
        ({
            let r = run_spec(Machine { program: lower(0, s), index: 0, ..m }, s.len() + 1);
            let e = apply_seq(Machine { program: lower(0, s), index: 0, ..m }, s);
            &&& (r.1 == Ok::<Status, Fault>(Status::Halted)) == (e is Some)
            &&& e is Some ==> r.0 == Machine { index: s.len(), ..e->0 }
        }),
{
    let m0 = Machine { program: lower(0, s), index: 0, ..m };
    assert(s.take(0) =~= Seq::<Node>::empty());
    assert(Machine { index: 0, ..m0 } == m0);
    lemma_run_from(m0, s, 0, s.len() + 1);
}

/// Optimization preserves the behaviour of loop-free programs: where the
/// unoptimized program runs from a state to its end without a fault, the
/// optimized program runs from that state to its end as well, with the same
/// pointer, tape and output.
pub proof fn loop_free_optimization_preserves_runs(t: Seq<Node>, m: Machine)
    requires
        loop_free(t),
        m.wf(),
        m.tape.len() <= usize::MAX,
        run_spec(Machine { program: lower(0, t), index: 0, ..m }, t.len() + 1).1 == Ok::<
            Status,
            Fault,
        >(Status::Halted),
    ensures
        ({
            let a = run_spec(Machine { program: lower(0, t), index: 0, ..m }, t.len() + 1);
            let o = optimized(t);
            let b = run_spec(Machine { program: lower(0, o), index: 0, ..m }, o.len() + 1);
            &&& b.1 == Ok::<Status, Fault>(Status::Halted)
            &&& b.0.pointer == a.0.pointer
            &&& b.0.tape == a.0.tape
            &&& b.0.output == a.0.output
        }),
{
    let o = optimized(t);
    let ma = Machine { program: lower(0, t), index: 0, ..m };
    let mb = Machine { program: lower(0, o), index: 0, ..m };
    lemma_run_loop_free(t, m);
    lemma_unit_runs_effect(ma, t);
    let u = unit_runs(t);
    lemma_coalesce_effect(ma, u);
    let c = coalesce(u);
    lemma_loop_free_untouched(c);
    assert(o == c);
    lemma_apply_seq_program(ma, mb, o);
    lemma_run_loop_free(o, m);
}

/// The effect of a sequence does not depend on the program.
proof fn lemma_apply_seq_program(ma: Machine, mb: Machine, s: Seq<Node>)
    requires
        mb == (Machine { program: mb.program, index: mb.index, ..ma }),
    ensures
        apply_seq(mb, s) == match apply_seq(ma, s) {
            Some(z) => Some(Machine { program: mb.program, index: mb.index, ..z }),
            None => None,
        },
    decreases s.len(),
{
    if s.len() > 0 {
        lemma_apply_seq_program(ma, mb, s.drop_last());
        match apply_seq(ma, s.drop_last()) {
            Some(z) => {
                let zb = Machine { program: mb.program, index: mb.index, ..z };
                if is_val(s.last()) {
                    lemma_apply_val(z, s.last());
                    lemma_apply_val(zb, s.last());
                }
            },
            None => {},
        }
    }
}

} // verus!
