use vstd::prelude::*;
use vstd::string::*;
use crate::ir::{Expression, Node, node_of, nodes_of, lemma_nodes_of, lemma_nodes_of_take};
use crate::transpilers::{decimal, push_decimal, push_signed_decimal, push_tabs, signed_decimal, tabs};

verus! {

/// One instruction of the flat, address-indexed form of a program.
#[derive(Debug, Clone, Copy, PartialEq, Eq, Structural)]
pub enum Opcode {
    DecVal(u8),
    IncVal(u8),
    DecPtr(usize),
    IncPtr(usize),
    MulVal(isize, u8),
    Clear,
    /// Jumps to the address just after the matching `EndLoop` when the
    /// current cell is zero.
    StartLoop(usize),
    /// Jumps to the first address of the loop body when the current cell is
    /// not zero.
    EndLoop(usize),
    Print,
    Input,
}

/// The number of instructions that a sequence lowers to.
pub open spec fn size(s: Seq<Node>) -> nat
    decreases s,
{
    if s.len() == 0 {
        0
    } else {
        size(s.drop_last()) + size_node(s.last())
    }
}

/// The number of instructions that one node lowers to.
pub open spec fn size_node(n: Node) -> nat
    decreases n,
{
    match n {
        Node::Loop(b) => size(b) + 2,
        _ => 1,
    }
}

/// The instructions of a sequence whose first one stands at address `base`.
pub open spec fn lower(base: nat, s: Seq<Node>) -> Seq<Opcode>
    decreases s,
{
    if s.len() == 0 {
        Seq::empty()
    } else {
        lower(base, s.drop_last()) + lower_node(base + size(s.drop_last()), s.last())
    }
}

/// The instructions of one node standing at address `base`: a leaf is one
/// instruction, a loop is its body between `StartLoop` and `EndLoop`.
pub open spec fn lower_node(base: nat, n: Node) -> Seq<Opcode>
    decreases n,
{
    match n {
        Node::IncVal(a) => seq![Opcode::IncVal(a)],
        Node::DecVal(a) => seq![Opcode::DecVal(a)],
        Node::IncPtr(a) => seq![Opcode::IncPtr(a)],
        Node::DecPtr(a) => seq![Opcode::DecPtr(a)],
        Node::MulVal(o, a) => seq![Opcode::MulVal(o, a)],
        Node::Clear => seq![Opcode::Clear],
        Node::Loop(b) => seq![Opcode::StartLoop((base + size(b) + 2) as usize)] + lower(base + 1, b)
            + seq![Opcode::EndLoop((base + 1) as usize)],
        Node::Output => seq![Opcode::Print],
        Node::Input => seq![Opcode::Input],
    }
}

/// The jump at index `k` of `p`, whose first instruction stands at address
/// `base`, lands just after its partner: a `StartLoop` at `a` with target `t`
/// has at `t - 1` an `EndLoop` whose target is `a + 1`, and the other way round.
pub open spec fn jump_ok(base: nat, p: Seq<Opcode>, k: int) -> bool {
    match p[k] {
        Opcode::StartLoop(t) => base + 1 <= t <= base + p.len() && p[t - 1 - base]
            == Opcode::EndLoop((base + k + 1) as usize),
        Opcode::EndLoop(t) => base + 1 <= t <= base + p.len() && p[t - 1 - base]
            == Opcode::StartLoop((base + k + 1) as usize),
        _ => true,
    }
}

/// Each jump of `p`, whose first instruction stands at address `base`, lands
/// just after its partner.
pub open spec fn jumps_matched_at(base: nat, p: Seq<Opcode>) -> bool {
    forall|k: int| 0 <= k < p.len() ==> #[trigger] jump_ok(base, p, k)
}

/// Each jump of a whole program lands just after its partner.
pub open spec fn jumps_matched(p: Seq<Opcode>) -> bool {
    jumps_matched_at(0, p)
}

/// The lowering of a sequence has `size` instructions.
pub proof fn lemma_lower_len(base: nat, s: Seq<Node>)
    ensures
        lower(base, s).len() == size(s),
    decreases s,
{
    if s.len() > 0 {
        lemma_lower_len(base, s.drop_last());
        lemma_lower_node_len(base + size(s.drop_last()), s.last());
    }
}

/// The lowering of a node has `size_node` instructions.
pub proof fn lemma_lower_node_len(base: nat, n: Node)
    ensures
        lower_node(base, n).len() == size_node(n),
    decreases n,
{
    if let Node::Loop(b) = n {
        lemma_lower_len(base + 1, b);
    }
}

/// The prefix of a sequence with one more element grows the size by the
/// size of that element, and does not pass the size of the whole.
proof fn lemma_nodes_of_grow(s: Seq<Expression>, i: int)
    requires
        0 <= i < s.len(),
    ensures
        size(nodes_of(s.take(i + 1))) == size(nodes_of(s.take(i))) + size_node(node_of(s[i])),
        size(nodes_of(s.take(i + 1))) <= size(nodes_of(s)),
{
    lemma_nodes_of(s);
    lemma_nodes_of_take(s, i);
    let t = nodes_of(s.take(i + 1));
    assert(t.drop_last() =~= nodes_of(s.take(i)));
    lemma_size_take(nodes_of(s), i + 1, s.len() as int);
    lemma_nodes_of_take_all(s, i + 1);
    assert(nodes_of(s).take(s.len() as int) =~= nodes_of(s));
}

/// The value of a prefix is the prefix of the value.
proof fn lemma_nodes_of_take_all(s: Seq<Expression>, i: int)
    requires
        0 <= i <= s.len(),
    ensures
        nodes_of(s.take(i)) == nodes_of(s).take(i),
{
    lemma_nodes_of(s.take(i));
    lemma_nodes_of(s);
    assert(nodes_of(s.take(i)) =~= nodes_of(s).take(i));
}

/// A prefix lowers to no more instructions than the whole.
proof fn lemma_size_take(s: Seq<Node>, i: int, j: int)
    requires
        0 <= i <= j <= s.len(),
    ensures
        size(s.take(i)) <= size(s.take(j)),
    decreases j - i,
{
    if i < j {
        lemma_size_take(s, i, j - 1);
        assert(s.take(j).drop_last() =~= s.take(j - 1));
    }
}

/// Two matched programs side by side are matched.
proof fn lemma_matched_concat(base: nat, p: Seq<Opcode>, q: Seq<Opcode>)
    requires
        jumps_matched_at(base, p),
        jumps_matched_at(base + p.len(), q),
    ensures
        jumps_matched_at(base, p + q),
{
    let r = p + q;
    assert forall|k: int| 0 <= k < r.len() implies #[trigger] jump_ok(base, r, k) by {
        if k < p.len() {
            assert(jump_ok(base, p, k));
            assert(r[k] == p[k]);
            match p[k] {
                Opcode::StartLoop(t) => {
                    assert(r[t - 1 - base] == p[t - 1 - base]);
                },
                Opcode::EndLoop(t) => {
                    assert(r[t - 1 - base] == p[t - 1 - base]);
                },
                _ => {},
            }
        } else {
            let k2 = k - p.len();
            assert(jump_ok(base + p.len(), q, k2));
            assert(r[k] == q[k2]);
            match q[k2] {
                Opcode::StartLoop(t) => {
                    assert(r[t - 1 - base] == q[t - 1 - (base + p.len())]);
                },
                Opcode::EndLoop(t) => {
                    assert(r[t - 1 - base] == q[t - 1 - (base + p.len())]);
                },
                _ => {},
            }
        }
    }
}

/// A loop around a matched body is matched.
proof fn lemma_matched_loop(base: nat, b: Seq<Node>)
    requires
        jumps_matched_at(base + 1, lower(base + 1, b)),
        base + size(b) + 2 <= usize::MAX,
    ensures
        jumps_matched_at(base, lower_node(base, Node::Loop(b))),
{
    let inner = lower(base + 1, b);
    lemma_lower_len(base + 1, b);
    let m = inner.len() as int;
    let r = lower_node(base, Node::Loop(b));
    assert(r.len() == m + 2);
    assert(r[0] == Opcode::StartLoop((base + m + 2) as usize));
    assert(r[m + 1] == Opcode::EndLoop((base + 1) as usize));
    assert forall|k: int| 0 <= k < r.len() implies #[trigger] jump_ok(base, r, k) by {
        if 0 < k <= m {
            assert(jump_ok(base + 1, inner, k - 1));
            assert(r[k] == inner[k - 1]);
            match inner[k - 1] {
                Opcode::StartLoop(t) => {
                    assert(r[t - 1 - base] == inner[t - 1 - (base + 1)]);
                },
                Opcode::EndLoop(t) => {
                    assert(r[t - 1 - base] == inner[t - 1 - (base + 1)]);
                },
                _ => {},
            }
        }
    }
}

/// The lowering of a sequence at `base` is matched.
proof fn lemma_lower_matched(base: nat, s: Seq<Node>)
    requires
        base + size(s) <= usize::MAX,
    ensures
        jumps_matched_at(base, lower(base, s)),
    decreases s,
{
    if s.len() > 0 {
        let d = s.drop_last();
        lemma_lower_matched(base, d);
        lemma_lower_len(base, d);
        lemma_lower_node_matched(base + size(d), s.last());
        lemma_matched_concat(base, lower(base, d), lower_node(base + size(d), s.last()));
    }
}

/// The lowering of a node at `base` is matched.
proof fn lemma_lower_node_matched(base: nat, n: Node)
    requires
        base + size_node(n) <= usize::MAX,
    ensures
        jumps_matched_at(base, lower_node(base, n)),
    decreases n,
{
    if let Node::Loop(b) = n {
        lemma_lower_matched(base + 1, b);
        lemma_matched_loop(base, b);
    }
}

/// Jump targets of a lowered program are correct: for every `StartLoop` at
/// address `a` with target `t`, the instruction at `t - 1` is the matching
/// `EndLoop` (its target is `a + 1`), and the other way round.
pub proof fn lowered_jumps_match(t: Seq<Node>)
    requires
        size(t) <= usize::MAX,
    ensures
        jumps_matched(lower(0, t)),
{
    lemma_lower_matched(0, t);
}

/// The lowering from the tree form to bytecode.
pub struct Interpreter;

impl Interpreter {
    /// The program of a tree, its first instruction at address 0.
    pub fn interpret(expressions: &[Expression]) -> (r: Vec<Opcode>)
        requires
            size(nodes_of(expressions@)) <= usize::MAX,
        ensures
            r@ == lower(0, nodes_of(expressions@)),
            jumps_matched(r@),
    {
        proof {
            lowered_jumps_match(nodes_of(expressions@));
        }
        Self::do_interpret(0, expressions)
    }

    /// The number of instructions that `interpret` returns, or `None` when
    /// it would exceed `usize::MAX`.
    pub fn lowered_size(expressions: &[Expression]) -> (r: Option<usize>)
        ensures
            r == (if size(nodes_of(expressions@)) <= usize::MAX {
                Some(size(nodes_of(expressions@)) as usize)
            } else {
                None::<usize>
            }),
        decreases expressions@,
    {
        let mut total: usize = 0;
        let mut i: usize = 0;
        while i < expressions.len()
            invariant
                i <= expressions@.len(),
                total == size(nodes_of(expressions@.take(i as int))),
            decreases expressions@.len() - i,
        {
            proof {
                lemma_nodes_of_take(expressions@, i as int);
                let t = nodes_of(expressions@.take(i + 1));
                assert(t.drop_last() =~= nodes_of(expressions@.take(i as int)));
                assert(size(t) == size(t.drop_last()) + size_node(t.last()));
                assert(expressions@.take(expressions@.len() as int) =~= expressions@);
                lemma_size_take(nodes_of(expressions@), 0, 0);
            }
            let step: usize = match &expressions[i] {
                Expression::Loop(body) => {
                    proof {
                        assert(decreases_to!(expressions@ => expressions@[i as int]));
                        assert(decreases_to!(expressions@[i as int] => body@));
                    }
                    match Self::lowered_size(body.as_slice()) {
                        Some(n) if n <= usize::MAX - 2 => n + 2,
                        _ => {
                            proof {
                                lemma_nodes_of_grow(expressions@, i as int);
                            }
                            return None;
                        },
                    }
                },
                _ => 1,
            };
            if total > usize::MAX - step {
                proof {
                    lemma_nodes_of_grow(expressions@, i as int);
                }
                return None;
            }
            total = total + step;
            i += 1;
        }
        proof {
            assert(expressions@.take(expressions@.len() as int) =~= expressions@);
        }
        Some(total)
    }

    /// The program of a tree whose first instruction stands at address `offset`.
    fn do_interpret(offset: usize, expressions: &[Expression]) -> (r: Vec<Opcode>)
        requires
            offset + size(nodes_of(expressions@)) <= usize::MAX,
        ensures
            r@ == lower(offset as nat, nodes_of(expressions@)),
        decreases expressions@,
    {
        let mut opcodes: Vec<Opcode> = Vec::new();
        let mut i: usize = 0;
        while i < expressions.len()
            invariant
                i <= expressions@.len(),
                offset + size(nodes_of(expressions@)) <= usize::MAX,
                opcodes@ == lower(offset as nat, nodes_of(expressions@.take(i as int))),
            decreases expressions@.len() - i,
        {
            let ghost before = opcodes@;
            let ghost t = nodes_of(expressions@.take(i + 1));
            proof {
                lemma_nodes_of_take(expressions@, i as int);
                assert(t.drop_last() =~= nodes_of(expressions@.take(i as int)));
                assert(lower(offset as nat, t) == lower(offset as nat, t.drop_last()) + lower_node(
                    (offset + size(t.drop_last())) as nat,
                    t.last(),
                ));
                assert(size(t) == size(t.drop_last()) + size_node(t.last()));
                lemma_lower_len(offset as nat, t.drop_last());
                lemma_nodes_of_grow(expressions@, i as int);
            }
            match &expressions[i] {
                Expression::IncVal(amount) => opcodes.push(Opcode::IncVal(*amount)),
                Expression::DecVal(amount) => opcodes.push(Opcode::DecVal(*amount)),
                Expression::IncPtr(amount) => opcodes.push(Opcode::IncPtr(*amount)),
                Expression::DecPtr(amount) => opcodes.push(Opcode::DecPtr(*amount)),
                Expression::MulVal(o, amount) => opcodes.push(Opcode::MulVal(*o, *amount)),
                Expression::Clear => opcodes.push(Opcode::Clear),
                Expression::Output => opcodes.push(Opcode::Print),
                Expression::Input => opcodes.push(Opcode::Input),
                Expression::Loop(body) => {
                    proof {
                        assert(decreases_to!(expressions@ => expressions@[i as int]));
                        assert(decreases_to!(expressions@[i as int] => body@));
                    }
                    let start_index = offset + opcodes.len();
                    let inner = Self::do_interpret(start_index + 1, body.as_slice());
                    proof {
                        lemma_lower_len((start_index + 1) as nat, nodes_of(body@));
                    }
                    let end_target = start_index + inner.len() + 2;
                    opcodes.push(Opcode::StartLoop(end_target));
                    let mut k: usize = 0;
                    while k < inner.len()
                        invariant
                            k <= inner@.len(),
                            opcodes@ == before.push(Opcode::StartLoop(end_target)) + inner@.take(
                                k as int,
                            ),
                        decreases inner@.len() - k,
                    {
                        proof {
                            assert(inner@.take(k + 1) =~= inner@.take(k as int).push(inner@[k as int]));
                        }
                        opcodes.push(inner[k]);
                        k += 1;
                    }
                    opcodes.push(Opcode::EndLoop(start_index + 1));
                    proof {
                        assert(inner@.take(inner@.len() as int) =~= inner@);
                        assert(opcodes@ =~= before + lower_node(
                            (offset + size(t.drop_last())) as nat,
                            t.last(),
                        ));
                    }
                },
            }
            proof {
                assert(opcodes@ =~= before + lower_node((offset + size(t.drop_last())) as nat, t.last()));
            }
            i += 1;
        }
        proof {
            assert(expressions@.take(expressions@.len() as int) =~= expressions@);
        }
        opcodes
    }
}

/// The text of one instruction: its name, then its operands in parentheses.
pub open spec fn opcode_text(op: Opcode) -> Seq<char> {
    match op {
        Opcode::DecVal(a) => "DecVal("@ + decimal(a as nat) + ")"@,
        Opcode::IncVal(a) => "IncVal("@ + decimal(a as nat) + ")"@,
        Opcode::DecPtr(a) => "DecPtr("@ + decimal(a as nat) + ")"@,
        Opcode::IncPtr(a) => "IncPtr("@ + decimal(a as nat) + ")"@,
        Opcode::MulVal(o, a) => "MulVal("@ + signed_decimal(o as int) + ", "@ + decimal(a as nat)
            + ")"@,
        Opcode::Clear => "Clear"@,
        Opcode::StartLoop(t) => "StartLoop("@ + decimal(t as nat) + ")"@,
        Opcode::EndLoop(t) => "EndLoop("@ + decimal(t as nat) + ")"@,
        Opcode::Print => "Print"@,
        Opcode::Input => "Input"@,
    }
}

/// `s` padded with leading zeros to five characters.
pub open spec fn pad5(s: Seq<char>) -> Seq<char> {
    if s.len() < 5 {
        Seq::new((5 - s.len()) as nat, |i: int| '0') + s
    } else {
        s
    }
}

/// The nesting level at which an instruction is listed, given the level
/// before it: an `EndLoop` stands one level out.
pub open spec fn level_of(level: nat, op: Opcode) -> nat {
    if op is EndLoop && level > 0 {
        (level - 1) as nat
    } else {
        level
    }
}

/// The nesting level after an instruction: a `StartLoop` opens one more.
pub open spec fn level_after(level: nat, op: Opcode) -> nat {
    if op is StartLoop {
        level_of(level, op) + 1
    } else {
        level_of(level, op)
    }
}

/// The nesting level after the instructions of `p`.
pub open spec fn final_level(p: Seq<Opcode>) -> nat
    decreases p.len(),
{
    if p.len() == 0 {
        0
    } else {
        level_after(final_level(p.drop_last()), p.last())
    }
}

/// The listing line of the instruction at `index`, at nesting level `level`.
pub open spec fn listing_line(index: nat, level: nat, op: Opcode) -> Seq<char> {
    pad5(decimal(index)) + tabs(level) + " "@ + opcode_text(op) + "\n"@
}

/// The listing of a program: one line per instruction, with its address
/// and indented by loop nesting.
pub open spec fn listing(p: Seq<Opcode>) -> Seq<char>
    decreases p.len(),
{
    if p.len() == 0 {
        Seq::empty()
    } else {
        listing(p.drop_last()) + listing_line(
            (p.len() - 1) as nat,
            level_of(final_level(p.drop_last()), p.last()),
            p.last(),
        )
    }
}

/// A program ready to be listed.
pub struct Opcodes(pub Vec<Opcode>);

impl Opcodes {
    /// Appends the text of one instruction.
    fn push_opcode(buffer: &mut String, opcode: Opcode)
        ensures
            final(buffer)@ == old(buffer)@ + opcode_text(opcode),
    {
        match opcode {
            Opcode::DecVal(a) => {
                buffer.append("DecVal(");
                push_decimal(buffer, a as u128);
                buffer.append(")");
            },
            Opcode::IncVal(a) => {
                buffer.append("IncVal(");
                push_decimal(buffer, a as u128);
                buffer.append(")");
            },
            Opcode::DecPtr(a) => {
                buffer.append("DecPtr(");
                push_decimal(buffer, a as u128);
                buffer.append(")");
            },
            Opcode::IncPtr(a) => {
                buffer.append("IncPtr(");
                push_decimal(buffer, a as u128);
                buffer.append(")");
            },
            Opcode::MulVal(o, a) => {
                buffer.append("MulVal(");
                push_signed_decimal(buffer, o as i128);
                buffer.append(", ");
                push_decimal(buffer, a as u128);
                buffer.append(")");
            },
            Opcode::Clear => buffer.append("Clear"),
            Opcode::StartLoop(t) => {
                buffer.append("StartLoop(");
                push_decimal(buffer, t as u128);
                buffer.append(")");
            },
            Opcode::EndLoop(t) => {
                buffer.append("EndLoop(");
                push_decimal(buffer, t as u128);
                buffer.append(")");
            },
            Opcode::Print => buffer.append("Print"),
            Opcode::Input => buffer.append("Input"),
        }
        proof {
            assert(final(buffer)@ =~= old(buffer)@ + opcode_text(opcode));
        }
    }

    /// Appends `n` padded with leading zeros to five digits.
    fn push_padded(buffer: &mut String, n: usize)
        ensures
            final(buffer)@ == old(buffer)@ + pad5(decimal(n as nat)),
    {
        let mut digits = String::new();
        push_decimal(&mut digits, n as u128);
        let len = digits.as_str().unicode_len();
        if len < 5 {
            let mut k: usize = len;
            let ghost start = buffer@;
            proof {
                assert(buffer@ =~= start + Seq::new((k - len) as nat, |i: int| '0'));
            }
            while k < 5
                invariant
                    len <= k <= 5,
                    buffer@ == start + Seq::new((k - len) as nat, |i: int| '0'),
                decreases 5 - k,
            {
                buffer.append("0");
                proof {
                    reveal_strlit("0");
                    assert(start + Seq::new((k - len) as nat, |i: int| '0') + "0"@ =~= start
                        + Seq::new((k + 1 - len) as nat, |i: int| '0'));
                }
                k += 1;
            }
        }
        buffer.append(digits.as_str());
        proof {
            assert(final(buffer)@ =~= old(buffer)@ + pad5(decimal(n as nat)));
        }
    }

    /// Appends the listing line of `opcode` at address `index`, first
    /// stepping the nesting level out for an `EndLoop` and then in for a
    /// `StartLoop`.
    fn fmt_with_indent(indent: &mut usize, index: usize, opcode: Opcode, buffer: &mut String)
        requires
            *old(indent) < usize::MAX,
        ensures
            final(buffer)@ == old(buffer)@ + listing_line(
                index as nat,
                level_of(*old(indent) as nat, opcode),
                opcode,
            ),
            *final(indent) == level_after(*old(indent) as nat, opcode),
    {
        if let Opcode::EndLoop(_) = opcode {
            if *indent > 0 {
                *indent = *indent - 1;
            }
        }
        Self::push_padded(buffer, index);
        push_tabs(buffer, *indent);
        buffer.append(" ");
        Self::push_opcode(buffer, opcode);
        buffer.append("\n");
        if let Opcode::StartLoop(_) = opcode {
            *indent = *indent + 1;
        }
        proof {
            assert(final(buffer)@ =~= old(buffer)@ + listing_line(
                index as nat,
                level_of(*old(indent) as nat, opcode),
                opcode,
            ));
        }
    }

    /// The listing of the program: each instruction on a line of its own,
    /// after its address padded to five digits, indented one tab per
    /// enclosing loop.
    pub fn listing(&self) -> (r: String)
        ensures
            r@ == listing(self.0@),
    {
        let mut buffer = String::new();
        let mut indent: usize = 0;
        let mut index: usize = 0;
        proof {
            assert(self.0@.take(0) =~= Seq::<Opcode>::empty());
        }
        while index < self.0.len()
            invariant
                index <= self.0@.len(),
                indent <= index,
                indent == final_level(self.0@.take(index as int)),
                buffer@ == listing(self.0@.take(index as int)),
            decreases self.0@.len() - index,
        {
            proof {
                let t = self.0@.take(index + 1);
                assert(t.drop_last() =~= self.0@.take(index as int));
            }
            Self::fmt_with_indent(&mut indent, index, self.0[index], &mut buffer);
            index += 1;
        }
        proof {
            assert(self.0@.take(self.0@.len() as int) =~= self.0@);
        }
        buffer
    }
}

} // verus!
