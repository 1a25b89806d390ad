use vstd::prelude::*;
use vstd::string::*;
use crate::ir::{Expression, Node, node_of, nodes_of, lemma_nodes_of_take};
use crate::transpilers::{
    Transpiler as Backend, decimal, inner_depth, push_decimal, push_signed_decimal, push_tabs,
    signed_decimal, tabs,
};

verus! {

/// The text before the program's statements: the runtime's functions and
/// the opening of `main`.
pub const RUNTIME_HEAD: &'static str = "fn inc_val_by(memory: &mut [u8], pointer: usize, amount: u8) {\n    memory[pointer] = memory[pointer].wrapping_add(amount);\n}\n\nfn dec_val_by(memory: &mut [u8], pointer: usize, amount: u8) {\n    memory[pointer] = memory[pointer].wrapping_sub(amount);\n}\n\nfn mul_val_by(memory: &mut [u8], pointer: usize, offset: isize, amount: u8) {\n    let target = pointer.checked_add_signed(offset).unwrap();\n    memory[target] = memory[target].wrapping_add(memory[pointer].wrapping_mul(amount));\n}\n\nfn clear(memory: &mut [u8], pointer: usize) {\n    memory[pointer] = 0;\n}\n\nfn output(memory: &[u8], pointer: usize) {\n    use std::io::Write;\n    let mut out = std::io::stdout();\n    out.write_all(&memory[pointer..pointer + 1]).unwrap();\n    out.flush().unwrap();\n}\n\nfn input() {\n    panic!(\"input is not supported\");\n}\n\nfn main() {\n\tlet mut pointer: usize = 0;\n\tlet mut memory = [0u8; 30_000];\n";

/// The text after the program's statements.
pub const RUNTIME_TAIL: &'static str = "}\n";

/// The Rust text of one node at indentation `d`.
pub open spec fn rust_node(d: nat, n: Node) -> Seq<char>
    decreases n,
{
    match n {
        Node::IncVal(a) => "inc_val_by(&mut memory, pointer, "@ + decimal(a as nat) + ")"@,
        Node::DecVal(a) => "dec_val_by(&mut memory, pointer, "@ + decimal(a as nat) + ")"@,
        Node::IncPtr(a) => "pointer += "@ + decimal(a as nat),
        Node::DecPtr(a) => "pointer -= "@ + decimal(a as nat),
        Node::MulVal(o, a) => "mul_val_by(&mut memory, pointer, "@ + signed_decimal(o as int) + ", "@ + decimal(a as nat)
            + ")"@,
        Node::Clear => "clear(&mut memory, pointer)"@,
        Node::Loop(b) => "while memory[pointer] != 0 {\n"@ + rust_seq(inner_depth(d), b) + tabs(d) + "}"@,
        Node::Output => "output(&memory, pointer)"@,
        Node::Input => "input()"@,
    }
}

/// The Rust statements of a sequence at indentation `d`, one per line.
pub open spec fn rust_seq(d: nat, s: Seq<Node>) -> Seq<char>
    decreases s,
{
    if s.len() == 0 {
        Seq::empty()
    } else {
        rust_seq(d, s.drop_last()) + tabs(d) + rust_node(d, s.last()) + ";\n"@
    }
}

/// The Rust backend.
pub struct Transpiler;

impl Transpiler {
    /// Appends the Rust text of one expression at indentation `depth`.
    fn push_expression(buffer: &mut String, depth: usize, expression: &Expression)
        ensures
            final(buffer)@ == old(buffer)@ + rust_node(depth as nat, node_of(*expression)),
        decreases *expression,
    {
        match expression {
            Expression::IncVal(amount) => {
                buffer.append("inc_val_by(&mut memory, pointer, ");
                push_decimal(buffer, *amount as u128);
                buffer.append(")");
            },
            Expression::DecVal(amount) => {
                buffer.append("dec_val_by(&mut memory, pointer, ");
                push_decimal(buffer, *amount as u128);
                buffer.append(")");
            },
            Expression::IncPtr(amount) => {
                buffer.append("pointer += ");
                push_decimal(buffer, *amount as u128);
            },
            Expression::DecPtr(amount) => {
                buffer.append("pointer -= ");
                push_decimal(buffer, *amount as u128);
            },
            Expression::MulVal(offset, amount) => {
                buffer.append("mul_val_by(&mut memory, pointer, ");
                push_signed_decimal(buffer, *offset as i128);
                buffer.append(", ");
                push_decimal(buffer, *amount as u128);
                buffer.append(")");
            },
            Expression::Clear => buffer.append("clear(&mut memory, pointer)"),
            Expression::Loop(body) => {
                buffer.append("while memory[pointer] != 0 {\n");
                let inner = if depth < usize::MAX {
                    depth + 1
                } else {
                    depth
                };
                proof {
                    assert(decreases_to!(*expression => body@));
                }
                Self::push_sequence(buffer, inner, body.as_slice());
                push_tabs(buffer, depth);
                buffer.append("}");
            },
            Expression::Output => buffer.append("output(&memory, pointer)"),
            Expression::Input => buffer.append("input()"),
        }
        proof {
            assert(final(buffer)@ =~= old(buffer)@ + rust_node(depth as nat, node_of(*expression)));
        }
    }

    /// Appends the Rust statements of a sequence at indentation `depth`.
    fn push_sequence(buffer: &mut String, depth: usize, expressions: &[Expression])
        ensures
            final(buffer)@ == old(buffer)@ + rust_seq(depth as nat, nodes_of(expressions@)),
        decreases expressions@,
    {
        let mut i: usize = 0;
        proof {
            assert(nodes_of(expressions@.take(0)) =~= Seq::<Node>::empty());
            assert(buffer@ =~= old(buffer)@ + rust_seq(depth as nat, Seq::<Node>::empty()));
        }
        while i < expressions.len()
            invariant
                i <= expressions@.len(),
                buffer@ == old(buffer)@ + rust_seq(depth as nat, nodes_of(expressions@.take(i as int))),
            decreases expressions@.len() - i,
        {
            proof {
                lemma_nodes_of_take(expressions@, i as int);
                let t = nodes_of(expressions@.take(i + 1));
                assert(t.drop_last() =~= nodes_of(expressions@.take(i as int)));
                assert(decreases_to!(expressions@ => expressions@[i as int]));
            }
            push_tabs(buffer, depth);
            Self::push_expression(buffer, depth, &expressions[i]);
            buffer.append(";\n");
            proof {
                let t = nodes_of(expressions@.take(i + 1));
                assert(buffer@ =~= old(buffer)@ + rust_seq(depth as nat, t));
            }
            i += 1;
        }
        proof {
            assert(expressions@.take(expressions@.len() as int) =~= expressions@);
        }
    }

    /// The Rust statements of a sequence at indentation `depth`.
    pub fn do_transpile(depth: usize, expressions: &[Expression]) -> (r: String)
        ensures
            r@ == rust_seq(depth as nat, nodes_of(expressions@)),
    {
        let mut buffer = String::new();
        Self::push_sequence(&mut buffer, depth, expressions);
        proof {
            assert(buffer@ =~= rust_seq(depth as nat, nodes_of(expressions@)));
        }
        buffer
    }
}

impl Backend for Transpiler {
    open spec fn rendered(s: Seq<Node>) -> Seq<char> {
        RUNTIME_HEAD@ + rust_seq(1, s) + RUNTIME_TAIL@
    }

    fn transpile(expressions: &[Expression]) -> (r: String) {
        let mut buffer = String::from_str(RUNTIME_HEAD);
        Self::push_sequence(&mut buffer, 1, expressions);
        buffer.append(RUNTIME_TAIL);
        buffer
    }
}

} // verus!
