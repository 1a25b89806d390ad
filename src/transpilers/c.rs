use vstd::prelude::*;
use vstd::string::*;
use crate::ir::{Expression, Node, node_of, nodes_of, lemma_nodes_of_take};
use crate::transpilers::{
    Transpiler as Backend, decimal, inner_depth, push_decimal, push_signed_decimal, push_tabs,
    signed_decimal, tabs,
};

verus! {

/// The text before the program's statements: the runtime's definitions and
/// the opening of `main`.
pub const RUNTIME_HEAD: &'static str = "int putchar(int c);\nint puts(const char *s);\nvoid exit(int status);\n\n#define INC_VAL_BY(n) (MEMORY[POINTER] += (n))\n#define DEC_VAL_BY(n) (MEMORY[POINTER] -= (n))\n#define INC_PTR_BY(n) (POINTER += (n))\n#define DEC_PTR_BY(n) (POINTER -= (n))\n#define MUL_VAL_BY(o, n) (MEMORY[POINTER + (o)] += MEMORY[POINTER] * (n))\n#define CLEAR (MEMORY[POINTER] = 0)\n#define LOOP(...) while (MEMORY[POINTER]) { __VA_ARGS__; }\n#define OUTPUT putchar(MEMORY[POINTER])\n#define INPUT (puts(\"input is not supported\"), exit(1))\n\nunsigned char MEMORY[30000];\n\nint main(void) {\n\tlong POINTER = 0;\n";

/// The text after the program's statements.
pub const RUNTIME_TAIL: &'static str = "\treturn 0;\n}\n";

/// The C text of one node at indentation `d`.
pub open spec fn c_node(d: nat, n: Node) -> Seq<char>
    decreases n,
{
    match n {
        Node::IncVal(a) => "INC_VAL_BY("@ + decimal(a as nat) + ")"@,
        Node::DecVal(a) => "DEC_VAL_BY("@ + decimal(a as nat) + ")"@,
        Node::IncPtr(a) => "INC_PTR_BY("@ + decimal(a as nat) + ")"@,
        Node::DecPtr(a) => "DEC_PTR_BY("@ + decimal(a as nat) + ")"@,
        Node::MulVal(o, a) => "MUL_VAL_BY("@ + signed_decimal(o as int) + ", "@ + decimal(a as nat)
            + ")"@,
        Node::Clear => "CLEAR"@,
        Node::Loop(b) => "LOOP(\n"@ + c_seq(inner_depth(d), b) + tabs(d) + ")"@,
        Node::Output => "OUTPUT"@,
        Node::Input => "INPUT"@,
    }
}

/// The C statements of a sequence at indentation `d`, one per line.
pub open spec fn c_seq(d: nat, s: Seq<Node>) -> Seq<char>
    decreases s,
{
    if s.len() == 0 {
        Seq::empty()
    } else {
        c_seq(d, s.drop_last()) + tabs(d) + c_node(d, s.last()) + ";\n"@
    }
}

/// The C backend.
pub struct Transpiler;

impl Transpiler {
    /// Appends the C text of one expression at indentation `depth`.
    fn push_expression(buffer: &mut String, depth: usize, expression: &Expression)
        ensures
            final(buffer)@ == old(buffer)@ + c_node(depth as nat, node_of(*expression)),
        decreases *expression,
    {
        match expression {
            Expression::IncVal(amount) => {
                buffer.append("INC_VAL_BY(");
                push_decimal(buffer, *amount as u128);
                buffer.append(")");
            },
            Expression::DecVal(amount) => {
                buffer.append("DEC_VAL_BY(");
                push_decimal(buffer, *amount as u128);
                buffer.append(")");
            },
            Expression::IncPtr(amount) => {
                buffer.append("INC_PTR_BY(");
                push_decimal(buffer, *amount as u128);
                buffer.append(")");
            },
            Expression::DecPtr(amount) => {
                buffer.append("DEC_PTR_BY(");
                push_decimal(buffer, *amount as u128);
                buffer.append(")");
            },
            Expression::MulVal(offset, amount) => {
                buffer.append("MUL_VAL_BY(");
                push_signed_decimal(buffer, *offset as i128);
                buffer.append(", ");
                push_decimal(buffer, *amount as u128);
                buffer.append(")");
            },
            Expression::Clear => buffer.append("CLEAR"),
            Expression::Loop(body) => {
                buffer.append("LOOP(\n");
                let inner = if depth < usize::MAX {
                    depth + 1
                } else {
                    depth
                };
                proof {
                    assert(decreases_to!(*expression => body@));
                }
                Self::push_sequence(buffer, inner, body.as_slice());
                push_tabs(buffer, depth);
                buffer.append(")");
            },
            Expression::Output => buffer.append("OUTPUT"),
            Expression::Input => buffer.append("INPUT"),
        }
        proof {
            assert(final(buffer)@ =~= old(buffer)@ + c_node(depth as nat, node_of(*expression)));
        }
    }

    /// Appends the C statements of a sequence at indentation `depth`.
    fn push_sequence(buffer: &mut String, depth: usize, expressions: &[Expression])
        ensures
            final(buffer)@ == old(buffer)@ + c_seq(depth as nat, nodes_of(expressions@)),
        decreases expressions@,
    {
        let mut i: usize = 0;
        proof {
            assert(nodes_of(expressions@.take(0)) =~= Seq::<Node>::empty());
            assert(buffer@ =~= old(buffer)@ + c_seq(depth as nat, Seq::<Node>::empty()));
        }
        while i < expressions.len()
            invariant
                i <= expressions@.len(),
                buffer@ == old(buffer)@ + c_seq(depth as nat, nodes_of(expressions@.take(i as int))),
            decreases expressions@.len() - i,
        {
            proof {
                lemma_nodes_of_take(expressions@, i as int);
                let t = nodes_of(expressions@.take(i + 1));
                assert(t.drop_last() =~= nodes_of(expressions@.take(i as int)));
                assert(decreases_to!(expressions@ => expressions@[i as int]));
            }
            push_tabs(buffer, depth);
            Self::push_expression(buffer, depth, &expressions[i]);
            buffer.append(";\n");
            proof {
                let t = nodes_of(expressions@.take(i + 1));
                assert(buffer@ =~= old(buffer)@ + c_seq(depth as nat, t));
            }
            i += 1;
        }
        proof {
            assert(expressions@.take(expressions@.len() as int) =~= expressions@);
        }
    }

    /// The C statements of a sequence at indentation `depth`.
    pub fn do_transpile(depth: usize, expressions: &[Expression]) -> (r: String)
        ensures
            r@ == c_seq(depth as nat, nodes_of(expressions@)),
    {
        let mut buffer = String::new();
        Self::push_sequence(&mut buffer, depth, expressions);
        proof {
            assert(buffer@ =~= c_seq(depth as nat, nodes_of(expressions@)));
        }
        buffer
    }
}

impl Backend for Transpiler {
    open spec fn rendered(s: Seq<Node>) -> Seq<char> {
        RUNTIME_HEAD@ + c_seq(1, s) + RUNTIME_TAIL@
    }

    fn transpile(expressions: &[Expression]) -> (r: String) {
        let mut buffer = String::from_str(RUNTIME_HEAD);
        Self::push_sequence(&mut buffer, 1, expressions);
        buffer.append(RUNTIME_TAIL);
        buffer
    }
}

} // verus!
