use vstd::prelude::*;
use vstd::string::*;
use crate::ir::{Expression, Node, nodes_of};

pub mod c;
pub mod rust;

verus! {

/// A backend that writes a tree as source text of another language.
pub trait Transpiler {
    /// The text that a tree is written as.
    spec fn rendered(s: Seq<Node>) -> Seq<char>;

    /// The whole program text of a tree.
    fn transpile(expressions: &[Expression]) -> (r: String)
        ensures
            r@ == Self::rendered(nodes_of(expressions@)),
    ;
}

/// The decimal digit of `d`.
pub open spec fn digit_char(d: nat) -> char {
    if d == 0 {
        '0'
    } else if d == 1 {
        '1'
    } else if d == 2 {
        '2'
    } else if d == 3 {
        '3'
    } else if d == 4 {
        '4'
    } else if d == 5 {
        '5'
    } else if d == 6 {
        '6'
    } else if d == 7 {
        '7'
    } else if d == 8 {
        '8'
    } else {
        '9'
    }
}

/// The decimal form of `n`, without leading zeros.
pub open spec fn decimal(n: nat) -> Seq<char>
    decreases n,
{
    if n < 10 {
        seq![digit_char(n)]
    } else {
        decimal(n / 10).push(digit_char(n % 10))
    }
}

/// The decimal form of `n`, with a leading `-` when negative.
pub open spec fn signed_decimal(n: int) -> Seq<char> {
    if n < 0 {
        seq!['-'] + decimal((-n) as nat)
    } else {
        decimal(n as nat)
    }
}

/// The indentation of a loop body: one more tab, held at `usize::MAX`.
pub open spec fn inner_depth(d: nat) -> nat {
    if d < usize::MAX {
        d + 1
    } else {
        d
    }
}

/// `d` tab characters.
pub open spec fn tabs(d: nat) -> Seq<char> {
    Seq::new(d, |i: int| '\t')
}

/// The text of one decimal digit.
fn digit_str(d: u8) -> (r: &'static str)
    requires
        d < 10,
    ensures
        r@ == seq![digit_char(d as nat)],
{
    proof {
        reveal_strlit("0");
        reveal_strlit("1");
        reveal_strlit("2");
        reveal_strlit("3");
        reveal_strlit("4");
        reveal_strlit("5");
        reveal_strlit("6");
        reveal_strlit("7");
        reveal_strlit("8");
        reveal_strlit("9");
    }
    match d {
        0 => "0",
        1 => "1",
        2 => "2",
        3 => "3",
        4 => "4",
        5 => "5",
        6 => "6",
        7 => "7",
        8 => "8",
        _ => "9",
    }
}

/// Appends the decimal form of `n`.
pub fn push_decimal(buffer: &mut String, n: u128)
    ensures
        final(buffer)@ == old(buffer)@ + decimal(n as nat),
    decreases n,
{
    if n >= 10 {
        push_decimal(buffer, n / 10);
    }
    buffer.append(digit_str((n % 10) as u8));
    proof {
        if n >= 10 {
            assert(old(buffer)@ + decimal((n / 10) as nat) + seq![digit_char((n % 10) as nat)]
                =~= old(buffer)@ + decimal(n as nat));
        } else {
            assert(old(buffer)@ + seq![digit_char((n % 10) as nat)] =~= old(buffer)@ + decimal(
                n as nat,
            ));
        }
    }
}

/// Appends the decimal form of `n`, with a leading `-` when negative.
pub fn push_signed_decimal(buffer: &mut String, n: i128)
    requires
        n > i128::MIN,
    ensures
        final(buffer)@ == old(buffer)@ + signed_decimal(n as int),
{
    if n < 0 {
        buffer.append("-");
        proof {
            reveal_strlit("-");
        }
        push_decimal(buffer, (-n) as u128);
        proof {
            assert(old(buffer)@ + seq!['-'] + decimal((-n) as nat) =~= old(buffer)@ + signed_decimal(
                n as int,
            ));
        }
    } else {
        push_decimal(buffer, n as u128);
    }
}

/// Appends `depth` tab characters.
pub fn push_tabs(buffer: &mut String, depth: usize)
    ensures
        final(buffer)@ == old(buffer)@ + tabs(depth as nat),
{
    let mut k: usize = 0;
    proof {
        assert(buffer@ =~= old(buffer)@ + tabs(0));
    }
    while k < depth
        invariant
            k <= depth,
            buffer@ == old(buffer)@ + tabs(k as nat),
        decreases depth - k,
    {
        buffer.append("\t");
        proof {
            reveal_strlit("\t");
            assert(old(buffer)@ + tabs(k as nat) + "\t"@ =~= old(buffer)@ + tabs((k + 1) as nat));
        }
        k += 1;
    }
}

} // verus!
