use vstd::prelude::*;
use crate::bytecode::Opcode;

verus! {

/// The number of cells of a fresh machine's tape.
pub const VM_MEMORY_LENGTH: usize = 30000;

/// Why a run stopped before its end.
#[derive(Debug, Clone, Copy, PartialEq, Eq, Structural)]
pub enum Fault {
    /// A `DecPtr` would move the pointer below the first cell.
    PointerUnderflow,
    /// An `IncPtr` would move the pointer past the last cell.
    PointerOverflow,
    /// A `MulVal` names a cell outside the tape.
    OffsetOutOfBounds,
    /// The instruction has no execution semantics (reading input).
    Unsupported,
}

/// Where a run stands after a step.
#[derive(Debug, Clone, Copy, PartialEq, Eq, Structural)]
pub enum Status {
    /// The program counter still points into the program.
    Running,
    /// The program counter has run past the end of the program.
    Halted,
}

/// The mathematical state of a machine.
pub struct Machine {
    pub program: Seq<Opcode>,
    pub index: nat,
    pub pointer: nat,
    pub tape: Seq<u8>,
    pub output: Seq<u8>,
}

impl Machine {
    /// The pointer names a cell of the tape.
    pub open spec fn wf(self) -> bool {
        self.pointer < self.tape.len()
    }

    /// The value of the current cell.
    pub open spec fn cell(self) -> u8 {
        self.tape[self.pointer as int]
    }

    /// The same state with the program counter one further.
    pub open spec fn advanced(self) -> Machine {
        Machine { index: self.index + 1, ..self }
    }

    /// The same state, one further, with cell `at` set to `v`.
    pub open spec fn write(self, at: int, v: u8) -> Machine {
        Machine { tape: self.tape.update(at, v), ..self.advanced() }
    }
}

/// One step of the machine: the next state and what the step reports. A
/// fault leaves the state as it was.
pub open spec fn step_spec(m: Machine) -> (Machine, Result<Status, Fault>) {
    if m.index >= m.program.len() {
        (m, Ok(Status::Halted))
    } else {
        let p = m.pointer as int;
        let cell = m.cell();
        match m.program[m.index as int] {
            Opcode::IncVal(a) => (m.write(p, ((cell + a) % 256) as u8), Ok(Status::Running)),
            Opcode::DecVal(a) => (m.write(p, ((cell + 256 - a) % 256) as u8), Ok(Status::Running)),
            Opcode::IncPtr(a) => if p + a < m.tape.len() {
                (Machine { pointer: (p + a) as nat, ..m.advanced() }, Ok(Status::Running))
            } else {
                (m, Err(Fault::PointerOverflow))
            },
            Opcode::DecPtr(a) => if a <= p {
                (Machine { pointer: (p - a) as nat, ..m.advanced() }, Ok(Status::Running))
            } else {
                (m, Err(Fault::PointerUnderflow))
            },
            Opcode::MulVal(o, a) => {
                let t = p + o;
                if 0 <= t < m.tape.len() {
                    (m.write(t, ((m.tape[t] + cell * a) % 256) as u8), Ok(Status::Running))
                } else {
                    (m, Err(Fault::OffsetOutOfBounds))
                }
            },
            Opcode::Clear => (m.write(p, 0), Ok(Status::Running)),
            Opcode::StartLoop(t) => if cell == 0 {
                (Machine { index: t as nat, ..m }, Ok(Status::Running))
            } else {
                (m.advanced(), Ok(Status::Running))
            },
            Opcode::EndLoop(t) => if cell != 0 {
                (Machine { index: t as nat, ..m }, Ok(Status::Running))
            } else {
                (m.advanced(), Ok(Status::Running))
            },
            Opcode::Print => (
                Machine { output: m.output.push(cell), ..m.advanced() },
                Ok(Status::Running),
            ),
            Opcode::Input => (m, Err(Fault::Unsupported)),
        }
    }
}

/// Up to `fuel` steps, stopping at the end of the program or at a fault: the
/// last state and the last report (`Ok(Running)` when the fuel ran out first).
pub open spec fn run_spec(m: Machine, fuel: nat) -> (Machine, Result<Status, Fault>)
    decreases fuel,
{
    if fuel == 0 {
        (m, Ok(Status::Running))
    } else {
        let (next, r) = step_spec(m);
        match r {
            Ok(Status::Running) => run_spec(next, (fuel - 1) as nat),
            _ => (next, r),
        }
    }
}

/// A step keeps the pointer on the tape and the tape's length.
pub proof fn lemma_step_wf(m: Machine)
    requires
        m.wf(),
    ensures
        step_spec(m).0.wf(),
        step_spec(m).0.tape.len() == m.tape.len(),
        step_spec(m).0.program == m.program,
{
}

/// Cell arithmetic wraps around: `DecVal(1)` on a cell holding 0 leaves 255,
/// and `IncVal(1)` on a cell holding 255 leaves 0.
pub proof fn cell_arithmetic_wraps(m: Machine)
    requires
        m.wf(),
        m.index < m.program.len(),
    ensures
        m.program[m.index as int] == Opcode::DecVal(1) && m.cell() == 0 ==> step_spec(m).0.cell()
            == 255,
        m.program[m.index as int] == Opcode::IncVal(1) && m.cell() == 255 ==> step_spec(m).0.cell()
            == 0,
{
}

/// A tape machine running one program on its own tape.
#[derive(Debug)]
pub struct Vm {
    pub opcodes: Vec<Opcode>,
    index: usize,
    pointer: usize,
    memory: Vec<u8>,
    output: Vec<u8>,
}

impl View for Vm {
    type V = Machine;

    closed spec fn view(&self) -> Machine {
        Machine {
            program: self.opcodes@,
            index: self.index as nat,
            pointer: self.pointer as nat,
            tape: self.memory@,
            output: self.output@,
        }
    }
}

impl Vm {
    /// A machine at the start of `opcodes`, on a zeroed tape of
    /// `VM_MEMORY_LENGTH` cells, with nothing output yet.
    pub fn from(opcodes: &[Opcode]) -> (r: Self)
        ensures
            r@ == (Machine {
                program: opcodes@,
                index: 0,
                pointer: 0,
                tape: Seq::new(VM_MEMORY_LENGTH as nat, |i: int| 0u8),
                output: Seq::empty(),
            }),
            r@.wf(),
    {
        let mut program: Vec<Opcode> = Vec::new();
        let mut i: usize = 0;
        while i < opcodes.len()
            invariant
                i <= opcodes@.len(),
                program@ == opcodes@.take(i as int),
            decreases opcodes@.len() - i,
        {
            proof {
                assert(opcodes@.take(i + 1) =~= opcodes@.take(i as int).push(opcodes@[i as int]));
            }
            program.push(opcodes[i]);
            i += 1;
        }
        proof {
            assert(opcodes@.take(opcodes@.len() as int) =~= opcodes@);
        }
        let memory = vec![0u8; VM_MEMORY_LENGTH];
        let r = Self { opcodes: program, index: 0, pointer: 0, memory, output: Vec::new() };
        proof {
            assert(r@.tape =~= Seq::new(VM_MEMORY_LENGTH as nat, |i: int| 0u8));
        }
        r
    }

    /// The tape.
    pub fn memory(&self) -> (r: &[u8])
        ensures
            r@ == self@.tape,
    {
        self.memory.as_slice()
    }

    /// Every byte output so far, in order.
    pub fn output(&self) -> (r: &[u8])
        ensures
            r@ == self@.output,
    {
        self.output.as_slice()
    }

    /// The cell index the pointer names.
    pub fn pointer(&self) -> (r: usize)
        ensures
            r == self@.pointer,
    {
        self.pointer
    }

    /// The address of the next instruction.
    pub fn program_counter(&self) -> (r: usize)
        ensures
            r == self@.index,
    {
        self.index
    }

    /// Sets cell `at` to `value`.
    pub fn set_cell(&mut self, at: usize, value: u8)
        requires
            at < old(self)@.tape.len(),
        ensures
            final(self)@ == (Machine { tape: old(self)@.tape.update(at as int, value), ..old(self)@ }),
    {
        self.memory.set(at, value);
    }

    /// Executes one instruction; at the end of the program reports `Halted`
    /// and changes nothing.
    pub fn step(&mut self) -> (r: Result<Status, Fault>)
        requires
            old(self)@.wf(),
        ensures
            (final(self)@, r) == step_spec(old(self)@),
            final(self)@.wf(),
    {
        proof {
            lemma_step_wf(self@);
        }
        if self.index >= self.opcodes.len() {
            return Ok(Status::Halted);
        }
        let p = self.pointer;
        let cell = self.memory[p];
        let len = self.memory.len();
        match self.opcodes[self.index] {
            Opcode::IncVal(a) => {
                self.memory.set(p, ((cell as u16 + a as u16) % 256) as u8);
                self.index = self.index + 1;
            },
            Opcode::DecVal(a) => {
                self.memory.set(p, ((cell as u16 + 256 - a as u16) % 256) as u8);
                self.index = self.index + 1;
            },
            Opcode::IncPtr(a) => {
                if a >= len - p {
                    return Err(Fault::PointerOverflow);
                }
                self.pointer = p + a;
                self.index = self.index + 1;
            },
            Opcode::DecPtr(a) => {
                if a > p {
                    return Err(Fault::PointerUnderflow);
                }
                self.pointer = p - a;
                self.index = self.index + 1;
            },
            Opcode::MulVal(o, a) => {
                let t: i128 = p as i128 + o as i128;
                if t < 0 || t >= len as i128 {
                    return Err(Fault::OffsetOutOfBounds);
                }
                let t = t as usize;
                proof {
                    assert(0 <= (cell as int) * (a as int) <= 255 * 255) by (nonlinear_arith)
                        requires
                            0 <= cell <= 255,
                            0 <= a <= 255,
                    ;
                }
                let v = ((self.memory[t] as u32 + cell as u32 * a as u32) % 256) as u8;
                self.memory.set(t, v);
                self.index = self.index + 1;
            },
            Opcode::Clear => {
                self.memory.set(p, 0);
                self.index = self.index + 1;
            },
            Opcode::StartLoop(t) => {
                if cell == 0 {
                    self.index = t;
                } else {
                    self.index = self.index + 1;
                }
            },
            Opcode::EndLoop(t) => {
                if cell != 0 {
                    self.index = t;
                } else {
                    self.index = self.index + 1;
                }
            },
            Opcode::Print => {
                self.output.push(cell);
                self.index = self.index + 1;
            },
            Opcode::Input => {
                return Err(Fault::Unsupported);
            },
        }
        Ok(Status::Running)
    }

    /// Steps until the program ends, a fault occurs, or `fuel` steps have
    /// been taken; reports as `run_spec` does.
    pub fn run(&mut self, fuel: usize) -> (r: Result<Status, Fault>)
        requires
            old(self)@.wf(),
        ensures
            (final(self)@, r) == run_spec(old(self)@, fuel as nat),
            final(self)@.wf(),
    {
        let mut left: usize = fuel;
        while left > 0
            invariant
                self@.wf(),
                run_spec(self@, left as nat) == run_spec(old(self)@, fuel as nat),
            decreases left,
        {
            let r = self.step();
            match r {
                Ok(Status::Running) => {},
                _ => {
                    return r;
                },
            }
            left = left - 1;
        }
        Ok(Status::Running)
    }
}

} // verus!
