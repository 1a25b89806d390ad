use bf::bytecode::{Interpreter, Opcode};
use bf::ir::Expression;
use bf::ir::Expression::{Clear, DecVal, IncPtr, IncVal, Input, Loop, MulVal, Output};
use bf::parser::Parser;
use bf::pipeline::Pipeline;
use bf::tokenizer::Tokenizer;
use bf::vm::{Fault, Status, Vm, VM_MEMORY_LENGTH};

const FUEL: usize = 10_000_000;

fn run_tree(expressions: &[Expression], setup: &[(usize, u8)]) -> (Result<Status, Fault>, Vm) {
    let opcodes = Interpreter::interpret(expressions);
    let mut vm = Vm::from(&opcodes);
    for &(at, value) in setup {
        vm.set_cell(at, value);
    }
    let r = vm.run(FUEL);
    (r, vm)
}

fn raw_tree(text: &str) -> Vec<Expression> {
    Parser::parse(&Tokenizer::tokenize(text)).unwrap()
}

#[test]
fn scenario_four_increments() {
    let (r, vm) = run_tree(&Pipeline::execute("++++").unwrap(), &[]);
    assert_eq!(r, Ok(Status::Halted));
    assert_eq!(vm.memory()[0], 4);
    assert!(vm.output().is_empty());
}

#[test]
fn scenario_clear_loop_on_five() {
    let tree = Pipeline::execute("[-]").unwrap();
    assert_eq!(tree, vec![Clear]);
    let (r, vm) = run_tree(&tree, &[(0, 5)]);
    assert_eq!(r, Ok(Status::Halted));
    assert_eq!(vm.memory()[0], 0);
}

#[test]
fn scenario_copy_loop_moves_value() {
    let tree = Pipeline::execute("[->+<]").unwrap();
    assert_eq!(tree, vec![MulVal(1, 1), Clear]);
    let (r, vm) = run_tree(&tree, &[(0, 5)]);
    assert_eq!(r, Ok(Status::Halted));
    assert_eq!(vm.memory()[0], 0);
    assert_eq!(vm.memory()[1], 5);
}

#[test]
fn scenario_print_three() {
    let (r, vm) = run_tree(&Pipeline::execute("+++.").unwrap(), &[]);
    assert_eq!(r, Ok(Status::Halted));
    assert_eq!(vm.output(), &[3u8][..]);
}

#[test]
fn scenario_pointer_past_the_end_faults() {
    let (r, vm) = run_tree(&[IncPtr(VM_MEMORY_LENGTH)], &[]);
    assert_eq!(r, Err(Fault::PointerOverflow));
    assert_eq!(vm.pointer(), 0);
    let (r, _) = run_tree(&[IncPtr(VM_MEMORY_LENGTH - 1)], &[]);
    assert_eq!(r, Ok(Status::Halted));
}

#[test]
fn pointer_below_zero_faults() {
    let (r, _) = run_tree(&raw_tree("<"), &[]);
    assert_eq!(r, Err(Fault::PointerUnderflow));
}

#[test]
fn multiply_add_outside_the_tape_faults() {
    let (r, _) = run_tree(&[IncVal(1), MulVal(-1, 1)], &[]);
    assert_eq!(r, Err(Fault::OffsetOutOfBounds));
}

#[test]
fn input_is_unsupported() {
    let (r, vm) = run_tree(&[IncVal(1), Input], &[]);
    assert_eq!(r, Err(Fault::Unsupported));
    assert_eq!(vm.program_counter(), 1);
}

#[test]
fn decrement_wraps_from_zero() {
    let (_, vm) = run_tree(&[DecVal(1)], &[]);
    assert_eq!(vm.memory()[0], 255);
}

#[test]
fn increment_wraps_from_255() {
    let (_, vm) = run_tree(&[IncVal(1)], &[(0, 255)]);
    assert_eq!(vm.memory()[0], 0);
}

#[test]
fn multiply_add_wraps() {
    let (_, vm) = run_tree(&[MulVal(1, 3)], &[(0, 100), (1, 10)]);
    assert_eq!(vm.memory()[1], ((10 + 300) % 256) as u8);
}

#[test]
fn lowering_resolves_jump_targets() {
    let tree = vec![IncVal(2), Loop(vec![DecVal(1), Loop(vec![IncPtr(1)]), Output]), Clear];
    let program = Interpreter::interpret(&tree);
    let expected = vec![
        Opcode::IncVal(2),
        Opcode::StartLoop(8),
        Opcode::DecVal(1),
        Opcode::StartLoop(6),
        Opcode::IncPtr(1),
        Opcode::EndLoop(4),
        Opcode::Print,
        Opcode::EndLoop(2),
        Opcode::Clear,
    ];
    assert_eq!(program, expected);
    assert_eq!(Interpreter::lowered_size(&tree), Some(9));
}

#[test]
fn lowered_jumps_land_after_their_partners() {
    let tree = raw_tree("+[>[-]<[->+<]]..[[[]]]");
    let program = Interpreter::interpret(&tree);
    for (a, op) in program.iter().enumerate() {
        match *op {
            Opcode::StartLoop(t) => assert_eq!(program[t - 1], Opcode::EndLoop(a + 1)),
            Opcode::EndLoop(t) => assert_eq!(program[t - 1], Opcode::StartLoop(a + 1)),
            _ => {}
        }
    }
}

#[test]
fn step_reports_halted_at_the_end() {
    let mut vm = Vm::from(&[Opcode::IncVal(1)]);
    assert_eq!(vm.step(), Ok(Status::Running));
    assert_eq!(vm.step(), Ok(Status::Halted));
    assert_eq!(vm.step(), Ok(Status::Halted));
    assert_eq!(vm.program_counter(), 1);
}

#[test]
fn run_stops_when_fuel_runs_out() {
    let mut vm = Vm::from(&Interpreter::interpret(&raw_tree("+[]")));
    assert_eq!(vm.run(100), Ok(Status::Running));
}

const HELLO: &str = "++++++++[>++++[>++>+++>+++>+<<<<-]>+>+>->>+[<]<-]>>.>---.+++++++..+++.>>.<-.<.+++.------.--------.>>+.>++.";

#[test]
fn hello_world_runs() {
    let (r, vm) = run_tree(&Pipeline::execute(HELLO).unwrap(), &[]);
    assert_eq!(r, Ok(Status::Halted));
    assert_eq!(vm.output(), b"Hello World!\n");
}

#[test]
fn optimized_and_unoptimized_programs_agree() {
    for text in [HELLO, "++++[->++<]>[->+++<]>.", "+++++[->+>++<<]>>[-<+>]<.", "-[--->+<]>.", "++[>[-]+<-]>."] {
        let (r1, plain) = run_tree(&raw_tree(text), &[]);
        let (r2, fast) = run_tree(&Pipeline::execute(text).unwrap(), &[]);
        assert_eq!(r1, Ok(Status::Halted));
        assert_eq!(r2, Ok(Status::Halted));
        assert_eq!(plain.output(), fast.output());
        assert_eq!(plain.memory(), fast.memory());
    }
}

#[test]
fn listing_indents_loop_bodies() {
    let program = Interpreter::interpret(&[IncVal(2), Loop(vec![MulVal(-1, 3)]), Output]);
    let text = bf::bytecode::Opcodes(program).listing();
    let expected = "00000 IncVal(2)\n00001 StartLoop(4)\n00002\t MulVal(-1, 3)\n00003 EndLoop(2)\n00004 Print\n";
    assert_eq!(text, expected);
}

#[test]
fn loop_free_programs_agree_after_optimization() {
    for text in ["+++>>--<<-.", "><+-+-.>>>.<<", "-----+++++++>+<>"] {
        let (r1, plain) = run_tree(&raw_tree(text), &[(3, 9)]);
        let (r2, fast) = run_tree(&Pipeline::execute(text).unwrap(), &[(3, 9)]);
        assert_eq!(r1, Ok(Status::Halted));
        assert_eq!(r2, Ok(Status::Halted));
        assert_eq!(plain.output(), fast.output());
        assert_eq!(plain.memory(), fast.memory());
        assert_eq!(plain.pointer(), fast.pointer());
    }
}

#[test]
fn fused_loop_with_zero_counter_still_checks_its_targets() {
    let (r1, _) = run_tree(&raw_tree("[-<+>]"), &[]);
    assert_eq!(r1, Ok(Status::Halted));
    let tree = Pipeline::execute("[-<+>]").unwrap();
    assert_eq!(tree, vec![MulVal(-1, 1), Clear]);
    let (r2, _) = run_tree(&tree, &[]);
    assert_eq!(r2, Err(Fault::OffsetOutOfBounds));
}
