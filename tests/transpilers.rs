use bf::ir::Expression::{Clear, DecPtr, DecVal, IncPtr, IncVal, Input, Loop, MulVal, Output};
use bf::transpilers::c::{self, Transpiler as CTranspiler};
use bf::transpilers::rust::{self, Transpiler as RustTranspiler};
use bf::transpilers::{push_decimal, push_signed_decimal, Transpiler};

#[test]
fn c_statements_are_indented_per_loop() {
    let tree = vec![IncVal(3), Loop(vec![DecVal(1), MulVal(-2, 3), Clear]), IncPtr(12), DecPtr(7), Output, Input];
    let text = CTranspiler::do_transpile(1, &tree);
    let expected = "\tINC_VAL_BY(3);\n\tLOOP(\n\t\tDEC_VAL_BY(1);\n\t\tMUL_VAL_BY(-2, 3);\n\t\tCLEAR;\n\t);\n\tINC_PTR_BY(12);\n\tDEC_PTR_BY(7);\n\tOUTPUT;\n\tINPUT;\n";
    assert_eq!(text, expected);
}

#[test]
fn c_program_wraps_statements_in_the_runtime() {
    let text = CTranspiler::transpile(&[IncVal(65), Output]);
    let body = "\tINC_VAL_BY(65);\n\tOUTPUT;\n";
    assert_eq!(text, format!("{}{}{}", c::RUNTIME_HEAD, body, c::RUNTIME_TAIL));
}

#[test]
fn rust_statements_are_indented_per_loop() {
    let tree = vec![IncVal(255), Loop(vec![DecVal(1), IncPtr(1), Loop(vec![])]), MulVal(4, 1), DecPtr(2), Output, Clear, Input];
    let text = RustTranspiler::do_transpile(1, &tree);
    let expected = "\tinc_val_by(&mut memory, pointer, 255);\n\twhile memory[pointer] != 0 {\n\t\tdec_val_by(&mut memory, pointer, 1);\n\t\tpointer += 1;\n\t\twhile memory[pointer] != 0 {\n\t\t};\n\t};\n\tmul_val_by(&mut memory, pointer, 4, 1);\n\tpointer -= 2;\n\toutput(&memory, pointer);\n\tclear(&mut memory, pointer);\n\tinput();\n";
    assert_eq!(text, expected);
}

#[test]
fn rust_program_wraps_statements_in_the_runtime() {
    let text = RustTranspiler::transpile(&[Output]);
    assert_eq!(text, format!("{}\toutput(&memory, pointer);\n{}", rust::RUNTIME_HEAD, rust::RUNTIME_TAIL));
}

#[test]
fn decimal_forms() {
    let mut s = String::from("x=");
    push_decimal(&mut s, 0);
    assert_eq!(s, "x=0");
    let mut s = String::new();
    push_decimal(&mut s, 18446744073709551615);
    assert_eq!(s, "18446744073709551615");
    let mut s = String::new();
    push_signed_decimal(&mut s, -9223372036854775808);
    assert_eq!(s, "-9223372036854775808");
    let mut s = String::new();
    push_signed_decimal(&mut s, 40);
    assert_eq!(s, "40");
}
