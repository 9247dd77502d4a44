use bf::ir::{build, dump_ir, Instr};
use bf::{brackets, ir, parse};

#[test]
fn builds_ir_for_loop() {
    let ops = parse::filter_ops(b"[+]");
    let jumps = brackets::build_jumps(&ops).unwrap();
    let ir = ir::build(&ops, &jumps).unwrap();
    assert_eq!(
        ir,
        vec![ir::Instr::Jz(2), ir::Instr::Add(1), ir::Instr::Jnz(0)]
    );
}

#[test]
fn errors_on_length_mismatch() {
    let ops = vec![b'+'];
    let jumps = vec![];
    let err = ir::build(&ops, &jumps).unwrap_err();
    assert_eq!(err, "ops and jumps length mismatch");
}

#[test]
fn builds_one_instruction_per_opcode() {
    let ops = b"+-><.,";
    let jumps = vec![usize::MAX; ops.len()];
    let ir = build(ops, &jumps).unwrap();
    assert_eq!(
        ir,
        vec![
            Instr::Add(1),
            Instr::Add(-1),
            Instr::Move(1),
            Instr::Move(-1),
            Instr::Output,
            Instr::Input,
        ]
    );
}

#[test]
fn build_passes_over_bytes_that_are_no_opcodes() {
    let ops = b"a+b";
    let jumps = vec![usize::MAX; 3];
    assert_eq!(build(ops, &jumps).unwrap(), vec![Instr::Add(1)]);
}

#[test]
fn build_reports_open_without_target() {
    let err = build(b"+[", &[usize::MAX, usize::MAX]).unwrap_err();
    assert_eq!(err, "missing jump target for '[' at 1");
}

#[test]
fn build_reports_close_without_target() {
    let err = build(b"]", &[usize::MAX]).unwrap_err();
    assert_eq!(err, "missing jump target for ']' at 0");
}

#[test]
fn dump_writes_one_line_per_instruction() {
    let ir = vec![
        Instr::Add(-3),
        Instr::Move(12),
        Instr::AddTo(-1, 1),
        Instr::AddMul(vec![(-2, 3), (4, -5)]),
        Instr::AddMul(vec![]),
        Instr::Output,
        Instr::Input,
        Instr::Jz(8),
        Instr::Jnz(7),
        Instr::SetZero,
        Instr::Scan(-1),
    ];
    let mut out = String::from("head\n");
    dump_ir(&ir, &mut out).unwrap();
    assert_eq!(
        out,
        "head\n0 Add -3\n1 Move 12\n2 AddTo -1 1\n3 AddMul (-2,3) (4,-5)\n4 AddMul\n5 Output\n\
         6 Input\n7 Jz 8\n8 Jnz 7\n9 SetZero\n10 Scan -1\n"
    );
}

#[test]
fn dump_renders_extreme_deltas() {
    let ir = vec![Instr::Add(i32::MIN), Instr::Move(i32::MAX), Instr::Add(0)];
    let mut out = String::new();
    dump_ir(&ir, &mut out).unwrap();
    assert_eq!(out, "0 Add -2147483648\n1 Move 2147483647\n2 Add 0\n");
}

#[test]
fn clone_copies_every_variant() {
    let ir = vec![
        Instr::Add(1),
        Instr::Move(-2),
        Instr::AddTo(3, -1),
        Instr::AddMul(vec![(1, 2), (3, 4)]),
        Instr::Output,
        Instr::Input,
        Instr::Jz(9),
        Instr::Jnz(8),
        Instr::SetZero,
        Instr::Scan(1),
    ];
    let copy: Vec<Instr> = ir.iter().map(|i| i.clone()).collect();
    assert_eq!(copy, ir);
}
