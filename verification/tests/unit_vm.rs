use bf::io;
use bf::ir::Instr;
use bf::vm::Vm;

#[test]
fn outputs_byte() {
    let ir = vec![Instr::Add(65), Instr::Output];
    let mut machine = Vm::with_capacity(1).unwrap();
    let mut input = io::Input::new(Vec::new());
    let mut output = io::Output::new();
    let mut dbg = bf::io::Debug::new();
    machine
        .run_ir(&ir, &mut input, &mut output, Some(&mut dbg), None)
        .unwrap();
    let out = output.into_inner();
    assert_eq!(out, vec![65]);
}

#[test]
fn echoes_input() {
    let ir = vec![Instr::Input, Instr::Output];
    let mut machine = Vm::with_capacity(1).unwrap();
    let mut input = io::Input::new(vec![0x41]);
    let mut output = io::Output::new();
    let mut dbg = bf::io::Debug::new();
    machine
        .run_ir(&ir, &mut input, &mut output, Some(&mut dbg), None)
        .unwrap();
    let out = output.into_inner();
    assert_eq!(out, vec![0x41]);
}

#[test]
fn addto_updates_target() {
    let ir = vec![
        Instr::Add(2),
        Instr::AddTo(1, 1),
        Instr::Move(1),
        Instr::Output,
    ];
    let mut machine = Vm::with_capacity(2).unwrap();
    let mut input = io::Input::new(Vec::new());
    let mut output = io::Output::new();
    let mut dbg = bf::io::Debug::new();
    machine
        .run_ir(&ir, &mut input, &mut output, Some(&mut dbg), None)
        .unwrap();
    let out = output.into_inner();
    assert_eq!(out, vec![2]);
}

#[test]
fn grows_tape_on_move() {
    let ir = vec![Instr::Move(10)];
    let mut machine = Vm::with_capacity(1).unwrap();
    let mut input = io::Input::new(Vec::new());
    let mut output = io::Output::new();
    let mut dbg = bf::io::Debug::new();
    machine
        .run_ir(&ir, &mut input, &mut output, Some(&mut dbg), None)
        .unwrap();
    assert_eq!(machine.pointer(), 10);
    assert!(machine.tape().len() > 10);
}
