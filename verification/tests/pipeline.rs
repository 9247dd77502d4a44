use bf::io::{Input, Output};
use bf::ir::Instr;
use bf::vm::Vm;
use bf::{compile, optimize};

fn run_source(source: &str, stdin: &[u8], optimized: bool) -> (Result<(), String>, Vec<u8>, Vec<u8>) {
    let ir = compile(source.as_bytes(), optimized).unwrap();
    let mut machine = Vm::with_capacity(30_000).unwrap();
    let mut input = Input::new(stdin.to_vec());
    let mut output = Output::new();
    let r = machine.run(&ir, &mut input, &mut output, None, None);
    (r, output.into_inner(), machine.tape()[..16].to_vec())
}

#[test]
fn five_plus_outputs_five() {
    for optimized in [false, true] {
        let (r, out, _) = run_source("+++++.", b"", optimized);
        assert!(r.is_ok());
        assert_eq!(out, vec![0x05]);
    }
}

#[test]
fn multiplication_outputs_a() {
    for optimized in [false, true] {
        let (r, out, _) = run_source("++++++++[>++++++++<-]>+.", b"", optimized);
        assert!(r.is_ok());
        assert_eq!(out, b"A");
    }
    let ir = compile(b"++++++++[>++++++++<-]>+.", true).unwrap();
    assert_eq!(
        ir,
        vec![Instr::Add(8), Instr::AddMul(vec![(1, 8)]), Instr::Move(1), Instr::Add(1), Instr::Output]
    );
}

#[test]
fn echo_copies_one_byte() {
    for optimized in [false, true] {
        let (r, out, _) = run_source(",.", b"Q", optimized);
        assert!(r.is_ok());
        assert_eq!(out, b"Q");
    }
}

#[test]
fn clearing_loop_becomes_setzero() {
    assert_eq!(compile(b"+[-]", true).unwrap(), vec![Instr::Add(1), Instr::SetZero]);
    for optimized in [false, true] {
        let (r, out, tape) = run_source("+[-]", b"", optimized);
        assert!(r.is_ok());
        assert_eq!(out, Vec::<u8>::new());
        assert_eq!(tape, vec![0; 16]);
    }
}

#[test]
fn scanning_left_underflows() {
    assert_eq!(compile(b"+[<]", true).unwrap(), vec![Instr::Add(1), Instr::Scan(-1)]);
    for optimized in [false, true] {
        let (r, out, _) = run_source("+[<]", b"", optimized);
        assert_eq!(r.unwrap_err(), "runtime error: pointer underflow");
        assert_eq!(out, Vec::<u8>::new());
    }
}

#[test]
fn stray_close_is_a_bracket_error() {
    for optimized in [false, true] {
        assert_eq!(compile(b"+]", optimized).unwrap_err(), "syntax error: unmatched ']' at 1");
        assert_eq!(compile(b"x[y[z]", optimized).unwrap_err(), "syntax error: unmatched '[' at 0");
    }
}

#[test]
fn two_way_copy_outputs_three() {
    let ir = compile(b"+++[->+>+<<]>>.", true).unwrap();
    assert_eq!(
        ir,
        vec![Instr::Add(3), Instr::AddMul(vec![(1, 1), (2, 1)]), Instr::Move(2), Instr::Output]
    );
    let plain = run_source("+++[->+>+<<]>>.", b"", false);
    let fast = run_source("+++[->+>+<<]>>.", b"", true);
    assert_eq!(plain.1, vec![0x03]);
    assert_eq!(plain, fast);
}

#[test]
fn transfer_loop_becomes_addto() {
    assert_eq!(
        compile(b"[->>+<<]", true).unwrap(),
        vec![Instr::AddTo(2, 1)]
    );
    assert_eq!(
        compile(b"[-<->]", true).unwrap(),
        vec![Instr::AddTo(-1, -1)]
    );
}

#[test]
fn unoptimized_program_is_one_instruction_per_opcode() {
    assert_eq!(
        compile(b"a+[,>-.<]b", false).unwrap(),
        vec![
            Instr::Add(1),
            Instr::Jz(7),
            Instr::Input,
            Instr::Move(1),
            Instr::Add(-1),
            Instr::Output,
            Instr::Move(-1),
            Instr::Jnz(1),
        ]
    );
}

#[test]
fn optimized_jumps_name_each_other() {
    let ir = compile(b"++[>++[>+.<-]<-]>>.[[-]>[,.]<]", true).unwrap();
    for (i, instr) in ir.iter().enumerate() {
        match instr {
            Instr::Jz(t) => assert_eq!(ir[*t], Instr::Jnz(i)),
            Instr::Jnz(t) => assert_eq!(ir[*t], Instr::Jz(i)),
            _ => {}
        }
    }
    assert!(ir.iter().any(|i| matches!(i, Instr::Jz(_))));
}

#[test]
fn optimize_fails_on_unbalanced_jumps() {
    let mut ir = vec![Instr::Add(1), Instr::Add(1), Instr::Jnz(0)];
    assert_eq!(optimize(&mut ir).unwrap_err(), "unmatched ']' at 1");
    assert_eq!(ir, vec![Instr::Add(2), Instr::Jnz(0)]);
    let mut ir = vec![Instr::Jz(0), Instr::Move(1), Instr::Move(-1)];
    assert_eq!(optimize(&mut ir).unwrap_err(), "unmatched '[' at 0");
}

#[test]
fn step_budget_of_one_is_exceeded() {
    let ir = compile(b"+[]", true).unwrap();
    let mut machine = Vm::with_capacity(1).unwrap();
    let mut input = Input::new(Vec::new());
    let mut output = Output::new();
    let err = machine.run(&ir, &mut input, &mut output, None, Some(1)).unwrap_err();
    assert!(err.contains("max steps"));
}
