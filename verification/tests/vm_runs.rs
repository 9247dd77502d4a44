use bf::io::{Input, Output};
use bf::ir::Instr;
use bf::machine::Fault;
use bf::vm::{fault_message, Vm};

fn run(ir: &[Instr], stdin: &[u8], tape: usize, max_steps: Option<u64>) -> (Result<(), String>, Vec<u8>, Vm) {
    let mut machine = Vm::with_capacity(tape).unwrap();
    let mut input = Input::new(stdin.to_vec());
    let mut output = Output::new();
    let r = machine.run(ir, &mut input, &mut output, None, max_steps);
    (r, output.into_inner(), machine)
}

#[test]
fn with_capacity_rejects_empty_tape() {
    let err = Vm::with_capacity(0).err().unwrap();
    assert_eq!(err, "tape size must be greater than 0");
}

#[test]
fn with_capacity_zero_fills() {
    let machine = Vm::with_capacity(5).unwrap();
    assert_eq!(machine.tape(), &[0u8; 5]);
    assert_eq!(machine.pointer(), 0);
}

#[test]
fn add_wraps_modulo_256() {
    let (r, out, _) = run(&[Instr::Add(-1), Instr::Output, Instr::Add(2), Instr::Output], b"", 1, None);
    assert!(r.is_ok());
    assert_eq!(out, vec![255, 1]);
    let (_, out, _) = run(&[Instr::Add(i32::MIN), Instr::Output, Instr::Add(i32::MAX), Instr::Output], b"", 1, None);
    assert_eq!(out, vec![0, 255]);
    let (_, out, _) = run(&[Instr::Add(-257), Instr::Output, Instr::Add(513), Instr::Output], b"", 1, None);
    assert_eq!(out, vec![255, 0]);
}

#[test]
fn input_reads_zero_at_end() {
    let ir = [Instr::Input, Instr::Output, Instr::Input, Instr::Output, Instr::Input, Instr::Output];
    let (r, out, _) = run(&ir, b"Qz", 1, None);
    assert!(r.is_ok());
    assert_eq!(out, vec![b'Q', b'z', 0]);
}

#[test]
fn move_left_of_zero_underflows() {
    let (r, _, m) = run(&[Instr::Move(2), Instr::Move(-3)], b"", 4, None);
    assert_eq!(r.unwrap_err(), "runtime error: pointer underflow");
    assert_eq!(m.pointer(), 2);
}

#[test]
fn tape_doubles_until_index_fits() {
    let (r, _, m) = run(&[Instr::Move(10)], b"", 3, None);
    assert!(r.is_ok());
    assert_eq!(m.pointer(), 10);
    assert_eq!(m.tape().len(), 12);
    let (_, _, m) = run(&[Instr::Move(3)], b"", 3, None);
    assert_eq!(m.tape().len(), 6);
    let (_, _, m) = run(&[Instr::Move(2)], b"", 3, None);
    assert_eq!(m.tape().len(), 3);
}

#[test]
fn every_fault_has_its_message() {
    assert_eq!(fault_message(Fault::PointerUnderflow), "runtime error: pointer underflow");
    assert_eq!(fault_message(Fault::PointerOverflow), "runtime error: pointer overflow");
    assert_eq!(fault_message(Fault::TapeSizeOverflow), "runtime error: tape size overflow");
    assert_eq!(fault_message(Fault::JumpOutOfRange), "runtime error: jump target out of range");
    assert_eq!(fault_message(Fault::StepOverflow), "runtime error: step counter overflow");
    assert_eq!(fault_message(Fault::ScanDirectionZero), "runtime error: scan direction zero");
    assert_eq!(fault_message(Fault::MaxSteps), "runtime error: max steps exceeded");
}

#[test]
fn max_steps_stops_before_the_next_step() {
    let ir = [Instr::Add(1), Instr::Output, Instr::Output];
    let (r, out, _) = run(&ir, b"", 1, Some(2));
    assert_eq!(r.unwrap_err(), "runtime error: max steps exceeded");
    assert_eq!(out, vec![1]);
    let (r, out, _) = run(&ir, b"", 1, Some(3));
    assert!(r.is_ok());
    assert_eq!(out, vec![1, 1]);
    let (r, _, _) = run(&ir, b"", 1, Some(0));
    assert_eq!(r.unwrap_err(), "runtime error: max steps exceeded");
    let (r, _, _) = run(&[], b"", 1, Some(0));
    assert!(r.is_ok());
}

#[test]
fn jumps_follow_the_cell() {
    // +++[->++<]>.
    let ir = [
        Instr::Add(3),
        Instr::Jz(6),
        Instr::Add(-1),
        Instr::Move(1),
        Instr::Add(2),
        Instr::Move(-1),
        Instr::Jnz(1),
        Instr::Move(1),
        Instr::Output,
    ];
    let (r, out, m) = run(&ir, b"", 2, None);
    assert!(r.is_ok());
    assert_eq!(out, vec![6]);
    assert_eq!(m.tape(), &[0, 6]);
}

#[test]
fn jump_out_of_range_is_reported() {
    let (r, _, _) = run(&[Instr::Jz(5)], b"", 1, None);
    assert_eq!(r.unwrap_err(), "runtime error: jump target out of range");
    let (r, _, _) = run(&[Instr::Add(1), Instr::Jnz(2)], b"", 1, None);
    assert_eq!(r.unwrap_err(), "runtime error: jump target out of range");
    let (r, _, _) = run(&[Instr::Add(1), Instr::Jz(9)], b"", 1, None);
    assert!(r.is_ok());
}

#[test]
fn setzero_clears() {
    let (r, out, _) = run(&[Instr::Add(9), Instr::SetZero, Instr::Output], b"", 1, None);
    assert!(r.is_ok());
    assert_eq!(out, vec![0]);
}

#[test]
fn scan_moves_to_the_next_zero() {
    let ir = [
        Instr::Add(1),
        Instr::Move(1),
        Instr::Add(1),
        Instr::Move(1),
        Instr::Add(1),
        Instr::Scan(-1),
    ];
    let (r, _, m) = run(&ir, b"", 4, None);
    assert_eq!(r.unwrap_err(), "runtime error: pointer underflow");
    assert_eq!(m.pointer(), 0);

    let ir = [Instr::Add(1), Instr::Move(1), Instr::Add(1), Instr::Move(-1), Instr::Scan(1)];
    let (r, _, m) = run(&ir, b"", 2, None);
    assert!(r.is_ok());
    assert_eq!(m.pointer(), 2);
    assert_eq!(m.tape(), &[1, 1, 0, 0]);

    let (r, _, m) = run(&[Instr::Move(1), Instr::Scan(-1)], b"", 2, None);
    assert!(r.is_ok());
    assert_eq!(m.pointer(), 1);
}

#[test]
fn scan_without_direction_fails() {
    let (r, _, _) = run(&[Instr::Scan(0)], b"", 1, None);
    assert_eq!(r.unwrap_err(), "runtime error: scan direction zero");
}

#[test]
fn addto_adds_or_subtracts_and_clears() {
    let ir = [Instr::Add(5), Instr::Move(1), Instr::Add(3), Instr::AddTo(-1, -1)];
    let (r, _, m) = run(&ir, b"", 2, None);
    assert!(r.is_ok());
    assert_eq!(m.tape(), &[2, 0]);

    let ir = [Instr::Add(200), Instr::Move(1), Instr::Add(100), Instr::AddTo(-1, 1)];
    let (_, _, m) = run(&ir, b"", 2, None);
    assert_eq!(m.tape(), &[44, 0]);

    let (r, _, m) = run(&[Instr::AddTo(-1, 1)], b"", 2, None);
    assert!(r.is_ok());
    assert_eq!(m.tape(), &[0, 0]);

    let (r, _, m) = run(&[Instr::Add(1), Instr::AddTo(-1, 1)], b"", 2, None);
    assert_eq!(r.unwrap_err(), "runtime error: pointer underflow");
    assert_eq!(m.tape(), &[1, 0]);
}

#[test]
fn addmul_applies_every_edit() {
    let ir = [Instr::Move(1), Instr::Add(3), Instr::AddMul(vec![(-1, 2), (1, -1), (4, 100)])];
    let (r, _, m) = run(&ir, b"", 4, None);
    assert!(r.is_ok());
    assert_eq!(m.tape(), &[6, 0, 253, 0, 0, 44, 0, 0]);
    assert_eq!(m.pointer(), 1);

    let (r, _, m) = run(&[Instr::Add(7), Instr::AddMul(vec![])], b"", 1, None);
    assert!(r.is_ok());
    assert_eq!(m.tape(), &[0]);

    let (r, _, m) = run(&[Instr::AddMul(vec![(-1, 1)])], b"", 1, None);
    assert!(r.is_ok());
    assert_eq!(m.tape(), &[0]);
}

#[test]
fn addmul_stops_at_the_first_unreachable_offset() {
    let ir = [Instr::Add(2), Instr::AddMul(vec![(1, 1), (-1, 1), (2, 1)])];
    let (r, _, m) = run(&ir, b"", 2, None);
    assert_eq!(r.unwrap_err(), "runtime error: pointer underflow");
    assert_eq!(m.tape(), &[2, 2]);
}

#[test]
fn output_is_flushed_only_on_success() {
    let mut machine = Vm::with_capacity(1).unwrap();
    let mut input = Input::new(Vec::new());
    let mut output = Output::new();
    output.write_byte(9).unwrap();
    let r = machine.run(&[Instr::Output, Instr::Move(-1)], &mut input, &mut output, None, None);
    assert!(r.is_err());
    assert_eq!(output.into_inner(), vec![9, 0]);
}

#[test]
fn trace_has_one_line_per_step() {
    let ir = [Instr::Add(2), Instr::Jz(4), Instr::AddMul(vec![(1, 3)]), Instr::Add(0), Instr::Jnz(1), Instr::Move(1), Instr::Output];
    let mut machine = Vm::with_capacity(2).unwrap();
    let mut input = Input::new(Vec::new());
    let mut output = Output::new();
    let mut dbg = bf::io::Debug::new();
    dbg.write_fmt("trace\n").unwrap();
    machine.run(&ir, &mut input, &mut output, Some(&mut dbg), None).unwrap();
    assert_eq!(
        dbg.into_inner(),
        "trace\n\
         step=0 ip=0 ptr=0 cell=0 Add 2\n\
         step=1 ip=1 ptr=0 cell=2 Jz 4\n\
         step=2 ip=2 ptr=0 cell=2 AddMul (1,3)\n\
         step=3 ip=3 ptr=0 cell=0 Add 0\n\
         step=4 ip=4 ptr=0 cell=0 Jnz 1\n\
         step=5 ip=5 ptr=0 cell=0 Move 1\n\
         step=6 ip=6 ptr=1 cell=6 Output\n"
    );
    assert_eq!(output.into_inner(), vec![6]);
}

#[test]
fn trace_line_is_written_before_the_budget_runs_out() {
    let mut machine = Vm::with_capacity(1).unwrap();
    let mut input = Input::new(Vec::new());
    let mut output = Output::new();
    let mut dbg = bf::io::Debug::new();
    let r = machine.run(&[Instr::Add(1), Instr::Add(1)], &mut input, &mut output, Some(&mut dbg), Some(1));
    assert_eq!(r.unwrap_err(), "runtime error: max steps exceeded");
    assert_eq!(dbg.into_inner(), "step=0 ip=0 ptr=0 cell=0 Add 1\n");
}

#[test]
fn step_takes_one_instruction_at_a_time() {
    // +[-],.
    let ir = [
        Instr::Add(1),
        Instr::Jz(3),
        Instr::Add(-1),
        Instr::Jnz(1),
        Instr::Input,
        Instr::Output,
    ];
    let mut machine = Vm::with_capacity(1).unwrap();
    let mut ip = 0usize;
    let mut steps = 0u64;
    let mut seen = Vec::new();
    let mut written = Vec::new();
    loop {
        let mut input = Input::new(vec![7]);
        let mut output = Output::new();
        let r = machine.step(&ir, ip, steps, &mut input, &mut output, None, None).unwrap();
        written.extend(output.into_inner());
        match r {
            Some((next, count)) => {
                seen.push((ip, next, count));
                ip = next;
                steps = count;
            }
            None => break,
        }
    }
    assert_eq!(
        seen,
        vec![(0, 1, 1), (1, 2, 2), (2, 3, 3), (3, 4, 4), (4, 5, 5), (5, 6, 6)]
    );
    assert_eq!(written, vec![7]);
    assert_eq!(machine.tape(), &[7]);
}

#[test]
fn step_reports_faults_and_traces() {
    let mut machine = Vm::with_capacity(1).unwrap();
    let mut input = Input::new(Vec::new());
    let mut output = Output::new();
    let mut dbg = bf::io::Debug::new();
    let err = machine
        .step(&[Instr::Move(-1)], 0, 41, &mut input, &mut output, Some(&mut dbg), None)
        .unwrap_err();
    assert_eq!(err, "runtime error: pointer underflow");
    assert_eq!(dbg.into_inner(), "step=41 ip=0 ptr=0 cell=0 Move -1\n");
    let err = machine
        .step(&[Instr::Add(1)], 0, 5, &mut input, &mut output, None, Some(5))
        .unwrap_err();
    assert_eq!(err, "runtime error: max steps exceeded");
    let err = machine
        .step(&[Instr::Add(1)], 0, u64::MAX, &mut input, &mut output, None, None)
        .unwrap_err();
    assert_eq!(err, "runtime error: step counter overflow");
    assert_eq!(machine.step(&[], 0, 0, &mut input, &mut output, None, Some(0)).unwrap(), None);
    assert_eq!(machine.tape(), &[0]);
}
