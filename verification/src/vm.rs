//! The virtual machine: executes a program against a growable byte tape.

use crate::io::{Input, Output};
use crate::ir::{program, push_op_text, Instr, Op};
use crate::machine::{
    add_mul, add_to, apply_edits, dispatch, grown_len, lemma_edits_stop, lemma_grown_len,
    lemma_untraced, reach, room, run_n, scan, shift, start, step, trace_line, wrap, Fault, Limits,
    Machine, State, Status,
};
use crate::runs::{lemma_run_cap, lemma_run_stops_once, out_of_tape};
use crate::text::push_decimal;
use vstd::prelude::*;
use vstd::string::*;

verus! {

/// The message of a fault, as a string.
pub fn fault_message(fault: Fault) -> (e: String)
    ensures
        e@ == fault.text(),
{
    match fault {
        Fault::PointerUnderflow => String::from_str("runtime error: pointer underflow"),
        Fault::PointerOverflow => String::from_str("runtime error: pointer overflow"),
        Fault::TapeSizeOverflow => String::from_str("runtime error: tape size overflow"),
        Fault::JumpOutOfRange => String::from_str("runtime error: jump target out of range"),
        Fault::StepOverflow => String::from_str("runtime error: step counter overflow"),
        Fault::ScanDirectionZero => String::from_str("runtime error: scan direction zero"),
        Fault::MaxSteps => String::from_str("runtime error: max steps exceeded"),
    }
}

/// The message for a tape of no cells.
pub open spec fn empty_tape_text() -> Seq<char> {
    "tape size must be greater than 0"@
}

/// `cell` plus `amount`, modulo 256.
fn wrap_add(cell: u8, amount: i64) -> (r: u8)
    requires
        -0x100_0000_0000 <= amount <= 0x100_0000_0000,
    ensures
        r == wrap(cell + amount),
{
    let lifted: i64 = cell as i64 + amount + 0x100_0000_0000;
    (lifted % 256) as u8
}

/// A tape of bytes and a pointer to one of its cells.
pub struct Vm {
    tape: Vec<u8>,
    pointer: usize,
}

impl View for Vm {
    type V = Machine;

    closed spec fn view(&self) -> Machine {
        Machine { cells: self.tape@, pointer: self.pointer as int }
    }
}

impl Vm {
    /// A machine with `tape_size` cells, all zero, the pointer on the first.
    /// A tape must have at least one cell.
    pub fn with_capacity(tape_size: usize) -> (r: Result<Vm, String>)
        ensures
            r is Ok <==> tape_size > 0,
            r matches Err(e) ==> e@ == empty_tape_text(),
            r matches Ok(vm) ==> vm@.wf() && vm@ == (Machine {
                cells: Seq::new(tape_size as nat, |i: int| 0u8),
                pointer: 0,
            }),
    {
        if tape_size == 0 {
            return Err(String::from_str("tape size must be greater than 0"));
        }
        let mut tape: Vec<u8> = Vec::with_capacity(tape_size);
        tape.resize(tape_size, 0);
        assert(tape@ =~= Seq::new(tape_size as nat, |i: int| 0u8));
        Ok(Vm { tape, pointer: 0 })
    }

    /// The index of the cell under the pointer.
    pub fn pointer(&self) -> (r: usize)
        ensures
            r == self@.pointer,
    {
        self.pointer
    }

    /// The cells of the tape.
    pub fn tape(&self) -> (r: &[u8])
        ensures
            r@ == self@.cells,
    {
        self.tape.as_slice()
    }

    /// Makes sure that index `required` is on the tape, doubling the tape
    /// until it is. Fails, and leaves the tape alone, where the length
    /// overflows or the host refuses the memory.
    fn ensure_capacity(&mut self, required: usize) -> (r: Result<(), Fault>)
        requires
            old(self)@.wf(),
        ensures
            final(self)@.wf(),
            final(self)@.cells.len() >= old(self)@.cells.len(),
            final(self)@.pointer == old(self)@.pointer,
            r is Ok ==> room(old(self)@.cells, required as int, final(self)@.cells.len() as int)
                == Some(final(self)@.cells),
            r is Err ==> r == Err::<(), Fault>(Fault::TapeSizeOverflow) && final(self)@ == old(
                self,
            )@ && required >= old(self)@.cells.len(),
    {
        if required < self.tape.len() {
            return Ok(());
        }
        let mut new_len: usize = self.tape.len();
        while new_len <= required
            invariant
                1 <= new_len,
                *self == *old(self),
                self@.wf(),
                required >= self.tape.len(),
                grown_len(new_len as int, required as int) == grown_len(
                    self.tape.len() as int,
                    required as int,
                ),
            decreases
                if required >= new_len {
                    required - new_len + 1
                } else {
                    0
                },
        {
            new_len = match new_len.checked_mul(2) {
                Some(n) => n,
                None => {
                    return Err(Fault::TapeSizeOverflow);
                },
            };
        }
        let additional = new_len - self.tape.len();
        if self.tape.try_reserve(additional).is_err() {
            return Err(Fault::TapeSizeOverflow);
        }
        self.tape.resize(new_len, 0);
        proof {
            assert(self.tape@ =~= old(self).tape@ + Seq::new(
                (new_len - old(self).tape.len()) as nat,
                |i: int| 0u8,
            ));
        }
        Ok(())
    }

    /// The index `offset` cells from the pointer, the tape grown to hold it.
    fn offset_index(&mut self, offset: i32) -> (r: Result<usize, Fault>)
        requires
            old(self)@.wf(),
        ensures
            final(self)@.wf(),
            final(self)@.cells.len() >= old(self)@.cells.len(),
            match r {
                Ok(target) => forall|cap: int|
                    final(self)@.cells.len() <= cap ==> #[trigger] reach(
                        old(self)@,
                        offset as int,
                        cap,
                    ) == Ok::<(Machine, int), Fault>((final(self)@, target as int)),
                Err(f) => final(self)@ == old(self)@ && reach(
                    old(self)@,
                    offset as int,
                    old(self)@.cells.len() as int,
                ) == Err::<(Machine, int), Fault>(f),
            },
            r matches Ok(target) ==> target < final(self)@.cells.len(),
            final(self)@.pointer == old(self)@.pointer,
    {
        if offset == 0 {
            return Ok(self.pointer);
        }
        if offset > 0 {
            let shift = offset as usize;
            let target = match self.pointer.checked_add(shift) {
                Some(t) => t,
                None => {
                    return Err(Fault::PointerOverflow);
                },
            };
            if target >= self.tape.len() {
                proof {
                    lemma_grown_len(self.tape.len() as int, target as int);
                }
                match self.ensure_capacity(target) {
                    Ok(()) => {},
                    Err(f) => {
                        return Err(f);
                    },
                }
            }
            Ok(target)
        } else {
            let shift = (-(offset as i64)) as usize;
            if shift > self.pointer {
                return Err(Fault::PointerUnderflow);
            }
            Ok(self.pointer - shift)
        }
    }

    /// Moves the pointer by `delta`, growing the tape to the right as needed.
    fn move_ptr(&mut self, delta: i32) -> (r: Result<(), Fault>)
        requires
            old(self)@.wf(),
        ensures
            final(self)@.wf(),
            final(self)@.cells.len() >= old(self)@.cells.len(),
            match r {
                Ok(()) => forall|cap: int|
                    final(self)@.cells.len() <= cap ==> #[trigger] shift(
                        old(self)@,
                        delta as int,
                        cap,
                    ) == Ok::<Machine, Fault>(final(self)@),
                Err(f) => final(self)@ == old(self)@ && shift(
                    old(self)@,
                    delta as int,
                    old(self)@.cells.len() as int,
                ) == Err::<Machine, Fault>(f),
            },
    {
        match self.offset_index(delta) {
            Ok(target) => {
                proof {
                    assert forall|cap: int| self@.cells.len() <= cap implies #[trigger] shift(
                        old(self)@,
                        delta as int,
                        cap,
                    ) == Ok::<Machine, Fault>(Machine { cells: self@.cells, pointer: target as int }) by {
                        assert(reach(old(self)@, delta as int, cap) == Ok::<(Machine, int), Fault>(
                            (self@, target as int),
                        ));
                    }
                }
                self.pointer = target;
                Ok(())
            },
            Err(f) => Err(f),
        }
    }

    /// Adds `delta` to the cell under the pointer, modulo 256.
    fn add_cell(&mut self, delta: i32)
        requires
            old(self)@.wf(),
        ensures
            final(self)@ == old(self)@.set_cell(wrap(old(self)@.cell() + delta)),
            final(self)@.wf(),
            final(self)@.cells.len() >= old(self)@.cells.len(),
    {
        let value = self.tape[self.pointer];
        self.tape[self.pointer] = wrap_add(value, delta as i64);
    }

    /// Writes the trace line for the instruction about to be dispatched.
    /// Writing to memory cannot fail.
    fn trace(&self, debug: &mut crate::io::Debug, steps: u64, ip: usize, instr: &Instr) -> (r:
        Result<(), String>)
        requires
            self@.wf(),
        ensures
            r is Ok,
            final(debug).flushed() == old(debug).flushed(),
            final(debug).pending() == old(debug).pending() + trace_line(
                State {
                    m: self@,
                    ip: ip as int,
                    steps: steps as int,
                    input: Seq::empty(),
                    output: Seq::empty(),
                    trace: Seq::empty(),
                },
                instr@,
            ),
    {
        let ghost start = debug.pending();
        let cell = self.tape[self.pointer];
        let out = debug.writer();
        out.append("step=");
        push_decimal(out, steps as u128);
        out.append(" ip=");
        push_decimal(out, ip as u128);
        out.append(" ptr=");
        push_decimal(out, self.pointer as u128);
        out.append(" cell=");
        push_decimal(out, cell as u128);
        out.append(" ");
        push_op_text(out, instr);
        out.append("\n");
        proof {
            assert(out@ =~= start + trace_line(
                State {
                    m: self@,
                    ip: ip as int,
                    steps: steps as int,
                    input: Seq::empty(),
                    output: Seq::empty(),
                    trace: Seq::empty(),
                },
                instr@,
            ));
        }
        Ok(())
    }

    /// `AddTo`: moves the cell under the pointer onto the cell at `offset`.
    fn add_to_cell(&mut self, offset: i32, sign: i32) -> (r: Result<(), Fault>)
        requires
            old(self)@.wf(),
        ensures
            final(self)@.wf(),
            final(self)@.cells.len() >= old(self)@.cells.len(),
            match r {
                Ok(()) => forall|cap: int|
                    final(self)@.cells.len() <= cap ==> #[trigger] add_to(
                        old(self)@,
                        offset as int,
                        sign as int,
                        cap,
                    ) == (final(self)@, None::<Fault>),
                Err(f) => add_to(
                    old(self)@,
                    offset as int,
                    sign as int,
                    final(self)@.cells.len() as int,
                ) == (final(self)@, Some(f)),
            },
    {
        let value = self.tape[self.pointer];
        if value != 0 {
            let target = match self.offset_index(offset) {
                Ok(t) => t,
                Err(f) => {
                    return Err(f);
                },
            };
            let ghost grown = self@;
            let dest = self.tape[target];
            let amount: i64 = if sign < 0 {
                -(value as i64)
            } else {
                value as i64
            };
            self.tape[target] = wrap_add(dest, amount);
            self.tape[self.pointer] = 0;
            proof {
                assert forall|cap: int| self@.cells.len() <= cap implies #[trigger] add_to(
                    old(self)@,
                    offset as int,
                    sign as int,
                    cap,
                ) == (self@, None::<Fault>) by {
                    assert(reach(old(self)@, offset as int, cap) == Ok::<(Machine, int), Fault>(
                        (grown, target as int),
                    ));
                }
            }
        }
        Ok(())
    }

    /// `AddMul`: spreads the cell under the pointer over the cells at the
    /// offsets of `edits`, each times its factor.
    fn add_mul_cells(&mut self, edits: &Vec<(i32, i32)>) -> (r: Result<(), Fault>)
        requires
            old(self)@.wf(),
        ensures
            final(self)@.wf(),
            final(self)@.cells.len() >= old(self)@.cells.len(),
            match r {
                Ok(()) => forall|cap: int|
                    final(self)@.cells.len() <= cap ==> #[trigger] add_mul(
                        old(self)@,
                        edits@,
                        cap,
                    ) == (final(self)@, None::<Fault>),
                Err(f) => add_mul(old(self)@, edits@, final(self)@.cells.len() as int) == (
                    final(self)@,
                    Some(f),
                ),
            },
    {
        let value = self.tape[self.pointer];
        if value != 0 {
            let mut k: usize = 0;
            while k < edits.len()
                invariant
                    self@.wf(),
                    self@.cells.len() >= old(self)@.cells.len(),
                    self@.pointer == old(self)@.pointer,
                    value == old(self)@.cell(),
                    value != 0,
                    k <= edits.len(),
                    forall|cap: int|
                        self@.cells.len() <= cap ==> #[trigger] apply_edits(
                            old(self)@,
                            value,
                            edits@,
                            k as int,
                            cap,
                        ) == (self@, None::<Fault>),
                decreases edits.len() - k,
            {
                let (offset, factor) = edits[k];
                let ghost before = self@;
                let target = match self.offset_index(offset) {
                    Ok(t) => t,
                    Err(f) => {
                        proof {
                            let cap = self@.cells.len() as int;
                            assert(apply_edits(old(self)@, value, edits@, k as int, cap) == (
                                self@,
                                None::<Fault>,
                            ));
                            assert(apply_edits(old(self)@, value, edits@, k + 1, cap) == (
                                self@,
                                Some(f),
                            ));
                            lemma_edits_stop(
                                old(self)@,
                                value,
                                edits@,
                                k + 1,
                                edits.len() as int,
                                cap,
                            );
                        }
                        return Err(f);
                    },
                };
                let ghost grown = self@;
                let dest = self.tape[target];
                assert(-0x80_0000_0000 <= factor * value <= 0x80_0000_0000) by (nonlinear_arith)
                    requires
                        -0x8000_0000 <= factor <= 0x8000_0000,
                        0 <= value <= 255,
                ;
                self.tape[target] = wrap_add(dest, factor as i64 * value as i64);
                proof {
                    assert forall|cap: int| self@.cells.len() <= cap implies #[trigger] apply_edits(
                        old(self)@,
                        value,
                        edits@,
                        k + 1,
                        cap,
                    ) == (self@, None::<Fault>) by {
                        assert(apply_edits(old(self)@, value, edits@, k as int, cap) == (
                            before,
                            None::<Fault>,
                        ));
                        assert(reach(before, offset as int, cap) == Ok::<(Machine, int), Fault>(
                            (grown, target as int),
                        ));
                    }
                }
                k += 1;
            }
            self.tape[self.pointer] = 0;
            proof {
                assert forall|cap: int| self@.cells.len() <= cap implies #[trigger] add_mul(
                    old(self)@,
                    edits@,
                    cap,
                ) == (self@, None::<Fault>) by {
                    let (g, fault) = apply_edits(
                        old(self)@,
                        value,
                        edits@,
                        edits.len() as int,
                        cap,
                    );
                    assert(fault is None);
                    assert(self@ == g.set_cell(0u8));
                }
            }
        }
        Ok(())
    }

    /// `Scan`: moves the pointer in the direction until it is on a zero cell.
    fn scan_cells(&mut self, dir: i32) -> (r: Result<(), Fault>)
        requires
            old(self)@.wf(),
        ensures
            final(self)@.wf(),
            final(self)@.cells.len() >= old(self)@.cells.len(),
            match r {
                Ok(()) => forall|cap: int|
                    final(self)@.cells.len() <= cap ==> #[trigger] scan(
                        old(self)@,
                        dir as int,
                        cap,
                    ) == (final(self)@, None::<Fault>),
                Err(f) => scan(old(self)@, dir as int, final(self)@.cells.len() as int) == (
                    final(self)@,
                    Some(f),
                ),
            },
    {
        if dir == 0 {
            return Err(Fault::ScanDirectionZero);
        }
        let step: i32 = if dir > 0 {
            1
        } else {
            -1
        };
        while self.tape[self.pointer] != 0
            invariant
                self@.wf(),
                self@.cells.len() >= old(self)@.cells.len(),
                dir != 0,
                step == if dir > 0 {
                    1i32
                } else {
                    (-1) as i32
                },
                forall|cap: int|
                    self@.cells.len() <= cap ==> #[trigger] scan(old(self)@, dir as int, cap)
                        == scan(self@, dir as int, cap),
            decreases
                if dir > 0 {
                    usize::MAX - self@.pointer
                } else {
                    self@.pointer
                },
        {
            let ghost before = self@;
            match self.move_ptr(step) {
                Ok(()) => {},
                Err(f) => {
                    return Err(f);
                },
            }
            proof {
                assert(shift(before, step as int, self@.cells.len() as int) == Ok::<
                    Machine,
                    Fault,
                >(self@));
                assert forall|cap: int| self@.cells.len() <= cap implies #[trigger] scan(
                    old(self)@,
                    dir as int,
                    cap,
                ) == scan(self@, dir as int, cap) by {
                    assert(shift(before, step as int, cap) == Ok::<Machine, Fault>(self@));
                    assert(scan(old(self)@, dir as int, cap) == scan(before, dir as int, cap));
                }
            }
        }
        Ok(())
    }

    /// Dispatches the instruction at `ip`, the step already counted. Gives the
    /// next instruction pointer.
    fn execute(
        &mut self,
        ir: &[Instr],
        ip: usize,
        input: &mut Input,
        output: &mut Output,
        Ghost(steps): Ghost<int>,
        Ghost(trace): Ghost<Seq<char>>,
    ) -> (r: Result<usize, Fault>)
        requires
            old(self)@.wf(),
            ip < ir.len(),
        ensures
            final(self)@.wf(),
            final(self)@.cells.len() >= old(self)@.cells.len(),
            final(output).flushed() == old(output).flushed(),
            ({
                let p = program(ir@);
                let s = State {
                    m: old(self)@,
                    ip: ip as int,
                    steps,
                    input: old(input)@,
                    output: old(output)@,
                    trace,
                };
                let t = State {
                    m: final(self)@,
                    ip: ip as int,
                    steps,
                    input: final(input)@,
                    output: final(output)@,
                    trace,
                };
                match r {
                    Ok(next) => forall|cap: int|
                        final(self)@.cells.len() <= cap ==> #[trigger] dispatch(
                            p,
                            s,
                            p[ip as int],
                            cap,
                        ) == (State { ip: next as int, ..t }, Status::Running),
                    Err(f) => dispatch(p, s, p[ip as int], final(self)@.cells.len() as int) == (
                        t,
                        Status::Failed(f),
                    ),
                }
            }),
    {
        let ghost p = program(ir@);
        assert(p[ip as int] == ir@[ip as int]@);
        assert(p.len() == ir.len());
        reveal(dispatch);
        match &ir[ip] {
            Instr::Add(delta) => {
                self.add_cell(*delta);
            },
            Instr::Move(delta) => {
                match self.move_ptr(*delta) {
                    Ok(()) => {},
                    Err(f) => {
                        return Err(f);
                    },
                }
            },
            Instr::AddTo(offset, sign) => {
                match self.add_to_cell(*offset, *sign) {
                    Ok(()) => {},
                    Err(f) => {
                        return Err(f);
                    },
                }
            },
            Instr::AddMul(edits) => {
                match self.add_mul_cells(edits) {
                    Ok(()) => {},
                    Err(f) => {
                        return Err(f);
                    },
                }
            },
            Instr::Output => {
                let byte = self.tape[self.pointer];
                let _ = output.write_byte(byte);
                assert(output@ =~= old(output)@.push(byte));
            },
            Instr::Input => {
                let value = match input.read_byte() {
                    Ok(v) => v,
                    Err(_) => 0,
                };
                self.tape[self.pointer] = value;
            },
            Instr::SetZero => {
                self.tape[self.pointer] = 0;
            },
            Instr::Scan(dir) => {
                match self.scan_cells(*dir) {
                    Ok(()) => {},
                    Err(f) => {
                        return Err(f);
                    },
                }
            },
            Instr::Jz(target) => {
                if self.tape[self.pointer] == 0 {
                    if *target >= ir.len() {
                        return Err(Fault::JumpOutOfRange);
                    }
                    return Ok(*target + 1);
                }
            },
            Instr::Jnz(target) => {
                if self.tape[self.pointer] != 0 {
                    if *target >= ir.len() {
                        return Err(Fault::JumpOutOfRange);
                    }
                    return Ok(*target);
                }
            },
        }
        Ok(ip + 1)
    }

    /// Runs the program to its end, to the first fault, or until the step
    /// budget is used up. Each step tests the budget, writes a trace line where
    /// `debug` is given, counts itself, and dispatches one instruction. At the
    /// end of the program the output is flushed.
    ///
    /// The run is that of the model, with the tape allowed to grow as far as it
    /// has grown when the run stops: a refusal of memory by the host shows as
    /// the fault of a tape that cannot grow further.
    pub fn run(
        &mut self,
        ir: &[Instr],
        input: &mut Input,
        output: &mut Output,
        debug: Option<&mut crate::io::Debug>,
        max_steps: Option<u64>,
    ) -> (r: Result<(), String>)
        requires
            old(self)@.wf(),
        ensures
            final(self)@.wf(),
            final(self)@.cells.len() >= old(self)@.cells.len(),
            debug matches Some(d) ==> runs(
                program(ir@),
                start(old(self)@, old(input)@, old(output)@, d@),
                max_steps,
                true,
                final(self)@,
                final(input)@,
                final(output)@,
                final(d)@,
                r,
            ),
            debug is None ==> runs(
                program(ir@),
                start(old(self)@, old(input)@, old(output)@, Seq::empty()),
                max_steps,
                false,
                final(self)@,
                final(input)@,
                final(output)@,
                Seq::empty(),
                r,
            ),
            r is Ok ==> final(output).pending() == Seq::<u8>::empty(),
            r is Err ==> final(output).flushed() == old(output).flushed(),
    {
        let outcome = match debug {
            Some(d) => self.run_loop(ir, input, output, d, true, max_steps),
            None => {
                let mut unused = crate::io::Debug::new();
                let outcome = self.run_loop(ir, input, output, &mut unused, false, max_steps);
                proof {
                    let s0 = start(old(self)@, old(input)@, old(output)@, Seq::empty());
                    let lim = Limits {
                        cap: self@.cells.len() as int,
                        max_steps,
                        tracing: false,
                    };
                    let n = choose|n: nat|
                        ran(
                            program(ir@),
                            s0,
                            lim,
                            n,
                            self@,
                            input@,
                            output@,
                            unused@,
                            outcome,
                        );
                    lemma_untraced(program(ir@), s0, lim, n);
                }
                outcome
            },
        };
        match outcome {
            Ok(()) => Ok(()),
            Err(f) => Err(fault_message(f)),
        }
    }

    /// Runs the program; another name for [`Vm::run`].
    pub fn run_ir(
        &mut self,
        ir: &[Instr],
        input: &mut Input,
        output: &mut Output,
        debug: Option<&mut crate::io::Debug>,
        max_steps: Option<u64>,
    ) -> (r: Result<(), String>)
        requires
            old(self)@.wf(),
        ensures
            final(self)@.wf(),
            final(self)@.cells.len() >= old(self)@.cells.len(),
            debug matches Some(d) ==> runs(
                program(ir@),
                start(old(self)@, old(input)@, old(output)@, d@),
                max_steps,
                true,
                final(self)@,
                final(input)@,
                final(output)@,
                final(d)@,
                r,
            ),
            debug is None ==> runs(
                program(ir@),
                start(old(self)@, old(input)@, old(output)@, Seq::empty()),
                max_steps,
                false,
                final(self)@,
                final(input)@,
                final(output)@,
                Seq::empty(),
                r,
            ),
            r is Ok ==> final(output).pending() == Seq::<u8>::empty(),
            r is Err ==> final(output).flushed() == old(output).flushed(),
    {
        self.run(ir, input, output, debug, max_steps)
    }

    /// Takes one step of a run that stands inside the program: tests the
    /// budget, writes the trace line where `tracing` is set, counts the step
    /// and dispatches the instruction at `ip`. Gives the next instruction
    /// pointer and the new count.
    fn advance(
        &mut self,
        ir: &[Instr],
        ip: usize,
        steps: u64,
        input: &mut Input,
        output: &mut Output,
        debug: &mut crate::io::Debug,
        tracing: bool,
        max_steps: Option<u64>,
    ) -> (r: Result<(usize, u64), Fault>)
        requires
            old(self)@.wf(),
            ip < ir.len(),
        ensures
            final(self)@.wf(),
            final(self)@.cells.len() >= old(self)@.cells.len(),
            final(debug).flushed() == old(debug).flushed(),
            final(output).flushed() == old(output).flushed(),
            r matches Ok((next, count)) ==> count == steps + 1,
            ({
                let p = program(ir@);
                let s = State {
                    m: old(self)@,
                    ip: ip as int,
                    steps: steps as int,
                    input: old(input)@,
                    output: old(output)@,
                    trace: old(debug)@,
                };
                match r {
                    Ok((next, count)) => forall|cap: int|
                        final(self)@.cells.len() <= cap ==> #[trigger] step(
                            p,
                            s,
                            Limits { cap, max_steps, tracing },
                        ) == (
                            State {
                                m: final(self)@,
                                ip: next as int,
                                steps: count as int,
                                input: final(input)@,
                                output: final(output)@,
                                trace: final(debug)@,
                            },
                            Status::Running,
                        ),
                    Err(f) => stopped(
                        step(
                            p,
                            s,
                            Limits { cap: final(self)@.cells.len() as int, max_steps, tracing },
                        ),
                        final(self)@,
                        final(input)@,
                        final(output)@,
                        final(debug)@,
                        f,
                    ),
                }
            }),
    {
        let ghost p = program(ir@);
        let ghost cur = State {
            m: self@,
            ip: ip as int,
            steps: steps as int,
            input: input@,
            output: output@,
            trace: debug@,
        };
        assert(p.len() == ir.len());
        assert(p[ip as int] == ir@[ip as int]@);
        if let Some(limit) = max_steps {
            if steps >= limit {
                return Err(Fault::MaxSteps);
            }
        }
        if tracing {
            let _ = self.trace(debug, steps, ip, &ir[ip]);
            assert(debug@ =~= cur.trace + trace_line(cur, p[ip as int])) by {
                assert(trace_line(cur, p[ip as int]) == trace_line(
                    State {
                        m: self@,
                        ip: ip as int,
                        steps: steps as int,
                        input: Seq::empty(),
                        output: Seq::empty(),
                        trace: Seq::empty(),
                    },
                    p[ip as int],
                ));
            }
        }
        if steps == u64::MAX {
            return Err(Fault::StepOverflow);
        }
        match self.execute(ir, ip, input, output, Ghost(steps + 1), Ghost(debug@)) {
            Ok(next) => Ok((next, steps + 1)),
            Err(f) => Err(f),
        }
    }

    /// Takes one step of a run: the decision that a caller needs who feeds the
    /// input and drains the output between the steps. Gives the next
    /// instruction pointer and the new step count, or nothing where `ip` is
    /// past the end of the program. Flushes nothing.
    pub fn step(
        &mut self,
        ir: &[Instr],
        ip: usize,
        steps: u64,
        input: &mut Input,
        output: &mut Output,
        debug: Option<&mut crate::io::Debug>,
        max_steps: Option<u64>,
    ) -> (r: Result<Option<(usize, u64)>, String>)
        requires
            old(self)@.wf(),
        ensures
            final(self)@.wf(),
            final(self)@.cells.len() >= old(self)@.cells.len(),
            final(output).flushed() == old(output).flushed(),
            debug matches Some(d) ==> stepped(
                program(ir@),
                State {
                    m: old(self)@,
                    ip: ip as int,
                    steps: steps as int,
                    input: old(input)@,
                    output: old(output)@,
                    trace: d@,
                },
                max_steps,
                true,
                final(self)@,
                final(input)@,
                final(output)@,
                final(d)@,
                r,
            ),
            debug is None ==> stepped(
                program(ir@),
                State {
                    m: old(self)@,
                    ip: ip as int,
                    steps: steps as int,
                    input: old(input)@,
                    output: old(output)@,
                    trace: Seq::empty(),
                },
                max_steps,
                false,
                final(self)@,
                final(input)@,
                final(output)@,
                Seq::empty(),
                r,
            ),
    {
        assert(program(ir@).len() == ir.len());
        if ip >= ir.len() {
            return Ok(None);
        }
        let outcome = match debug {
            Some(d) => self.advance(ir, ip, steps, input, output, d, true, max_steps),
            None => {
                let mut unused = crate::io::Debug::new();
                assert(unused@ =~= Seq::<char>::empty());
                let outcome = self.advance(
                    ir,
                    ip,
                    steps,
                    input,
                    output,
                    &mut unused,
                    false,
                    max_steps,
                );
                proof {
                    let s = State {
                        m: old(self)@,
                        ip: ip as int,
                        steps: steps as int,
                        input: old(input)@,
                        output: old(output)@,
                        trace: Seq::empty(),
                    };
                    let lim = Limits {
                        cap: self@.cells.len() as int,
                        max_steps,
                        tracing: false,
                    };
                    lemma_untraced(program(ir@), s, lim, 1);
                    assert(run_n(program(ir@), s, lim, 0) == (s, Status::Running));
                    assert(run_n(program(ir@), s, lim, 1) == step(program(ir@), s, lim));
                }
                outcome
            },
        };
        match outcome {
            Ok(pair) => Ok(Some(pair)),
            Err(f) => Err(fault_message(f)),
        }
    }

    /// Runs the program, writing a trace line per step to `debug` where
    /// `tracing` is set.
    fn run_loop(
        &mut self,
        ir: &[Instr],
        input: &mut Input,
        output: &mut Output,
        debug: &mut crate::io::Debug,
        tracing: bool,
        max_steps: Option<u64>,
    ) -> (r: Result<(), Fault>)
        requires
            old(self)@.wf(),
        ensures
            final(self)@.wf(),
            final(self)@.cells.len() >= old(self)@.cells.len(),
            final(debug).flushed() == old(debug).flushed(),
            exists|n: nat|
                ran(
                    program(ir@),
                    start(old(self)@, old(input)@, old(output)@, old(debug)@),
                    Limits { cap: final(self)@.cells.len() as int, max_steps, tracing },
                    n,
                    final(self)@,
                    final(input)@,
                    final(output)@,
                    final(debug)@,
                    r,
                ),
            r is Ok ==> final(output).pending() == Seq::<u8>::empty(),
            r is Err ==> final(output).flushed() == old(output).flushed(),
    {
        let ghost p = program(ir@);
        let ghost s0 = start(self@, input@, output@, debug@);
        let mut ip: usize = 0;
        let mut steps: u64 = 0;
        while ip < ir.len()
            invariant
                p == program(ir@),
                s0 == start(old(self)@, old(input)@, old(output)@, old(debug)@),
                self@.wf(),
                self@.cells.len() >= old(self)@.cells.len(),
                debug.flushed() == old(debug).flushed(),
                output.flushed() == old(output).flushed(),
                forall|cap: int|
                    self@.cells.len() <= cap ==> #[trigger] run_n(
                        p,
                        s0,
                        Limits { cap, max_steps, tracing },
                        steps as nat,
                    ) == (
                        State {
                            m: self@,
                            ip: ip as int,
                            steps: steps as int,
                            input: input@,
                            output: output@,
                            trace: debug@,
                        },
                        Status::Running,
                    ),
            decreases u64::MAX - steps,
        {
            let ghost cur = State {
                m: self@,
                ip: ip as int,
                steps: steps as int,
                input: input@,
                output: output@,
                trace: debug@,
            };
            match self.advance(ir, ip, steps, input, output, debug, tracing, max_steps) {
                Ok((next, count)) => {
                    proof {
                        let now = State {
                            m: self@,
                            ip: next as int,
                            steps: count as int,
                            input: input@,
                            output: output@,
                            trace: debug@,
                        };
                        assert forall|cap: int| self@.cells.len() <= cap implies #[trigger] run_n(
                            p,
                            s0,
                            Limits { cap, max_steps, tracing },
                            count as nat,
                        ) == (now, Status::Running) by {
                            let lim = Limits { cap, max_steps, tracing };
                            assert(run_n(p, s0, lim, steps as nat) == (cur, Status::Running));
                            assert(run_n(p, s0, lim, (steps + 1) as nat) == step(p, cur, lim));
                        }
                    }
                    ip = next;
                    steps = count;
                },
                Err(f) => {
                    proof {
                        let lim = Limits { cap: self@.cells.len() as int, max_steps, tracing };
                        assert(run_n(p, s0, lim, steps as nat) == (cur, Status::Running));
                        assert(run_n(p, s0, lim, (steps + 1) as nat) == step(p, cur, lim));
                        assert(ran(
                            p,
                            s0,
                            lim,
                            (steps + 1) as nat,
                            self@,
                            input@,
                            output@,
                            debug@,
                            Err::<(), Fault>(f),
                        ));
                    }
                    return Err(f);
                },
            }
        }
        let _ = output.flush();
        proof {
            let lim = Limits { cap: self@.cells.len() as int, max_steps, tracing };
            let cur = State {
                m: self@,
                ip: ip as int,
                steps: steps as int,
                input: input@,
                output: output@,
                trace: debug@,
            };
            assert(run_n(p, s0, lim, steps as nat) == (cur, Status::Running));
            assert(run_n(p, s0, lim, (steps + 1) as nat) == step(p, cur, lim));
            assert(ran(
                p,
                s0,
                lim,
                (steps + 1) as nat,
                self@,
                input@,
                output@,
                debug@,
                Ok::<(), Fault>(()),
            ));
        }
        Ok(())
    }
}

/// Whether `result` is a step that stopped on the fault `f`, leaving the
/// machine `m`, the unread input `input`, and `output` and `trace` written.
pub open spec fn stopped(
    result: (State, Status),
    m: Machine,
    input: Seq<u8>,
    output: Seq<u8>,
    trace: Seq<char>,
    f: Fault,
) -> bool {
    &&& result.1 == Status::Failed(f)
    &&& result.0.m == m
    &&& result.0.input == input
    &&& result.0.output == output
    &&& result.0.trace == trace
}

/// One step of `p` from `s`, with the tape allowed to grow as far as that of
/// `m` has, gives the result `r`, leaving the machine `m`, the unread input
/// `input`, and `output` and `trace` written.
pub open spec fn stepped(
    p: Seq<Op>,
    s: State,
    max_steps: Option<u64>,
    tracing: bool,
    m: Machine,
    input: Seq<u8>,
    output: Seq<u8>,
    trace: Seq<char>,
    r: Result<Option<(usize, u64)>, String>,
) -> bool {
    let (t, status) = step(p, s, Limits { cap: m.cells.len() as int, max_steps, tracing });
    &&& t.m == m
    &&& t.input == input
    &&& t.output == output
    &&& t.trace == trace
    &&& match status {
        Status::Running => r == Ok::<Option<(usize, u64)>, String>(
            Some((t.ip as usize, t.steps as u64)),
        ) && 0 <= t.ip <= usize::MAX && 0 <= t.steps <= u64::MAX,
        Status::Done => r == Ok::<Option<(usize, u64)>, String>(None),
        Status::Failed(f) => r is Err && r->Err_0@ == f.text(),
    }
}

/// The run of `p` from `s0`, with the tape allowed to grow as far as that of
/// `m` has, stops with the result `r`, leaving the machine `m`, the unread
/// input `input`, and `output` and `trace` written.
pub open spec fn runs(
    p: Seq<Op>,
    s0: State,
    max_steps: Option<u64>,
    tracing: bool,
    m: Machine,
    input: Seq<u8>,
    output: Seq<u8>,
    trace: Seq<char>,
    r: Result<(), String>,
) -> bool {
    exists|n: nat, outcome: Result<(), Fault>|
        reports(r, outcome) && #[trigger] ran(
            p,
            s0,
            Limits { cap: m.cells.len() as int, max_steps, tracing },
            n,
            m,
            input,
            output,
            trace,
            outcome,
        )
}

/// Whether the result `r` reports the outcome `outcome`: success for success,
/// the fault's message for a fault.
pub open spec fn reports(r: Result<(), String>, outcome: Result<(), Fault>) -> bool {
    match (r, outcome) {
        (Ok(()), Ok(())) => true,
        (Err(e), Err(f)) => e@ == f.text(),
        _ => false,
    }
}

/// The run of `p` from `s0` stops at its `n`th step with the result `r`,
/// leaving the machine `m`, the unread input `input`, and `output` and `trace`
/// written.
pub open spec fn ran(
    p: Seq<Op>,
    s0: State,
    lim: Limits,
    n: nat,
    m: Machine,
    input: Seq<u8>,
    output: Seq<u8>,
    trace: Seq<char>,
    r: Result<(), Fault>,
) -> bool {
    let (t, status) = run_n(p, s0, lim, n);
    &&& t.m == m
    &&& t.input == input
    &&& t.output == output
    &&& t.trace == trace
    &&& match r {
        Ok(()) => status is Done,
        Err(f) => status == Status::Failed(f),
    }
}

/// When a run is owed its result: where the model's run stops, on a tape
/// that may not grow beyond the length it starts with, for another reason
/// than want of tape, the machine's run is that run. It ends with success
/// exactly if the model's run does, and with the same fault if not.
pub proof fn lemma_run_owed(
    p: Seq<Op>,
    s0: State,
    max_steps: Option<u64>,
    tracing: bool,
    m: Machine,
    input: Seq<u8>,
    output: Seq<u8>,
    trace: Seq<char>,
    r: Result<(), String>,
    n0: nat,
)
    requires
        runs(p, s0, max_steps, tracing, m, input, output, trace, r),
        s0.m.cells.len() <= m.cells.len(),
        !(run_n(p, s0, Limits { cap: s0.m.cells.len() as int, max_steps, tracing }, n0).1
            is Running),
        !out_of_tape(
            run_n(p, s0, Limits { cap: s0.m.cells.len() as int, max_steps, tracing }, n0).1,
        ),
    ensures
        ({
            let (t, status) = run_n(
                p,
                s0,
                Limits { cap: s0.m.cells.len() as int, max_steps, tracing },
                n0,
            );
            &&& t.m == m
            &&& t.input == input
            &&& t.output == output
            &&& t.trace == trace
            &&& match status {
                Status::Failed(f) => r is Err && r->Err_0@ == f.text(),
                _ => r is Ok,
            }
        }),
{
    let lim0 = Limits { cap: s0.m.cells.len() as int, max_steps, tracing };
    let lim1 = Limits { cap: m.cells.len() as int, max_steps, tracing };
    let (n, outcome) = choose|n: nat, outcome: Result<(), Fault>|
        reports(r, outcome) && #[trigger] ran(p, s0, lim1, n, m, input, output, trace, outcome);
    lemma_run_cap(p, s0, lim0, m.cells.len() as int, n0);
    lemma_run_stops_once(p, s0, lim1, n, n0);
}

} // verus!
