//! The tape machine, as mathematics: what one instruction does to the tape,
//! the pointer and the byte streams, and what a run of many steps comes to.
//!
//! The tape grows by doubling. How far it may grow is a parameter, `cap`: the
//! host may refuse memory, and a run on the real machine is a run of this
//! model for some `cap` up to the largest length the host can address.

use crate::ir::{op_text, Op};
use crate::text::decimal;
use vstd::prelude::*;

verus! {

/// Why a run stopped early.
#[derive(Clone, Copy, Debug, PartialEq, Eq)]
pub enum Fault {
    /// The pointer was moved, or an offset reached, below cell zero.
    PointerUnderflow,
    /// The pointer was moved, or an offset reached, beyond the largest index.
    PointerOverflow,
    /// The tape could not be grown as far as needed.
    TapeSizeOverflow,
    /// A jump was taken to a target outside the program.
    JumpOutOfRange,
    /// The step counter reached its largest value.
    StepOverflow,
    /// A scan was given no direction.
    ScanDirectionZero,
    /// The step budget was used up.
    MaxSteps,
}

impl Fault {
    /// The message for this fault.
    pub open spec fn text(self) -> Seq<char> {
        match self {
            Fault::PointerUnderflow => "runtime error: pointer underflow"@,
            Fault::PointerOverflow => "runtime error: pointer overflow"@,
            Fault::TapeSizeOverflow => "runtime error: tape size overflow"@,
            Fault::JumpOutOfRange => "runtime error: jump target out of range"@,
            Fault::StepOverflow => "runtime error: step counter overflow"@,
            Fault::ScanDirectionZero => "runtime error: scan direction zero"@,
            Fault::MaxSteps => "runtime error: max steps exceeded"@,
        }
    }
}

/// The tape and the data pointer.
pub struct Machine {
    pub cells: Seq<u8>,
    pub pointer: int,
}

impl Machine {
    /// The pointer is on the tape, and the tape is no longer than an index
    /// can say.
    pub open spec fn wf(self) -> bool {
        0 <= self.pointer < self.cells.len() <= usize::MAX
    }

    /// The cell under the pointer.
    pub open spec fn cell(self) -> u8 {
        self.cells[self.pointer]
    }

    /// The machine with `v` stored under the pointer.
    pub open spec fn set_cell(self, v: u8) -> Machine {
        Machine { cells: self.cells.update(self.pointer, v), pointer: self.pointer }
    }
}

/// `v` reduced to a cell value, modulo 256.
pub open spec fn wrap(v: int) -> u8 {
    (v % 256) as u8
}

/// The length a tape of length `len` is doubled to so that index `required`
/// is on it.
pub open spec fn grown_len(len: int, required: int) -> int
    decreases
        if required >= len {
            required - len + 1
        } else {
            0
        },
{
    if 1 <= len <= required {
        grown_len(2 * len, required)
    } else {
        len
    }
}

/// Doubling ends with `required` on the tape, and never shortens the tape.
pub proof fn lemma_grown_len(len: int, required: int)
    requires
        1 <= len,
    ensures
        grown_len(len, required) > required,
        grown_len(len, required) >= len,
    decreases
        if required >= len {
            required - len + 1
        } else {
            0
        },
{
    if len <= required {
        lemma_grown_len(2 * len, required);
    }
}

/// The tape with index `index` on it: as it is where the index is on it
/// already, else doubled until it is, the new cells zero. Nothing where that
/// takes more than `cap` cells.
pub open spec fn room(cells: Seq<u8>, index: int, cap: int) -> Option<Seq<u8>> {
    if index < cells.len() {
        Some(cells)
    } else {
        let n = grown_len(cells.len() as int, index);
        if n > cap {
            None
        } else {
            Some(cells + Seq::new((n - cells.len()) as nat, |i: int| 0u8))
        }
    }
}

/// The index `offset` cells from the pointer, and the tape grown to hold it.
pub open spec fn reach(m: Machine, offset: int, cap: int) -> Result<(Machine, int), Fault> {
    if offset == 0 {
        Ok((m, m.pointer))
    } else if offset > 0 {
        let target = m.pointer + offset;
        if target > usize::MAX {
            Err(Fault::PointerOverflow)
        } else {
            match room(m.cells, target, cap) {
                Some(cells) => Ok((Machine { cells, pointer: m.pointer }, target)),
                None => Err(Fault::TapeSizeOverflow),
            }
        }
    } else {
        if -offset > m.pointer {
            Err(Fault::PointerUnderflow)
        } else {
            Ok((m, m.pointer + offset))
        }
    }
}

/// The machine with the pointer moved by `delta`.
pub open spec fn shift(m: Machine, delta: int, cap: int) -> Result<Machine, Fault> {
    match reach(m, delta, cap) {
        Ok((g, target)) => Ok(Machine { cells: g.cells, pointer: target }),
        Err(f) => Err(f),
    }
}

/// `AddTo`: the cell under the pointer is added to, or subtracted from, the
/// cell at `offset`, and cleared. Nothing happens where it is zero.
pub open spec fn add_to(m: Machine, offset: int, sign: int, cap: int) -> (Machine, Option<Fault>) {
    let v = m.cell();
    if v == 0 {
        (m, None)
    } else {
        match reach(m, offset, cap) {
            Err(f) => (m, Some(f)),
            Ok((g, target)) => {
                let dest = g.cells[target];
                let sum = if sign < 0 {
                    wrap(dest - v)
                } else {
                    wrap(dest + v)
                };
                (
                    Machine {
                        cells: g.cells.update(target, sum).update(m.pointer, 0u8),
                        pointer: m.pointer,
                    },
                    None,
                )
            },
        }
    }
}

/// The first `k` edits of an `AddMul` applied, each adding its factor times
/// `v` to the cell at its offset; stops at the first offset that cannot be
/// reached.
pub open spec fn apply_edits(m: Machine, v: u8, edits: Seq<(i32, i32)>, k: int, cap: int) -> (
    Machine,
    Option<Fault>,
)
    decreases k,
{
    if k <= 0 {
        (m, None)
    } else {
        let (g, fault) = apply_edits(m, v, edits, k - 1, cap);
        if fault is Some {
            (g, fault)
        } else {
            match reach(g, edits[k - 1].0 as int, cap) {
                Err(f) => (g, Some(f)),
                Ok((h, target)) => (
                    Machine {
                        cells: h.cells.update(target, wrap(h.cells[target] + edits[k - 1].1 * v)),
                        pointer: h.pointer,
                    },
                    None,
                ),
            }
        }
    }
}

/// `AddMul`: every edit applied with the cell under the pointer, which is
/// then cleared. Nothing happens where it is zero.
pub open spec fn add_mul(m: Machine, edits: Seq<(i32, i32)>, cap: int) -> (Machine, Option<Fault>) {
    let v = m.cell();
    if v == 0 {
        (m, None)
    } else {
        let (g, fault) = apply_edits(m, v, edits, edits.len() as int, cap);
        if fault is Some {
            (g, fault)
        } else {
            (g.set_cell(0u8), None)
        }
    }
}

/// `Scan(-1)`: the pointer moves left until it is on a zero cell.
pub open spec fn scan_left(m: Machine) -> (Machine, Option<Fault>)
    decreases m.pointer,
{
    if m.cell() == 0 {
        (m, None)
    } else if m.pointer <= 0 {
        (m, Some(Fault::PointerUnderflow))
    } else {
        scan_left(Machine { cells: m.cells, pointer: m.pointer - 1 })
    }
}

/// `Scan(1)`: the pointer moves right until it is on a zero cell.
pub open spec fn scan_right(m: Machine, cap: int) -> (Machine, Option<Fault>)
    decreases usize::MAX - m.pointer,
{
    if m.cell() == 0 {
        (m, None)
    } else {
        match shift(m, 1, cap) {
            Err(f) => (m, Some(f)),
            Ok(g) => scan_right(g, cap),
        }
    }
}

/// `Scan`: left for a negative direction, right for a positive one.
pub open spec fn scan(m: Machine, dir: int, cap: int) -> (Machine, Option<Fault>) {
    if dir == 0 {
        (m, Some(Fault::ScanDirectionZero))
    } else if dir > 0 {
        scan_right(m, cap)
    } else {
        scan_left(m)
    }
}

/// The next input byte; zero at the end of input.
pub open spec fn next_byte(input: Seq<u8>) -> u8 {
    if input.len() > 0 {
        input[0]
    } else {
        0u8
    }
}

/// The input behind its next byte.
pub open spec fn rest_of(input: Seq<u8>) -> Seq<u8> {
    if input.len() > 0 {
        input.drop_first()
    } else {
        input
    }
}

/// Everything a run reads and changes.
pub struct State {
    /// The tape and the data pointer.
    pub m: Machine,
    /// The instruction pointer.
    pub ip: int,
    /// The instructions dispatched so far.
    pub steps: int,
    /// The input not yet read.
    pub input: Seq<u8>,
    /// The output written so far.
    pub output: Seq<u8>,
    /// The trace written so far.
    pub trace: Seq<char>,
}

/// Whether a run goes on.
pub enum Status {
    /// The next step can be taken.
    Running,
    /// The instruction pointer went past the end.
    Done,
    /// The run stopped on a fault.
    Failed(Fault),
}

/// What is fixed for a whole run.
pub struct Limits {
    /// The longest tape the host grants.
    pub cap: int,
    /// The step budget, if any.
    pub max_steps: Option<u64>,
    /// Whether each step writes a trace line.
    pub tracing: bool,
}

/// The trace line for dispatching `op` in state `s`.
pub open spec fn trace_line(s: State, op: Op) -> Seq<char> {
    "step="@ + decimal(s.steps as nat) + " ip="@ + decimal(s.ip as nat) + " ptr="@ + decimal(
        s.m.pointer as nat,
    ) + " cell="@ + decimal(s.m.cell() as nat) + " "@ + op_text(op) + "\n"@
}

/// What the instruction `op` does in state `s`, the step already counted.
#[verifier::opaque]
pub open spec fn dispatch(p: Seq<Op>, s: State, op: Op, cap: int) -> (State, Status) {
    match op {
        Op::Add(d) => (State { m: s.m.set_cell(wrap(s.m.cell() + d)), ip: s.ip + 1, ..s }, Status::Running),
        Op::Move(d) => match shift(s.m, d as int, cap) {
            Ok(g) => (State { m: g, ip: s.ip + 1, ..s }, Status::Running),
            Err(f) => (s, Status::Failed(f)),
        },
        Op::AddTo(o, sign) => {
            let (g, fault) = add_to(s.m, o as int, sign as int, cap);
            match fault {
                None => (State { m: g, ip: s.ip + 1, ..s }, Status::Running),
                Some(f) => (State { m: g, ..s }, Status::Failed(f)),
            }
        },
        Op::AddMul(edits) => {
            let (g, fault) = add_mul(s.m, edits, cap);
            match fault {
                None => (State { m: g, ip: s.ip + 1, ..s }, Status::Running),
                Some(f) => (State { m: g, ..s }, Status::Failed(f)),
            }
        },
        Op::Output => (State { output: s.output.push(s.m.cell()), ip: s.ip + 1, ..s }, Status::Running),
        Op::Input => (
            State {
                m: s.m.set_cell(next_byte(s.input)),
                input: rest_of(s.input),
                ip: s.ip + 1,
                ..s
            },
            Status::Running,
        ),
        Op::SetZero => (State { m: s.m.set_cell(0u8), ip: s.ip + 1, ..s }, Status::Running),
        Op::Scan(dir) => {
            let (g, fault) = scan(s.m, dir as int, cap);
            match fault {
                None => (State { m: g, ip: s.ip + 1, ..s }, Status::Running),
                Some(f) => (State { m: g, ..s }, Status::Failed(f)),
            }
        },
        Op::Jz(t) => if s.m.cell() == 0 {
            if t >= p.len() {
                (s, Status::Failed(Fault::JumpOutOfRange))
            } else {
                (State { ip: t + 1, ..s }, Status::Running)
            }
        } else {
            (State { ip: s.ip + 1, ..s }, Status::Running)
        },
        Op::Jnz(t) => if s.m.cell() != 0 {
            if t >= p.len() {
                (s, Status::Failed(Fault::JumpOutOfRange))
            } else {
                (State { ip: t as int, ..s }, Status::Running)
            }
        } else {
            (State { ip: s.ip + 1, ..s }, Status::Running)
        },
    }
}

/// One step of a run: the end test, the budget test, the trace line, the
/// count, the instruction.
pub open spec fn step(p: Seq<Op>, s: State, lim: Limits) -> (State, Status) {
    if s.ip < 0 || s.ip >= p.len() {
        (s, Status::Done)
    } else if lim.max_steps is Some && s.steps >= lim.max_steps->0 {
        (s, Status::Failed(Fault::MaxSteps))
    } else {
        let op = p[s.ip];
        let traced = if lim.tracing {
            State { trace: s.trace + trace_line(s, op), ..s }
        } else {
            s
        };
        if s.steps >= u64::MAX {
            (traced, Status::Failed(Fault::StepOverflow))
        } else {
            dispatch(p, State { steps: s.steps + 1, ..traced }, op, lim.cap)
        }
    }
}

/// The state after `n` steps, or where the run stopped before that.
pub open spec fn run_n(p: Seq<Op>, s: State, lim: Limits, n: nat) -> (State, Status)
    decreases n,
{
    if n == 0 {
        (s, Status::Running)
    } else {
        let (t, status) = run_n(p, s, lim, (n - 1) as nat);
        if status is Running {
            step(p, t, lim)
        } else {
            (t, status)
        }
    }
}

/// Once an edit cannot be reached, the later edits change nothing.
pub proof fn lemma_edits_stop(
    m: Machine,
    v: u8,
    edits: Seq<(i32, i32)>,
    k: int,
    n: int,
    cap: int,
)
    requires
        0 <= k <= n,
        apply_edits(m, v, edits, k, cap).1 is Some,
    ensures
        apply_edits(m, v, edits, n, cap) == apply_edits(m, v, edits, k, cap),
    decreases n - k,
{
    if k < n {
        lemma_edits_stop(m, v, edits, k, n - 1, cap);
    }
}

/// A run that does not trace leaves the trace as it was.
pub proof fn lemma_untraced(p: Seq<Op>, s: State, lim: Limits, n: nat)
    requires
        !lim.tracing,
    ensures
        run_n(p, s, lim, n).0.trace == s.trace,
    decreases n,
{
    reveal(dispatch);
    if n > 0 {
        lemma_untraced(p, s, lim, (n - 1) as nat);
    }
}

/// The state a run starts in.
pub open spec fn start(m: Machine, input: Seq<u8>, output: Seq<u8>, trace: Seq<char>) -> State {
    State { m, ip: 0, steps: 0, input, output, trace }
}

} // verus!
