//! The intermediate representation: one instruction per opcode at first,
//! fewer and richer ones after optimization.

use crate::brackets::NO_JUMP;
use crate::nesting::{balanced, lemma_pairs_unique_close, lemma_pairs_unique_open, pairs};
use crate::parse::{CLOSE, GET, LEFT, MINUS, OPEN, PLUS, PUT, RIGHT};
use crate::text::{decimal, push_decimal, push_signed, signed_decimal};
use vstd::prelude::*;
use vstd::string::*;

verus! {

/// One instruction of the tape machine.
#[derive(Debug, PartialEq, Eq)]
pub enum Instr {
    /// Adds the delta to the current cell, wrapping.
    Add(i32),
    /// Moves the pointer by the delta.
    Move(i32),
    /// Adds (sign `1`) or subtracts (sign `-1`) the current cell to the cell at
    /// the offset, then clears the current cell.
    AddTo(i32, i32),
    /// For each `(offset, factor)`: adds factor times the current cell to the
    /// cell at the offset; then clears the current cell.
    AddMul(Vec<(i32, i32)>),
    /// Writes the current cell.
    Output,
    /// Reads one byte into the current cell; end of input reads as zero.
    Input,
    /// Jumps behind the target if the current cell is zero.
    Jz(usize),
    /// Jumps to the target if the current cell is not zero.
    Jnz(usize),
    /// Clears the current cell.
    SetZero,
    /// Moves the pointer in the direction until the current cell is zero.
    Scan(i32),
}

/// An instruction as a mathematical value.
pub enum Op {
    Add(i32),
    Move(i32),
    AddTo(i32, i32),
    AddMul(Seq<(i32, i32)>),
    Output,
    Input,
    Jz(usize),
    Jnz(usize),
    SetZero,
    Scan(i32),
}

impl View for Instr {
    type V = Op;

    open spec fn view(&self) -> Op {
        match *self {
            Instr::Add(d) => Op::Add(d),
            Instr::Move(d) => Op::Move(d),
            Instr::AddTo(o, s) => Op::AddTo(o, s),
            Instr::AddMul(edits) => Op::AddMul(edits@),
            Instr::Output => Op::Output,
            Instr::Input => Op::Input,
            Instr::Jz(t) => Op::Jz(t),
            Instr::Jnz(t) => Op::Jnz(t),
            Instr::SetZero => Op::SetZero,
            Instr::Scan(d) => Op::Scan(d),
        }
    }
}

impl Clone for Instr {
    fn clone(&self) -> (r: Self)
        ensures
            r@ == self@,
    {
        match self {
            Instr::Add(d) => Instr::Add(*d),
            Instr::Move(d) => Instr::Move(*d),
            Instr::AddTo(o, s) => Instr::AddTo(*o, *s),
            Instr::AddMul(edits) => {
                let mut copy: Vec<(i32, i32)> = Vec::new();
                let mut i: usize = 0;
                while i < edits.len()
                    invariant
                        i <= edits.len(),
                        copy@ == edits@.take(i as int),
                    decreases edits.len() - i,
                {
                    let e = edits[i];
                    copy.push(e);
                    proof {
                        assert(edits@.take(i + 1) == edits@.take(i as int).push(e));
                    }
                    i += 1;
                }
                proof {
                    assert(edits@.take(i as int) == edits@);
                }
                Instr::AddMul(copy)
            },
            Instr::Output => Instr::Output,
            Instr::Input => Instr::Input,
            Instr::Jz(t) => Instr::Jz(*t),
            Instr::Jnz(t) => Instr::Jnz(*t),
            Instr::SetZero => Instr::SetZero,
            Instr::Scan(d) => Instr::Scan(*d),
        }
    }
}

/// A stored instruction stream as a sequence of mathematical instructions.
pub open spec fn program(ir: Seq<Instr>) -> Seq<Op> {
    ir.map_values(|i: Instr| i@)
}

/// The nesting step of one instruction: `Jz` opens, `Jnz` closes.
pub open spec fn jump_step(op: Op) -> int {
    match op {
        Op::Jz(_) => 1,
        Op::Jnz(_) => -1,
        _ => 0,
    }
}

/// The nesting steps of a program.
pub open spec fn jump_steps(p: Seq<Op>) -> Seq<int> {
    Seq::new(p.len(), |i: int| jump_step(p[i]))
}

/// The jump invariant: every `Jz` names the `Jnz` that closes its loop, and
/// every `Jnz` names the `Jz` that opens it.
pub open spec fn well_linked(p: Seq<Op>) -> bool {
    &&& balanced(jump_steps(p))
    &&& forall|i: int|
        0 <= i < p.len() ==> {
            &&& #[trigger] p[i] matches Op::Jz(t) ==> pairs(jump_steps(p), i, t as int)
            &&& p[i] matches Op::Jnz(t) ==> pairs(jump_steps(p), t as int, i)
        }
}

/// In a program that satisfies the jump invariant, the instruction at `i` is
/// the `Jz` to `t` exactly if the instruction at `t` is the `Jnz` to `i`. No
/// other instruction names an index.
pub proof fn lemma_jumps_mutual(p: Seq<Op>, i: int, t: int)
    requires
        well_linked(p),
        0 <= i < p.len() <= usize::MAX,
        0 <= t < p.len(),
    ensures
        p[i] == Op::Jz(t as usize) <==> p[t] == Op::Jnz(i as usize),
{
    let d = jump_steps(p);
    if p[i] == Op::Jz(t as usize) {
        assert(pairs(d, i, t));
        assert(jump_step(p[t]) == -1);
        match p[t] {
            Op::Jnz(x) => {
                assert(pairs(d, x as int, t));
                lemma_pairs_unique_open(d, i, x as int, t);
            },
            _ => {},
        }
    }
    if p[t] == Op::Jnz(i as usize) {
        assert(pairs(d, i, t));
        assert(jump_step(p[i]) == 1);
        match p[i] {
            Op::Jz(x) => {
                assert(pairs(d, i, x as int));
                lemma_pairs_unique_close(d, i, t, x as int);
            },
            _ => {},
        }
    }
}

/// The instruction for one opcode, given its jump table entry; nothing for a
/// byte that is not an opcode.
pub open spec fn lower_one(b: u8, jump: usize) -> Option<Op> {
    if b == PLUS {
        Some(Op::Add(1))
    } else if b == MINUS {
        Some(Op::Add((-1) as i32))
    } else if b == RIGHT {
        Some(Op::Move(1))
    } else if b == LEFT {
        Some(Op::Move((-1) as i32))
    } else if b == PUT {
        Some(Op::Output)
    } else if b == GET {
        Some(Op::Input)
    } else if b == OPEN {
        Some(Op::Jz(jump))
    } else if b == CLOSE {
        Some(Op::Jnz(jump))
    } else {
        None
    }
}

/// The instructions for the first `n` bytes of `ops`.
pub open spec fn lowered_prefix(ops: Seq<u8>, jumps: Seq<usize>, n: int) -> Seq<Op>
    decreases n,
{
    if n <= 0 {
        Seq::empty()
    } else {
        let rest = lowered_prefix(ops, jumps, n - 1);
        match lower_one(ops[n - 1], jumps[n - 1]) {
            Some(op) => rest.push(op),
            None => rest,
        }
    }
}

/// The instructions for `ops`, one per opcode, in order.
pub open spec fn lowered(ops: Seq<u8>, jumps: Seq<usize>) -> Seq<Op> {
    lowered_prefix(ops, jumps, ops.len() as int)
}

/// The bracket at `n` has no partner recorded in `jumps`.
pub open spec fn unlinked(ops: Seq<u8>, jumps: Seq<usize>, n: int) -> bool {
    0 <= n < ops.len() && (ops[n] == OPEN || ops[n] == CLOSE) && jumps[n] == NO_JUMP
}

/// The message for lengths that differ.
pub open spec fn length_mismatch_text() -> Seq<char> {
    "ops and jumps length mismatch"@
}

/// The message for the bracket `b` at `at` without a partner.
pub open spec fn missing_target_text(b: u8, at: int) -> Seq<char> {
    if b == OPEN {
        "missing jump target for '[' at "@ + decimal(at as nat)
    } else {
        "missing jump target for ']' at "@ + decimal(at as nat)
    }
}

/// Whether `text` reports the first bracket of `ops` without a partner, at `n`.
pub open spec fn reports_unlinked(ops: Seq<u8>, jumps: Seq<usize>, n: int, text: Seq<char>) -> bool {
    &&& unlinked(ops, jumps, n)
    &&& forall|m: int| 0 <= m < n ==> !unlinked(ops, jumps, m)
    &&& text == missing_target_text(ops[n], n)
}

/// Turns opcodes into instructions, one for one; `[` and `]` carry the
/// partner index from `jumps`. Bytes that are not opcodes are passed over.
pub fn build(ops: &[u8], jumps: &[usize]) -> (r: Result<Vec<Instr>, String>)
    ensures
        r is Ok <==> ops.len() == jumps.len() && forall|n: int| !unlinked(ops@, jumps@, n),
        r matches Ok(ir) ==> program(ir@) == lowered(ops@, jumps@),
        r matches Err(e) ==> if ops.len() != jumps.len() {
            e@ == length_mismatch_text()
        } else {
            exists|n: int| reports_unlinked(ops@, jumps@, n, e@)
        },
{
    if ops.len() != jumps.len() {
        return Err(String::from_str("ops and jumps length mismatch"));
    }
    let mut ir: Vec<Instr> = Vec::new();
    let mut idx: usize = 0;
    while idx < ops.len()
        invariant
            idx <= ops.len(),
            ops.len() == jumps.len(),
            program(ir@) == lowered_prefix(ops@, jumps@, idx as int),
            forall|m: int| 0 <= m < idx ==> !unlinked(ops@, jumps@, m),
        decreases ops.len() - idx,
    {
        let op = ops[idx];
        let ghost before = ir@;
        if op == PLUS {
            ir.push(Instr::Add(1));
        } else if op == MINUS {
            ir.push(Instr::Add(-1));
        } else if op == RIGHT {
            ir.push(Instr::Move(1));
        } else if op == LEFT {
            ir.push(Instr::Move(-1));
        } else if op == PUT {
            ir.push(Instr::Output);
        } else if op == GET {
            ir.push(Instr::Input);
        } else if op == OPEN || op == CLOSE {
            let target = jumps[idx];
            if target == NO_JUMP {
                let mut e = if op == OPEN {
                    String::from_str("missing jump target for '[' at ")
                } else {
                    String::from_str("missing jump target for ']' at ")
                };
                push_decimal(&mut e, idx as u128);
                let r: Result<Vec<Instr>, String> = Err(e);
                assert(r matches Err(x) && reports_unlinked(ops@, jumps@, idx as int, x@));
                return r;
            }
            if op == OPEN {
                ir.push(Instr::Jz(target));
            } else {
                ir.push(Instr::Jnz(target));
            }
        }
        proof {
            if lower_one(op, jumps@[idx as int]) is Some {
                assert(ir@ == before.push(ir@.last()));
                assert(program(ir@) == program(before).push(ir@.last()@));
            }
        }
        idx += 1;
    }
    Ok(ir)
}

/// The edits of an `AddMul` as text: ` (offset,factor)` for each.
pub open spec fn edits_text(edits: Seq<(i32, i32)>) -> Seq<char>
    decreases edits.len(),
{
    if edits.len() == 0 {
        Seq::empty()
    } else {
        edits_text(edits.drop_last()) + " ("@ + signed_decimal(edits.last().0 as int) + ","@
            + signed_decimal(edits.last().1 as int) + ")"@
    }
}

/// An instruction as text: its name, then its payload.
pub open spec fn op_text(op: Op) -> Seq<char> {
    match op {
        Op::Add(d) => "Add "@ + signed_decimal(d as int),
        Op::Move(d) => "Move "@ + signed_decimal(d as int),
        Op::AddTo(o, s) => "AddTo "@ + signed_decimal(o as int) + " "@ + signed_decimal(s as int),
        Op::AddMul(edits) => "AddMul"@ + edits_text(edits),
        Op::Output => "Output"@,
        Op::Input => "Input"@,
        Op::Jz(t) => "Jz "@ + decimal(t as nat),
        Op::Jnz(t) => "Jnz "@ + decimal(t as nat),
        Op::SetZero => "SetZero"@,
        Op::Scan(d) => "Scan "@ + signed_decimal(d as int),
    }
}

/// The dump of the first `n` instructions: one line each, the index in front.
pub open spec fn dump_text(p: Seq<Op>, n: int) -> Seq<char>
    decreases n,
{
    if n <= 0 {
        Seq::empty()
    } else {
        dump_text(p, n - 1) + decimal((n - 1) as nat) + " "@ + op_text(p[n - 1]) + "\n"@
    }
}

/// Appends the text of `instr` to `out`.
pub fn push_op_text(out: &mut String, instr: &Instr)
    ensures
        final(out)@ == old(out)@ + op_text(instr@),
{
    let ghost start = out@;
    match instr {
        Instr::Add(d) => {
            out.append("Add ");
            push_signed(out, *d as i64);
            assert(out@ =~= start + op_text(instr@));
        },
        Instr::Move(d) => {
            out.append("Move ");
            push_signed(out, *d as i64);
            assert(out@ =~= start + op_text(instr@));
        },
        Instr::AddTo(o, s) => {
            out.append("AddTo ");
            push_signed(out, *o as i64);
            out.append(" ");
            push_signed(out, *s as i64);
            assert(out@ =~= start + op_text(instr@));
        },
        Instr::AddMul(edits) => {
            out.append("AddMul");
            let ghost head = out@;
            let mut k: usize = 0;
            assert(edits@.take(0) =~= Seq::<(i32, i32)>::empty());
            assert(out@ =~= head + edits_text(edits@.take(0)));
            while k < edits.len()
                invariant
                    k <= edits.len(),
                    out@ == head + edits_text(edits@.take(k as int)),
                decreases edits.len() - k,
            {
                let (offset, factor) = edits[k];
                let ghost before = out@;
                out.append(" (");
                push_signed(out, offset as i64);
                out.append(",");
                push_signed(out, factor as i64);
                out.append(")");
                proof {
                    let next = edits@.take(k + 1);
                    assert(next.drop_last() =~= edits@.take(k as int));
                    assert(next.last() == edits@[k as int]);
                    assert(out@ =~= head + edits_text(next));
                }
                k += 1;
            }
            assert(edits@.take(k as int) =~= edits@);
            assert(out@ =~= start + op_text(instr@));
        },
        Instr::Output => {
            out.append("Output");
        },
        Instr::Input => {
            out.append("Input");
        },
        Instr::Jz(t) => {
            out.append("Jz ");
            push_decimal(out, *t as u128);
            assert(out@ =~= start + op_text(instr@));
        },
        Instr::Jnz(t) => {
            out.append("Jnz ");
            push_decimal(out, *t as u128);
            assert(out@ =~= start + op_text(instr@));
        },
        Instr::SetZero => {
            out.append("SetZero");
        },
        Instr::Scan(d) => {
            out.append("Scan ");
            push_signed(out, *d as i64);
            assert(out@ =~= start + op_text(instr@));
        },
    }
}

/// Writes the program to `out`, one instruction per line, each with its index
/// in front. Writing to a string cannot fail.
pub fn dump_ir(ir: &[Instr], out: &mut String) -> (r: Result<(), String>)
    ensures
        r is Ok,
        final(out)@ == old(out)@ + dump_text(program(ir@), ir.len() as int),
{
    let ghost start = out@;
    let ghost p = program(ir@);
    let mut idx: usize = 0;
    assert(out@ =~= start + dump_text(p, 0));
    while idx < ir.len()
        invariant
            idx <= ir.len(),
            p == program(ir@),
            out@ == start + dump_text(p, idx as int),
        decreases ir.len() - idx,
    {
        assert(p[idx as int] == ir@[idx as int]@);
        push_decimal(out, idx as u128);
        out.append(" ");
        push_op_text(out, &ir[idx]);
        out.append("\n");
        assert(out@ =~= start + dump_text(p, idx + 1));
        idx += 1;
    }
    Ok(())
}

} // verus!
