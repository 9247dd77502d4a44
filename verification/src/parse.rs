//! The source filter: keeps the eight opcodes and drops every other byte.

use vstd::prelude::*;

verus! {

/// `<`: move the pointer left.
pub const LEFT: u8 = 0x3c;

/// `>`: move the pointer right.
pub const RIGHT: u8 = 0x3e;

/// `+`: increment the current cell.
pub const PLUS: u8 = 0x2b;

/// `-`: decrement the current cell.
pub const MINUS: u8 = 0x2d;

/// `.`: write the current cell.
pub const PUT: u8 = 0x2e;

/// `,`: read into the current cell.
pub const GET: u8 = 0x2c;

/// `[`: open a loop.
pub const OPEN: u8 = 0x5b;

/// `]`: close a loop.
pub const CLOSE: u8 = 0x5d;

/// Whether `b` is one of the eight opcodes `< > + - . , [ ]`.
pub open spec fn is_op(b: u8) -> bool {
    b == LEFT || b == RIGHT || b == PLUS || b == MINUS || b == PUT || b == GET || b == OPEN
        || b == CLOSE
}

/// The opcodes of `s`, in order.
pub open spec fn filtered(s: Seq<u8>) -> Seq<u8> {
    s.filter(|b: u8| is_op(b))
}

/// Executable test for [`is_op`].
pub fn is_opcode(b: u8) -> (r: bool)
    ensures
        r == is_op(b),
{
    b == LEFT || b == RIGHT || b == PLUS || b == MINUS || b == PUT || b == GET || b == OPEN
        || b == CLOSE
}

/// Discards every byte of `bytes` that is not an opcode.
pub fn filter_ops(bytes: &[u8]) -> (ops: Vec<u8>)
    ensures
        ops@ == filtered(bytes@),
{
    let mut ops: Vec<u8> = Vec::new();
    let mut i: usize = 0;
    while i < bytes.len()
        invariant
            i <= bytes.len(),
            ops@ == filtered(bytes@.take(i as int)),
        decreases bytes.len() - i,
    {
        let b = bytes[i];
        proof {
            let prefix = bytes@.take(i as int);
            assert(bytes@.take(i + 1) == prefix.push(b));
            lemma_filtered_push(prefix, b);
        }
        if is_opcode(b) {
            ops.push(b);
        }
        i += 1;
    }
    proof {
        assert(bytes@.take(i as int) == bytes@);
    }
    ops
}

/// Filtering distributes over appending one byte.
pub proof fn lemma_filtered_push(s: Seq<u8>, b: u8)
    ensures
        filtered(s.push(b)) == if is_op(b) {
            filtered(s).push(b)
        } else {
            filtered(s)
        },
{
    reveal(Seq::filter);
    assert(s.push(b).drop_last() == s);
}

/// Every byte that survives the filter is an opcode.
pub proof fn lemma_filtered_all_ops(s: Seq<u8>)
    ensures
        forall|i: int| 0 <= i < filtered(s).len() ==> is_op(#[trigger] filtered(s)[i]),
    decreases s.len(),
{
    reveal(Seq::filter);
    if s.len() > 0 {
        lemma_filtered_all_ops(s.drop_last());
    }
}

/// A sequence made of opcodes only passes the filter unchanged.
pub proof fn lemma_filtered_of_ops(s: Seq<u8>)
    requires
        forall|i: int| 0 <= i < s.len() ==> is_op(#[trigger] s[i]),
    ensures
        filtered(s) == s,
    decreases s.len(),
{
    reveal(Seq::filter);
    if s.len() > 0 {
        lemma_filtered_of_ops(s.drop_last());
        assert(s.drop_last().push(s.last()) == s);
    }
}

/// Filtering is idempotent: filtering a filtered source changes nothing.
pub proof fn lemma_filter_idempotent(s: Seq<u8>)
    ensures
        filtered(filtered(s)) == filtered(s),
{
    lemma_filtered_all_ops(s);
    lemma_filtered_of_ops(filtered(s));
}

} // verus!
