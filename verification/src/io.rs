//! In-memory byte streams for the machine: an input that is read byte by
//! byte, an output and a diagnostics channel that buffer what is written and
//! hand it on when flushed.

use crate::machine::{next_byte, rest_of};
use vstd::prelude::*;
use vstd::string::*;

verus! {

/// A byte source. Past its end it reads as zero, which is not an error.
pub struct Input {
    bytes: Vec<u8>,
    pos: usize,
}

impl View for Input {
    type V = Seq<u8>;

    /// The bytes not yet read.
    closed spec fn view(&self) -> Seq<u8> {
        self.bytes@.skip(self.pos as int)
    }
}

impl Input {
    #[verifier::type_invariant]
    spec fn inv(&self) -> bool {
        self.pos <= self.bytes.len()
    }

    /// An input that will yield `bytes`, in order.
    pub fn new(bytes: Vec<u8>) -> (r: Input)
        ensures
            r@ == bytes@,
    {
        Input { bytes, pos: 0 }
    }

    /// Reads the next byte; zero at the end of input. Reading from memory
    /// cannot fail.
    pub fn read_byte(&mut self) -> (r: Result<u8, String>)
        ensures
            r == Ok::<u8, String>(next_byte(old(self)@)),
            final(self)@ == rest_of(old(self)@),
    {
        proof {
            use_type_invariant(&*self);
        }
        if self.pos < self.bytes.len() {
            let b = self.bytes[self.pos];
            self.pos += 1;
            assert(self@ =~= old(self)@.drop_first());
            Ok(b)
        } else {
            Ok(0)
        }
    }
}

/// A byte sink with a buffer in front of it.
pub struct Output {
    sink: Vec<u8>,
    buffer: Vec<u8>,
}

impl View for Output {
    type V = Seq<u8>;

    /// Every byte written so far, flushed or not.
    open spec fn view(&self) -> Seq<u8> {
        self.flushed() + self.pending()
    }
}

impl Output {
    /// The bytes handed on to the sink.
    pub closed spec fn flushed(&self) -> Seq<u8> {
        self.sink@
    }

    /// The bytes written and not yet flushed.
    pub closed spec fn pending(&self) -> Seq<u8> {
        self.buffer@
    }

    /// An output with nothing written.
    pub fn new() -> (r: Output)
        ensures
            r.flushed() == Seq::<u8>::empty(),
            r.pending() == Seq::<u8>::empty(),
    {
        Output { sink: Vec::new(), buffer: Vec::new() }
    }

    /// Writes one byte to the buffer. Writing to memory cannot fail.
    pub fn write_byte(&mut self, byte: u8) -> (r: Result<(), String>)
        ensures
            r is Ok,
            final(self).flushed() == old(self).flushed(),
            final(self).pending() == old(self).pending().push(byte),
    {
        self.buffer.push(byte);
        Ok(())
    }

    /// Hands the buffered bytes on to the sink. This cannot fail.
    pub fn flush(&mut self) -> (r: Result<(), String>)
        ensures
            r is Ok,
            final(self).flushed() == old(self)@,
            final(self).pending() == Seq::<u8>::empty(),
    {
        self.sink.append(&mut self.buffer);
        Ok(())
    }

    /// Flushes, and gives up the sink: every byte written, in order.
    pub fn into_inner(self) -> (r: Vec<u8>)
        ensures
            r@ == self@,
    {
        let mut out = self;
        out.sink.append(&mut out.buffer);
        out.sink
    }
}

/// A text sink for diagnostics, with a buffer in front of it.
pub struct Debug {
    sink: String,
    buffer: String,
}

impl View for Debug {
    type V = Seq<char>;

    /// All text written so far, flushed or not.
    open spec fn view(&self) -> Seq<char> {
        self.flushed() + self.pending()
    }
}

impl Debug {
    /// The text handed on to the sink.
    pub closed spec fn flushed(&self) -> Seq<char> {
        self.sink@
    }

    /// The text written and not yet flushed.
    pub closed spec fn pending(&self) -> Seq<char> {
        self.buffer@
    }

    /// A diagnostics channel with nothing written.
    pub fn new() -> (r: Debug)
        ensures
            r.flushed() == Seq::<char>::empty(),
            r.pending() == Seq::<char>::empty(),
    {
        Debug { sink: String::new(), buffer: String::new() }
    }

    /// The buffer, for writing to it directly.
    pub fn writer(&mut self) -> (w: &mut String)
        ensures
            w@ == old(self).pending(),
            final(self).flushed() == old(self).flushed(),
            final(self).pending() == final(w)@,
    {
        &mut self.buffer
    }

    /// Writes `text` to the buffer. Writing to memory cannot fail.
    pub fn write_fmt(&mut self, text: &str) -> (r: Result<(), String>)
        ensures
            r is Ok,
            final(self).flushed() == old(self).flushed(),
            final(self).pending() == old(self).pending() + text@,
    {
        self.buffer.append(text);
        Ok(())
    }

    /// Hands the buffered text on to the sink. This cannot fail.
    pub fn flush(&mut self) -> (r: Result<(), String>)
        ensures
            r is Ok,
            final(self).flushed() == old(self)@,
            final(self).pending() == Seq::<char>::empty(),
    {
        self.sink.append(self.buffer.as_str());
        self.buffer = String::new();
        Ok(())
    }

    /// Flushes, and gives up the sink: all text written, in order.
    pub fn into_inner(self) -> (r: String)
        ensures
            r@ == self@,
    {
        let mut out = self;
        out.sink.append(out.buffer.as_str());
        out.sink
    }
}

} // verus!
