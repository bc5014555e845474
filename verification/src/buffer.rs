//! The append-only byte store that holds every piece's data.

use vstd::prelude::*;
use crate::span::{Interval, Span};

verus! {

/// A byte store that only grows. Bytes, once appended, keep their offsets
/// for the lifetime of the buffer, so every span it has handed out stays
/// valid.
#[derive(Debug)]
pub struct AppendOnlyBuffer {
    buf: Vec<u8>,
}

impl View for AppendOnlyBuffer {
    type V = Seq<u8>;

    closed spec fn view(&self) -> Seq<u8> {
        self.buf@
    }
}

impl AppendOnlyBuffer {
    /// Constructs a new, empty buffer.
    pub fn new() -> (b: AppendOnlyBuffer)
        ensures
            b@ == Seq::<u8>::empty(),
    {
        AppendOnlyBuffer { buf: Vec::with_capacity(4096) }
    }

    /// Number of bytes stored so far.
    pub(crate) fn len(&self) -> (n: usize)
        ensures
            n == self@.len(),
    {
        self.buf.len()
    }

    /// Copies `bytes` to the end of the buffer and returns the span that
    /// covers exactly the appended range.
    pub fn append(&mut self, bytes: &[u8]) -> (span: Span)
        requires
            old(self)@.len() + bytes@.len() <= u32::MAX,
        ensures
            final(self)@ == old(self)@ + bytes@,
            span@ == (Interval {
                start: old(self)@.len() as int,
                end: (old(self)@.len() + bytes@.len()) as int,
            }),
    {
        let off1 = self.buf.len() as u32;
        self.buf.extend_from_slice(bytes);
        Span::new(off1, self.buf.len() as u32)
    }

    /// The bytes that `s` covers.
    pub fn get(&self, s: Span) -> (bytes: &[u8])
        requires
            s@.end <= self@.len(),
        ensures
            bytes@ == self@.subrange(s@.start, s@.end),
    {
        &self.buf[s.start() as usize..s.end() as usize]
    }

    /// The byte at the absolute buffer offset `off`.
    pub fn get_byte(&self, off: u32) -> (b: u8)
        requires
            off < self@.len(),
        ensures
            b == self@[off as int],
    {
        self.buf[off as usize]
    }
}

} // verus!
