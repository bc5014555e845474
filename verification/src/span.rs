//! Half-open byte ranges into the backing buffer.

use vstd::prelude::*;

verus! {

/// The mathematical model of a span: the half-open range `[start, end)`.
pub struct Interval {
    pub start: int,
    pub end: int,
}

impl Interval {
    /// Number of positions the interval covers.
    pub open spec fn len(self) -> int {
        self.end - self.start
    }

    /// The two adjacent parts obtained by cutting the interval `n` positions
    /// after its start; `None` where the cut falls on either end.
    pub open spec fn split(self, n: int) -> Option<(Interval, Interval)> {
        if n == 0 || n == self.len() {
            None
        } else {
            Some(
                (
                    Interval { start: self.start, end: self.start + n },
                    Interval { start: self.start + n, end: self.end },
                ),
            )
        }
    }
}

/// A half-open byte range `[off1, off2)` with `off1 <= off2`.
#[derive(Debug, Copy, Clone, PartialEq, Eq, Structural)]
pub struct Span {
    off1: u32,
    off2: u32,
}

impl View for Span {
    type V = Interval;

    closed spec fn view(&self) -> Interval {
        Interval { start: self.off1 as int, end: self.off2 as int }
    }
}

impl Span {
    #[verifier::type_invariant]
    spec fn ordered(self) -> bool {
        self.off1 <= self.off2
    }

    /// The span `[off1, off2)`.
    pub fn new(off1: u32, off2: u32) -> (s: Span)
        requires
            off1 <= off2,
        ensures
            s@ == (Interval { start: off1 as int, end: off2 as int }),
    {
        Span { off1: off1, off2: off2 }
    }

    /// The empty span at offset zero.
    pub fn empty() -> (s: Span)
        ensures
            s@ == (Interval { start: 0, end: 0 }),
    {
        Span::new(0, 0)
    }

    /// First offset of the span.
    pub(crate) fn start(&self) -> (off: u32)
        ensures
            off == self@.start,
            self@.start <= self@.end <= u32::MAX,
    {
        proof {
            use_type_invariant(self);
        }
        self.off1
    }

    /// Offset just past the last byte of the span.
    pub(crate) fn end(&self) -> (off: u32)
        ensures
            off == self@.end,
            0 <= self@.start <= self@.end,
    {
        proof {
            use_type_invariant(self);
        }
        self.off2
    }

    /// Number of bytes the span covers.
    pub fn len(&self) -> (n: u32)
        ensures
            n == self@.len(),
            0 <= self@.start <= self@.end <= u32::MAX,
    {
        proof {
            use_type_invariant(self);
        }
        self.off2 - self.off1
    }

    /// Whether the span covers no byte.
    pub fn is_empty(&self) -> (b: bool)
        ensures
            b == (self@.len() == 0),
    {
        self.len() == 0
    }

    /// Splits the span so that the left part has `n` bytes. There is nothing
    /// to split where `n` is zero or the whole length.
    pub fn split(&self, n: u32) -> (parts: Option<(Span, Span)>)
        requires
            n <= self@.len(),
        ensures
            match parts {
                Some((left, right)) => self@.split(n as int) == Some((left@, right@)),
                None => self@.split(n as int).is_none(),
            },
    {
        proof {
            use_type_invariant(self);
        }
        if n == 0 || n == self.len() {
            None
        } else {
            Some((Span::new(self.off1, self.off1 + n), Span::new(self.off1 + n, self.off2)))
        }
    }
}

/// Cutting an interval of length `L` strictly inside, at `0 < n < L`, gives
/// two adjacent intervals that together cover exactly what was cut: their
/// lengths add up to `L` and the left one ends where the right one starts.
/// Cutting at `0` or at `L` gives no split.
pub proof fn lemma_split_parts(r: Interval, n: int)
    requires
        r.start <= r.end,
        0 <= n <= r.len(),
    ensures
        (n == 0 || n == r.len()) <==> r.split(n).is_none(),
        r.split(n) matches Some((left, right)) ==> {
            &&& left.len() == n
            &&& left.len() + right.len() == r.len()
            &&& left.start == r.start
            &&& left.end == right.start
            &&& right.end == r.end
            &&& left.len() > 0
            &&& right.len() > 0
        },
{
}

} // verus!
