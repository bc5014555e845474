//! Lazy traversal of a text: piece by piece, and byte by byte.
//!
//! Both cursors borrow the text and hold only a position in it, so they are
//! cheap to create. Neither can be restarted: to traverse again, ask the text
//! for a fresh one.

use vstd::prelude::*;
use crate::chain::{link_ok, ring_at, Piece, PieceData, SENTINEL};
use crate::model::{
    content, lemma_content_concat, lemma_content_one, lemma_start_monotonic, lemma_start_step,
    start_of,
};
use crate::span::Interval;
use crate::text::Text;

verus! {

impl Text {
    /// What a traversal of the pieces yields: each visible piece with the
    /// text offset at which it starts, in text order.
    pub open(crate) spec fn entries(&self) -> Seq<(u32, Piece)> {
        Seq::new(
            self.chain().len(),
            |k: int| (start_of(self.spans(), k) as u32, self.chain()[k]),
        )
    }

    /// The entries of a consistent text: one for each visible piece, holding
    /// the offset at which it starts and the piece itself. No piece occurs
    /// twice, and none is the sentinel.
    pub proof fn lemma_entries(&self)
        requires
            self.wf(),
        ensures
            self.entries().len() == self.spans().len(),
            forall|k: int|
                0 <= k < self.entries().len() ==> (#[trigger] self.entries()[k]).0 == start_of(
                    self.spans(),
                    k,
                ),
            forall|k: int|
                0 <= k < self.entries().len() ==> (#[trigger] self.entries()[k]).1
                    == self.chain()[k],
            forall|i: int, j: int|
                0 <= i < j < self.entries().len() ==> (#[trigger] self.entries()[i]).1 != (
                #[trigger] self.entries()[j]).1,
            forall|k: int|
                0 <= k < self.entries().len() ==> (#[trigger] self.entries()[k]).1
                    != Piece::sentinel(),
    {
        let order = self.order();
        assert forall|k: int| 0 <= k < self.entries().len() implies (
        #[trigger] self.entries()[k]).1 != Piece::sentinel() by {
            assert(link_ok(self.pieces@, order, k));
        }
        assert forall|k: int| 0 <= k < self.entries().len() implies (
        #[trigger] self.entries()[k]).0 == start_of(self.spans(), k) by {
            lemma_start_monotonic(self.spans(), self.stored().len() as int, k, k);
        }
        assert forall|i: int, j: int| 0 <= i < j < self.entries().len() implies (
        #[trigger] self.entries()[i]).1 != (#[trigger] self.entries()[j]).1 by {
            assert(link_ok(self.pieces@, order, i));
            assert(link_ok(self.pieces@, order, j));
        }
    }

    /// A cursor over all pieces of the text, never the sentinel.
    pub fn pieces(&self) -> (cursor: Pieces<'_>)
        requires
            self.wf(),
        ensures
            cursor.wf(),
            cursor.source() == self,
            cursor.passed() == 0,
            cursor@ == self.entries(),
    {
        let next = self.get_piece(Piece(SENTINEL)).next;
        proof {
            assert(link_ok(self.pieces@, self.order(), 0));
        }
        Pieces { text: self, next: next, off: 0, pos: Ghost(0) }
    }

    /// A cursor over all bytes of the text.
    pub fn bytes(&self) -> (cursor: Bytes<'_>)
        requires
            self.wf(),
        ensures
            cursor.wf(),
            cursor.source() == self,
            cursor@ == self@,
    {
        let mut pieces = self.pieces();
        proof {
            assert(self.spans().skip(0) =~= self.spans());
        }
        let pd = match pieces.next() {
            None => None,
            Some((_, p)) => {
                proof {
                    lemma_skip_first(self.stored(), self.spans(), 0);
                }
                Some(self.get_piece(p))
            },
        };
        Bytes { pieces: pieces, pd: pd, off: 0 }
    }
}

/// What the pieces from position `k` on yield starts with what piece `k`
/// covers.
proof fn lemma_skip_first(buf: Seq<u8>, spans: Seq<Interval>, k: int)
    requires
        0 <= k < spans.len(),
        0 <= spans[k].start <= spans[k].end <= buf.len(),
    ensures
        content(buf, spans.skip(k)) == buf.subrange(spans[k].start, spans[k].end) + content(
            buf,
            spans.skip(k + 1),
        ),
{
    assert(spans.skip(k) =~= seq![spans[k]] + spans.skip(k + 1));
    lemma_content_concat(buf, seq![spans[k]], spans.skip(k + 1));
    lemma_content_one(buf, spans[k]);
}

/// A cursor over the pieces of a text, in text order.
pub struct Pieces<'a> {
    text: &'a Text,
    next: Piece,
    /// Start position of the next piece in the text.
    off: u32,
    /// Number of pieces that the cursor has passed.
    pos: Ghost<int>,
}

impl<'a> View for Pieces<'a> {
    type V = Seq<(u32, Piece)>;

    /// The entries that the cursor has yet to yield.
    open spec fn view(&self) -> Seq<(u32, Piece)> {
        self.source().entries().skip(self.passed())
    }
}

impl<'a> Pieces<'a> {
    /// The text that the cursor traverses.
    pub closed spec fn source(&self) -> &Text {
        self.text
    }

    /// Number of pieces that the cursor has yielded.
    pub closed spec fn passed(&self) -> int {
        self.pos@
    }

    /// The cursor stands on a consistent text, at a piece of its chain or at
    /// the end.
    pub closed spec fn wf(&self) -> bool {
        &&& self.text.wf()
        &&& 0 <= self.pos@ <= self.text.order().len()
        &&& self.next.0 == ring_at(self.text.order(), self.pos@ + 1)
        &&& self.off == start_of(self.text.spans(), self.pos@)
    }

    /// Yields the next piece with its start offset, or `None` once all
    /// pieces have been yielded.
    pub fn next(&mut self) -> (item: Option<(u32, Piece)>)
        requires
            old(self).wf(),
        ensures
            final(self).wf(),
            final(self).source() == old(self).source(),
            0 <= final(self).passed() <= final(self).source().entries().len(),
            old(self)@.len() == 0 ==> item.is_none() && final(self)@ == old(self)@,
            old(self)@.len() > 0 ==> item == Some(old(self)@[0]) && final(self)@ == old(self)@.skip(
                1,
            ),
            final(self).passed() == old(self).passed() + if old(self)@.len() > 0 {
                1int
            } else {
                0int
            },
    {
        let ghost order = self.text.order();
        let ghost spans = self.text.spans();
        let ghost pos = self.pos@;
        proof {
            self.text.lemma_order();
            self.text.lemma_pieces();
        }
        if self.next.0 == SENTINEL {
            None
        } else {
            let piece = self.next;
            let pd = self.text.get_piece(piece);
            let off = self.off;
            proof {
                assert(link_ok(self.text.pieces@, order, pos + 1));
                lemma_start_step(spans, pos);
                lemma_start_monotonic(spans, self.text.stored().len() as int, pos, pos + 1);
            }
            self.off = self.off + pd.span.len();
            self.next = pd.next;
            self.pos = Ghost(pos + 1);
            Some((off, piece))
        }
    }
}

/// A cursor over the bytes of a text: a piece cursor together with a
/// position inside the current piece.
pub struct Bytes<'a> {
    pieces: Pieces<'a>,
    /// The piece that is being read; `None` once all pieces have been read.
    pd: Option<&'a PieceData>,
    /// Where we are in the current piece.
    off: u32,
}

impl<'a> View for Bytes<'a> {
    type V = Seq<u8>;

    /// The bytes that the cursor has yet to yield.
    closed spec fn view(&self) -> Seq<u8> {
        match self.pd {
            None => Seq::empty(),
            Some(pd) => self.pieces.text.stored().subrange(
                pd.span@.start + self.off,
                pd.span@.end,
            ) + content(self.pieces.text.stored(), self.pieces.text.spans().skip(self.pieces.pos@)),
        }
    }
}

impl<'a> Bytes<'a> {
    /// The text that the cursor traverses.
    pub closed spec fn source(&self) -> &Text {
        self.pieces.text
    }

    /// The cursor stands on a consistent text, inside the piece in front of
    /// its piece cursor or at the end.
    pub closed spec fn wf(&self) -> bool {
        &&& self.pieces.wf()
        &&& match self.pd {
            None => true,
            Some(pd) => {
                &&& self.pieces.pos@ >= 1
                &&& *pd == self.pieces.text.pieces@[self.pieces.text.order()[self.pieces.pos@ - 1]]
                &&& self.off <= pd.span@.len()
            },
        }
    }

    /// Number of steps that the cursor can still take.
    spec fn steps_left(&self) -> int {
        self.pieces.text.order().len() - self.pieces.pos@ + if self.pd.is_some() {
            1int
        } else {
            0int
        }
    }

    /// Yields the next byte of the text, or `None` once all bytes have been
    /// yielded. A piece that is used up makes way for the next one.
    pub fn next(&mut self) -> (byte: Option<u8>)
        requires
            old(self).wf(),
        ensures
            final(self).wf(),
            final(self).source() == old(self).source(),
            old(self)@.len() == 0 ==> byte.is_none() && final(self)@ == old(self)@,
            old(self)@.len() > 0 ==> byte == Some(old(self)@[0]) && final(self)@ == old(self)@.skip(
                1,
            ),
    {
        let ghost text = self.pieces.text;
        let ghost order = text.order();
        let ghost spans = text.spans();
        let ghost buf = text.stored();
        loop
            invariant
                self.wf(),
                self.pieces.text == text,
                old(self).pieces.text == text,
                order == text.order(),
                spans == text.spans(),
                buf == text.stored(),
                text.chained(order),
                self@ == old(self)@,
            decreases self.steps_left(),
        {
            match self.pd {
                None => {
                    return None;
                },
                Some(pd) => {
                    let span = pd.span;
                    let ghost pos = self.pieces.pos@;
                    if self.off >= span.len() {
                        proof {
                            if pos < order.len() {
                                lemma_skip_first(buf, spans, pos);
                            }
                        }
                        self.off = 0;
                        self.pd = match self.pieces.next() {
                            None => None,
                            Some((_, p)) => Some(self.pieces.text.get_piece(p)),
                        };
                    } else {
                        let byte = self.pieces.text.buffer.get_byte(span.start() + self.off);
                        self.off += 1;
                        return Some(byte);
                    }
                },
            }
        }
    }
}

} // verus!
