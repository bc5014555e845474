//! The piece table proper: a text as a chain of pieces over an append-only
//! buffer.

use std::string::FromUtf8Error;
use vstd::prelude::*;
use vstd::utf8::{decode_utf8, encode_utf8, valid_utf8};
use crate::buffer::AppendOnlyBuffer;
use crate::chain::{
    fresh_pieces, lemma_link_arena, lemma_link_none, lemma_link_one, lemma_link_one_behind,
    lemma_link_three, lemma_link_two, lemma_linked_unique, link_arena, link_ok, linked,
    piece_or_sentinel, pieces_of, ring_at, spans_of, three_from, two_from, unlinked, Piece,
    PieceData, SENTINEL,
};
use crate::model::{
    all_fit, apply_all, content, delete_range, growth_all, insert_at, lemma_content_len,
    lemma_edits_agree, lemma_len_after_edits, lemma_piece_at, lemma_piece_at_ordered,
    lemma_piece_at_unique, lemma_spans_delete, lemma_spans_insert, lemma_start_step, on_boundary,
    piece_at, spans_delete, spans_insert, spans_within, start_of, total, Edit, Table,
};
use crate::span::{Interval, Span};

verus! {

/// A sequence of bytes, held as a piece table. The text is deliberately not
/// required to be UTF-8: any sequence of bytes can be edited.
#[derive(Debug)]
pub struct Text {
    pub(crate) buffer: AppendOnlyBuffer,
    pub(crate) pieces: Vec<PieceData>,
    pub(crate) len: usize,
}

impl View for Text {
    type V = Seq<u8>;

    /// The visible text: what the pieces of the chain cover, in chain order.
    open spec fn view(&self) -> Seq<u8> {
        self.table().text()
    }
}

impl Text {
    /// The pieces of `order`, in that order, are the chain of this text, and
    /// the cached length and the buffer agree with them.
    pub(crate) open spec fn chained(&self, order: Seq<int>) -> bool {
        &&& linked(self.pieces@, order)
        &&& self.pieces@[0].span@.len() == 0
        &&& spans_within(spans_of(self.pieces@, order), self.buffer@.len() as int)
        &&& total(spans_of(self.pieces@, order)) == self.len
        &&& self.len <= self.buffer@.len() <= u32::MAX
    }

    /// The consistency invariant. The sentinel's span is empty; the links
    /// form one doubly linked cycle through the sentinel, with
    /// `next(prev(p)) == p` and `prev(next(p)) == p` all along it; every
    /// piece on it covers at least one byte of the buffer; and the lengths of
    /// the pieces add up to the cached length.
    pub open(crate) spec fn wf(&self) -> bool {
        exists|order: Seq<int>| self.chained(order)
    }

    /// Arena indices of the visible pieces, in text order.
    pub(crate) open spec fn order(&self) -> Seq<int> {
        choose|order: Seq<int>| self.chained(order)
    }

    /// The visible pieces, in text order.
    pub open(crate) spec fn chain(&self) -> Seq<Piece> {
        pieces_of(self.order())
    }

    /// The buffer ranges that the visible pieces cover, in text order.
    pub open(crate) spec fn spans(&self) -> Seq<Interval> {
        spans_of(self.pieces@, self.order())
    }

    /// Everything that was ever inserted, in the order in which it arrived.
    pub open(crate) spec fn stored(&self) -> Seq<u8> {
        self.buffer@
    }

    /// Number of arena entries, the sentinel and unlinked pieces included.
    pub open(crate) spec fn piece_count(&self) -> nat {
        self.pieces@.len()
    }

    /// The text as a piece table: the buffer and the pieces over it.
    pub open spec fn table(&self) -> Table {
        Table { buf: self.stored(), spans: self.spans() }
    }

    /// A consistent text has a chain.
    pub(crate) proof fn lemma_order(&self)
        requires
            self.wf(),
        ensures
            self.chained(self.order()),
    {
    }

    /// A text has no chain but the one it is shown to have.
    pub(crate) proof fn lemma_order_is(&self, order: Seq<int>)
        requires
            self.chained(order),
        ensures
            self.wf(),
            self.order() == order,
    {
        lemma_linked_unique(self.pieces@, order, self.order());
    }

    /// The pieces of a consistent text are non-empty ranges of the buffer
    /// whose lengths add up to the length of the text, and the text is no
    /// longer than what the buffer stores.
    pub proof fn lemma_pieces(&self)
        requires
            self.wf(),
        ensures
            self.table().valid(),
            spans_within(self.spans(), self.stored().len() as int),
            self.spans().len() == self.chain().len(),
            total(self.spans()) == self@.len(),
            self@.len() <= self.stored().len() <= u32::MAX,
            self.piece_count() >= 1,
    {
        lemma_content_len(self.stored(), self.spans());
    }

    /// The empty text.
    pub fn new() -> (t: Text)
        ensures
            t.wf(),
            t@ == Seq::<u8>::empty(),
            t.spans() == Seq::<Interval>::empty(),
            t.chain() == Seq::<Piece>::empty(),
            t.stored() == Seq::<u8>::empty(),
            t.piece_count() == 1,
    {
        let t = Text {
            buffer: AppendOnlyBuffer::new(),
            pieces: vec![
                PieceData { span: Span::empty(), prev: Piece(SENTINEL), next: Piece(SENTINEL) },
            ],
            len: 0,
        };
        proof {
            let order = Seq::<int>::empty();
            t.lemma_order_is(order);
        }
        t
    }

    /// Length of the text in bytes.
    pub fn len(&self) -> (n: usize)
        requires
            self.wf(),
        ensures
            n == self@.len(),
    {
        proof {
            self.lemma_pieces();
        }
        self.len
    }

    /// Number of bytes that the buffer stores. It never shrinks, and offsets
    /// into it must fit 32 bits: this is what limits further insertions.
    pub fn stored_len(&self) -> (n: usize)
        ensures
            n == self.stored().len(),
    {
        self.buffer.len()
    }

    /// Number of arena entries. It never shrinks, and arena indices must fit
    /// 32 bits: this is what limits further edits.
    pub fn count_pieces(&self) -> (n: usize)
        ensures
            n == self.piece_count(),
    {
        self.pieces.len()
    }

    /// What the arena stores for `piece`.
    pub(crate) fn get_piece(&self, piece: Piece) -> (data: &PieceData)
        requires
            piece.0 < self.pieces@.len(),
        ensures
            *data == self.pieces@[piece.0 as int],
    {
        &self.pieces[piece.0 as usize]
    }

    /// Makes `piece2` the successor of `piece1` and `piece1` the predecessor
    /// of `piece2`.
    pub(crate) fn link(&mut self, piece1: Piece, piece2: Piece)
        requires
            piece1.0 < old(self).pieces@.len(),
            piece2.0 < old(self).pieces@.len(),
        ensures
            final(self).pieces@ == link_arena(old(self).pieces@, piece1, piece2),
            final(self).pieces@.len() == old(self).pieces@.len(),
            final(self).buffer == old(self).buffer,
            final(self).len == old(self).len,
    {
        self.pieces[piece1.0 as usize].next = piece2;
        self.pieces[piece2.0 as usize].prev = piece1;
        proof {
            reveal(link_arena);
        }
    }

    /// Stores a new piece for `span`, linked to nothing yet.
    pub(crate) fn add_piece(&mut self, span: Span) -> (piece: Piece)
        requires
            old(self).pieces@.len() <= u32::MAX,
        ensures
            piece.0 == old(self).pieces@.len(),
            final(self).pieces@ == old(self).pieces@.push(unlinked(span)),
            final(self).buffer == old(self).buffer,
            final(self).len == old(self).len,
    {
        self.pieces.push(PieceData { span: span, prev: Piece(SENTINEL), next: Piece(SENTINEL) });
        Piece((self.pieces.len() - 1) as u32)
    }

    /// The piece that a search for `off` finds is the entry at the position
    /// behind `piece_at` in the cycle.
    pub(crate) proof fn lemma_found(&self, off: int)
        requires
            self.wf(),
            0 <= off <= self@.len(),
        ensures
            piece_or_sentinel(self.chain(), piece_at(self.spans(), off)).0 == ring_at(
                self.order(),
                piece_at(self.spans(), off) + 1,
            ),
    {
        self.lemma_pieces();
        let k = piece_at(self.spans(), off);
        lemma_piece_at(self.spans(), self.stored().len() as int, off);
        if k < self.order().len() {
            assert(link_ok(self.pieces@, self.order(), k));
        }
    }

    /// Finds the piece that covers offset `off`, and the offset at which
    /// that piece starts. At the end of the text this is the sentinel. An
    /// offset between two pieces belongs to the piece on its right.
    pub fn find_piece(&self, off: u32) -> (found: (u32, Piece))
        requires
            self.wf(),
            off <= self@.len(),
        ensures
            found.0 == start_of(self.spans(), piece_at(self.spans(), off as int)),
            found.1 == piece_or_sentinel(self.chain(), piece_at(self.spans(), off as int)),
            found.0 <= off,
            found.1 == Piece::sentinel() <==> off == self@.len(),
    {
        let ghost order = self.order();
        let ghost spans = self.spans();
        let ghost limit = self.stored().len() as int;
        proof {
            self.lemma_order();
            self.lemma_pieces();
            self.lemma_found(off as int);
            assert(spans.take(spans.len() as int) =~= spans);
        }
        if off == self.len as u32 {
            (off, Piece(SENTINEL))
        } else {
            let mut start: u32 = 0;
            let mut piece = Piece(SENTINEL);
            let mut it = self.pieces();
            loop
                invariant
                    self.wf(),
                    it.wf(),
                    it.source() == self,
                    order == self.order(),
                    spans == self.spans(),
                    limit == self.stored().len(),
                    0 <= it.passed() <= spans.len(),
                    off < total(spans),
                    it.passed() == 0 ==> start == 0 && piece == Piece::sentinel(),
                    it.passed() > 0 ==> start == start_of(spans, it.passed() - 1) && piece
                        == self.chain()[it.passed() - 1] && piece != Piece::sentinel() && start
                        <= off,
                decreases spans.len() - it.passed(),
            {
                let ghost j = it.passed();
                proof {
                    self.lemma_order();
                    self.lemma_pieces();
                    self.lemma_entries();
                    if j < order.len() {
                        assert(link_ok(self.pieces@, order, j));
                    }
                }
                match it.next() {
                    None => {
                        proof {
                            lemma_start_step(spans, j - 1);
                            lemma_piece_at_unique(spans, limit, off as int, j - 1);
                        }
                        return (start, piece);
                    },
                    Some((s, p)) => {
                        if s > off {
                            proof {
                                lemma_start_step(spans, j - 1);
                                lemma_piece_at_unique(spans, limit, off as int, j - 1);
                            }
                            return (start, piece);
                        }
                        start = s;
                        piece = p;
                    },
                }
            }
        }
    }

    /// Number of arena entries that inserting at `off` adds: one where
    /// `off` lies between two pieces or at either end of the text, three
    /// where a piece has to be split.
    pub open spec fn insert_cost(&self, off: int) -> int {
        if on_boundary(self.spans(), off) {
            1
        } else {
            3
        }
    }

    /// The chain with the pieces that the text range `[off1, off2]` touches
    /// replaced by the arena entries `mid`. A piece that starts at `off2`
    /// counts as untouched.
    pub(crate) open spec fn splice(&self, off1: int, off2: int, mid: Seq<int>) -> Seq<int> {
        let k1 = piece_at(self.spans(), off1);
        let k2 = piece_at(self.spans(), off2);
        self.order().take(k1) + mid + self.order().skip(
            if on_boundary(self.spans(), off2) {
                k2
            } else {
                k2 + 1
            },
        )
    }

    /// The chain after inserting at `off`. A new piece stands in front of
    /// the piece that starts at `off`; or three new pieces stand in place of
    /// the piece that `off` falls strictly inside, which leaves the chain for
    /// good.
    pub open spec fn chain_after_insert(&self, off: int) -> Seq<Piece> {
        let k = piece_at(self.spans(), off);
        self.chain().take(k) + fresh_pieces(self.piece_count(), self.insert_cost(off))
            + self.chain().skip(
            if on_boundary(self.spans(), off) {
                k
            } else {
                k + 1
            },
        )
    }

    /// What an insertion has done to the text, given what it has done to the
    /// arena and the buffer.
    proof fn lemma_inserted(&self, before: &Text, off: int, bytes: Seq<u8>, mid: Seq<int>)
        requires
            before.wf(),
            0 <= off <= before@.len(),
            bytes.len() > 0,
            before.stored().len() + bytes.len() <= u32::MAX,
            before.piece_count() + before.insert_cost(off) <= 0x1_0000_0000,
            self.buffer@ == before.buffer@ + bytes,
            self.len == before.len + bytes.len(),
            self.pieces@[0].span == before.pieces@[0].span,
            self.pieces@.len() == before.pieces@.len() + before.insert_cost(off),
            mid.len() == before.insert_cost(off),
            forall|i: int| 0 <= i < mid.len() ==> mid[i] == before.pieces@.len() + i,
            linked(self.pieces@, before.splice(off, off, mid)),
            spans_of(self.pieces@, before.splice(off, off, mid)) == spans_insert(
                before.spans(),
                off,
                Interval {
                    start: before.stored().len() as int,
                    end: (before.stored().len() + bytes.len()) as int,
                },
            ),
        ensures
            self.wf(),
            self.table() == before.table().apply(Edit::Insert { off, bytes }),
            self@ == insert_at(before@, off, bytes),
            self@.len() == before@.len() + bytes.len(),
            self.chain() == before.chain_after_insert(off),
            self.piece_count() == before.piece_count() + before.insert_cost(off),
    {
        before.lemma_pieces();
        lemma_spans_insert(before.stored(), before.spans(), off, bytes);
        self.lemma_order_is(before.splice(off, off, mid));
        self.lemma_pieces();
        lemma_piece_at(before.spans(), before.stored().len() as int, off);
        let spans = before.spans();
        let order = before.order();
        let k = piece_at(spans, off);
        let j = if on_boundary(spans, off) {
            k
        } else {
            k + 1
        };
        assert(spans.take(spans.len() as int) =~= spans);
        let chain = before.chain().take(k) + fresh_pieces(
            before.piece_count(),
            before.insert_cost(off),
        ) + before.chain().skip(j);
        assert forall|i: int| 0 <= i < chain.len() implies self.chain()[i] == chain[i] by {
            if i < k {
                assert(self.order()[i] == order[i]);
            } else if i < k + mid.len() {
                assert(self.order()[i] == mid[i - k]);
            }
        }
        assert(self.chain() =~= chain);
    }

    /// Inserts `bytes` at offset `off`. Inserting nothing changes nothing.
    ///
    /// The bytes are appended to the buffer and become a piece of their own,
    /// which is linked in at `off`; where `off` falls strictly inside a
    /// piece, the two halves of that piece become new pieces around it.
    pub fn insert(&mut self, off: u32, bytes: &[u8])
        requires
            old(self).wf(),
            off <= old(self)@.len(),
            bytes@.len() > 0 ==> old(self).stored().len() + bytes@.len() <= u32::MAX,
            bytes@.len() > 0 ==> old(self).piece_count() + old(self).insert_cost(off as int)
                <= 0x1_0000_0000,
        ensures
            final(self).wf(),
            final(self)@ == insert_at(old(self)@, off as int, bytes@),
            final(self)@.len() == old(self)@.len() + bytes@.len(),
            final(self).table() == old(self).table().apply(
                Edit::Insert { off: off as int, bytes: bytes@ },
            ),
            bytes@.len() == 0 ==> *final(self) == *old(self),
            bytes@.len() > 0 ==> final(self).chain() == old(self).chain_after_insert(off as int),
            bytes@.len() > 0 ==> final(self).piece_count() == old(self).piece_count() + old(
                self,
            ).insert_cost(off as int),
    {
        let ghost arena = self.pieces@;
        let ghost order = self.order();
        let ghost spans = self.spans();
        let ghost k = piece_at(spans, off as int);
        proof {
            self.lemma_pieces();
            lemma_piece_at(spans, self.stored().len() as int, off as int);
            assert(spans.take(spans.len() as int) =~= spans);
        }
        if bytes.len() == 0 {
            return ;
        }
        let (start, piece) = self.find_piece(off);
        proof {
            assert(link_ok(arena, order, k));
            if k < order.len() {
                assert(link_ok(arena, order, k + 1));
                assert(spans[k] == arena[order[k]].span@);
            }
        }
        let pd = *self.get_piece(piece);
        let span = pd.span;
        let prev = pd.prev;
        let next = pd.next;
        match span.split(off - start) {
            Some((left_span, right_span)) => {
                let left = self.add_piece(left_span);
                let fresh_span = self.buffer.append(bytes);
                let middle = self.add_piece(fresh_span);
                let right = self.add_piece(right_span);
                self.link(prev, left);
                self.link(left, middle);
                self.link(middle, right);
                self.link(right, next);
                self.len = self.len + bytes.len();
                proof {
                    let mid = three_from(arena.len() as int);
                    lemma_link_three(
                        arena,
                        order,
                        k,
                        (left_span, fresh_span, right_span),
                        self.pieces@,
                    );
                    assert(spans_of(self.pieces@, old(self).splice(off as int, off as int, mid))
                        =~= spans_insert(spans, off as int, fresh_span@));
                    self.lemma_inserted(&*old(self), off as int, bytes@, mid);
                }
            },
            None => {
                // `off` is where `piece` starts: the new piece goes in front of it
                let fresh_span = self.buffer.append(bytes);
                let p = self.add_piece(fresh_span);
                self.link(p, piece);
                self.link(prev, p);
                self.len = self.len + bytes.len();
                proof {
                    let mid = seq![arena.len() as int];
                    lemma_link_one(arena, order, k, k, fresh_span, self.pieces@);
                    self.lemma_inserted(&*old(self), off as int, bytes@, mid);
                }
            },
        }
    }

    /// Number of arena entries that deleting `[off1, off2)` adds: one for
    /// each end of the range that falls strictly inside a piece.
    pub open spec fn delete_cost(&self, off1: int, off2: int) -> int {
        (if on_boundary(self.spans(), off1) {
            0int
        } else {
            1int
        }) + (if on_boundary(self.spans(), off2) {
            0int
        } else {
            1int
        })
    }

    /// The chain after deleting `[off1, off2)`, where that range is not
    /// empty. The pieces that the range touches leave the chain for good;
    /// what is left of the first and of the last of them, if anything, is
    /// held by new pieces.
    pub open spec fn chain_after_delete(&self, off1: int, off2: int) -> Seq<Piece> {
        let k1 = piece_at(self.spans(), off1);
        let k2 = piece_at(self.spans(), off2);
        self.chain().take(k1) + fresh_pieces(self.piece_count(), self.delete_cost(off1, off2))
            + self.chain().skip(
            if on_boundary(self.spans(), off2) {
                k2
            } else {
                k2 + 1
            },
        )
    }

    /// What a deletion has done to the text, given what it has done to the
    /// arena.
    proof fn lemma_deleted(&self, before: &Text, off1: int, off2: int, mid: Seq<int>)
        requires
            before.wf(),
            0 <= off1 < off2 <= before@.len(),
            before.piece_count() + before.delete_cost(off1, off2) <= 0x1_0000_0000,
            self.buffer@ == before.buffer@,
            self.len == before.len - (off2 - off1),
            self.pieces@[0].span == before.pieces@[0].span,
            self.pieces@.len() == before.pieces@.len() + before.delete_cost(off1, off2),
            mid.len() == before.delete_cost(off1, off2),
            forall|i: int| 0 <= i < mid.len() ==> mid[i] == before.pieces@.len() + i,
            linked(self.pieces@, before.splice(off1, off2, mid)),
            spans_of(self.pieces@, before.splice(off1, off2, mid)) == spans_delete(
                before.spans(),
                off1,
                off2,
            ),
        ensures
            self.wf(),
            self.table() == before.table().apply(Edit::Delete { off1, off2 }),
            self@ == delete_range(before@, off1, off2),
            self@.len() == before@.len() - (off2 - off1),
            self.chain() == before.chain_after_delete(off1, off2),
            self.piece_count() == before.piece_count() + before.delete_cost(off1, off2),
            off1 == 0 && off2 == before@.len() ==> self@ == Seq::<u8>::empty() && self.spans()
                == Seq::<Interval>::empty(),
    {
        before.lemma_order();
        before.lemma_pieces();
        lemma_spans_delete(before.stored(), before.spans(), off1, off2);
        self.lemma_order_is(before.splice(off1, off2, mid));
        lemma_piece_at(before.spans(), before.stored().len() as int, off1);
        lemma_piece_at(before.spans(), before.stored().len() as int, off2);
        lemma_piece_at_ordered(before.spans(), before.stored().len() as int, off1, off2);
        let spans = before.spans();
        let order = before.order();
        let k1 = piece_at(spans, off1);
        let k2 = piece_at(spans, off2);
        let j = if on_boundary(spans, off2) {
            k2
        } else {
            k2 + 1
        };
        assert(spans.take(spans.len() as int) =~= spans);
        let chain = before.chain().take(k1) + fresh_pieces(
            before.piece_count(),
            before.delete_cost(off1, off2),
        ) + before.chain().skip(j);
        assert forall|i: int| 0 <= i < chain.len() implies self.chain()[i] == chain[i] by {
            if i < k1 {
                assert(self.order()[i] == order[i]);
            } else if i >= k1 + mid.len() {
                assert(self.order()[i] == order[i - mid.len() + j - k1]);
            }
        }
    }

    /// Deletes the bytes between `off1` (inclusive) and `off2` (exclusive).
    /// Deleting an empty or inverted range changes nothing.
    ///
    /// Nothing is removed from the buffer or the arena: the piece in front
    /// of the range is linked to the piece behind it. Where an end of the
    /// range falls strictly inside a piece, a new piece holds the part of it
    /// that stays.
    pub fn delete(&mut self, off1: u32, off2: u32)
        requires
            old(self).wf(),
            off1 < off2 ==> off2 <= old(self)@.len(),
            off1 < off2 ==> old(self).piece_count() + old(self).delete_cost(
                off1 as int,
                off2 as int,
            ) <= 0x1_0000_0000,
        ensures
            final(self).wf(),
            final(self)@ == delete_range(old(self)@, off1 as int, off2 as int),
            final(self).table() == old(self).table().apply(
                Edit::Delete { off1: off1 as int, off2: off2 as int },
            ),
            off2 <= off1 ==> *final(self) == *old(self),
            off1 < off2 ==> final(self)@.len() == old(self)@.len() - (off2 - off1),
            off1 < off2 ==> final(self).chain() == old(self).chain_after_delete(
                off1 as int,
                off2 as int,
            ),
            off1 < off2 ==> final(self).piece_count() == old(self).piece_count() + old(
                self,
            ).delete_cost(off1 as int, off2 as int),
            off1 == 0 && off2 == old(self)@.len() ==> final(self)@ == Seq::<u8>::empty()
                && final(self).spans() == Seq::<Interval>::empty(),
    {
        if off2 <= off1 {
            proof {
                if off1 == 0 && off2 == self@.len() {
                    self.lemma_pieces();
                }
            }
            return ;
        }
        let ghost arena = self.pieces@;
        let ghost order = self.order();
        let ghost spans = self.spans();
        let ghost limit = self.stored().len() as int;
        let ghost k1 = piece_at(spans, off1 as int);
        let ghost k2 = piece_at(spans, off2 as int);
        proof {
            self.lemma_pieces();
            lemma_piece_at(spans, limit, off1 as int);
            lemma_piece_at(spans, limit, off2 as int);
            lemma_piece_at_ordered(spans, limit, off1 as int, off2 as int);
            assert(spans.take(spans.len() as int) =~= spans);
            assert(link_ok(arena, order, k1));
            assert(link_ok(arena, order, k2));
            if k2 < order.len() {
                assert(link_ok(arena, order, k2 + 1));
                assert(spans[k2] == arena[order[k2]].span@);
            }
        }
        let (lstart, lpiece) = self.find_piece(off1);
        let lspan = self.get_piece(lpiece).span;
        let (rstart, rpiece) = self.find_piece(off2);
        let rspan = self.get_piece(rpiece).span;
        let ghost cut_left: Option<Span> = None;
        let left = match lspan.split(off1 - lstart) {
            Some((left_span, _right_span)) => {
                let l = self.get_piece(lpiece).prev;
                let remainder = self.add_piece(left_span);
                self.link(l, remainder);
                proof {
                    cut_left = Some(left_span);
                    lemma_link_arena(arena.push(unlinked(left_span)), l, remainder);
                }
                remainder
            },
            None => {
                // the range starts where this piece starts: none of it stays
                self.get_piece(lpiece).prev
            },
        };
        let ghost cut_right: Option<Span> = None;
        let right = match rspan.split(off2 - rstart) {
            Some((_left_span, right_span)) => {
                let r = self.get_piece(rpiece).next;
                let remainder = self.add_piece(right_span);
                self.link(remainder, r);
                proof {
                    cut_right = Some(right_span);
                }
                remainder
            },
            None => {
                // the range ends where this piece starts: all of it stays
                rpiece
            },
        };
        self.len -= (off2 - off1) as usize;
        self.link(left, right);
        proof {
            let a = arena.len() as int;
            let j = if cut_right.is_some() {
                k2 + 1
            } else {
                k2
            };
            let mid = match (cut_left, cut_right) {
                (None, None) => {
                    lemma_link_none(arena, order, k1, j, self.pieces@);
                    Seq::<int>::empty()
                },
                (Some(left_span), None) => {
                    lemma_link_one_behind(arena, order, k1, j, left_span, self.pieces@);
                    seq![a]
                },
                (None, Some(right_span)) => {
                    lemma_link_one(arena, order, k1, j, right_span, self.pieces@);
                    seq![a]
                },
                (Some(left_span), Some(right_span)) => {
                    lemma_link_two(arena, order, k1, j, (left_span, right_span), self.pieces@);
                    two_from(a)
                },
            };
            assert(spans_of(self.pieces@, old(self).splice(off1 as int, off2 as int, mid))
                =~= spans_delete(spans, off1 as int, off2 as int));
            self.lemma_deleted(&*old(self), off1 as int, off2 as int, mid);
        }
    }

    /// A text that has gone through a sequence of edits in range holds what
    /// the same edits make of a plain byte sequence, and its length has
    /// changed by what was inserted minus what was deleted.
    pub proof fn lemma_edited(&self, before: &Text, edits: Seq<Edit>)
        requires
            before.wf(),
            all_fit(before@, edits),
            self.table() == before.table().apply_all(edits),
        ensures
            self.table().valid(),
            self@ == apply_all(before@, edits),
            self@.len() == before@.len() + growth_all(edits),
    {
        lemma_edits_agree(before.table(), edits);
        lemma_len_after_edits(before@, edits);
    }

    /// Inserts `bytes` at the end of the text.
    pub fn append(&mut self, bytes: &[u8])
        requires
            old(self).wf(),
            bytes@.len() > 0 ==> old(self).stored().len() + bytes@.len() <= u32::MAX,
            bytes@.len() > 0 ==> old(self).piece_count() < 0x1_0000_0000,
        ensures
            final(self).wf(),
            final(self)@ == old(self)@ + bytes@,
            final(self).table() == old(self).table().apply(
                Edit::Insert { off: old(self)@.len() as int, bytes: bytes@ },
            ),
            bytes@.len() == 0 ==> *final(self) == *old(self),
            bytes@.len() > 0 ==> final(self).chain() == old(self).chain() + fresh_pieces(
                old(self).piece_count(),
                1,
            ),
            bytes@.len() > 0 ==> final(self).piece_count() == old(self).piece_count() + 1,
    {
        proof {
            self.lemma_pieces();
            let spans = self.spans();
            let n = spans.len() as int;
            assert(spans.take(n) =~= spans);
        }
        let end = self.len as u32;
        self.insert(end, bytes);
    }

    /// The whole text as one contiguous vector of bytes.
    pub fn to_vec(&self) -> (v: Vec<u8>)
        requires
            self.wf(),
        ensures
            v@ == self@,
    {
        let ghost spans = self.spans();
        let ghost buf = self.stored();
        let mut v: Vec<u8> = Vec::new();
        let mut it = self.pieces();
        loop
            invariant
                self.wf(),
                it.wf(),
                it.source() == self,
                spans == self.spans(),
                buf == self.stored(),
                0 <= it.passed() <= spans.len(),
                v@ == content(buf, spans.take(it.passed())),
            decreases spans.len() - it.passed(),
        {
            let ghost j = it.passed();
            match it.next() {
                None => {
                    proof {
                        assert(spans.take(j) =~= spans);
                    }
                    return v;
                },
                Some((_, p)) => {
                    proof {
                        assert(link_ok(self.pieces@, self.order(), j));
                        assert(spans[j] == self.pieces@[self.order()[j]].span@);
                    }
                    let span = self.get_piece(p).span;
                    v.extend_from_slice(self.buffer.get(span));
                    proof {
                        assert(spans.take(j + 1).drop_last() =~= spans.take(j));
                    }
                },
            }
        }
    }

    /// The text as a string, where it is valid UTF-8. Where it is not, the
    /// decoding error is returned: the text may hold any bytes.
    pub fn to_utf8_string(&self) -> (r: Result<String, FromUtf8Error>)
        requires
            self.wf(),
        ensures
            r.is_ok() <==> valid_utf8(self@),
            r matches Ok(s) ==> encode_utf8(s@) == self@ && s@ == decode_utf8(self@),
    {
        let r = String::from_utf8(self.to_vec());
        proof {
            if r.is_ok() {
                vstd::utf8::encode_utf8_decode_utf8(r.unwrap()@);
            }
        }
        r
    }
}

} // verus!
