//! The run-time consistency pass over a text.
//!
//! The pass walks the chain in both directions and reports whether the
//! structure is consistent. Its answer is exact: it is `true` on the very
//! texts that satisfy the invariant that the edits are proved to preserve.

use vstd::prelude::*;
use crate::chain::{link_ok, linked, ring_at, spans_of, Piece, PieceData, SENTINEL};
use crate::model::{lemma_start_monotonic, lemma_start_step, spans_within, start_of, total};
use crate::text::Text;

verus! {

/// The entries of `walked` are pieces of the arena, each with the entry in
/// front of it in the walk as its predecessor (the sentinel, for the first).
pub(crate) open spec fn back_linked(arena: Seq<PieceData>, walked: Seq<int>) -> bool {
    forall|k: int|
        0 <= k < walked.len() ==> 1 <= #[trigger] walked[k] < arena.len()
            && arena[walked[k]].prev.0 == ring_at(walked, k)
}

/// `walked` is what a walk along the successor links has met since it left
/// the sentinel, and `next` is where it goes from there; every step taken is
/// matched by a predecessor link.
pub(crate) open spec fn walk_ok(arena: Seq<PieceData>, walked: Seq<int>, next: int) -> bool {
    &&& arena.len() >= 1
    &&& back_linked(arena, walked)
    &&& forall|k: int|
        0 <= k < walked.len() ==> arena[ring_at(walked, k)].next.0 == #[trigger] walked[k]
    &&& arena[ring_at(walked, walked.len() as int)].next.0 == next
}

/// No entry occurs twice in a walk whose steps are matched by predecessor
/// links: two occurrences would have the same predecessors all the way back
/// to the sentinel, which is not a piece.
proof fn lemma_walk_distinct(arena: Seq<PieceData>, walked: Seq<int>, i: int, j: int)
    requires
        back_linked(arena, walked),
        0 <= i < j < walked.len(),
    ensures
        walked[i] != walked[j],
    decreases i,
{
    if walked[i] == walked[j] && i > 0 {
        lemma_walk_distinct(arena, walked, i - 1, j - 1);
    }
}

/// One more step of the walk, onto the piece `p`.
proof fn lemma_walk_step(arena: Seq<PieceData>, walked: Seq<int>, p: int)
    requires
        walk_ok(arena, walked, p),
        1 <= p < arena.len(),
        arena[p].prev.0 == ring_at(walked, walked.len() as int),
    ensures
        walk_ok(arena, walked.push(p), arena[p].next.0 as int),
        ring_at(walked.push(p), walked.len() as int + 1) == p,
        spans_of(arena, walked.push(p)) == spans_of(arena, walked).push(arena[p].span@),
{
    let longer = walked.push(p);
    assert forall|k: int| 0 <= k <= longer.len() implies ring_at(longer, k) == (if k
        <= walked.len() {
        ring_at(walked, k)
    } else {
        p
    }) by {
    }
    assert forall|k: int| 0 <= k < longer.len() implies 1 <= #[trigger] longer[k] < arena.len()
        && arena[longer[k]].prev.0 == ring_at(longer, k) by {
    }
    assert forall|k: int| 0 <= k < longer.len() implies arena[ring_at(longer, k)].next.0
        == #[trigger] longer[k] by {
    }
}

/// A walk that is back at the sentinel, with the sentinel's predecessor link
/// pointing at the last piece met, has gone round the whole chain.
proof fn lemma_walk_done(arena: Seq<PieceData>, walked: Seq<int>)
    requires
        walk_ok(arena, walked, 0),
        arena[0].prev.0 == ring_at(walked, walked.len() as int),
    ensures
        linked(arena, walked),
{
    assert forall|i: int, j: int| 0 <= i < j < walked.len() implies walked[i] != walked[j] by {
        lemma_walk_distinct(arena, walked, i, j);
    }
    assert forall|k: int| 0 <= k <= walked.len() implies #[trigger] link_ok(arena, walked, k) by {
    }
}

/// A walk along the successor links of a linked arena follows its chain.
proof fn lemma_walk_follows(
    arena: Seq<PieceData>,
    order: Seq<int>,
    walked: Seq<int>,
    next: int,
    k: int,
)
    requires
        linked(arena, order),
        walk_ok(arena, walked, next),
        0 <= k <= walked.len(),
    ensures
        k <= order.len(),
        ring_at(walked, k) == ring_at(order, k),
        k == walked.len() ==> next == ring_at(order, k + 1),
        k < walked.len() ==> walked[k] == ring_at(order, k + 1),
    decreases k,
{
    if k > 0 {
        lemma_walk_follows(arena, order, walked, next, k - 1);
    }
    assert(link_ok(arena, order, k));
}

impl Text {
    /// What holds of a consistent text in the middle of a walk along its
    /// successor links: the walk has met the first pieces of the chain, and
    /// what it has met and what it meets next is as the invariant says.
    proof fn lemma_walk_in_chain(&self, walked: Seq<int>, next: int)
        requires
            self.wf(),
            walk_ok(self.pieces@, walked, next),
        ensures
            walked.len() <= self.order().len(),
            walked == self.order().take(walked.len() as int),
            next == ring_at(self.order(), walked.len() as int + 1),
            ring_at(walked, walked.len() as int) == ring_at(self.order(), walked.len() as int),
            spans_of(self.pieces@, walked) == self.spans().take(walked.len() as int),
            total(spans_of(self.pieces@, walked)) == start_of(self.spans(), walked.len() as int),
            next != 0 ==> {
                &&& walked.len() < self.order().len()
                &&& 1 <= next < self.pieces@.len()
                &&& self.pieces@[next].prev.0 == ring_at(walked, walked.len() as int)
                &&& self.pieces@[next].span@ == self.spans()[walked.len() as int]
                &&& 0 <= self.pieces@[next].span@.start < self.pieces@[next].span@.end
                    <= self.buffer@.len()
                &&& total(spans_of(self.pieces@, walked)) + self.pieces@[next].span@.len()
                    <= self.len
            },
            next == 0 ==> {
                &&& walked.len() == self.order().len()
                &&& self.pieces@[0].prev.0 == ring_at(walked, walked.len() as int)
                &&& total(spans_of(self.pieces@, walked)) == self.len
            },
    {
        let order = self.order();
        let spans = self.spans();
        let m = walked.len() as int;
        lemma_walk_follows(self.pieces@, order, walked, next, m);
        assert forall|k: int| 0 <= k < m implies walked[k] == order[k] by {
            lemma_walk_follows(self.pieces@, order, walked, next, k);
        }
        assert(spans_of(self.pieces@, walked) =~= spans.take(m));
        assert(spans.take(spans.len() as int) =~= spans);
        if m < order.len() {
            assert(link_ok(self.pieces@, order, m));
            lemma_start_step(spans, m);
            lemma_start_monotonic(spans, self.buffer@.len() as int, m + 1, spans.len() as int);
        } else {
            assert(link_ok(self.pieces@, order, m));
        }
    }

    /// Checks the consistency of the text: that the sentinel is empty, that
    /// the successor links lead from the sentinel through pieces of one or
    /// more bytes back to the sentinel, that each predecessor link matches
    /// the successor link it mirrors, and that the lengths of the pieces add
    /// up to the cached length, on the way forward and on the way back.
    pub fn check_invariant(&self) -> (ok: bool)
        ensures
            ok == self.wf(),
    {
        if self.pieces.len() == 0 {
            return false;
        }
        if !self.pieces[0].span.is_empty() {
            return false;
        }
        let stored = self.buffer.len();
        if self.len > stored || stored > u32::MAX as usize {
            return false;
        }
        let mut l: usize = 0;
        let mut prev = Piece(SENTINEL);
        let mut p = self.pieces[0].next;
        let ghost mut walked = Seq::<int>::empty();
        while p.0 != SENTINEL
            invariant
                self.pieces@.len() >= 1,
                self.pieces@[0].span@.len() == 0,
                stored == self.buffer@.len(),
                self.len <= stored <= u32::MAX,
                walk_ok(self.pieces@, walked, p.0 as int),
                prev.0 == ring_at(walked, walked.len() as int),
                spans_within(spans_of(self.pieces@, walked), self.buffer@.len() as int),
                l == total(spans_of(self.pieces@, walked)),
                l <= self.len,
            decreases self.len - l,
        {
            proof {
                if self.wf() {
                    self.lemma_walk_in_chain(walked, p.0 as int);
                }
            }
            if p.0 as usize >= self.pieces.len() {
                return false;
            }
            let pd = &self.pieces[p.0 as usize];
            if pd.prev.0 != prev.0 {
                return false;
            }
            let len = pd.span.len();
            if len == 0 || pd.span.end() as usize > stored {
                return false;
            }
            if len as usize > self.len - l {
                return false;
            }
            proof {
                lemma_walk_step(self.pieces@, walked, p.0 as int);
                let longer = walked.push(p.0 as int);
                let spans = spans_of(self.pieces@, longer);
                assert(spans.drop_last() =~= spans_of(self.pieces@, walked));
                assert forall|k: int| 0 <= k < spans.len() implies 0 <= (#[trigger] spans[k]).start
                    < spans[k].end <= self.buffer@.len() by {
                }
                walked = longer;
            }
            l = l + len as usize;
            prev = p;
            p = pd.next;
        }
        proof {
            if self.wf() {
                self.lemma_walk_in_chain(walked, 0);
            }
        }
        if self.pieces[0].prev.0 != prev.0 {
            return false;
        }
        if l != self.len {
            return false;
        }
        proof {
            lemma_walk_done(self.pieces@, walked);
            self.lemma_order_is(walked);
        }
        // The way back cannot change the answer: it confirms the sum.
        let ghost spans = self.spans();
        let ghost mut m: int = walked.len() as int;
        let mut back: usize = 0;
        let mut positive = true;
        let mut q = self.pieces[0].prev;
        while q.0 != SENTINEL
            invariant
                self.chained(walked),
                spans == spans_of(self.pieces@, walked),
                0 <= m <= walked.len(),
                q.0 == ring_at(walked, m),
                back == total(spans) - start_of(spans, m),
                0 <= start_of(spans, m),
                positive,
            decreases m,
        {
            proof {
                assert(link_ok(self.pieces@, walked, m - 1));
                lemma_start_step(spans, m - 1);
                lemma_start_monotonic(spans, self.buffer@.len() as int, m - 1, m);
            }
            let pd = &self.pieces[q.0 as usize];
            let len = pd.span.len();
            positive = positive && len > 0;
            back = back + len as usize;
            q = pd.prev;
            proof {
                m = m - 1;
            }
        }
        positive && back == self.len
    }
}

} // verus!
